//! Why a program is rejected.
use vstd::prelude::*;

verus! {

/// The first rule that a program breaks.
#[derive(Debug, PartialEq, Eq)]
pub enum AnalysisError {
    /// A constant is used by name and has no definition so far.
    ConstantNotFound(String),
    /// `${ .. }` outside of an assembly program.
    FreeInput,
    /// An expression that has to be a number is not constant.
    NotConstant,
    /// A constant expression applies an operator where it has no result.
    UndefinedOperation,
    /// A number that has to be a degree, a length or an index is too large.
    DegreeTooLarge,
    /// A name that starts with `%` has a namespace in front.
    NamespacedConstant(String),
    /// A parameter of a function is shifted to the next row.
    ShiftedLocalVariable(String),
    /// A parameter of a function is used as an array.
    IndexedLocalVariable(String),
    /// The position of a local variable does not fit its type.
    TooManyLocalVariables,
    /// A polynomial is declared as an array and defined by a value.
    ArraySizeWithValue,
    /// The form of a definition does not fit the kind of the symbol.
    DefinitionKindMismatch,
    /// An array expression has more than one repeated part.
    RepeatedMoreThanOnce,
    /// The parts of an array expression that do not repeat exceed the degree.
    ArrayTooLarge,
    /// A repeated part has rows to fill and no values.
    EmptyPattern,
    /// An array expression does not have as many rows as the degree asks for.
    ArraySizeMismatch,
    /// The ids of a kind of symbols are used up.
    TooManySymbols,
    /// The absolute name of a definition is taken.
    AlreadyDefined(String),
    /// A constant has a value already.
    ConstantDefinedTwice(String),
    /// The current file has no name to refer to it by.
    NoFileName,
    /// A macro definition was left in place.
    MacroNotExpanded,
    /// A statement is neither a definition nor an identity.
    NotAnIdentity,
    /// A committed polynomial is defined together with others.
    NotOnePolynomial,
    /// A reference names no definition.
    ColumnNotFound(String),
    /// A reference names a definition that is no column.
    NotAColumn(String),
}

/// The mathematical counterpart of [`AnalysisError`].
#[verifier::ext_equal]
pub enum AnalysisErrorView {
    ConstantNotFound(Seq<char>),
    FreeInput,
    NotConstant,
    UndefinedOperation,
    DegreeTooLarge,
    NamespacedConstant(Seq<char>),
    ShiftedLocalVariable(Seq<char>),
    IndexedLocalVariable(Seq<char>),
    TooManyLocalVariables,
    ArraySizeWithValue,
    DefinitionKindMismatch,
    RepeatedMoreThanOnce,
    ArrayTooLarge,
    EmptyPattern,
    ArraySizeMismatch,
    TooManySymbols,
    AlreadyDefined(Seq<char>),
    ConstantDefinedTwice(Seq<char>),
    NoFileName,
    MacroNotExpanded,
    NotAnIdentity,
    NotOnePolynomial,
    ColumnNotFound(Seq<char>),
    NotAColumn(Seq<char>),
}

impl View for AnalysisError {
    type V = AnalysisErrorView;

    open spec fn view(&self) -> AnalysisErrorView {
        match *self {
            AnalysisError::ConstantNotFound(name) => AnalysisErrorView::ConstantNotFound(name@),
            AnalysisError::FreeInput => AnalysisErrorView::FreeInput,
            AnalysisError::NotConstant => AnalysisErrorView::NotConstant,
            AnalysisError::UndefinedOperation => AnalysisErrorView::UndefinedOperation,
            AnalysisError::DegreeTooLarge => AnalysisErrorView::DegreeTooLarge,
            AnalysisError::NamespacedConstant(name) => AnalysisErrorView::NamespacedConstant(name@),
            AnalysisError::ShiftedLocalVariable(name) => AnalysisErrorView::ShiftedLocalVariable(
                name@,
            ),
            AnalysisError::IndexedLocalVariable(name) => AnalysisErrorView::IndexedLocalVariable(
                name@,
            ),
            AnalysisError::TooManyLocalVariables => AnalysisErrorView::TooManyLocalVariables,
            AnalysisError::ArraySizeWithValue => AnalysisErrorView::ArraySizeWithValue,
            AnalysisError::DefinitionKindMismatch => AnalysisErrorView::DefinitionKindMismatch,
            AnalysisError::RepeatedMoreThanOnce => AnalysisErrorView::RepeatedMoreThanOnce,
            AnalysisError::ArrayTooLarge => AnalysisErrorView::ArrayTooLarge,
            AnalysisError::EmptyPattern => AnalysisErrorView::EmptyPattern,
            AnalysisError::ArraySizeMismatch => AnalysisErrorView::ArraySizeMismatch,
            AnalysisError::TooManySymbols => AnalysisErrorView::TooManySymbols,
            AnalysisError::AlreadyDefined(name) => AnalysisErrorView::AlreadyDefined(name@),
            AnalysisError::ConstantDefinedTwice(name) => AnalysisErrorView::ConstantDefinedTwice(
                name@,
            ),
            AnalysisError::NoFileName => AnalysisErrorView::NoFileName,
            AnalysisError::MacroNotExpanded => AnalysisErrorView::MacroNotExpanded,
            AnalysisError::NotAnIdentity => AnalysisErrorView::NotAnIdentity,
            AnalysisError::NotOnePolynomial => AnalysisErrorView::NotOnePolynomial,
            AnalysisError::ColumnNotFound(name) => AnalysisErrorView::ColumnNotFound(name@),
            AnalysisError::NotAColumn(name) => AnalysisErrorView::NotAColumn(name@),
        }
    }
}

/// A value, or the rule that stands in its way.
pub type Outcome<V> = Result<V, AnalysisErrorView>;

/// `result` is the outcome `expected`, its value taken by its view.
pub open spec fn agrees<X: View>(
    result: Result<X, AnalysisError>,
    expected: Outcome<X::V>,
) -> bool {
    match result {
        Ok(value) => expected == Ok::<X::V, AnalysisErrorView>(value@),
        Err(error) => expected == Err::<X::V, AnalysisErrorView>(error@),
    }
}

/// `result` is the outcome `expected`, its value taken as it is.
pub open spec fn agrees_exactly<X>(result: Result<X, AnalysisError>, expected: Outcome<X>) -> bool {
    match result {
        Ok(value) => expected == Ok::<X, AnalysisErrorView>(value),
        Err(error) => expected == Err::<X, AnalysisErrorView>(error@),
    }
}

} // verus!
