//! What each statement does to the state of the analyzer.
use vstd::prelude::*;

use crate::analyzed;
use crate::analyzed::{
    FunctionValueDefinitionView, IdentityKind, IdentityView, PolynomialType, PublicDeclarationView,
    SelectedExpressionsView, SourceRefView, StatementIdentifierView, SymbolKind, SymbolView,
};
use crate::error::{AnalysisErrorView, Outcome};
use crate::lines;
use crate::number::{DegreeType, FieldElement};
use crate::parsed::{
    Expression, FunctionDefinition, NamespacedPolynomialReference, PilFile, PilStatement,
    PolynomialName,
};
use crate::pil_analyzer;
use crate::pil_analyzer::AnalyzerView;
use crate::pil_analyzer::arrays;
use crate::pil_analyzer::evaluation;
use crate::pil_analyzer::expressions;

verus! {

/// The place of an offset into the current file.
pub open spec fn source_ref<T>(s: AnalyzerView<T>, start: usize) -> Outcome<SourceRefView> {
    match s.current_file {
        None => Err(AnalysisErrorView::NoFileName),
        Some(file) => Ok(
            SourceRefView { line: lines::line_of(s.line_starts, start as int) as usize, file },
        ),
    }
}

/// A definition by an expression is for intermediate polynomials and symbols
/// that are no columns, one by a function for fixed columns, one by a query for
/// witness columns. An array may define any symbol.
pub open spec fn form_fits_kind<T>(value: FunctionDefinition<T>, kind: SymbolKind) -> bool {
    match value {
        FunctionDefinition::Expression(_) => kind == SymbolKind::Other() || kind
            == SymbolKind::Poly(PolynomialType::Intermediate),
        FunctionDefinition::Mapping(_, _) => kind == SymbolKind::Poly(PolynomialType::Constant),
        FunctionDefinition::Query(_, _) => kind == SymbolKind::Poly(PolynomialType::Committed),
        FunctionDefinition::Array(_) => true,
    }
}

/// The value of a definition of a symbol of `kind`.
pub open spec fn process_value<T: FieldElement>(
    s: AnalyzerView<T>,
    kind: SymbolKind,
    value: FunctionDefinition<T>,
) -> Outcome<FunctionValueDefinitionView<T>> {
    if !form_fits_kind(value, kind) {
        Err(AnalysisErrorView::DefinitionKindMismatch)
    } else {
        match value {
            FunctionDefinition::Expression(e) => match expressions::process(s.scope(), e) {
                Err(error) => Err(error),
                Ok(e) => Ok(FunctionValueDefinitionView::Expression(e)),
            },
            FunctionDefinition::Mapping(params, body) => match expressions::process_body(
                s.scope(),
                analyzed::strings_view(params@),
                body,
            ) {
                Err(error) => Err(error),
                Ok(e) => Ok(FunctionValueDefinitionView::Mapping(e)),
            },
            FunctionDefinition::Query(params, body) => match expressions::process_body(
                s.scope(),
                analyzed::strings_view(params@),
                body,
            ) {
                Err(error) => Err(error),
                Ok(e) => Ok(FunctionValueDefinitionView::Query(e)),
            },
            FunctionDefinition::Array(array) => match arrays::process_column(
                s.scope(),
                array,
                s.polynomial_degree,
            ) {
                Err(error) => Err(error),
                Ok(parts) => Ok(FunctionValueDefinitionView::Array(parts)),
            },
        }
    }
}

/// How many ids a symbol takes up: one for each element of an array.
pub open spec fn ids_taken(length: Option<DegreeType>) -> DegreeType {
    match length {
        None => 1,
        Some(n) => n,
    }
}

/// The length of a declared array.
pub open spec fn array_length<T: FieldElement>(
    s: AnalyzerView<T>,
    array_size: Option<Expression<T>>,
) -> Outcome<Option<DegreeType>> {
    match array_size {
        None => Ok(None),
        Some(e) => match evaluation::evaluate_degree(s.constants, e) {
            Err(error) => Err(error),
            Ok(length) => Ok(Some(length)),
        },
    }
}

/// The state with one more definition. The symbol has the next id of its kind.
pub open spec fn with_definition<T>(
    s: AnalyzerView<T>,
    source: SourceRefView,
    name: Seq<char>,
    length: Option<DegreeType>,
    kind: SymbolKind,
    value: Option<FunctionValueDefinitionView<T>>,
) -> AnalyzerView<T> {
    let id = s.symbol_counters.next_id(kind);
    let symbol = SymbolView {
        id,
        source,
        absolute_name: name,
        degree: s.polynomial_degree,
        kind,
        length,
    };
    AnalyzerView {
        definitions: s.definitions.insert(name, (symbol, value)),
        source_order: s.source_order.push(StatementIdentifierView::Definition(name)),
        symbol_counters: s.symbol_counters.with_next_id(kind, (id + ids_taken(length)) as u64),
        ..s
    }
}

/// Defines a symbol.
pub open spec fn define<T: FieldElement>(
    s: AnalyzerView<T>,
    source: SourceRefView,
    name: Seq<char>,
    array_size: Option<Expression<T>>,
    kind: SymbolKind,
    value: Option<FunctionDefinition<T>>,
) -> Outcome<AnalyzerView<T>> {
    match array_length(s, array_size) {
        Err(error) => Err(error),
        Ok(length) => {
            let absolute = expressions::absolute_name(s.scope(), name);
            if length is Some && value is Some {
                Err(AnalysisErrorView::ArraySizeWithValue)
            } else if s.symbol_counters.next_id(kind) + ids_taken(length) > u64::MAX {
                Err(AnalysisErrorView::TooManySymbols)
            } else {
                let processed = match value {
                    None => Ok(None),
                    Some(v) => match process_value(s, kind, v) {
                        Err(error) => Err(error),
                        Ok(v) => Ok(Some(v)),
                    },
                };
                match processed {
                    Err(error) => Err(error),
                    Ok(v) => if s.definitions.contains_key(absolute) {
                        Err(AnalysisErrorView::AlreadyDefined(absolute))
                    } else {
                        Ok(with_definition(s, source, absolute, length, kind, v))
                    },
                }
            }
        },
    }
}

/// Defines polynomials without values, one after the other, up to the first
/// that cannot be defined.
pub open spec fn declare<T: FieldElement>(
    s: AnalyzerView<T>,
    source: SourceRefView,
    polynomials: Seq<PolynomialName<T>>,
    polynomial_type: PolynomialType,
) -> (AnalyzerView<T>, Outcome<()>)
    decreases polynomials.len(),
{
    if polynomials.len() == 0 {
        (s, Ok(()))
    } else {
        let (front, outcome) = declare(s, source, polynomials.drop_last(), polynomial_type);
        if outcome is Err {
            (front, outcome)
        } else {
            let last = polynomials.last();
            settle(
                front,
                define(
                    front,
                    source,
                    last.name@,
                    last.array_size,
                    SymbolKind::Poly(polynomial_type),
                    None,
                ),
            )
        }
    }
}

/// The new state, or the old one with the error.
pub open spec fn settle<T>(s: AnalyzerView<T>, next: Outcome<AnalyzerView<T>>) -> (
    AnalyzerView<T>,
    Outcome<()>,
) {
    match next {
        Err(error) => (s, Err(error)),
        Ok(t) => (t, Ok(())),
    }
}

/// Gives a constant its value.
pub open spec fn define_constant<T>(s: AnalyzerView<T>, name: Seq<char>, value: T) -> Outcome<
    AnalyzerView<T>,
> {
    if s.constants.contains_key(name) {
        Err(AnalysisErrorView::ConstantDefinedTwice(name))
    } else {
        Ok(AnalyzerView { constants: s.constants.insert(name, value), ..s })
    }
}

/// Opens a namespace: what follows belongs to it and has its degree.
pub open spec fn open_namespace<T: FieldElement>(
    s: AnalyzerView<T>,
    name: Seq<char>,
    degree: Expression<T>,
) -> Outcome<AnalyzerView<T>> {
    match evaluation::evaluate_degree(s.constants, degree) {
        Err(error) => Err(error),
        Ok(polynomial_degree) => Ok(AnalyzerView { polynomial_degree, namespace: name, ..s }),
    }
}

/// Declares a public value, in place of one of the same name.
pub open spec fn declare_public<T: FieldElement>(
    s: AnalyzerView<T>,
    source: SourceRefView,
    name: Seq<char>,
    poly: NamespacedPolynomialReference<T>,
    index: Expression<T>,
) -> Outcome<AnalyzerView<T>> {
    match expressions::process_namespaced_reference(s.scope(), poly) {
        Err(error) => Err(error),
        Ok(polynomial) => match evaluation::evaluate_degree(s.constants, index) {
            Err(error) => Err(error),
            Ok(index) => {
                let id = s.public_declarations.len() as u64;
                let declaration = PublicDeclarationView { id, source, name, polynomial, index };
                Ok(
                    AnalyzerView {
                        public_declarations: s.public_declarations.insert(name, declaration),
                        source_order: s.source_order.push(
                            StatementIdentifierView::PublicDeclaration(name),
                        ),
                        ..s
                    },
                )
            },
        },
    }
}

/// Defines what `let` introduces. Without a value it is a witness column. A
/// function of one parameter is a fixed column. What evaluates to a number is a
/// constant. Anything else is no column.
pub open spec fn define_generic<T: FieldElement>(
    s: AnalyzerView<T>,
    start: usize,
    name: Seq<char>,
    value: Option<Expression<T>>,
) -> Outcome<AnalyzerView<T>> {
    match value {
        None => match source_ref(s, start) {
            Err(error) => Err(error),
            Ok(source) => define(
                s,
                source,
                name,
                None,
                SymbolKind::Poly(PolynomialType::Committed),
                None,
            ),
        },
        Some(e) => if e is LambdaExpression && e->LambdaExpression_0.params@.len() == 1 {
            match source_ref(s, start) {
                Err(error) => Err(error),
                Ok(source) => define(
                    s,
                    source,
                    name,
                    None,
                    SymbolKind::Poly(PolynomialType::Constant),
                    Some(
                        FunctionDefinition::Mapping(
                            e->LambdaExpression_0.params,
                            *e->LambdaExpression_0.body,
                        ),
                    ),
                ),
            }
        } else {
            match evaluation::evaluate(s.constants, e) {
                Err(error) => Err(error),
                Ok(Some(constant)) => define_constant(s, name, constant),
                Ok(None) => match source_ref(s, start) {
                    Err(error) => Err(error),
                    Ok(source) => define(
                        s,
                        source,
                        name,
                        None,
                        SymbolKind::Other(),
                        Some(FunctionDefinition::Expression(e)),
                    ),
                },
            }
        },
    }
}

/// What an identity states, apart from its id and place.
pub struct IdentityBody<T> {
    pub start: usize,
    pub kind: IdentityKind,
    pub left: SelectedExpressionsView<T>,
    pub right: SelectedExpressionsView<T>,
}

/// Neither a selector nor expressions.
pub open spec fn nothing_selected<T>() -> SelectedExpressionsView<T> {
    SelectedExpressionsView { selector: None, expressions: Seq::empty() }
}

/// What the identity that `statement` is states.
pub open spec fn identity_body<T: FieldElement>(
    s: AnalyzerView<T>,
    statement: PilStatement<T>,
) -> Outcome<IdentityBody<T>> {
    match statement {
        PilStatement::PolynomialIdentity(start, e) => match expressions::process(s.scope(), e) {
            Err(error) => Err(error),
            Ok(e) => Ok(
                IdentityBody {
                    start,
                    kind: IdentityKind::Polynomial,
                    left: SelectedExpressionsView { selector: Some(e), expressions: Seq::empty() },
                    right: nothing_selected(),
                },
            ),
        },
        PilStatement::PlookupIdentity(start, key, haystack) => match expressions::process_selected(
            s.scope(),
            key,
        ) {
            Err(error) => Err(error),
            Ok(left) => match expressions::process_selected(s.scope(), haystack) {
                Err(error) => Err(error),
                Ok(right) => Ok(IdentityBody { start, kind: IdentityKind::Plookup, left, right }),
            },
        },
        PilStatement::PermutationIdentity(start, left, right) => match expressions::process_selected(
            s.scope(),
            left,
        ) {
            Err(error) => Err(error),
            Ok(left) => match expressions::process_selected(s.scope(), right) {
                Err(error) => Err(error),
                Ok(right) => Ok(
                    IdentityBody { start, kind: IdentityKind::Permutation, left, right },
                ),
            },
        },
        PilStatement::ConnectIdentity(start, left, right) => match expressions::process_all(
            s.scope(),
            left@,
        ) {
            Err(error) => Err(error),
            Ok(left) => match expressions::process_all(s.scope(), right@) {
                Err(error) => Err(error),
                Ok(right) => Ok(
                    IdentityBody {
                        start,
                        kind: IdentityKind::Connect,
                        left: SelectedExpressionsView { selector: None, expressions: left },
                        right: SelectedExpressionsView { selector: None, expressions: right },
                    },
                ),
            },
        },
        _ => Err(AnalysisErrorView::NotAnIdentity),
    }
}

/// The state with one more identity, which has the next id of its kind.
pub open spec fn with_identity<T>(
    s: AnalyzerView<T>,
    source: SourceRefView,
    body: IdentityBody<T>,
) -> AnalyzerView<T> {
    let id = s.identity_counter.next_id(body.kind);
    let identity = IdentityView {
        id,
        kind: body.kind,
        source,
        left: body.left,
        right: body.right,
    };
    AnalyzerView {
        identities: s.identities.push(identity),
        source_order: s.source_order.push(
            StatementIdentifierView::Identity(s.identities.len() as int),
        ),
        identity_counter: s.identity_counter.with_next_id(body.kind, (id + 1) as u64),
        ..s
    }
}

/// Adds the identity that `statement` is.
pub open spec fn add_identity<T: FieldElement>(
    s: AnalyzerView<T>,
    statement: PilStatement<T>,
) -> Outcome<AnalyzerView<T>> {
    match identity_body(s, statement) {
        Err(error) => Err(error),
        Ok(body) => match source_ref(s, body.start) {
            Err(error) => Err(error),
            Ok(source) => Ok(with_identity(s, source, body)),
        },
    }
}

/// Defines a symbol at the place of `start`.
pub open spec fn define_at<T: FieldElement>(
    s: AnalyzerView<T>,
    start: usize,
    name: Seq<char>,
    array_size: Option<Expression<T>>,
    kind: SymbolKind,
    value: Option<FunctionDefinition<T>>,
) -> Outcome<AnalyzerView<T>> {
    match source_ref(s, start) {
        Err(error) => Err(error),
        Ok(source) => define(s, source, name, array_size, kind, value),
    }
}

/// Declares polynomials at the place of `start`.
pub open spec fn declare_at<T: FieldElement>(
    s: AnalyzerView<T>,
    start: usize,
    polynomials: Seq<PolynomialName<T>>,
    polynomial_type: PolynomialType,
) -> (AnalyzerView<T>, Outcome<()>) {
    match source_ref(s, start) {
        Err(error) => (s, Err(error)),
        Ok(source) => declare(s, source, polynomials, polynomial_type),
    }
}

/// What a statement does to the state, and whether it is accepted.
pub open spec fn handle<T: FieldElement>(s: AnalyzerView<T>, statement: PilStatement<T>) -> (
    AnalyzerView<T>,
    Outcome<()>,
)
    decreases statement, 0nat,
{
    match statement {
        PilStatement::Include(_, file) => handle_file(s, file),
        PilStatement::Namespace(_, name, degree) => settle(s, open_namespace(s, name@, degree)),
        PilStatement::PolynomialDefinition(start, name, e) => settle(
            s,
            define_at(
                s,
                start,
                name@,
                None,
                SymbolKind::Poly(PolynomialType::Intermediate),
                Some(FunctionDefinition::Expression(e)),
            ),
        ),
        PilStatement::PublicDeclaration(start, name, polynomial, index) => settle(
            s,
            match source_ref(s, start) {
                Err(error) => Err(error),
                Ok(source) => declare_public(s, source, name@, polynomial, index),
            },
        ),
        PilStatement::PolynomialConstantDeclaration(start, polynomials) => declare_at(
            s,
            start,
            polynomials@,
            PolynomialType::Constant,
        ),
        PilStatement::PolynomialConstantDefinition(start, name, value) => settle(
            s,
            define_at(
                s,
                start,
                name@,
                None,
                SymbolKind::Poly(PolynomialType::Constant),
                Some(value),
            ),
        ),
        PilStatement::PolynomialCommitDeclaration(start, polynomials, None) => declare_at(
            s,
            start,
            polynomials@,
            PolynomialType::Committed,
        ),
        PilStatement::PolynomialCommitDeclaration(start, polynomials, Some(value)) => {
            if polynomials@.len() != 1 {
                (s, Err(AnalysisErrorView::NotOnePolynomial))
            } else {
                settle(
                    s,
                    define_at(
                        s,
                        start,
                        polynomials@[0].name@,
                        polynomials@[0].array_size,
                        SymbolKind::Poly(PolynomialType::Committed),
                        Some(value),
                    ),
                )
            }
        },
        PilStatement::ConstantDefinition(_, name, e) => settle(
            s,
            match evaluation::evaluate_number(s.constants, e) {
                Err(error) => Err(error),
                Ok(value) => define_constant(s, name@, value),
            },
        ),
        PilStatement::LetStatement(start, name, value) => settle(
            s,
            define_generic(s, start, name@, value),
        ),
        PilStatement::MacroDefinition(_, _, _, _, _) => (
            s,
            Err(AnalysisErrorView::MacroNotExpanded),
        ),
        _ => settle(s, add_identity(s, statement)),
    }
}

/// Handles statements one after the other, up to the first that is rejected.
pub open spec fn handle_all<T: FieldElement>(
    s: AnalyzerView<T>,
    statements: Seq<PilStatement<T>>,
) -> (AnalyzerView<T>, Outcome<()>)
    decreases statements, 0nat,
{
    if statements.len() == 0 {
        (s, Ok(()))
    } else {
        let (front, outcome) = handle_all(s, statements.drop_last());
        if outcome is Err {
            (front, outcome)
        } else {
            handle(front, statements.last())
        }
    }
}

/// Handles the statements of a text. Afterwards the file around it is the
/// current one again.
pub open spec fn handle_contents<T: FieldElement>(
    s: AnalyzerView<T>,
    file_name: Option<Seq<char>>,
    contents: Seq<char>,
    statements: Seq<PilStatement<T>>,
) -> (AnalyzerView<T>, Outcome<()>)
    decreases statements, 1nat,
{
    let entered = AnalyzerView {
        current_file: file_name,
        line_starts: lines::line_starts(vstd::utf8::encode_utf8(contents)),
        ..s
    };
    let (left, outcome) = handle_all(entered, statements);
    if outcome is Err {
        (left, outcome)
    } else {
        (
            AnalyzerView { current_file: s.current_file, line_starts: s.line_starts, ..left },
            Ok(()),
        )
    }
}

/// Handles a file, unless it was handled before.
pub open spec fn handle_file<T: FieldElement>(s: AnalyzerView<T>, file: PilFile<T>) -> (
    AnalyzerView<T>,
    Outcome<()>,
)
    decreases file, 0nat,
{
    if s.included_files.contains(file.path@) {
        (s, Ok(()))
    } else {
        handle_contents(
            AnalyzerView { included_files: s.included_files.insert(file.path@), ..s },
            pil_analyzer::file_view(file.file_name),
            file.contents@,
            file.statements@,
        )
    }
}

} // verus!
