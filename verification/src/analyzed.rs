//! What the analyzer produces.
use vstd::prelude::*;

use crate::error;
use crate::error::{AnalysisError, AnalysisErrorView, Outcome};
use crate::name_map::NameMap;
use crate::number::DegreeType;
use crate::parsed::{
    ArrayLiteral, BinaryOperator, FunctionCall, LambdaExpression, MatchArm, MatchPattern,
    SelectedExpressions, UnaryOperator,
};

verus! {

/// The characters of each string.
pub open spec fn strings_view(strings: Seq<String>) -> Seq<Seq<char>> {
    strings.map_values(|s: String| s@)
}

/// The kinds of polynomials.
#[derive(Debug, Clone, Copy, PartialEq, Eq, Structural)]
pub enum PolynomialType {
    Committed,
    Constant,
    Intermediate,
}

/// The kinds of symbols. Each kind has ids of its own.
#[derive(Debug, Clone, Copy, PartialEq, Eq, Structural)]
pub enum SymbolKind {
    Poly(PolynomialType),
    Other(),
}

/// The kinds of identities. Each kind has ids of its own.
#[derive(Debug, Clone, Copy, PartialEq, Eq, Structural)]
pub enum IdentityKind {
    Polynomial,
    Plookup,
    Permutation,
    Connect,
}

/// A polynomial by its id among those of its type.
#[derive(Debug, Clone, Copy, PartialEq, Eq, Structural)]
pub struct PolyID {
    pub id: u64,
    pub ptype: PolynomialType,
}

/// A reference to a polynomial.
#[derive(Debug)]
pub struct PolynomialReference {
    /// The absolute name.
    pub name: String,
    /// Absent until ids are assigned, and for constants.
    pub poly_id: Option<PolyID>,
    pub index: Option<DegreeType>,
    pub next: bool,
}

#[derive(Debug)]
pub enum Reference {
    /// A parameter of a function around the reference, by its position.
    LocalVar(u64, String),
    Poly(PolynomialReference),
}

/// An expression in which every reference is resolved to a name.
#[derive(Debug)]
pub enum Expression<T> {
    Constant(String),
    Reference(Reference),
    PublicReference(String),
    Number(T),
    String(String),
    Tuple(Vec<Expression<T>>),
    ArrayLiteral(ArrayLiteral<Expression<T>>),
    LambdaExpression(LambdaExpression<Expression<T>>),
    BinaryOperation(Box<Expression<T>>, BinaryOperator, Box<Expression<T>>),
    UnaryOperation(UnaryOperator, Box<Expression<T>>),
    FunctionCall(FunctionCall<Expression<T>>),
    MatchExpression(Box<Expression<T>>, Vec<MatchArm<Expression<T>>>),
}

/// The mathematical counterpart of [`PolynomialReference`].
#[verifier::ext_equal]
pub struct PolynomialReferenceView {
    pub name: Seq<char>,
    pub poly_id: Option<PolyID>,
    pub index: Option<DegreeType>,
    pub next: bool,
}

impl View for PolynomialReference {
    type V = PolynomialReferenceView;

    open spec fn view(&self) -> PolynomialReferenceView {
        PolynomialReferenceView {
            name: self.name@,
            poly_id: self.poly_id,
            index: self.index,
            next: self.next,
        }
    }
}

/// The mathematical counterpart of [`Reference`].
#[verifier::ext_equal]
pub enum ReferenceView {
    LocalVar(u64, Seq<char>),
    Poly(PolynomialReferenceView),
}

impl View for Reference {
    type V = ReferenceView;

    open spec fn view(&self) -> ReferenceView {
        match *self {
            Reference::LocalVar(id, name) => ReferenceView::LocalVar(id, name@),
            Reference::Poly(reference) => ReferenceView::Poly(reference@),
        }
    }
}

/// The mathematical counterpart of a match arm. There is no pattern where the
/// arm catches all.
#[verifier::ext_equal]
pub struct MatchArmView<T> {
    pub pattern: Option<ExpressionView<T>>,
    pub value: ExpressionView<T>,
}

/// The mathematical counterpart of [`Expression`].
#[verifier::ext_equal]
pub enum ExpressionView<T> {
    Constant(Seq<char>),
    Reference(ReferenceView),
    PublicReference(Seq<char>),
    Number(T),
    String(Seq<char>),
    Tuple(Seq<ExpressionView<T>>),
    ArrayLiteral(Seq<ExpressionView<T>>),
    LambdaExpression(Seq<Seq<char>>, Box<ExpressionView<T>>),
    BinaryOperation(Box<ExpressionView<T>>, BinaryOperator, Box<ExpressionView<T>>),
    UnaryOperation(UnaryOperator, Box<ExpressionView<T>>),
    FunctionCall(Seq<char>, Seq<ExpressionView<T>>),
    MatchExpression(Box<ExpressionView<T>>, Seq<MatchArmView<T>>),
}

pub open spec fn expression_view<T>(e: Expression<T>) -> ExpressionView<T>
    decreases e,
{
    match e {
        Expression::Constant(name) => ExpressionView::Constant(name@),
        Expression::Reference(reference) => ExpressionView::Reference(reference@),
        Expression::PublicReference(name) => ExpressionView::PublicReference(name@),
        Expression::Number(n) => ExpressionView::Number(n),
        Expression::String(s) => ExpressionView::String(s@),
        Expression::Tuple(items) => ExpressionView::Tuple(expressions_view(items@)),
        Expression::ArrayLiteral(array) => ExpressionView::ArrayLiteral(
            expressions_view(array.items@),
        ),
        Expression::LambdaExpression(lambda) => ExpressionView::LambdaExpression(
            strings_view(lambda.params@),
            Box::new(expression_view(*lambda.body)),
        ),
        Expression::BinaryOperation(left, op, right) => ExpressionView::BinaryOperation(
            Box::new(expression_view(*left)),
            op,
            Box::new(expression_view(*right)),
        ),
        Expression::UnaryOperation(op, value) => ExpressionView::UnaryOperation(
            op,
            Box::new(expression_view(*value)),
        ),
        Expression::FunctionCall(call) => ExpressionView::FunctionCall(
            call.id@,
            expressions_view(call.arguments@),
        ),
        Expression::MatchExpression(scrutinee, arms) => ExpressionView::MatchExpression(
            Box::new(expression_view(*scrutinee)),
            arms_view(arms@),
        ),
    }
}

pub open spec fn expressions_view<T>(items: Seq<Expression<T>>) -> Seq<ExpressionView<T>>
    decreases items,
{
    Seq::new(
        items.len(),
        |i: int|
            if 0 <= i < items.len() {
                expression_view(items[i])
            } else {
                vstd::pervasive::arbitrary()
            },
    )
}

pub open spec fn arm_view<T>(arm: MatchArm<Expression<T>>) -> MatchArmView<T>
    decreases arm,
{
    MatchArmView {
        pattern: match arm.pattern {
            MatchPattern::CatchAll => None,
            MatchPattern::Pattern(e) => Some(expression_view(e)),
        },
        value: expression_view(arm.value),
    }
}

pub open spec fn arms_view<T>(arms: Seq<MatchArm<Expression<T>>>) -> Seq<MatchArmView<T>>
    decreases arms,
{
    Seq::new(
        arms.len(),
        |i: int|
            if 0 <= i < arms.len() {
                arm_view(arms[i])
            } else {
                vstd::pervasive::arbitrary()
            },
    )
}

impl<T> View for Expression<T> {
    type V = ExpressionView<T>;

    open spec fn view(&self) -> ExpressionView<T> {
        expression_view(*self)
    }
}

/// A copy of a list of strings.
pub(crate) fn clone_strings(strings: &Vec<String>) -> (copy: Vec<String>)
    ensures
        strings_view(copy@) == strings_view(strings@),
{
    let copy = strings.clone();
    assert(strings_view(copy@) =~= strings_view(strings@));
    copy
}

impl Clone for PolynomialReference {
    fn clone(&self) -> (copy: PolynomialReference)
        ensures
            copy@ == self@,
    {
        PolynomialReference {
            name: self.name.clone(),
            poly_id: self.poly_id,
            index: self.index,
            next: self.next,
        }
    }
}

impl Clone for Reference {
    fn clone(&self) -> (copy: Reference)
        ensures
            copy@ == self@,
    {
        match self {
            Reference::LocalVar(id, name) => Reference::LocalVar(*id, name.clone()),
            Reference::Poly(reference) => Reference::Poly(reference.clone()),
        }
    }
}

impl<T: Copy> Clone for Expression<T> {
    fn clone(&self) -> (copy: Expression<T>)
        ensures
            copy@ == self@,
        decreases self,
    {
        match self {
            Expression::Constant(name) => Expression::Constant(name.clone()),
            Expression::Reference(reference) => Expression::Reference(reference.clone()),
            Expression::PublicReference(name) => Expression::PublicReference(name.clone()),
            Expression::Number(n) => Expression::Number(*n),
            Expression::String(s) => Expression::String(s.clone()),
            Expression::Tuple(items) => Expression::Tuple(clone_expressions(items)),
            Expression::ArrayLiteral(array) => Expression::ArrayLiteral(
                ArrayLiteral { items: clone_expressions(&array.items) },
            ),
            Expression::LambdaExpression(lambda) => Expression::LambdaExpression(
                LambdaExpression {
                    params: clone_strings(&lambda.params),
                    body: Box::new((*lambda.body).clone()),
                },
            ),
            Expression::BinaryOperation(left, op, right) => Expression::BinaryOperation(
                Box::new((**left).clone()),
                *op,
                Box::new((**right).clone()),
            ),
            Expression::UnaryOperation(op, value) => Expression::UnaryOperation(
                *op,
                Box::new((**value).clone()),
            ),
            Expression::FunctionCall(call) => Expression::FunctionCall(
                FunctionCall {
                    id: call.id.clone(),
                    arguments: clone_expressions(&call.arguments),
                },
            ),
            Expression::MatchExpression(scrutinee, arms) => Expression::MatchExpression(
                Box::new((**scrutinee).clone()),
                clone_arms(arms),
            ),
        }
    }
}

/// A copy of a list of expressions.
pub(crate) fn clone_expressions<T: Copy>(items: &Vec<Expression<T>>) -> (copy: Vec<Expression<T>>)
    ensures
        expressions_view(copy@) == expressions_view(items@),
    decreases items,
{
    let mut copy: Vec<Expression<T>> = Vec::new();
    let mut i: usize = 0;
    while i < items.len()
        invariant
            i <= items@.len(),
            copy@.len() == i,
            forall|k: int| 0 <= k < i ==> (#[trigger] copy@[k])@ == items@[k]@,
        decreases items@.len() - i,
    {
        copy.push(items[i].clone());
        i = i + 1;
    }
    assert(expressions_view(copy@) =~= expressions_view(items@));
    copy
}

fn clone_arms<T: Copy>(arms: &Vec<MatchArm<Expression<T>>>) -> (copy: Vec<MatchArm<Expression<T>>>)
    ensures
        arms_view(copy@) == arms_view(arms@),
    decreases arms,
{
    let mut copy: Vec<MatchArm<Expression<T>>> = Vec::new();
    let mut i: usize = 0;
    while i < arms.len()
        invariant
            i <= arms@.len(),
            copy@.len() == i,
            forall|k: int| 0 <= k < i ==> arm_view(#[trigger] copy@[k]) == arm_view(arms@[k]),
        decreases arms@.len() - i,
    {
        let arm = &arms[i];
        let pattern = match &arm.pattern {
            MatchPattern::CatchAll => MatchPattern::CatchAll,
            MatchPattern::Pattern(e) => MatchPattern::Pattern(e.clone()),
        };
        copy.push(MatchArm { pattern, value: arm.value.clone() });
        i = i + 1;
    }
    assert(arms_view(copy@) =~= arms_view(arms@));
    copy
}

/// A place in the source.
#[derive(Debug)]
pub struct SourceRef {
    pub line: usize,
    pub file: String,
}

/// The mathematical counterpart of [`SourceRef`].
#[verifier::ext_equal]
pub struct SourceRefView {
    pub line: usize,
    pub file: Seq<char>,
}

impl View for SourceRef {
    type V = SourceRefView;

    open spec fn view(&self) -> SourceRefView {
        SourceRefView { line: self.line, file: self.file@ }
    }
}

impl Clone for SourceRef {
    fn clone(&self) -> (copy: SourceRef)
        ensures
            copy@ == self@,
    {
        SourceRef { line: self.line, file: self.file.clone() }
    }
}

/// What is known of a definition besides its value.
#[derive(Debug)]
pub struct Symbol {
    pub id: u64,
    pub source: SourceRef,
    pub absolute_name: String,
    pub degree: DegreeType,
    pub kind: SymbolKind,
    /// The number of elements, for an array.
    pub length: Option<DegreeType>,
}

/// The mathematical counterpart of [`Symbol`].
#[verifier::ext_equal]
pub struct SymbolView {
    pub id: u64,
    pub source: SourceRefView,
    pub absolute_name: Seq<char>,
    pub degree: DegreeType,
    pub kind: SymbolKind,
    pub length: Option<DegreeType>,
}

impl View for Symbol {
    type V = SymbolView;

    open spec fn view(&self) -> SymbolView {
        SymbolView {
            id: self.id,
            source: self.source@,
            absolute_name: self.absolute_name@,
            degree: self.degree,
            kind: self.kind,
            length: self.length,
        }
    }
}

impl Clone for Symbol {
    fn clone(&self) -> (copy: Symbol)
        ensures
            copy@ == self@,
    {
        Symbol {
            id: self.id,
            source: self.source.clone(),
            absolute_name: self.absolute_name.clone(),
            degree: self.degree,
            kind: self.kind,
            length: self.length,
        }
    }
}

/// Rows that are filled by repeating a pattern, cut off at the end.
#[derive(Debug)]
pub struct RepeatedArray<T> {
    pub pattern: Vec<Expression<T>>,
    /// The number of rows.
    pub size: DegreeType,
}

/// The mathematical counterpart of [`RepeatedArray`].
#[verifier::ext_equal]
pub struct RepeatedArrayView<T> {
    pub pattern: Seq<ExpressionView<T>>,
    pub size: DegreeType,
}

impl<T> View for RepeatedArray<T> {
    type V = RepeatedArrayView<T>;

    open spec fn view(&self) -> RepeatedArrayView<T> {
        RepeatedArrayView { pattern: expressions_view(self.pattern@), size: self.size }
    }
}

/// The rows that `pattern` fills: it has to have values where there are rows.
pub open spec fn repeated_array<T>(pattern: Seq<ExpressionView<T>>, size: DegreeType) -> Outcome<
    RepeatedArrayView<T>,
> {
    if pattern.len() == 0 && size != 0 {
        Err(AnalysisErrorView::EmptyPattern)
    } else {
        Ok(RepeatedArrayView { pattern, size })
    }
}

impl<T> RepeatedArray<T> {
    pub fn new(pattern: Vec<Expression<T>>, size: DegreeType) -> (result: Result<
        RepeatedArray<T>,
        AnalysisError,
    >)
        ensures
            error::agrees(result, repeated_array(expressions_view(pattern@), size)),
    {
        if pattern.len() == 0 && size != 0 {
            Err(AnalysisError::EmptyPattern)
        } else {
            Ok(RepeatedArray { pattern, size })
        }
    }

    /// The number of rows.
    pub fn size(&self) -> (size: DegreeType)
        ensures
            size == self.size,
    {
        self.size
    }
}

/// The value of a definition.
#[derive(Debug)]
pub enum FunctionValueDefinition<T> {
    Mapping(Expression<T>),
    Array(Vec<RepeatedArray<T>>),
    Query(Expression<T>),
    Expression(Expression<T>),
}

/// The mathematical counterpart of [`FunctionValueDefinition`].
#[verifier::ext_equal]
pub enum FunctionValueDefinitionView<T> {
    Mapping(ExpressionView<T>),
    Array(Seq<RepeatedArrayView<T>>),
    Query(ExpressionView<T>),
    Expression(ExpressionView<T>),
}

pub open spec fn arrays_view<T>(parts: Seq<RepeatedArray<T>>) -> Seq<RepeatedArrayView<T>> {
    parts.map_values(|part: RepeatedArray<T>| part@)
}

impl<T> View for FunctionValueDefinition<T> {
    type V = FunctionValueDefinitionView<T>;

    open spec fn view(&self) -> FunctionValueDefinitionView<T> {
        match *self {
            FunctionValueDefinition::Mapping(e) => FunctionValueDefinitionView::Mapping(e@),
            FunctionValueDefinition::Array(parts) => FunctionValueDefinitionView::Array(
                arrays_view(parts@),
            ),
            FunctionValueDefinition::Query(e) => FunctionValueDefinitionView::Query(e@),
            FunctionValueDefinition::Expression(e) => FunctionValueDefinitionView::Expression(e@),
        }
    }
}

/// A definition: its symbol and its value, if it has one.
pub type Definition<T> = (Symbol, Option<FunctionValueDefinition<T>>);

/// The mathematical counterpart of [`Definition`].
pub type DefinitionView<T> = (SymbolView, Option<FunctionValueDefinitionView<T>>);

pub open spec fn value_view<T>(value: Option<FunctionValueDefinition<T>>) -> Option<
    FunctionValueDefinitionView<T>,
> {
    match value {
        None => None,
        Some(v) => Some(v@),
    }
}

pub open spec fn definition_view<T>(definition: Definition<T>) -> DefinitionView<T> {
    (definition.0@, value_view(definition.1))
}

pub open spec fn definitions_view<T>(definitions: Map<Seq<char>, Definition<T>>) -> Map<
    Seq<char>,
    DefinitionView<T>,
> {
    definitions.map_values(|definition: Definition<T>| definition_view(definition))
}

/// A value of a column that is open to the verifier of a proof.
#[derive(Debug)]
pub struct PublicDeclaration {
    pub id: u64,
    pub source: SourceRef,
    pub name: String,
    pub polynomial: PolynomialReference,
    /// The row.
    pub index: DegreeType,
}

/// The mathematical counterpart of [`PublicDeclaration`].
#[verifier::ext_equal]
pub struct PublicDeclarationView {
    pub id: u64,
    pub source: SourceRefView,
    pub name: Seq<char>,
    pub polynomial: PolynomialReferenceView,
    pub index: DegreeType,
}

impl View for PublicDeclaration {
    type V = PublicDeclarationView;

    open spec fn view(&self) -> PublicDeclarationView {
        PublicDeclarationView {
            id: self.id,
            source: self.source@,
            name: self.name@,
            polynomial: self.polynomial@,
            index: self.index,
        }
    }
}

pub open spec fn declarations_view(declarations: Map<Seq<char>, PublicDeclaration>) -> Map<
    Seq<char>,
    PublicDeclarationView,
> {
    declarations.map_values(|declaration: PublicDeclaration| declaration@)
}

/// The mathematical counterpart of [`SelectedExpressions`] of analyzed
/// expressions.
#[verifier::ext_equal]
pub struct SelectedExpressionsView<T> {
    pub selector: Option<ExpressionView<T>>,
    pub expressions: Seq<ExpressionView<T>>,
}

impl<T> View for SelectedExpressions<Expression<T>> {
    type V = SelectedExpressionsView<T>;

    open spec fn view(&self) -> SelectedExpressionsView<T> {
        SelectedExpressionsView {
            selector: match self.selector {
                None => None,
                Some(e) => Some(e@),
            },
            expressions: expressions_view(self.expressions@),
        }
    }
}

/// A constraint on columns. A polynomial identity has its expression, which is
/// to be zero, as the selector of the left side.
#[derive(Debug)]
pub struct Identity<T> {
    pub id: u64,
    pub kind: IdentityKind,
    pub source: SourceRef,
    pub left: SelectedExpressions<Expression<T>>,
    pub right: SelectedExpressions<Expression<T>>,
}

/// The mathematical counterpart of [`Identity`].
#[verifier::ext_equal]
pub struct IdentityView<T> {
    pub id: u64,
    pub kind: IdentityKind,
    pub source: SourceRefView,
    pub left: SelectedExpressionsView<T>,
    pub right: SelectedExpressionsView<T>,
}

impl<T> View for Identity<T> {
    type V = IdentityView<T>;

    open spec fn view(&self) -> IdentityView<T> {
        IdentityView {
            id: self.id,
            kind: self.kind,
            source: self.source@,
            left: self.left@,
            right: self.right@,
        }
    }
}

pub open spec fn identities_view<T>(identities: Seq<Identity<T>>) -> Seq<IdentityView<T>> {
    identities.map_values(|identity: Identity<T>| identity@)
}

/// A statement of the source, by its name or, for an identity, its position in
/// the list of identities.
#[derive(Debug, PartialEq, Eq)]
pub enum StatementIdentifier {
    Definition(String),
    PublicDeclaration(String),
    Identity(usize),
}

/// The mathematical counterpart of [`StatementIdentifier`].
#[verifier::ext_equal]
pub enum StatementIdentifierView {
    Definition(Seq<char>),
    PublicDeclaration(Seq<char>),
    Identity(int),
}

impl View for StatementIdentifier {
    type V = StatementIdentifierView;

    open spec fn view(&self) -> StatementIdentifierView {
        match *self {
            StatementIdentifier::Definition(name) => StatementIdentifierView::Definition(name@),
            StatementIdentifier::PublicDeclaration(name) =>
                StatementIdentifierView::PublicDeclaration(name@),
            StatementIdentifier::Identity(position) => StatementIdentifierView::Identity(
                position as int,
            ),
        }
    }
}

pub open spec fn order_view(order: Seq<StatementIdentifier>) -> Seq<StatementIdentifierView> {
    order.map_values(|statement: StatementIdentifier| statement@)
}

/// An analyzed program.
#[verifier::reject_recursive_types(T)]
pub struct Analyzed<T> {
    /// Constants are not namespaced.
    pub constants: NameMap<T>,
    pub definitions: NameMap<Definition<T>>,
    pub public_declarations: NameMap<PublicDeclaration>,
    pub identities: Vec<Identity<T>>,
    /// The order in which definitions and identities appear in the source.
    pub source_order: Vec<StatementIdentifier>,
}

/// The mathematical counterpart of [`Analyzed`].
#[verifier::ext_equal]
pub struct AnalyzedView<T> {
    pub constants: Map<Seq<char>, T>,
    pub definitions: Map<Seq<char>, DefinitionView<T>>,
    pub public_declarations: Map<Seq<char>, PublicDeclarationView>,
    pub identities: Seq<IdentityView<T>>,
    pub source_order: Seq<StatementIdentifierView>,
}

impl<T> View for Analyzed<T> {
    type V = AnalyzedView<T>;

    open spec fn view(&self) -> AnalyzedView<T> {
        AnalyzedView {
            constants: self.constants@,
            definitions: definitions_view(self.definitions@),
            public_declarations: declarations_view(self.public_declarations@),
            identities: identities_view(self.identities@),
            source_order: order_view(self.source_order@),
        }
    }
}

impl<T> Analyzed<T> {
    /// The maps are intact.
    pub open spec fn wf(&self) -> bool {
        &&& self.constants.wf()
        &&& self.definitions.wf()
        &&& self.public_declarations.wf()
    }
}

} // verus!
