//! The assignment of ids to references, once all definitions are known.
use vstd::prelude::*;

use crate::analyzed;
use crate::analyzed::{
    Analyzed, AnalyzedView, Definition, DefinitionView, Expression, ExpressionView,
    FunctionValueDefinition, FunctionValueDefinitionView, Identity, IdentityView, MatchArmView,
    PolyID, PolynomialReference, PolynomialReferenceView, PublicDeclaration, PublicDeclarationView,
    Reference, ReferenceView, RepeatedArray, RepeatedArrayView, SelectedExpressionsView, SymbolKind,
};
use crate::error;
use crate::error::{AnalysisError, AnalysisErrorView, Outcome};
use crate::name_map::NameMap;
use crate::parsed::{
    ArrayLiteral, FunctionCall, LambdaExpression, MatchArm, MatchPattern, SelectedExpressions,
};
use crate::pil_analyzer::{AnalyzerView, PILAnalyzer};

verus! {

/// What a name can refer to.
#[verifier::ext_equal]
pub struct Names<T> {
    pub constants: Map<Seq<char>, T>,
    pub definitions: Map<Seq<char>, DefinitionView<T>>,
}

/// The id of the column with the absolute name `name`.
pub open spec fn column_id<T>(names: Names<T>, name: Seq<char>) -> Outcome<PolyID> {
    if !names.definitions.contains_key(name) {
        Err(AnalysisErrorView::ColumnNotFound(name))
    } else {
        let symbol = names.definitions[name].0;
        match symbol.kind {
            SymbolKind::Other() => Err(AnalysisErrorView::NotAColumn(name)),
            SymbolKind::Poly(ptype) => Ok(PolyID { id: symbol.id, ptype }),
        }
    }
}

/// The reference with the id of its column, if it has one.
pub open spec fn with_column_id<T>(
    names: Names<T>,
    reference: PolynomialReferenceView,
) -> PolynomialReferenceView {
    match column_id(names, reference.name) {
        Err(_) => reference,
        Ok(id) => PolynomialReferenceView { poly_id: Some(id), ..reference },
    }
}

/// The expression with ids in all references to columns. References to constants
/// have none.
pub open spec fn resolve<T>(names: Names<T>, e: ExpressionView<T>) -> ExpressionView<T>
    decreases e,
{
    match e {
        ExpressionView::Reference(ReferenceView::Poly(reference)) =>
            if names.constants.contains_key(reference.name) {
                e
            } else {
                ExpressionView::Reference(ReferenceView::Poly(with_column_id(names, reference)))
            },
        ExpressionView::Tuple(items) => ExpressionView::Tuple(resolve_all(names, items)),
        ExpressionView::ArrayLiteral(items) => ExpressionView::ArrayLiteral(
            resolve_all(names, items),
        ),
        ExpressionView::LambdaExpression(params, body) => ExpressionView::LambdaExpression(
            params,
            Box::new(resolve(names, *body)),
        ),
        ExpressionView::BinaryOperation(left, op, right) => ExpressionView::BinaryOperation(
            Box::new(resolve(names, *left)),
            op,
            Box::new(resolve(names, *right)),
        ),
        ExpressionView::UnaryOperation(op, value) => ExpressionView::UnaryOperation(
            op,
            Box::new(resolve(names, *value)),
        ),
        ExpressionView::FunctionCall(id, arguments) => ExpressionView::FunctionCall(
            id,
            resolve_all(names, arguments),
        ),
        ExpressionView::MatchExpression(scrutinee, arms) => ExpressionView::MatchExpression(
            Box::new(resolve(names, *scrutinee)),
            resolve_arms(names, arms),
        ),
        _ => e,
    }
}

pub open spec fn resolve_all<T>(names: Names<T>, items: Seq<ExpressionView<T>>) -> Seq<
    ExpressionView<T>,
>
    decreases items,
{
    Seq::new(
        items.len(),
        |i: int|
            if 0 <= i < items.len() {
                resolve(names, items[i])
            } else {
                vstd::pervasive::arbitrary()
            },
    )
}

pub open spec fn resolve_arm<T>(names: Names<T>, arm: MatchArmView<T>) -> MatchArmView<T>
    decreases arm,
{
    MatchArmView {
        pattern: match arm.pattern {
            None => None,
            Some(e) => Some(resolve(names, e)),
        },
        value: resolve(names, arm.value),
    }
}

pub open spec fn resolve_arms<T>(names: Names<T>, arms: Seq<MatchArmView<T>>) -> Seq<
    MatchArmView<T>,
>
    decreases arms,
{
    Seq::new(
        arms.len(),
        |i: int|
            if 0 <= i < arms.len() {
                resolve_arm(names, arms[i])
            } else {
                vstd::pervasive::arbitrary()
            },
    )
}

/// The error of `outcome`, if it is one.
pub open spec fn error_of<V>(outcome: Outcome<V>) -> Option<AnalysisErrorView> {
    match outcome {
        Ok(_) => None,
        Err(error) => Some(error),
    }
}

/// Why the first reference without an id has none, from left to right, if there
/// is such a reference. References to constants need no id.
pub open spec fn first_error<T>(names: Names<T>, e: ExpressionView<T>) -> Option<AnalysisErrorView>
    decreases e,
{
    match e {
        ExpressionView::Reference(ReferenceView::Poly(reference)) =>
            if names.constants.contains_key(reference.name) {
                None
            } else {
                error_of(column_id(names, reference.name))
            },
        ExpressionView::Tuple(items) => first_error_in(names, items),
        ExpressionView::ArrayLiteral(items) => first_error_in(names, items),
        ExpressionView::LambdaExpression(_, body) => first_error(names, *body),
        ExpressionView::BinaryOperation(left, _, right) => match first_error(names, *left) {
            Some(error) => Some(error),
            None => first_error(names, *right),
        },
        ExpressionView::UnaryOperation(_, value) => first_error(names, *value),
        ExpressionView::FunctionCall(_, arguments) => first_error_in(names, arguments),
        ExpressionView::MatchExpression(scrutinee, arms) => match first_error(names, *scrutinee) {
            Some(error) => Some(error),
            None => first_error_in_arms(names, arms),
        },
        _ => None,
    }
}

pub open spec fn first_error_in<T>(names: Names<T>, items: Seq<ExpressionView<T>>) -> Option<
    AnalysisErrorView,
>
    decreases items,
{
    if items.len() == 0 {
        None
    } else {
        match first_error_in(names, items.drop_last()) {
            Some(error) => Some(error),
            None => first_error(names, items.last()),
        }
    }
}

pub open spec fn first_error_in_arm<T>(names: Names<T>, arm: MatchArmView<T>) -> Option<
    AnalysisErrorView,
>
    decreases arm,
{
    let in_pattern = match arm.pattern {
        None => None,
        Some(e) => first_error(names, e),
    };
    match in_pattern {
        Some(error) => Some(error),
        None => first_error(names, arm.value),
    }
}

pub open spec fn first_error_in_arms<T>(names: Names<T>, arms: Seq<MatchArmView<T>>) -> Option<
    AnalysisErrorView,
>
    decreases arms,
{
    if arms.len() == 0 {
        None
    } else {
        match first_error_in_arms(names, arms.drop_last()) {
            Some(error) => Some(error),
            None => first_error_in_arm(names, arms.last()),
        }
    }
}

pub open spec fn resolve_part<T>(names: Names<T>, part: RepeatedArrayView<T>) -> RepeatedArrayView<
    T,
> {
    RepeatedArrayView { pattern: resolve_all(names, part.pattern), size: part.size }
}

pub open spec fn resolve_value<T>(
    names: Names<T>,
    value: FunctionValueDefinitionView<T>,
) -> FunctionValueDefinitionView<T> {
    match value {
        FunctionValueDefinitionView::Mapping(e) => FunctionValueDefinitionView::Mapping(
            resolve(names, e),
        ),
        FunctionValueDefinitionView::Array(parts) => FunctionValueDefinitionView::Array(
            parts.map_values(|part: RepeatedArrayView<T>| resolve_part(names, part)),
        ),
        FunctionValueDefinitionView::Query(e) => FunctionValueDefinitionView::Query(
            resolve(names, e),
        ),
        FunctionValueDefinitionView::Expression(e) => FunctionValueDefinitionView::Expression(
            resolve(names, e),
        ),
    }
}

pub open spec fn first_error_in_parts<T>(
    names: Names<T>,
    parts: Seq<RepeatedArrayView<T>>,
) -> Option<AnalysisErrorView>
    decreases parts.len(),
{
    if parts.len() == 0 {
        None
    } else {
        match first_error_in_parts(names, parts.drop_last()) {
            Some(error) => Some(error),
            None => first_error_in(names, parts.last().pattern),
        }
    }
}

pub open spec fn first_error_in_value<T>(
    names: Names<T>,
    value: FunctionValueDefinitionView<T>,
) -> Option<AnalysisErrorView> {
    match value {
        FunctionValueDefinitionView::Mapping(e) => first_error(names, e),
        FunctionValueDefinitionView::Array(parts) => first_error_in_parts(names, parts),
        FunctionValueDefinitionView::Query(e) => first_error(names, e),
        FunctionValueDefinitionView::Expression(e) => first_error(names, e),
    }
}

pub open spec fn resolve_definition<T>(
    names: Names<T>,
    definition: DefinitionView<T>,
) -> DefinitionView<T> {
    (
        definition.0,
        match definition.1 {
            None => None,
            Some(value) => Some(resolve_value(names, value)),
        },
    )
}

pub open spec fn first_error_in_definition<T>(
    names: Names<T>,
    definition: DefinitionView<T>,
) -> Option<AnalysisErrorView> {
    match definition.1 {
        None => None,
        Some(value) => first_error_in_value(names, value),
    }
}

pub open spec fn resolve_selected<T>(
    names: Names<T>,
    selected: SelectedExpressionsView<T>,
) -> SelectedExpressionsView<T> {
    SelectedExpressionsView {
        selector: match selected.selector {
            None => None,
            Some(e) => Some(resolve(names, e)),
        },
        expressions: resolve_all(names, selected.expressions),
    }
}

pub open spec fn first_error_in_selected<T>(
    names: Names<T>,
    selected: SelectedExpressionsView<T>,
) -> Option<AnalysisErrorView> {
    let in_selector = match selected.selector {
        None => None,
        Some(e) => first_error(names, e),
    };
    match in_selector {
        Some(error) => Some(error),
        None => first_error_in(names, selected.expressions),
    }
}

pub open spec fn resolve_identity<T>(names: Names<T>, identity: IdentityView<T>) -> IdentityView<
    T,
> {
    IdentityView {
        left: resolve_selected(names, identity.left),
        right: resolve_selected(names, identity.right),
        ..identity
    }
}

pub open spec fn first_error_in_identity<T>(
    names: Names<T>,
    identity: IdentityView<T>,
) -> Option<AnalysisErrorView> {
    match first_error_in_selected(names, identity.left) {
        Some(error) => Some(error),
        None => first_error_in_selected(names, identity.right),
    }
}

/// The column of a public value has an id even where a constant has its name.
pub open spec fn resolve_declaration<T>(
    names: Names<T>,
    declaration: PublicDeclarationView,
) -> PublicDeclarationView {
    PublicDeclarationView {
        polynomial: with_column_id(names, declaration.polynomial),
        ..declaration
    }
}

pub open spec fn first_error_in_declaration<T>(
    names: Names<T>,
    declaration: PublicDeclarationView,
) -> Option<AnalysisErrorView> {
    error_of(column_id(names, declaration.polynomial.name))
}

/// The names that the references of a program can refer to.
pub open spec fn names_of<T>(s: AnalyzerView<T>) -> Names<T> {
    Names { constants: s.constants, definitions: s.definitions }
}

/// The program with ids in all references to columns.
pub open spec fn resolve_program<T>(s: AnalyzerView<T>) -> AnalyzedView<T> {
    let names = names_of(s);
    AnalyzedView {
        constants: s.constants,
        definitions: s.definitions.map_values(
            |definition: DefinitionView<T>| resolve_definition(names, definition),
        ),
        public_declarations: s.public_declarations.map_values(
            |declaration: PublicDeclarationView| resolve_declaration(names, declaration),
        ),
        identities: s.identities.map_values(
            |identity: IdentityView<T>| resolve_identity(names, identity),
        ),
        source_order: s.source_order,
    }
}

/// Every reference to a column in a definition or an identity has an id.
pub open spec fn expressions_resolved<T>(s: AnalyzerView<T>) -> bool {
    let names = names_of(s);
    &&& forall|name: Seq<char>| #[trigger]
        s.definitions.contains_key(name) ==> first_error_in_definition(names, s.definitions[name])
            is None
    &&& forall|i: int|
        0 <= i < s.identities.len() ==> first_error_in_identity(names, #[trigger] s.identities[i])
            is None
}

/// Every reference of the program to a column has an id.
pub open spec fn all_resolved<T>(s: AnalyzerView<T>) -> bool {
    &&& expressions_resolved(s)
    &&& forall|name: Seq<char>| #[trigger]
        s.public_declarations.contains_key(name) ==> first_error_in_declaration(
            names_of(s),
            s.public_declarations[name],
        ) is None
}

/// `error` is the first error of a definition or an identity of the program, or,
/// where these have none, the error of a public declaration.
pub open spec fn is_error_of<T>(s: AnalyzerView<T>, error: AnalysisErrorView) -> bool {
    let names = names_of(s);
    ||| exists|name: Seq<char>| #[trigger]
        s.definitions.contains_key(name) && first_error_in_definition(names, s.definitions[name])
            == Some(error)
    ||| exists|i: int|
        0 <= i < s.identities.len() && first_error_in_identity(names, #[trigger] s.identities[i])
            == Some(error)
    ||| expressions_resolved(s) && exists|name: Seq<char>| #[trigger]
        s.public_declarations.contains_key(name) && first_error_in_declaration(
            names,
            s.public_declarations[name],
        ) == Some(error)
}

/// An error in a front part is the error of the whole.
proof fn lemma_first_error_front<T>(names: Names<T>, items: Seq<ExpressionView<T>>, end: int)
    requires
        0 <= end <= items.len(),
        first_error_in(names, items.take(end)) is Some,
    ensures
        first_error_in(names, items) == first_error_in(names, items.take(end)),
    decreases items.len(),
{
    if end == items.len() {
        assert(items.take(end) =~= items);
    } else {
        assert(items.drop_last().take(end) =~= items.take(end));
        lemma_first_error_front(names, items.drop_last(), end);
    }
}

/// An error in a front part is the error of the whole.
proof fn lemma_first_error_front_arms<T>(names: Names<T>, arms: Seq<MatchArmView<T>>, end: int)
    requires
        0 <= end <= arms.len(),
        first_error_in_arms(names, arms.take(end)) is Some,
    ensures
        first_error_in_arms(names, arms) == first_error_in_arms(names, arms.take(end)),
    decreases arms.len(),
{
    if end == arms.len() {
        assert(arms.take(end) =~= arms);
    } else {
        assert(arms.drop_last().take(end) =~= arms.take(end));
        lemma_first_error_front_arms(names, arms.drop_last(), end);
    }
}

/// An error in a front part is the error of the whole.
proof fn lemma_first_error_front_parts<T>(
    names: Names<T>,
    parts: Seq<RepeatedArrayView<T>>,
    end: int,
)
    requires
        0 <= end <= parts.len(),
        first_error_in_parts(names, parts.take(end)) is Some,
    ensures
        first_error_in_parts(names, parts) == first_error_in_parts(names, parts.take(end)),
    decreases parts.len(),
{
    if end == parts.len() {
        assert(parts.take(end) =~= parts);
    } else {
        assert(parts.drop_last().take(end) =~= parts.take(end));
        lemma_first_error_front_parts(names, parts.drop_last(), end);
    }
}

/// The definitions and constants of a program.
#[verifier::reject_recursive_types(T)]
struct Resolver<'a, T> {
    constants: &'a NameMap<T>,
    definitions: &'a NameMap<Definition<T>>,
}

impl<'a, T: Copy> Resolver<'a, T> {
    spec fn wf(&self) -> bool {
        self.constants.wf() && self.definitions.wf()
    }

    spec fn names(&self) -> Names<T> {
        Names {
            constants: self.constants@,
            definitions: analyzed::definitions_view(self.definitions@),
        }
    }

    /// The id of the column with the absolute name `name`.
    fn id_of(&self, name: &String) -> (result: Result<PolyID, AnalysisError>)
        requires
            self.wf(),
        ensures
            error::agrees_exactly(result, column_id(self.names(), name@)),
    {
        match self.definitions.get(name.as_str()) {
            None => Err(AnalysisError::ColumnNotFound(name.clone())),
            Some(definition) => match definition.0.kind {
                SymbolKind::Other() => Err(AnalysisError::NotAColumn(name.clone())),
                SymbolKind::Poly(ptype) => Ok(PolyID { id: definition.0.id, ptype }),
            },
        }
    }

    /// The reference with the id of its column.
    fn assign_id(&self, reference: &PolynomialReference) -> (result: Result<
        PolynomialReference,
        AnalysisError,
    >)
        requires
            self.wf(),
        ensures
            match result {
                Ok(assigned) => {
                    &&& assigned@ == with_column_id(self.names(), reference@)
                    &&& column_id(self.names(), reference.name@) is Ok
                },
                Err(error) => column_id(self.names(), reference.name@) == Err::<
                    PolyID,
                    AnalysisErrorView,
                >(error@),
            },
    {
        match self.id_of(&reference.name) {
            Err(error) => Err(error),
            Ok(id) => Ok(
                PolynomialReference {
                    name: reference.name.clone(),
                    poly_id: Some(id),
                    index: reference.index,
                    next: reference.next,
                },
            ),
        }
    }

    fn resolve_expression(&self, e: &Expression<T>) -> (result: Result<
        Expression<T>,
        AnalysisError,
    >)
        requires
            self.wf(),
        ensures
            match result {
                Ok(new) => new@ == resolve(self.names(), e@) && first_error(self.names(), e@)
                    is None,
                Err(error) => first_error(self.names(), e@) == Some(error@),
            },
        decreases e,
    {
        match e {
            Expression::Constant(name) => Ok(Expression::Constant(name.clone())),
            Expression::Reference(reference) => match reference {
                Reference::LocalVar(id, name) => Ok(
                    Expression::Reference(Reference::LocalVar(*id, name.clone())),
                ),
                Reference::Poly(poly) => {
                    if self.constants.contains_key(poly.name.as_str()) {
                        Ok(Expression::Reference(Reference::Poly(poly.clone())))
                    } else {
                        match self.assign_id(poly) {
                            Err(error) => Err(error),
                            Ok(assigned) => Ok(Expression::Reference(Reference::Poly(assigned))),
                        }
                    }
                },
            },
            Expression::PublicReference(name) => Ok(Expression::PublicReference(name.clone())),
            Expression::Number(n) => Ok(Expression::Number(*n)),
            Expression::String(s) => Ok(Expression::String(s.clone())),
            Expression::Tuple(items) => match self.resolve_expressions(items) {
                Err(error) => Err(error),
                Ok(items) => Ok(Expression::Tuple(items)),
            },
            Expression::ArrayLiteral(array) => match self.resolve_expressions(&array.items) {
                Err(error) => Err(error),
                Ok(items) => Ok(Expression::ArrayLiteral(ArrayLiteral { items })),
            },
            Expression::LambdaExpression(lambda) => match self.resolve_expression(&lambda.body) {
                Err(error) => Err(error),
                Ok(body) => Ok(
                    Expression::LambdaExpression(
                        LambdaExpression {
                            params: analyzed::clone_strings(&lambda.params),
                            body: Box::new(body),
                        },
                    ),
                ),
            },
            Expression::BinaryOperation(left, op, right) => {
                let l = match self.resolve_expression(left) {
                    Err(error) => return Err(error),
                    Ok(l) => l,
                };
                match self.resolve_expression(right) {
                    Err(error) => Err(error),
                    Ok(r) => Ok(Expression::BinaryOperation(Box::new(l), *op, Box::new(r))),
                }
            },
            Expression::UnaryOperation(op, value) => match self.resolve_expression(value) {
                Err(error) => Err(error),
                Ok(v) => Ok(Expression::UnaryOperation(*op, Box::new(v))),
            },
            Expression::FunctionCall(call) => match self.resolve_expressions(&call.arguments) {
                Err(error) => Err(error),
                Ok(arguments) => Ok(
                    Expression::FunctionCall(FunctionCall { id: call.id.clone(), arguments }),
                ),
            },
            Expression::MatchExpression(scrutinee, arms) => {
                let s = match self.resolve_expression(scrutinee) {
                    Err(error) => return Err(error),
                    Ok(s) => s,
                };
                match self.resolve_match_arms(arms) {
                    Err(error) => Err(error),
                    Ok(a) => Ok(Expression::MatchExpression(Box::new(s), a)),
                }
            },
        }
    }

    fn resolve_expressions(&self, items: &Vec<Expression<T>>) -> (result: Result<
        Vec<Expression<T>>,
        AnalysisError,
    >)
        requires
            self.wf(),
        ensures
            match result {
                Ok(new) => {
                    &&& analyzed::expressions_view(new@) == resolve_all(
                        self.names(),
                        analyzed::expressions_view(items@),
                    )
                    &&& first_error_in(self.names(), analyzed::expressions_view(items@)) is None
                },
                Err(error) => first_error_in(
                    self.names(),
                    analyzed::expressions_view(items@),
                ) == Some(error@),
            },
        decreases items,
    {
        let ghost names = self.names();
        let ghost views = analyzed::expressions_view(items@);
        let mut done: Vec<Expression<T>> = Vec::new();
        let mut i: usize = 0;
        assert(views.take(0).len() == 0);
        while i < items.len()
            invariant
                self.wf(),
                names == self.names(),
                views == analyzed::expressions_view(items@),
                i <= items@.len(),
                done@.len() == i,
                forall|k: int| 0 <= k < i ==> (#[trigger] done@[k])@ == resolve(names, views[k]),
                first_error_in(names, views.take(i as int)) is None,
            decreases items@.len() - i,
        {
            assert(views[i as int] == items@[i as int]@);
            assert(views.take(i + 1).drop_last() =~= views.take(i as int));
            match self.resolve_expression(&items[i]) {
                Err(error) => {
                    proof {
                        lemma_first_error_front(names, views, i + 1);
                    }
                    return Err(error);
                },
                Ok(e) => {
                    done.push(e);
                },
            }
            i = i + 1;
        }
        assert(views.take(i as int) =~= views);
        assert(analyzed::expressions_view(done@) =~= resolve_all(names, views));
        Ok(done)
    }

    fn resolve_match_arms(&self, arms: &Vec<MatchArm<Expression<T>>>) -> (result: Result<
        Vec<MatchArm<Expression<T>>>,
        AnalysisError,
    >)
        requires
            self.wf(),
        ensures
            match result {
                Ok(new) => {
                    &&& analyzed::arms_view(new@) == resolve_arms(
                        self.names(),
                        analyzed::arms_view(arms@),
                    )
                    &&& first_error_in_arms(self.names(), analyzed::arms_view(arms@)) is None
                },
                Err(error) => first_error_in_arms(
                    self.names(),
                    analyzed::arms_view(arms@),
                ) == Some(error@),
            },
        decreases arms,
    {
        let ghost names = self.names();
        let ghost views = analyzed::arms_view(arms@);
        let mut done: Vec<MatchArm<Expression<T>>> = Vec::new();
        let mut i: usize = 0;
        assert(views.take(0).len() == 0);
        while i < arms.len()
            invariant
                self.wf(),
                names == self.names(),
                views == analyzed::arms_view(arms@),
                i <= arms@.len(),
                done@.len() == i,
                forall|k: int|
                    0 <= k < i ==> analyzed::arm_view(#[trigger] done@[k]) == resolve_arm(
                        names,
                        views[k],
                    ),
                first_error_in_arms(names, views.take(i as int)) is None,
            decreases arms@.len() - i,
        {
            let arm = &arms[i];
            let ghost current = analyzed::arm_view(*arm);
            let ghost expected = first_error_in_arm(names, current);
            assert(views[i as int] == current);
            assert(views.take(i + 1).drop_last() =~= views.take(i as int));
            assert(views.take(i + 1).last() == current);
            let pattern = match &arm.pattern {
                MatchPattern::CatchAll => MatchPattern::CatchAll,
                MatchPattern::Pattern(e) => match self.resolve_expression(e) {
                    Err(error) => {
                        proof {
                            lemma_first_error_front_arms(names, views, i + 1);
                        }
                        return Err(error);
                    },
                    Ok(p) => MatchPattern::Pattern(p),
                },
            };
            match self.resolve_expression(&arm.value) {
                Err(error) => {
                    proof {
                        lemma_first_error_front_arms(names, views, i + 1);
                    }
                    return Err(error);
                },
                Ok(value) => {
                    done.push(MatchArm { pattern, value });
                    assert(analyzed::arm_view(done@[i as int]) == resolve_arm(names, current));
                },
            }
            i = i + 1;
        }
        assert(views.take(i as int) =~= views);
        assert(analyzed::arms_view(done@) =~= resolve_arms(names, views));
        Ok(done)
    }

    fn resolve_parts(&self, parts: &Vec<RepeatedArray<T>>) -> (result: Result<
        Vec<RepeatedArray<T>>,
        AnalysisError,
    >)
        requires
            self.wf(),
        ensures
            match result {
                Ok(new) => {
                    &&& analyzed::arrays_view(new@) == analyzed::arrays_view(parts@).map_values(
                        |part: RepeatedArrayView<T>| resolve_part(self.names(), part),
                    )
                    &&& first_error_in_parts(self.names(), analyzed::arrays_view(parts@)) is None
                },
                Err(error) => first_error_in_parts(
                    self.names(),
                    analyzed::arrays_view(parts@),
                ) == Some(error@),
            },
    {
        let ghost names = self.names();
        let ghost views = analyzed::arrays_view(parts@);
        let mut done: Vec<RepeatedArray<T>> = Vec::new();
        let mut i: usize = 0;
        assert(views.take(0).len() == 0);
        while i < parts.len()
            invariant
                self.wf(),
                names == self.names(),
                views == analyzed::arrays_view(parts@),
                i <= parts@.len(),
                done@.len() == i,
                forall|k: int|
                    0 <= k < i ==> (#[trigger] done@[k])@ == resolve_part(names, views[k]),
                first_error_in_parts(names, views.take(i as int)) is None,
            decreases parts@.len() - i,
        {
            let part = &parts[i];
            assert(views[i as int] == part@);
            assert(views.take(i + 1).drop_last() =~= views.take(i as int));
            match self.resolve_expressions(&part.pattern) {
                Err(error) => {
                    proof {
                        lemma_first_error_front_parts(names, views, i + 1);
                    }
                    return Err(error);
                },
                Ok(pattern) => {
                    done.push(RepeatedArray { pattern, size: part.size });
                },
            }
            i = i + 1;
        }
        assert(views.take(i as int) =~= views);
        assert(analyzed::arrays_view(done@) =~= views.map_values(
            |part: RepeatedArrayView<T>| resolve_part(names, part),
        ));
        Ok(done)
    }

    fn resolve_definition_value(&self, value: &FunctionValueDefinition<T>) -> (result: Result<
        FunctionValueDefinition<T>,
        AnalysisError,
    >)
        requires
            self.wf(),
        ensures
            match result {
                Ok(new) => {
                    &&& new@ == resolve_value(self.names(), value@)
                    &&& first_error_in_value(self.names(), value@) is None
                },
                Err(error) => first_error_in_value(self.names(), value@) == Some(error@),
            },
    {
        match value {
            FunctionValueDefinition::Mapping(e) => match self.resolve_expression(e) {
                Err(error) => Err(error),
                Ok(e) => Ok(FunctionValueDefinition::Mapping(e)),
            },
            FunctionValueDefinition::Array(parts) => match self.resolve_parts(parts) {
                Err(error) => Err(error),
                Ok(parts) => Ok(FunctionValueDefinition::Array(parts)),
            },
            FunctionValueDefinition::Query(e) => match self.resolve_expression(e) {
                Err(error) => Err(error),
                Ok(e) => Ok(FunctionValueDefinition::Query(e)),
            },
            FunctionValueDefinition::Expression(e) => match self.resolve_expression(e) {
                Err(error) => Err(error),
                Ok(e) => Ok(FunctionValueDefinition::Expression(e)),
            },
        }
    }

    fn resolve_side(&self, selected: &SelectedExpressions<Expression<T>>) -> (result: Result<
        SelectedExpressions<Expression<T>>,
        AnalysisError,
    >)
        requires
            self.wf(),
        ensures
            match result {
                Ok(new) => {
                    &&& new@ == resolve_selected(self.names(), selected@)
                    &&& first_error_in_selected(self.names(), selected@) is None
                },
                Err(error) => first_error_in_selected(self.names(), selected@) == Some(error@),
            },
    {
        let selector = match &selected.selector {
            None => None,
            Some(e) => match self.resolve_expression(e) {
                Err(error) => return Err(error),
                Ok(e) => Some(e),
            },
        };
        match self.resolve_expressions(&selected.expressions) {
            Err(error) => Err(error),
            Ok(expressions) => Ok(SelectedExpressions { selector, expressions }),
        }
    }

    fn resolve_definitions(&self) -> (result: Result<NameMap<Definition<T>>, AnalysisError>)
        requires
            self.wf(),
        ensures
            match result {
                Ok(new) => {
                    &&& new.wf()
                    &&& analyzed::definitions_view(new@) == self.names().definitions.map_values(
                        |definition: DefinitionView<T>|
                            resolve_definition(self.names(), definition),
                    )
                    &&& forall|name: Seq<char>| #[trigger]
                        self.names().definitions.contains_key(name) ==> first_error_in_definition(
                            self.names(),
                            self.names().definitions[name],
                        ) is None
                },
                Err(error) => exists|name: Seq<char>| #[trigger]
                    self.names().definitions.contains_key(name) && first_error_in_definition(
                        self.names(),
                        self.names().definitions[name],
                    ) == Some(error@),
            },
    {
        let ghost names = self.names();
        let ghost keys = self.definitions.names();
        proof {
            self.definitions.lemma_names();
        }
        let mut done: NameMap<Definition<T>> = NameMap::new();
        let count: usize = self.definitions.len();
        let mut i: usize = 0;
        while i < count
            invariant
                self.wf(),
                done.wf(),
                names == self.names(),
                keys == self.definitions.names(),
                keys.no_duplicates(),
                count == keys.len(),
                i <= count,
                done.names() == keys.take(i as int),
                forall|k: int|
                    0 <= k < i ==> {
                        &&& analyzed::definition_view(done@[#[trigger] keys[k]]) == resolve_definition(
                            names,
                            names.definitions[keys[k]],
                        )
                        &&& first_error_in_definition(names, names.definitions[keys[k]]) is None
                    },
            decreases count - i,
        {
            let name = self.definitions.name_at(i);
            let definition = self.definitions.value_at(i);
            assert(names.definitions.contains_key(name@));
            assert(names.definitions[name@] == analyzed::definition_view(*definition));
            let value = match &definition.1 {
                None => None,
                Some(value) => match self.resolve_definition_value(value) {
                    Err(error) => {
                        return Err(error);
                    },
                    Ok(value) => Some(value),
                },
            };
            proof {
                done.lemma_contains(name@);
                if keys.take(i as int).contains(name@) {
                    let k = choose|k: int| 0 <= k < i && keys.take(i as int)[k] == name@;
                    assert(keys[k] == keys[i as int]);
                }
            }
            done.insert(name.clone(), (definition.0.clone(), value));
            assert(keys.take(i + 1) =~= keys.take(i as int).push(keys[i as int]));
            i = i + 1;
        }
        assert(keys.take(i as int) =~= keys);
        proof {
            assert forall|name: Seq<char>| #[trigger]
                names.definitions.contains_key(name) implies done@.contains_key(name)
                && analyzed::definition_view(done@[name]) == resolve_definition(
                names,
                names.definitions[name],
            ) && first_error_in_definition(names, names.definitions[name]) is None by {
                self.definitions.lemma_contains(name);
                done.lemma_contains(name);
                let k = choose|k: int| 0 <= k < keys.len() && keys[k] == name;
                assert(analyzed::definition_view(done@[keys[k]]) == resolve_definition(
                    names,
                    names.definitions[keys[k]],
                ));
            }
            assert forall|name: Seq<char>| #[trigger] done@.contains_key(name) implies
                names.definitions.contains_key(name) by {
                self.definitions.lemma_contains(name);
                done.lemma_contains(name);
            }
            assert(analyzed::definitions_view(done@) =~= names.definitions.map_values(
                |definition: DefinitionView<T>| resolve_definition(names, definition),
            ));
        }
        Ok(done)
    }

    fn resolve_declarations(&self, declarations: &NameMap<PublicDeclaration>) -> (result: Result<
        NameMap<PublicDeclaration>,
        AnalysisError,
    >)
        requires
            self.wf(),
            declarations.wf(),
        ensures
            match result {
                Ok(new) => {
                    &&& new.wf()
                    &&& analyzed::declarations_view(new@) == analyzed::declarations_view(
                        declarations@,
                    ).map_values(
                        |declaration: PublicDeclarationView|
                            resolve_declaration(self.names(), declaration),
                    )
                    &&& forall|name: Seq<char>| #[trigger]
                        analyzed::declarations_view(declarations@).contains_key(name)
                            ==> first_error_in_declaration(
                            self.names(),
                            analyzed::declarations_view(declarations@)[name],
                        ) is None
                },
                Err(error) => exists|name: Seq<char>| #[trigger]
                    analyzed::declarations_view(declarations@).contains_key(name)
                        && first_error_in_declaration(
                        self.names(),
                        analyzed::declarations_view(declarations@)[name],
                    ) == Some(error@),
            },
    {
        let ghost names = self.names();
        let ghost keys = declarations.names();
        let ghost views = analyzed::declarations_view(declarations@);
        proof {
            declarations.lemma_names();
        }
        let mut done: NameMap<PublicDeclaration> = NameMap::new();
        let count: usize = declarations.len();
        let mut i: usize = 0;
        while i < count
            invariant
                self.wf(),
                declarations.wf(),
                done.wf(),
                names == self.names(),
                keys == declarations.names(),
                views == analyzed::declarations_view(declarations@),
                keys.no_duplicates(),
                count == keys.len(),
                i <= count,
                done.names() == keys.take(i as int),
                forall|k: int|
                    0 <= k < i ==> {
                        &&& done@[#[trigger] keys[k]]@ == resolve_declaration(
                            names,
                            views[keys[k]],
                        )
                        &&& first_error_in_declaration(names, views[keys[k]]) is None
                    },
            decreases count - i,
        {
            let name = declarations.name_at(i);
            let declaration = declarations.value_at(i);
            assert(views.contains_key(name@));
            assert(views[name@] == declaration@);
            let polynomial = match self.assign_id(&declaration.polynomial) {
                Err(error) => {
                    return Err(error);
                },
                Ok(polynomial) => polynomial,
            };
            proof {
                done.lemma_contains(name@);
                if keys.take(i as int).contains(name@) {
                    let k = choose|k: int| 0 <= k < i && keys.take(i as int)[k] == name@;
                    assert(keys[k] == keys[i as int]);
                }
            }
            done.insert(
                name.clone(),
                PublicDeclaration {
                    id: declaration.id,
                    source: declaration.source.clone(),
                    name: declaration.name.clone(),
                    polynomial,
                    index: declaration.index,
                },
            );
            assert(keys.take(i + 1) =~= keys.take(i as int).push(keys[i as int]));
            i = i + 1;
        }
        assert(keys.take(i as int) =~= keys);
        proof {
            assert forall|name: Seq<char>| #[trigger] views.contains_key(name) implies done@.contains_key(
                name,
            ) && done@[name]@ == resolve_declaration(names, views[name])
                && first_error_in_declaration(names, views[name]) is None by {
                declarations.lemma_contains(name);
                done.lemma_contains(name);
                let k = choose|k: int| 0 <= k < keys.len() && keys[k] == name;
                assert(done@[keys[k]]@ == resolve_declaration(names, views[keys[k]]));
            }
            assert forall|name: Seq<char>| #[trigger] done@.contains_key(name) implies views.contains_key(
                name,
            ) by {
                declarations.lemma_contains(name);
                done.lemma_contains(name);
            }
            assert(analyzed::declarations_view(done@) =~= views.map_values(
                |declaration: PublicDeclarationView| resolve_declaration(names, declaration),
            ));
        }
        Ok(done)
    }

    fn resolve_identities(&self, identities: &Vec<Identity<T>>) -> (result: Result<
        Vec<Identity<T>>,
        AnalysisError,
    >)
        requires
            self.wf(),
        ensures
            match result {
                Ok(new) => {
                    &&& analyzed::identities_view(new@) == analyzed::identities_view(
                        identities@,
                    ).map_values(
                        |identity: IdentityView<T>| resolve_identity(self.names(), identity),
                    )
                    &&& forall|i: int|
                        0 <= i < identities@.len() ==> first_error_in_identity(
                            self.names(),
                            #[trigger] analyzed::identities_view(identities@)[i],
                        ) is None
                },
                Err(error) => exists|i: int|
                    0 <= i < identities@.len() && first_error_in_identity(
                        self.names(),
                        #[trigger] analyzed::identities_view(identities@)[i],
                    ) == Some(error@),
            },
    {
        let ghost names = self.names();
        let ghost views = analyzed::identities_view(identities@);
        let mut done: Vec<Identity<T>> = Vec::new();
        let mut i: usize = 0;
        while i < identities.len()
            invariant
                self.wf(),
                names == self.names(),
                views == analyzed::identities_view(identities@),
                i <= identities@.len(),
                done@.len() == i,
                forall|k: int|
                    0 <= k < i ==> {
                        &&& (#[trigger] done@[k])@ == resolve_identity(names, views[k])
                        &&& first_error_in_identity(names, views[k]) is None
                    },
            decreases identities@.len() - i,
        {
            let identity = &identities[i];
            assert(views[i as int] == identity@);
            let left = match self.resolve_side(&identity.left) {
                Err(error) => {
                    return Err(error);
                },
                Ok(left) => left,
            };
            let right = match self.resolve_side(&identity.right) {
                Err(error) => {
                    return Err(error);
                },
                Ok(right) => right,
            };
            done.push(
                Identity {
                    id: identity.id,
                    kind: identity.kind,
                    source: identity.source.clone(),
                    left,
                    right,
                },
            );
            i = i + 1;
        }
        assert(analyzed::identities_view(done@) =~= views.map_values(
            |identity: IdentityView<T>| resolve_identity(names, identity),
        ));
        assert forall|k: int| 0 <= k < identities@.len() implies first_error_in_identity(
            names,
            #[trigger] views[k],
        ) is None by {
            assert(done@[k]@ == resolve_identity(names, views[k]));
        }
        Ok(done)
    }
}

impl<T: Copy> Analyzed<T> {
    /// The program that `analyzer` has gathered, with an id in every reference to
    /// a column.
    pub fn from(analyzer: PILAnalyzer<T>) -> (result: Result<Analyzed<T>, AnalysisError>)
        requires
            analyzer.wf(),
        ensures
            match result {
                Ok(analyzed) => {
                    &&& analyzed.wf()
                    &&& analyzed@ == resolve_program(analyzer@)
                    &&& all_resolved(analyzer@)
                },
                Err(error) => is_error_of(analyzer@, error@),
            },
    {
        let resolver = Resolver {
            constants: &analyzer.constants,
            definitions: &analyzer.definitions,
        };
        assert(resolver.names() == names_of(analyzer@));
        let definitions = match resolver.resolve_definitions() {
            Err(error) => {
                return Err(error);
            },
            Ok(definitions) => definitions,
        };
        let identities = match resolver.resolve_identities(&analyzer.identities) {
            Err(error) => {
                return Err(error);
            },
            Ok(identities) => identities,
        };
        let public_declarations = match resolver.resolve_declarations(
            &analyzer.public_declarations,
        ) {
            Err(error) => {
                return Err(error);
            },
            Ok(declarations) => declarations,
        };
        let analyzed = Analyzed {
            constants: analyzer.constants,
            definitions,
            public_declarations,
            identities,
            source_order: analyzer.source_order,
        };
        assert(analyzed@ =~= resolve_program(analyzer@));
        Ok(analyzed)
    }
}

} // verus!
