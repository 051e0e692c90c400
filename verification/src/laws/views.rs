//! What the mathematical counterparts of values hold.
use vstd::prelude::*;

use crate::analyzed;
use crate::analyzed::{
    Analyzed, Definition, Expression, ExpressionView, FunctionValueDefinition,
    FunctionValueDefinitionView, Identity, MatchArmView, PolynomialReference, PublicDeclaration,
    Reference, ReferenceView, RepeatedArray, SourceRef, StatementIdentifier,
    StatementIdentifierView, Symbol,
};
use crate::error::{AnalysisError, AnalysisErrorView};
use crate::inliner;
use crate::parsed::{MatchArm, MatchPattern, SelectedExpressions};
use crate::pil_analyzer;

verus! {

/// Each string stands for its characters, in its place.
pub proof fn lemma_strings(strings: Seq<String>, file: Option<String>)
    ensures
        analyzed::strings_view(strings).len() == strings.len(),
        forall|i: int|
            0 <= i < strings.len() ==> #[trigger] analyzed::strings_view(strings)[i]
                == strings[i]@,
        pil_analyzer::file_view(file) is Some <==> file is Some,
        file matches Some(name) ==> pil_analyzer::file_view(file) == Some(name@),
{
}

/// A reference stands for all that it holds.
pub proof fn lemma_references(poly: PolynomialReference, reference: Reference)
    ensures
        poly@.name == poly.name@,
        poly@.poly_id == poly.poly_id,
        poly@.index == poly.index,
        poly@.next == poly.next,
        match reference {
            Reference::LocalVar(id, name) => {
                &&& reference@ matches ReferenceView::LocalVar(same, characters)
                &&& same == id
                &&& characters == name@
            },
            Reference::Poly(p) => {
                &&& reference@ matches ReferenceView::Poly(view)
                &&& view == p@
            },
        },
{
}

/// Each expression of `views` is what stands for that of `items` in its place.
pub open spec fn each_viewed<T>(
    items: Seq<Expression<T>>,
    views: Seq<ExpressionView<T>>,
) -> bool {
    &&& views.len() == items.len()
    &&& forall|i: int| 0 <= i < items.len() ==> #[trigger] views[i] == items[i]@
}

/// `view` is what stands for the arm.
pub open spec fn arm_viewed<T>(arm: MatchArm<Expression<T>>, view: MatchArmView<T>) -> bool {
    &&& view.value == arm.value@
    &&& match arm.pattern {
        MatchPattern::CatchAll => view.pattern is None,
        MatchPattern::Pattern(e) => view.pattern == Some(e@),
    }
}

/// An expression stands for what its form and its parts stand for.
pub proof fn lemma_expressions<T>(e: Expression<T>)
    ensures
        match e {
            Expression::Constant(name) => {
                &&& e@ matches ExpressionView::Constant(characters)
                &&& characters == name@
            },
            Expression::Reference(reference) => {
                &&& e@ matches ExpressionView::Reference(view)
                &&& view == reference@
            },
            Expression::PublicReference(name) => {
                &&& e@ matches ExpressionView::PublicReference(characters)
                &&& characters == name@
            },
            Expression::Number(n) => {
                &&& e@ matches ExpressionView::Number(same)
                &&& same == n
            },
            Expression::String(s) => {
                &&& e@ matches ExpressionView::String(characters)
                &&& characters == s@
            },
            Expression::Tuple(items) => {
                &&& e@ matches ExpressionView::Tuple(views)
                &&& each_viewed(items@, views)
            },
            Expression::ArrayLiteral(array) => {
                &&& e@ matches ExpressionView::ArrayLiteral(views)
                &&& each_viewed(array.items@, views)
            },
            Expression::LambdaExpression(lambda) => {
                &&& e@ matches ExpressionView::LambdaExpression(params, body)
                &&& params == analyzed::strings_view(lambda.params@)
                &&& *body == (*lambda.body)@
            },
            Expression::BinaryOperation(left, op, right) => {
                &&& e@ matches ExpressionView::BinaryOperation(l, same, r)
                &&& same == op
                &&& *l == (*left)@
                &&& *r == (*right)@
            },
            Expression::UnaryOperation(op, value) => {
                &&& e@ matches ExpressionView::UnaryOperation(same, v)
                &&& same == op
                &&& *v == (*value)@
            },
            Expression::FunctionCall(call) => {
                &&& e@ matches ExpressionView::FunctionCall(id, views)
                &&& id == call.id@
                &&& each_viewed(call.arguments@, views)
            },
            Expression::MatchExpression(scrutinee, arms) => {
                &&& e@ matches ExpressionView::MatchExpression(s, views)
                &&& *s == (*scrutinee)@
                &&& views.len() == arms@.len()
                &&& forall|i: int|
                    0 <= i < arms@.len() ==> arm_viewed(arms@[i], #[trigger] views[i])
            },
        },
{
    match e {
        Expression::Tuple(items) => {
            lemma_items(items@);
        },
        Expression::ArrayLiteral(array) => {
            lemma_items(array.items@);
        },
        Expression::FunctionCall(call) => {
            lemma_items(call.arguments@);
        },
        Expression::MatchExpression(_, arms) => {
            let views = analyzed::arms_view(arms@);
            assert forall|i: int| 0 <= i < arms@.len() implies arm_viewed(
                arms@[i],
                #[trigger] views[i],
            ) by {
                assert(views[i] == analyzed::arm_view(arms@[i]));
            }
        },
        _ => {},
    }
}

proof fn lemma_items<T>(items: Seq<Expression<T>>)
    ensures
        each_viewed(items, analyzed::expressions_view(items)),
{
}

/// A list of expressions stands for what each of them stands for, in its place.
pub proof fn lemma_lists<T>(items: Seq<Expression<T>>, table: Map<u64, Expression<T>>)
    ensures
        each_viewed(items, analyzed::expressions_view(items)),
        forall|id: u64|
            #![trigger inliner::table_view(table).contains_key(id)]
            #![trigger table.contains_key(id)]
            {
                &&& inliner::table_view(table).contains_key(id) <==> table.contains_key(id)
                &&& table.contains_key(id) ==> inliner::table_view(table)[id] == table[id]@
            },
{
}

/// A symbol stands for all that it holds.
pub proof fn lemma_symbols(source: SourceRef, symbol: Symbol)
    ensures
        source@.line == source.line,
        source@.file == source.file@,
        symbol@.id == symbol.id,
        symbol@.source == symbol.source@,
        symbol@.absolute_name == symbol.absolute_name@,
        symbol@.degree == symbol.degree,
        symbol@.kind == symbol.kind,
        symbol@.length == symbol.length,
{
}

/// The value of a symbol stands for what its form and its expressions stand for.
pub proof fn lemma_values<T>(value: FunctionValueDefinition<T>, part: RepeatedArray<T>)
    ensures
        part@.size == part.size,
        each_viewed(part.pattern@, part@.pattern),
        match value {
            FunctionValueDefinition::Mapping(e) => {
                &&& value@ matches FunctionValueDefinitionView::Mapping(view)
                &&& view == e@
            },
            FunctionValueDefinition::Query(e) => {
                &&& value@ matches FunctionValueDefinitionView::Query(view)
                &&& view == e@
            },
            FunctionValueDefinition::Expression(e) => {
                &&& value@ matches FunctionValueDefinitionView::Expression(view)
                &&& view == e@
            },
            FunctionValueDefinition::Array(parts) => {
                &&& value@ matches FunctionValueDefinitionView::Array(views)
                &&& views.len() == parts@.len()
                &&& forall|i: int| 0 <= i < parts@.len() ==> #[trigger] views[i] == parts@[i]@
            },
        },
{
}

/// Definitions and public declarations stand for all that they hold.
pub proof fn lemma_definitions<T>(definition: Definition<T>, declaration: PublicDeclaration)
    ensures
        analyzed::definition_view(definition).0 == definition.0@,
        analyzed::definition_view(definition).1 is Some <==> definition.1 is Some,
        definition.1 matches Some(value) ==> analyzed::definition_view(definition).1 == Some(
            value@,
        ),
        declaration@.id == declaration.id,
        declaration@.source == declaration.source@,
        declaration@.name == declaration.name@,
        declaration@.polynomial == declaration.polynomial@,
        declaration@.index == declaration.index,
{
}

/// An identity stands for all that it holds.
pub proof fn lemma_identities<T>(
    identity: Identity<T>,
    selected: SelectedExpressions<Expression<T>>,
)
    ensures
        identity@.id == identity.id,
        identity@.kind == identity.kind,
        identity@.source == identity.source@,
        identity@.left == identity.left@,
        identity@.right == identity.right@,
        selected@.selector is Some <==> selected.selector is Some,
        selected.selector matches Some(e) ==> selected@.selector == Some(e@),
        each_viewed(selected.expressions@, selected@.expressions),
{
}

/// A program stands for all that it holds, each thing under its name or in its
/// place.
pub proof fn lemma_programs<T>(program: Analyzed<T>, statement: StatementIdentifier)
    ensures
        program@.constants == program.constants@,
        forall|name: Seq<char>|
            #![trigger program@.definitions.contains_key(name)]
            #![trigger program.definitions@.contains_key(name)]
            {
                &&& program@.definitions.contains_key(name)
                    <==> program.definitions@.contains_key(name)
                &&& program.definitions@.contains_key(name) ==> program@.definitions[name]
                    == analyzed::definition_view(program.definitions@[name])
            },
        forall|name: Seq<char>|
            #![trigger program@.public_declarations.contains_key(name)]
            #![trigger program.public_declarations@.contains_key(name)]
            {
                &&& program@.public_declarations.contains_key(name)
                    <==> program.public_declarations@.contains_key(name)
                &&& program.public_declarations@.contains_key(name)
                    ==> program@.public_declarations[name] == program.public_declarations@[name]@
            },
        program@.identities.len() == program.identities@.len(),
        forall|i: int|
            0 <= i < program.identities@.len() ==> #[trigger] program@.identities[i]
                == program.identities@[i]@,
        program@.source_order.len() == program.source_order@.len(),
        forall|i: int|
            0 <= i < program.source_order@.len() ==> #[trigger] program@.source_order[i]
                == program.source_order@[i]@,
        match statement {
            StatementIdentifier::Definition(name) => {
                &&& statement@ matches StatementIdentifierView::Definition(characters)
                &&& characters == name@
            },
            StatementIdentifier::PublicDeclaration(name) => {
                &&& statement@ matches StatementIdentifierView::PublicDeclaration(characters)
                &&& characters == name@
            },
            StatementIdentifier::Identity(position) => {
                &&& statement@ matches StatementIdentifierView::Identity(same)
                &&& same == position
            },
        },
{
}

/// An error stands for the rule that was broken and the name that broke it.
pub proof fn lemma_errors(error: AnalysisError)
    ensures
        match error {
            AnalysisError::ConstantNotFound(name) => error@ matches
                AnalysisErrorView::ConstantNotFound(characters) && characters == name@,
            AnalysisError::FreeInput => error@ is FreeInput,
            AnalysisError::NotConstant => error@ is NotConstant,
            AnalysisError::UndefinedOperation => error@ is UndefinedOperation,
            AnalysisError::DegreeTooLarge => error@ is DegreeTooLarge,
            AnalysisError::NamespacedConstant(name) => error@ matches
                AnalysisErrorView::NamespacedConstant(characters) && characters == name@,
            AnalysisError::ShiftedLocalVariable(name) => error@ matches
                AnalysisErrorView::ShiftedLocalVariable(characters) && characters == name@,
            AnalysisError::IndexedLocalVariable(name) => error@ matches
                AnalysisErrorView::IndexedLocalVariable(characters) && characters == name@,
            AnalysisError::TooManyLocalVariables => error@ is TooManyLocalVariables,
            AnalysisError::ArraySizeWithValue => error@ is ArraySizeWithValue,
            AnalysisError::DefinitionKindMismatch => error@ is DefinitionKindMismatch,
            AnalysisError::RepeatedMoreThanOnce => error@ is RepeatedMoreThanOnce,
            AnalysisError::ArrayTooLarge => error@ is ArrayTooLarge,
            AnalysisError::EmptyPattern => error@ is EmptyPattern,
            AnalysisError::ArraySizeMismatch => error@ is ArraySizeMismatch,
            AnalysisError::TooManySymbols => error@ is TooManySymbols,
            AnalysisError::AlreadyDefined(name) => error@ matches
                AnalysisErrorView::AlreadyDefined(characters) && characters == name@,
            AnalysisError::ConstantDefinedTwice(name) => error@ matches
                AnalysisErrorView::ConstantDefinedTwice(characters) && characters == name@,
            AnalysisError::NoFileName => error@ is NoFileName,
            AnalysisError::MacroNotExpanded => error@ is MacroNotExpanded,
            AnalysisError::NotAnIdentity => error@ is NotAnIdentity,
            AnalysisError::NotOnePolynomial => error@ is NotOnePolynomial,
            AnalysisError::ColumnNotFound(name) => error@ matches
                AnalysisErrorView::ColumnNotFound(characters) && characters == name@,
            AnalysisError::NotAColumn(name) => error@ matches AnalysisErrorView::NotAColumn(
                characters,
            ) && characters == name@,
        },
{
}

} // verus!
