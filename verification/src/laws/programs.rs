//! What analyzed programs are like.
use vstd::prelude::*;

use crate::analyzed::{
    AnalyzedView, DefinitionView, ExpressionView, FunctionValueDefinitionView, MatchArmView, PolyID,
    PolynomialReferenceView, PolynomialType, ReferenceView, RepeatedArrayView,
    SelectedExpressionsView, StatementIdentifierView, SymbolKind,
};
use crate::error::AnalysisErrorView;
use crate::inliner;
use crate::laws::inlining;
use crate::laws::states;
use crate::number::FieldElement;
use crate::parsed::{PilFile, PilStatement};
use crate::pil_analyzer;
use crate::pil_analyzer::AnalyzerView;
use crate::pil_analyzer::resolution;
use crate::pil_analyzer::resolution::Names;
use crate::pil_analyzer::statements;

verus! {

/// The reference names a constant, or has the id of the column that it names.
pub open spec fn reference_carries_id<T>(
    names: Names<T>,
    reference: PolynomialReferenceView,
) -> bool {
    names.constants.contains_key(reference.name) || (reference.poly_id matches Some(id)
        && resolution::column_id(names, reference.name) == Ok::<
        PolyID,
        AnalysisErrorView,
    >(id))
}

/// Every reference in `e` that does not name a constant has the id of the column
/// that it names.
pub open spec fn carries_ids<T>(names: Names<T>, e: ExpressionView<T>) -> bool
    decreases e,
{
    match e {
        ExpressionView::Reference(ReferenceView::Poly(reference)) => reference_carries_id(
            names,
            reference,
        ),
        ExpressionView::Tuple(items) => all_carry_ids(names, items),
        ExpressionView::ArrayLiteral(items) => all_carry_ids(names, items),
        ExpressionView::LambdaExpression(_, body) => carries_ids(names, *body),
        ExpressionView::BinaryOperation(left, _, right) => carries_ids(names, *left)
            && carries_ids(names, *right),
        ExpressionView::UnaryOperation(_, value) => carries_ids(names, *value),
        ExpressionView::FunctionCall(_, arguments) => all_carry_ids(names, arguments),
        ExpressionView::MatchExpression(scrutinee, arms) => carries_ids(names, *scrutinee)
            && arms_carry_ids(names, arms),
        _ => true,
    }
}

pub open spec fn all_carry_ids<T>(names: Names<T>, items: Seq<ExpressionView<T>>) -> bool
    decreases items,
{
    forall|i: int| 0 <= i < items.len() ==> carries_ids(names, #[trigger] items[i])
}

pub open spec fn arm_carries_ids<T>(names: Names<T>, arm: MatchArmView<T>) -> bool
    decreases arm,
{
    &&& arm.pattern matches Some(e) ==> carries_ids(names, e)
    &&& carries_ids(names, arm.value)
}

pub open spec fn arms_carry_ids<T>(names: Names<T>, arms: Seq<MatchArmView<T>>) -> bool
    decreases arms,
{
    forall|i: int| 0 <= i < arms.len() ==> arm_carries_ids(names, #[trigger] arms[i])
}

/// Both know the same constants, and the same columns with the same ids.
pub open spec fn same_names<T>(a: Names<T>, b: Names<T>) -> bool {
    &&& a.constants == b.constants
    &&& forall|name: Seq<char>|
        resolution::column_id(a, name) == #[trigger] resolution::column_id(b, name)
}

proof fn lemma_no_error_in_items<T>(names: Names<T>, items: Seq<ExpressionView<T>>, i: int)
    requires
        resolution::first_error_in(names, items) is None,
        0 <= i < items.len(),
    ensures
        resolution::first_error(names, items[i]) is None,
    decreases items.len(),
{
    if i < items.len() - 1 {
        lemma_no_error_in_items(names, items.drop_last(), i);
    }
}

proof fn lemma_no_error_in_arms<T>(names: Names<T>, arms: Seq<MatchArmView<T>>, i: int)
    requires
        resolution::first_error_in_arms(names, arms) is None,
        0 <= i < arms.len(),
    ensures
        resolution::first_error_in_arm(names, arms[i]) is None,
    decreases arms.len(),
{
    if i < arms.len() - 1 {
        lemma_no_error_in_arms(names, arms.drop_last(), i);
    }
}

proof fn lemma_no_error_in_parts<T>(names: Names<T>, parts: Seq<RepeatedArrayView<T>>, i: int)
    requires
        resolution::first_error_in_parts(names, parts) is None,
        0 <= i < parts.len(),
    ensures
        resolution::first_error_in(names, parts[i].pattern) is None,
    decreases parts.len(),
{
    if i < parts.len() - 1 {
        lemma_no_error_in_parts(names, parts.drop_last(), i);
    }
}

proof fn lemma_resolved<T>(names: Names<T>, after: Names<T>, e: ExpressionView<T>)
    requires
        resolution::first_error(names, e) is None,
        same_names(names, after),
    ensures
        carries_ids(after, resolution::resolve(names, e)),
    decreases e,
{
    match e {
        ExpressionView::Reference(ReferenceView::Poly(reference)) => {
            assert(resolution::column_id(names, reference.name) == resolution::column_id(
                after,
                reference.name,
            ));
        },
        ExpressionView::Tuple(items) => {
            lemma_all_resolved(names, after, items);
        },
        ExpressionView::ArrayLiteral(items) => {
            lemma_all_resolved(names, after, items);
        },
        ExpressionView::LambdaExpression(_, body) => {
            lemma_resolved(names, after, *body);
        },
        ExpressionView::BinaryOperation(left, _, right) => {
            lemma_resolved(names, after, *left);
            lemma_resolved(names, after, *right);
        },
        ExpressionView::UnaryOperation(_, value) => {
            lemma_resolved(names, after, *value);
        },
        ExpressionView::FunctionCall(_, arguments) => {
            lemma_all_resolved(names, after, arguments);
        },
        ExpressionView::MatchExpression(scrutinee, arms) => {
            lemma_resolved(names, after, *scrutinee);
            lemma_arms_resolved(names, after, arms);
        },
        _ => {},
    }
}

proof fn lemma_all_resolved<T>(names: Names<T>, after: Names<T>, items: Seq<ExpressionView<T>>)
    requires
        resolution::first_error_in(names, items) is None,
        same_names(names, after),
    ensures
        all_carry_ids(after, resolution::resolve_all(names, items)),
    decreases items,
{
    let done = resolution::resolve_all(names, items);
    assert forall|i: int| 0 <= i < done.len() implies carries_ids(after, #[trigger] done[i]) by {
        lemma_no_error_in_items(names, items, i);
        lemma_resolved(names, after, items[i]);
    }
}

proof fn lemma_arms_resolved<T>(names: Names<T>, after: Names<T>, arms: Seq<MatchArmView<T>>)
    requires
        resolution::first_error_in_arms(names, arms) is None,
        same_names(names, after),
    ensures
        arms_carry_ids(after, resolution::resolve_arms(names, arms)),
    decreases arms,
{
    let done = resolution::resolve_arms(names, arms);
    assert forall|i: int| 0 <= i < done.len() implies arm_carries_ids(
        after,
        #[trigger] done[i],
    ) by {
        let arm = arms[i];
        lemma_no_error_in_arms(names, arms, i);
        if let Some(pattern) = arm.pattern {
            lemma_resolved(names, after, pattern);
        }
        lemma_resolved(names, after, arm.value);
        assert(done[i] == resolution::resolve_arm(names, arm));
    }
}

/// The names that a finished program knows.
pub open spec fn program_names<T>(program: AnalyzedView<T>) -> Names<T> {
    Names { constants: program.constants, definitions: program.definitions }
}

pub open spec fn value_carries_ids<T>(
    names: Names<T>,
    value: FunctionValueDefinitionView<T>,
) -> bool {
    match value {
        FunctionValueDefinitionView::Mapping(e) => carries_ids(names, e),
        FunctionValueDefinitionView::Array(parts) => forall|i: int|
            0 <= i < parts.len() ==> all_carry_ids(names, (#[trigger] parts[i]).pattern),
        FunctionValueDefinitionView::Query(e) => carries_ids(names, e),
        FunctionValueDefinitionView::Expression(e) => carries_ids(names, e),
    }
}

pub open spec fn selected_carries_ids<T>(
    names: Names<T>,
    selected: SelectedExpressionsView<T>,
) -> bool {
    &&& selected.selector matches Some(e) ==> carries_ids(names, e)
    &&& all_carry_ids(names, selected.expressions)
}

/// Every reference of the program that does not name a constant has the id of
/// the column that it names. That of a public declaration has it in any case.
pub open spec fn program_carries_ids<T>(program: AnalyzedView<T>) -> bool {
    let names = program_names(program);
    &&& forall|name: Seq<char>| #[trigger]
        program.definitions.contains_key(name) ==> (program.definitions[name].1 matches Some(value)
            ==> value_carries_ids(names, value))
    &&& forall|i: int|
        0 <= i < program.identities.len() ==> {
            &&& selected_carries_ids(names, (#[trigger] program.identities[i]).left)
            &&& selected_carries_ids(names, program.identities[i].right)
        }
    &&& forall|name: Seq<char>| #[trigger]
        program.public_declarations.contains_key(name) ==> {
            let reference = program.public_declarations[name].polynomial;
            &&& reference.poly_id matches Some(id)
            &&& resolution::column_id(names, reference.name) == Ok::<
                PolyID,
                AnalysisErrorView,
            >(id)
        }
}

/// The symbols are those of the state, so names mean what they meant there.
proof fn lemma_same_names<T>(s: AnalyzerView<T>)
    ensures
        same_names(resolution::names_of(s), program_names(resolution::resolve_program(s))),
{
    let before = resolution::names_of(s);
    let after = program_names(resolution::resolve_program(s));
    assert forall|name: Seq<char>|
        resolution::column_id(before, name) == #[trigger] resolution::column_id(after, name) by {
        assert(before.definitions.contains_key(name) <==> after.definitions.contains_key(name));
        if before.definitions.contains_key(name) {
            assert(after.definitions[name].0 == before.definitions[name].0);
        }
    }
}

proof fn lemma_value_resolved<T>(
    names: Names<T>,
    after: Names<T>,
    value: FunctionValueDefinitionView<T>,
)
    requires
        resolution::first_error_in_value(names, value) is None,
        same_names(names, after),
    ensures
        value_carries_ids(after, resolution::resolve_value(names, value)),
{
    match value {
        FunctionValueDefinitionView::Mapping(e) => {
            lemma_resolved(names, after, e);
        },
        FunctionValueDefinitionView::Array(parts) => {
            let done = resolution::resolve_value(names, value)->Array_0;
            assert forall|i: int| 0 <= i < done.len() implies all_carry_ids(
                after,
                (#[trigger] done[i]).pattern,
            ) by {
                lemma_no_error_in_parts(names, parts, i);
                lemma_all_resolved(names, after, parts[i].pattern);
            }
        },
        FunctionValueDefinitionView::Query(e) => {
            lemma_resolved(names, after, e);
        },
        FunctionValueDefinitionView::Expression(e) => {
            lemma_resolved(names, after, e);
        },
    }
}

proof fn lemma_selected_resolved<T>(
    names: Names<T>,
    after: Names<T>,
    selected: SelectedExpressionsView<T>,
)
    requires
        resolution::first_error_in_selected(names, selected) is None,
        same_names(names, after),
    ensures
        selected_carries_ids(after, resolution::resolve_selected(names, selected)),
{
    if let Some(e) = selected.selector {
        lemma_resolved(names, after, e);
    }
    lemma_all_resolved(names, after, selected.expressions);
}

/// In the program that comes of a state without unresolved references, every
/// reference to a column has its id.
pub proof fn lemma_program_carries_ids<T>(s: AnalyzerView<T>)
    requires
        resolution::all_resolved(s),
    ensures
        program_carries_ids(resolution::resolve_program(s)),
{
    let names = resolution::names_of(s);
    let program = resolution::resolve_program(s);
    let after = program_names(program);
    lemma_same_names(s);
    assert forall|name: Seq<char>| #[trigger] program.definitions.contains_key(name) implies (
    program.definitions[name].1 matches Some(value) ==> value_carries_ids(after, value)) by {
        assert(s.definitions.contains_key(name));
        if let Some(value) = s.definitions[name].1 {
            lemma_value_resolved(names, after, value);
        }
    }
    assert forall|i: int| 0 <= i < program.identities.len() implies selected_carries_ids(
        after,
        (#[trigger] program.identities[i]).left,
    ) && selected_carries_ids(after, program.identities[i].right) by {
        assert(resolution::first_error_in_identity(names, s.identities[i]) is None);
        lemma_selected_resolved(names, after, s.identities[i].left);
        lemma_selected_resolved(names, after, s.identities[i].right);
    }
    assert forall|name: Seq<char>| #[trigger]
        program.public_declarations.contains_key(name) implies {
        let reference = program.public_declarations[name].polynomial;
        &&& reference.poly_id matches Some(id)
        &&& resolution::column_id(after, reference.name) == Ok::<
            PolyID,
            AnalysisErrorView,
        >(id)
    } by {
        assert(s.public_declarations.contains_key(name));
        let before = s.public_declarations[name].polynomial;
        assert(resolution::column_id(names, before.name) == resolution::column_id(
            after,
            before.name,
        ));
    }
}

/// The assignment of ids changes nothing but ids: the program has the names, the
/// symbols, the order, the constants and the identities of the state.
pub proof fn lemma_program_keeps<T>(s: AnalyzerView<T>)
    ensures
        ({
            let program = resolution::resolve_program(s);
            &&& program.constants == s.constants
            &&& program.source_order == s.source_order
            &&& program.definitions.dom() == s.definitions.dom()
            &&& forall|name: Seq<char>| #[trigger]
                s.definitions.contains_key(name) ==> program.definitions[name].0
                    == s.definitions[name].0
            &&& program.public_declarations.dom() == s.public_declarations.dom()
            &&& program.identities.len() == s.identities.len()
            &&& forall|i: int|
                0 <= i < s.identities.len() ==> {
                    &&& (#[trigger] program.identities[i]).id == s.identities[i].id
                    &&& program.identities[i].kind == s.identities[i].kind
                    &&& program.identities[i].source == s.identities[i].source
                }
        }),
{
    let program = resolution::resolve_program(s);
    assert(program.definitions.dom() =~= s.definitions.dom());
    assert(program.public_declarations.dom() =~= s.public_declarations.dom());
}

/// Assigning ids a second time changes nothing.
pub proof fn lemma_resolved_once<T>(names: Names<T>, e: ExpressionView<T>)
    ensures
        resolution::resolve(names, resolution::resolve(names, e)) == resolution::resolve(names, e),
    decreases e,
{
    match e {
        ExpressionView::Tuple(items) => {
            lemma_all_resolved_once(names, items);
        },
        ExpressionView::ArrayLiteral(items) => {
            lemma_all_resolved_once(names, items);
        },
        ExpressionView::LambdaExpression(_, body) => {
            lemma_resolved_once(names, *body);
        },
        ExpressionView::BinaryOperation(left, _, right) => {
            lemma_resolved_once(names, *left);
            lemma_resolved_once(names, *right);
        },
        ExpressionView::UnaryOperation(_, value) => {
            lemma_resolved_once(names, *value);
        },
        ExpressionView::FunctionCall(_, arguments) => {
            lemma_all_resolved_once(names, arguments);
        },
        ExpressionView::MatchExpression(scrutinee, arms) => {
            lemma_resolved_once(names, *scrutinee);
            lemma_arms_resolved_once(names, arms);
        },
        _ => {},
    }
}

proof fn lemma_all_resolved_once<T>(names: Names<T>, items: Seq<ExpressionView<T>>)
    ensures
        resolution::resolve_all(names, resolution::resolve_all(names, items))
            == resolution::resolve_all(names, items),
    decreases items,
{
    let once = resolution::resolve_all(names, items);
    let twice = resolution::resolve_all(names, once);
    assert forall|i: int| 0 <= i < items.len() implies #[trigger] twice[i] == once[i] by {
        lemma_resolved_once(names, items[i]);
    }
    assert(twice =~= once);
}

proof fn lemma_arms_resolved_once<T>(names: Names<T>, arms: Seq<MatchArmView<T>>)
    ensures
        resolution::resolve_arms(names, resolution::resolve_arms(names, arms))
            == resolution::resolve_arms(names, arms),
    decreases arms,
{
    let once = resolution::resolve_arms(names, arms);
    let twice = resolution::resolve_arms(names, once);
    assert forall|i: int| 0 <= i < arms.len() implies #[trigger] twice[i] == once[i] by {
        let arm = arms[i];
        if let Some(pattern) = arm.pattern {
            lemma_resolved_once(names, pattern);
        }
        lemma_resolved_once(names, arm.value);
        assert(once[i] == resolution::resolve_arm(names, arm));
        assert(twice[i] == resolution::resolve_arm(names, once[i]));
    }
    assert(twice =~= once);
}

/// The definition is that of an intermediate polynomial.
pub open spec fn is_intermediate<T>(definition: DefinitionView<T>) -> bool {
    definition.0.kind == SymbolKind::Poly(PolynomialType::Intermediate)
}

/// The intermediate polynomials among the definitions are defined by
/// expressions, and no two have the same id.
spec fn intermediates_apart<T>(definitions: Map<Seq<char>, DefinitionView<T>>) -> bool {
    &&& forall|name: Seq<char>| #[trigger]
        definitions.contains_key(name) && is_intermediate(definitions[name]) ==> (
        definitions[name].1 matches Some(value) && value is Expression)
    &&& forall|a: Seq<char>, b: Seq<char>| #[trigger]
        definitions.contains_key(a) && #[trigger] definitions.contains_key(b) && a != b
            && is_intermediate(definitions[a]) && is_intermediate(definitions[b])
            ==> definitions[a].0.id != definitions[b].0.id
}

/// The table of intermediate polynomials has what the definitions of the order
/// say, and nothing else.
proof fn lemma_table<T>(
    definitions: Map<Seq<char>, DefinitionView<T>>,
    order: Seq<StatementIdentifierView>,
)
    requires
        intermediates_apart(definitions),
    ensures
        ({
            let found = inliner::definitions_in_order(
                definitions,
                order,
                PolynomialType::Intermediate,
            );
            let table = inliner::expressions_by_id(found);
            &&& inliner::by_expressions(found)
            &&& forall|name: Seq<char>| #[trigger]
                definitions.contains_key(name) && is_intermediate(definitions[name])
                    && order.contains(StatementIdentifierView::Definition(name)) ==> {
                    &&& table.contains_key(definitions[name].0.id)
                    &&& table[definitions[name].0.id]
                        == definitions[name].1->Some_0->Expression_0
                }
            &&& forall|id: u64| #[trigger]
                table.contains_key(id) ==> exists|name: Seq<char>| #[trigger]
                    definitions.contains_key(name) && is_intermediate(definitions[name])
                        && definitions[name].0.id == id
        }),
    decreases order.len(),
{
    if order.len() > 0 {
        let front = order.drop_last();
        let last = order.last();
        lemma_table(definitions, front);
        let found = inliner::definitions_in_order(
            definitions,
            order,
            PolynomialType::Intermediate,
        );
        let table = inliner::expressions_by_id(found);
        let before = inliner::definitions_in_order(
            definitions,
            front,
            PolynomialType::Intermediate,
        );
        assert(found.len() > before.len() ==> found.drop_last() =~= before);
        assert forall|name: Seq<char>| #[trigger]
            definitions.contains_key(name) && is_intermediate(definitions[name])
                && order.contains(StatementIdentifierView::Definition(name)) implies {
            &&& table.contains_key(definitions[name].0.id)
            &&& table[definitions[name].0.id] == definitions[name].1->Some_0->Expression_0
        } by {
            let entry = StatementIdentifierView::Definition(name);
            if entry != last {
                let i = choose|i: int| 0 <= i < order.len() && order[i] == entry;
                assert(front[i] == entry);
                assert(front.contains(entry));
                if let StatementIdentifierView::Definition(other) = last {
                    assert(definitions.contains_key(other) ==> other != name);
                }
            }
        }
        assert forall|id: u64| #[trigger] table.contains_key(id) implies exists|name: Seq<char>|
            #[trigger]
            definitions.contains_key(name) && is_intermediate(definitions[name])
                && definitions[name].0.id == id by {
            if inliner::expressions_by_id(before).contains_key(id) {
            } else {
                let name = last->Definition_0;
                assert(definitions.contains_key(name));
            }
        }
    }
}

/// In a program that comes of a consistent state, every intermediate polynomial
/// is defined by an expression, and the table for inlining has that expression
/// under its id. It has nothing else.
pub proof fn lemma_intermediates<T>(s: AnalyzerView<T>)
    requires
        states::consistent(s),
    ensures
        ({
            let program = resolution::resolve_program(s);
            let table = inliner::intermediates_of(program);
            &&& inliner::by_expressions(inliner::intermediate_definitions(program))
            &&& forall|name: Seq<char>| #[trigger]
                program.definitions.contains_key(name) && is_intermediate(
                    program.definitions[name],
                ) ==> {
                    let (symbol, value) = program.definitions[name];
                    &&& value matches Some(v) && v is Expression
                    &&& table.contains_key(symbol.id)
                    &&& table[symbol.id] == value->Some_0->Expression_0
                }
            &&& forall|id: u64| #[trigger]
                table.contains_key(id) ==> exists|name: Seq<char>| #[trigger]
                    program.definitions.contains_key(name) && is_intermediate(
                        program.definitions[name],
                    ) && program.definitions[name].0.id == id
        }),
{
    let program = resolution::resolve_program(s);
    assert forall|name: Seq<char>| #[trigger]
        program.definitions.contains_key(name) && is_intermediate(
            program.definitions[name],
        ) implies (program.definitions[name].1 matches Some(value) && value is Expression) by {
        assert(s.definitions.contains_key(name));
        assert(states::value_fits(s.definitions[name].0, s.definitions[name].1));
    }
    assert forall|a: Seq<char>, b: Seq<char>| #[trigger]
        program.definitions.contains_key(a) && #[trigger] program.definitions.contains_key(b) && a
            != b && is_intermediate(program.definitions[a]) && is_intermediate(
            program.definitions[b],
        ) implies program.definitions[a].0.id != program.definitions[b].0.id by {
        assert(s.definitions.contains_key(a));
        assert(s.definitions.contains_key(b));
        assert(states::value_fits(s.definitions[a].0, s.definitions[a].1));
        assert(states::value_fits(s.definitions[b].0, s.definitions[b].1));
        assert(states::ids_apart(s.definitions[a].0, s.definitions[b].0));
    }
    lemma_table(program.definitions, program.source_order);
    assert forall|name: Seq<char>| #[trigger] program.definitions.contains_key(name) implies
    program.source_order.contains(StatementIdentifierView::Definition(name)) by {
        assert(s.definitions.contains_key(name));
    }
}

/// What a reference to an intermediate polynomial stands for when it is inlined
/// is what the definition of its name stands for.
pub proof fn lemma_intermediate_stands_for_definition<T>(
    s: AnalyzerView<T>,
    reference: PolynomialReferenceView,
)
    requires
        states::consistent(s),
        reference_carries_id(program_names(resolution::resolve_program(s)), reference),
        !s.constants.contains_key(reference.name),
        inliner::intermediate_id(reference) is Some,
        inliner::inlinable(
            inliner::intermediates_of(resolution::resolve_program(s)),
            ExpressionView::Reference(ReferenceView::Poly(reference)),
        ),
    ensures
        ({
            let program = resolution::resolve_program(s);
            let table = inliner::intermediates_of(program);
            let e = ExpressionView::<T>::Reference(ReferenceView::Poly(reference));
            &&& program.definitions.contains_key(reference.name)
            &&& program.definitions[reference.name].1 matches Some(
                FunctionValueDefinitionView::Expression(definition),
            ) && inliner::inlined(table, e) == inliner::inlined(table, definition)
        }),
{
    let program = resolution::resolve_program(s);
    let id = inliner::intermediate_id(reference)->Some_0;
    lemma_intermediates(s);
    assert(program.definitions.contains_key(reference.name));
    assert(is_intermediate(program.definitions[reference.name]));
    inlining::lemma_reference_inlined(
        inliner::intermediates_of(program),
        ReferenceView::Poly(reference),
        id,
    );
}

/// Whatever a file holds, the analyzer is in a consistent state after it.
pub proof fn lemma_file_from_start<T: FieldElement>(file: PilFile<T>)
    requires
        statements::handle_file(pil_analyzer::initial::<T>(), file).0.source_order.len() <= u64::MAX,
    ensures
        states::consistent(statements::handle_file(pil_analyzer::initial::<T>(), file).0),
{
    states::lemma_initial_consistent::<T>();
    states::lemma_file_consistent(pil_analyzer::initial::<T>(), file);
}

/// Whatever a text holds, the analyzer is in a consistent state after it.
pub proof fn lemma_contents_from_start<T: FieldElement>(
    file_name: Option<Seq<char>>,
    contents: Seq<char>,
    statements: Seq<PilStatement<T>>,
)
    requires
        statements::handle_contents(
            pil_analyzer::initial::<T>(),
            file_name,
            contents,
            statements,
        ).0.source_order.len() <= u64::MAX,
    ensures
        states::consistent(
            statements::handle_contents(
                pil_analyzer::initial::<T>(),
                file_name,
                contents,
                statements,
            ).0,
        ),
{
    states::lemma_initial_consistent::<T>();
    states::lemma_contents_consistent(
        pil_analyzer::initial::<T>(),
        file_name,
        contents,
        statements,
    );
}

} // verus!
