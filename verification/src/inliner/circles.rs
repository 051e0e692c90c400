//! Whether the intermediate polynomials of a program can be inlined.
use std::collections::{HashMap, HashSet};

use vstd::prelude::*;

use crate::analyzed;
use crate::analyzed::{
    Analyzed, Definition, DefinitionView, Expression, ExpressionView, FunctionValueDefinition,
    MatchArmView, PolyID, PolynomialType, Reference, ReferenceView,
};
use crate::inliner;
use crate::parsed::{MatchArm, MatchPattern, SelectedExpressions};

verus! {

/// Every polynomial in `e` has an id, and every intermediate polynomial in it is
/// among `known`.
pub open spec fn refers_within<T>(known: Set<u64>, e: ExpressionView<T>) -> bool
    decreases e,
{
    match e {
        ExpressionView::Reference(ReferenceView::Poly(reference)) => {
            &&& reference.poly_id is Some
            &&& inliner::intermediate_id(reference) matches Some(id) ==> known.contains(id)
        },
        ExpressionView::Tuple(items) => all_refer_within(known, items),
        ExpressionView::ArrayLiteral(items) => all_refer_within(known, items),
        ExpressionView::LambdaExpression(_, body) => refers_within(known, *body),
        ExpressionView::BinaryOperation(left, _, right) => refers_within(known, *left)
            && refers_within(known, *right),
        ExpressionView::UnaryOperation(_, value) => refers_within(known, *value),
        ExpressionView::FunctionCall(_, arguments) => all_refer_within(known, arguments),
        ExpressionView::MatchExpression(scrutinee, arms) => refers_within(known, *scrutinee)
            && arms_refer_within(known, arms),
        _ => true,
    }
}

pub open spec fn all_refer_within<T>(known: Set<u64>, items: Seq<ExpressionView<T>>) -> bool
    decreases items,
{
    forall|i: int| 0 <= i < items.len() ==> refers_within(known, #[trigger] items[i])
}

pub open spec fn arm_refers_within<T>(known: Set<u64>, arm: MatchArmView<T>) -> bool
    decreases arm,
{
    &&& arm.pattern matches Some(e) ==> refers_within(known, e)
    &&& refers_within(known, arm.value)
}

pub open spec fn arms_refer_within<T>(known: Set<u64>, arms: Seq<MatchArmView<T>>) -> bool
    decreases arms,
{
    forall|i: int| 0 <= i < arms.len() ==> arm_refers_within(known, #[trigger] arms[i])
}

/// The definitions of the known polynomials end within `depth` levels.
pub open spec fn known_end_within<T>(
    intermediates: Map<u64, ExpressionView<T>>,
    known: Set<u64>,
    depth: nat,
) -> bool {
    forall|id: u64| #[trigger]
        known.contains(id) ==> intermediates.contains_key(id) && inliner::ends_within(
            intermediates,
            intermediates[id],
            depth,
        )
}

/// What refers to known polynomials alone needs one level more than they.
pub proof fn lemma_one_more_level<T>(
    intermediates: Map<u64, ExpressionView<T>>,
    known: Set<u64>,
    e: ExpressionView<T>,
    depth: nat,
)
    requires
        known_end_within(intermediates, known, depth),
        refers_within(known, e),
    ensures
        inliner::ends_within(intermediates, e, depth + 1),
    decreases e,
{
    match e {
        ExpressionView::Reference(ReferenceView::Poly(reference)) => {
            if let Some(id) = inliner::intermediate_id(reference) {
                assert(known.contains(id));
            }
        },
        ExpressionView::Tuple(items) => {
            lemma_one_more_level_all(intermediates, known, items, depth);
        },
        ExpressionView::ArrayLiteral(items) => {
            lemma_one_more_level_all(intermediates, known, items, depth);
        },
        ExpressionView::LambdaExpression(_, body) => {
            lemma_one_more_level(intermediates, known, *body, depth);
        },
        ExpressionView::BinaryOperation(left, _, right) => {
            lemma_one_more_level(intermediates, known, *left, depth);
            lemma_one_more_level(intermediates, known, *right, depth);
        },
        ExpressionView::UnaryOperation(_, value) => {
            lemma_one_more_level(intermediates, known, *value, depth);
        },
        ExpressionView::FunctionCall(_, arguments) => {
            lemma_one_more_level_all(intermediates, known, arguments, depth);
        },
        ExpressionView::MatchExpression(scrutinee, arms) => {
            lemma_one_more_level(intermediates, known, *scrutinee, depth);
            lemma_one_more_level_arms(intermediates, known, arms, depth);
        },
        _ => {},
    }
}

proof fn lemma_one_more_level_all<T>(
    intermediates: Map<u64, ExpressionView<T>>,
    known: Set<u64>,
    items: Seq<ExpressionView<T>>,
    depth: nat,
)
    requires
        known_end_within(intermediates, known, depth),
        all_refer_within(known, items),
    ensures
        inliner::all_end_within(intermediates, items, depth + 1),
    decreases items,
{
    assert forall|i: int| 0 <= i < items.len() implies inliner::ends_within(
        intermediates,
        #[trigger] items[i],
        depth + 1,
    ) by {
        lemma_one_more_level(intermediates, known, items[i], depth);
    }
}

proof fn lemma_one_more_level_arms<T>(
    intermediates: Map<u64, ExpressionView<T>>,
    known: Set<u64>,
    arms: Seq<MatchArmView<T>>,
    depth: nat,
)
    requires
        known_end_within(intermediates, known, depth),
        arms_refer_within(known, arms),
    ensures
        inliner::arms_end_within(intermediates, arms, depth + 1),
    decreases arms,
{
    assert forall|i: int| 0 <= i < arms.len() implies inliner::arm_ends_within(
        intermediates,
        #[trigger] arms[i],
        depth + 1,
    ) by {
        assert(arm_refers_within(known, arms[i]));
        if let Some(pattern) = arms[i].pattern {
            lemma_one_more_level(intermediates, known, pattern, depth);
        }
        lemma_one_more_level(intermediates, known, arms[i].value, depth);
    }
}

/// Every intermediate polynomial whose definition refers to known ones alone is
/// known.
spec fn nothing_to_add<T>(intermediates: Map<u64, ExpressionView<T>>, known: Set<u64>) -> bool {
    forall|id: u64| #[trigger]
        intermediates.contains_key(id) && refers_within(known, intermediates[id])
            ==> known.contains(id)
}

/// Where nothing is to be added, what can be inlined refers to known polynomials
/// alone.
proof fn lemma_all_known<T>(
    intermediates: Map<u64, ExpressionView<T>>,
    known: Set<u64>,
    e: ExpressionView<T>,
    depth: nat,
)
    requires
        nothing_to_add(intermediates, known),
        inliner::ends_within(intermediates, e, depth),
    ensures
        refers_within(known, e),
    decreases depth, e,
{
    match e {
        ExpressionView::Reference(ReferenceView::Poly(reference)) => {
            if let Some(id) = inliner::intermediate_id(reference) {
                lemma_all_known(intermediates, known, intermediates[id], (depth - 1) as nat);
                assert(intermediates.contains_key(id));
            }
        },
        ExpressionView::Tuple(items) => {
            lemma_all_known_all(intermediates, known, items, depth);
        },
        ExpressionView::ArrayLiteral(items) => {
            lemma_all_known_all(intermediates, known, items, depth);
        },
        ExpressionView::LambdaExpression(_, body) => {
            lemma_all_known(intermediates, known, *body, depth);
        },
        ExpressionView::BinaryOperation(left, _, right) => {
            lemma_all_known(intermediates, known, *left, depth);
            lemma_all_known(intermediates, known, *right, depth);
        },
        ExpressionView::UnaryOperation(_, value) => {
            lemma_all_known(intermediates, known, *value, depth);
        },
        ExpressionView::FunctionCall(_, arguments) => {
            lemma_all_known_all(intermediates, known, arguments, depth);
        },
        ExpressionView::MatchExpression(scrutinee, arms) => {
            lemma_all_known(intermediates, known, *scrutinee, depth);
            lemma_all_known_arms(intermediates, known, arms, depth);
        },
        _ => {},
    }
}

proof fn lemma_all_known_all<T>(
    intermediates: Map<u64, ExpressionView<T>>,
    known: Set<u64>,
    items: Seq<ExpressionView<T>>,
    depth: nat,
)
    requires
        nothing_to_add(intermediates, known),
        inliner::all_end_within(intermediates, items, depth),
    ensures
        all_refer_within(known, items),
    decreases depth, items,
{
    assert forall|i: int| 0 <= i < items.len() implies refers_within(
        known,
        #[trigger] items[i],
    ) by {
        lemma_all_known(intermediates, known, items[i], depth);
    }
}

proof fn lemma_all_known_arms<T>(
    intermediates: Map<u64, ExpressionView<T>>,
    known: Set<u64>,
    arms: Seq<MatchArmView<T>>,
    depth: nat,
)
    requires
        nothing_to_add(intermediates, known),
        inliner::arms_end_within(intermediates, arms, depth),
    ensures
        arms_refer_within(known, arms),
    decreases depth, arms,
{
    assert forall|i: int| 0 <= i < arms.len() implies arm_refers_within(
        known,
        #[trigger] arms[i],
    ) by {
        assert(inliner::arm_ends_within(intermediates, arms[i], depth));
        if let Some(pattern) = arms[i].pattern {
            lemma_all_known(intermediates, known, pattern, depth);
        }
        lemma_all_known(intermediates, known, arms[i].value, depth);
    }
}

/// Whether `e` refers to known intermediate polynomials alone.
fn refers_to_known<T>(known: &HashSet<u64>, e: &Expression<T>) -> (result: bool)
    ensures
        result == refers_within(known@, e@),
    decreases e,
{
    match e {
        Expression::Constant(_) => true,
        Expression::Reference(reference) => match reference {
            Reference::LocalVar(_, _) => true,
            Reference::Poly(poly) => match poly.poly_id {
                None => false,
                Some(PolyID { id, ptype: PolynomialType::Intermediate }) => known.contains(&id),
                Some(_) => true,
            },
        },
        Expression::PublicReference(_) => true,
        Expression::Number(_) => true,
        Expression::String(_) => true,
        Expression::Tuple(items) => all_refer_to_known(known, items),
        Expression::ArrayLiteral(array) => all_refer_to_known(known, &array.items),
        Expression::LambdaExpression(lambda) => refers_to_known(known, &lambda.body),
        Expression::BinaryOperation(left, _, right) => {
            refers_to_known(known, left) && refers_to_known(known, right)
        },
        Expression::UnaryOperation(_, value) => refers_to_known(known, value),
        Expression::FunctionCall(call) => all_refer_to_known(known, &call.arguments),
        Expression::MatchExpression(scrutinee, arms) => {
            refers_to_known(known, scrutinee) && arms_refer_to_known(known, arms)
        },
    }
}

fn all_refer_to_known<T>(known: &HashSet<u64>, items: &Vec<Expression<T>>) -> (result: bool)
    ensures
        result == all_refer_within(known@, analyzed::expressions_view(items@)),
    decreases items,
{
    let ghost views = analyzed::expressions_view(items@);
    let mut i: usize = 0;
    while i < items.len()
        invariant
            views == analyzed::expressions_view(items@),
            i <= items@.len(),
            forall|k: int| 0 <= k < i ==> refers_within(known@, #[trigger] views[k]),
        decreases items@.len() - i,
    {
        assert(views[i as int] == items@[i as int]@);
        if !refers_to_known(known, &items[i]) {
            return false;
        }
        i = i + 1;
    }
    true
}

fn arms_refer_to_known<T>(known: &HashSet<u64>, arms: &Vec<MatchArm<Expression<T>>>) -> (result:
    bool)
    ensures
        result == arms_refer_within(known@, analyzed::arms_view(arms@)),
    decreases arms,
{
    let ghost views = analyzed::arms_view(arms@);
    let mut i: usize = 0;
    while i < arms.len()
        invariant
            views == analyzed::arms_view(arms@),
            i <= arms@.len(),
            forall|k: int| 0 <= k < i ==> arm_refers_within(known@, #[trigger] views[k]),
        decreases arms@.len() - i,
    {
        let arm = &arms[i];
        let ghost current = analyzed::arm_view(*arm);
        let ghost expected = arm_refers_within(known@, current);
        assert(views[i as int] == current);
        if let MatchPattern::Pattern(e) = &arm.pattern {
            if !refers_to_known(known, e) {
                return false;
            }
        }
        if !refers_to_known(known, &arm.value) {
            return false;
        }
        i = i + 1;
    }
    true
}

fn selected_refers_to_known<T>(
    known: &HashSet<u64>,
    selected: &SelectedExpressions<Expression<T>>,
) -> (result: bool)
    ensures
        result == ((selected@.selector matches Some(e) ==> refers_within(known@, e))
            && all_refer_within(known@, selected@.expressions)),
{
    if let Some(e) = &selected.selector {
        if !refers_to_known(known, e) {
            return false;
        }
    }
    all_refer_to_known(known, &selected.expressions)
}

/// The table has an entry for an id exactly where the list has a symbol of that
/// id.
proof fn lemma_table_ids<T>(definitions: Seq<DefinitionView<T>>)
    ensures
        inliner::expressions_by_id(definitions).dom().finite(),
        forall|i: int|
            0 <= i < definitions.len() ==> inliner::expressions_by_id(definitions).contains_key(
                (#[trigger] definitions[i]).0.id,
            ),
        forall|id: u64| #[trigger]
            inliner::expressions_by_id(definitions).contains_key(id) ==> exists|i: int|
                0 <= i < definitions.len() && (#[trigger] definitions[i]).0.id == id,
    decreases definitions.len(),
{
    if definitions.len() > 0 {
        let front = definitions.drop_last();
        lemma_table_ids(front);
        assert forall|i: int| 0 <= i < definitions.len() implies inliner::expressions_by_id(
            definitions,
        ).contains_key((#[trigger] definitions[i]).0.id) by {
            if i < front.len() {
                assert(definitions[i] == front[i]);
            }
        }
        assert forall|id: u64| #[trigger]
            inliner::expressions_by_id(definitions).contains_key(id) implies exists|i: int|
            0 <= i < definitions.len() && (#[trigger] definitions[i]).0.id == id by {
            if id == definitions.last().0.id {
                assert(definitions[definitions.len() - 1].0.id == id);
            } else {
                let i = choose|i: int| 0 <= i < front.len() && (#[trigger] front[i]).0.id == id;
                assert(definitions[i].0.id == id);
            }
        }
    }
}

/// The intermediate polynomials whose definitions do not go in a circle.
fn well_founded<T: Copy>(
    definitions: &Vec<&Definition<T>>,
    table: &HashMap<u64, Expression<T>>,
) -> (known: HashSet<u64>)
    requires
        inliner::table_view(table@) == inliner::expressions_by_id(
            definitions@.map_values(
                |definition: &Definition<T>| analyzed::definition_view(*definition),
            ),
        ),
    ensures
        nothing_to_add(inliner::table_view(table@), known@),
        exists|depth: nat| known_end_within(inliner::table_view(table@), known@, depth),
{
    let ghost intermediates = inliner::table_view(table@);
    let ghost views = definitions@.map_values(
        |definition: &Definition<T>| analyzed::definition_view(*definition),
    );
    let ghost mut depth: nat = 0;
    let mut known: HashSet<u64> = HashSet::new();
    let mut grown: bool = true;
    proof {
        lemma_table_ids(views);
    }
    while grown
        invariant
            intermediates == inliner::table_view(table@),
            intermediates.dom().finite(),
            views == definitions@.map_values(
                |definition: &Definition<T>| analyzed::definition_view(*definition),
            ),
            known@.finite(),
            known@.subset_of(intermediates.dom()),
            known_end_within(intermediates, known@, depth),
            !grown ==> nothing_to_add(intermediates, known@),
            forall|i: int|
                0 <= i < views.len() ==> intermediates.contains_key((#[trigger] views[i]).0.id),
            forall|id: u64| #[trigger]
                intermediates.contains_key(id) ==> exists|i: int|
                    0 <= i < views.len() && (#[trigger] views[i]).0.id == id,
        decreases intermediates.dom().len() - known@.len(), (if grown { 1nat } else { 0nat }),
    {
        grown = false;
        let ghost start = known@;
        let mut i: usize = 0;
        while i < definitions.len()
            invariant
                intermediates == inliner::table_view(table@),
                intermediates.dom().finite(),
                views == definitions@.map_values(
                    |definition: &Definition<T>| analyzed::definition_view(*definition),
                ),
                i <= definitions@.len(),
                known@.finite(),
                known@.subset_of(intermediates.dom()),
                known_end_within(intermediates, known@, depth),
                if grown {
                    known@.len() > start.len()
                } else {
                    known@ == start
                },
                !grown ==> forall|k: int|
                    0 <= k < i ==> start.contains((#[trigger] views[k]).0.id) || !refers_within(
                        start,
                        intermediates[views[k].0.id],
                    ),
                forall|k: int|
                    0 <= k < views.len() ==> intermediates.contains_key((#[trigger] views[k]).0.id),
            decreases definitions@.len() - i,
        {
            let id: u64 = definitions[i].0.id;
            assert(views[i as int].0.id == id);
            assert(intermediates.contains_key(id));
            let e = table.get(&id).unwrap();
            if !known.contains(&id) && refers_to_known(&known, e) {
                let ghost before = known@;
                known.insert(id);
                grown = true;
                proof {
                    lemma_one_more_level(intermediates, before, intermediates[id], depth);
                    assert forall|other: u64| #[trigger] known@.contains(other) implies
                    intermediates.contains_key(other) && inliner::ends_within(
                        intermediates,
                        intermediates[other],
                        depth + 1,
                    ) by {
                        if other != id {
                            assert(before.contains(other));
                            inliner::lemma_more_levels(
                                intermediates,
                                intermediates[other],
                                depth,
                                depth + 1,
                            );
                        }
                    }
                    depth = depth + 1;
                }
            }
            i = i + 1;
        }
        proof {
            vstd::set_lib::lemma_len_subset(known@, intermediates.dom());
            if !grown {
                assert forall|id: u64| #[trigger]
                    intermediates.contains_key(id) && refers_within(
                        known@,
                        intermediates[id],
                    ) implies known@.contains(id) by {
                    let k = choose|k: int| 0 <= k < views.len() && (#[trigger] views[k]).0.id == id;
                    assert(start.contains(views[k].0.id) || !refers_within(
                        start,
                        intermediates[views[k].0.id],
                    ));
                }
            }
        }
    }
    known
}

/// What can be inlined is what refers to known polynomials alone.
proof fn lemma_known_is_inlinable<T>(
    intermediates: Map<u64, ExpressionView<T>>,
    known: Set<u64>,
    e: ExpressionView<T>,
)
    requires
        nothing_to_add(intermediates, known),
        exists|depth: nat| known_end_within(intermediates, known, depth),
    ensures
        inliner::inlinable(intermediates, e) <==> refers_within(known, e),
{
    if refers_within(known, e) {
        let depth = choose|depth: nat| known_end_within(intermediates, known, depth);
        lemma_one_more_level(intermediates, known, e, depth);
    }
    if inliner::inlinable(intermediates, e) {
        let depth = choose|depth: nat| inliner::ends_within(intermediates, e, depth);
        lemma_all_known(intermediates, known, e, depth);
    }
}

proof fn lemma_known_selected_is_inlinable<T>(
    intermediates: Map<u64, ExpressionView<T>>,
    known: Set<u64>,
    selected: analyzed::SelectedExpressionsView<T>,
)
    requires
        nothing_to_add(intermediates, known),
        exists|depth: nat| known_end_within(intermediates, known, depth),
    ensures
        inliner::selected_inlinable(intermediates, selected) <==> ((
        selected.selector matches Some(e) ==> refers_within(known, e)) && all_refer_within(
            known,
            selected.expressions,
        )),
{
    if let Some(e) = selected.selector {
        lemma_known_is_inlinable(intermediates, known, e);
    }
    assert forall|i: int| 0 <= i < selected.expressions.len() implies (inliner::inlinable(
        intermediates,
        #[trigger] selected.expressions[i],
    ) <==> refers_within(known, selected.expressions[i])) by {
        lemma_known_is_inlinable(intermediates, known, selected.expressions[i]);
    }
}

/// Whether the intermediate polynomials of a program can be inlined: they are
/// defined by expressions, and those that identities use are not defined in a
/// circle.
pub fn is_inlinable<T: Copy>(analyzed: &Analyzed<T>) -> (result: bool)
    requires
        analyzed.wf(),
    ensures
        result == inliner::program_inlinable(analyzed@),
{
    let definitions = analyzed.definitions_in_source_order(PolynomialType::Intermediate);
    let ghost views = definitions@.map_values(
        |definition: &Definition<T>| analyzed::definition_view(*definition),
    );
    let mut i: usize = 0;
    while i < definitions.len()
        invariant
            views == definitions@.map_values(
                |definition: &Definition<T>| analyzed::definition_view(*definition),
            ),
            views == inliner::intermediate_definitions(analyzed@),
            i <= definitions@.len(),
            forall|k: int|
                0 <= k < i ==> ((#[trigger] views[k]).1 matches Some(value) && value
                    is Expression),
        decreases definitions@.len() - i,
    {
        assert(views[i as int] == analyzed::definition_view(*definitions@[i as int]));
        match &definitions[i].1 {
            Some(FunctionValueDefinition::Expression(_)) => {},
            _ => {
                return false;
            },
        }
        i = i + 1;
    }
    let table = inliner::table_of(&definitions);
    let known = well_founded(&definitions, &table);
    let ghost intermediates = inliner::intermediates_of(analyzed@);
    let mut j: usize = 0;
    while j < analyzed.identities.len()
        invariant
            intermediates == inliner::intermediates_of(analyzed@),
            nothing_to_add(intermediates, known@),
            exists|depth: nat| known_end_within(intermediates, known@, depth),
            j <= analyzed.identities@.len(),
            forall|k: int|
                0 <= k < j ==> inliner::identity_inlinable(
                    intermediates,
                    #[trigger] analyzed@.identities[k],
                ),
        decreases analyzed.identities@.len() - j,
    {
        let identity = &analyzed.identities[j];
        assert(analyzed@.identities[j as int] == identity@);
        proof {
            lemma_known_selected_is_inlinable(intermediates, known@, identity@.left);
            lemma_known_selected_is_inlinable(intermediates, known@, identity@.right);
        }
        if !selected_refers_to_known(&known, &identity.left) || !selected_refers_to_known(
            &known,
            &identity.right,
        ) {
            return false;
        }
        j = j + 1;
    }
    true
}

} // verus!
