//! What inlining does.
use vstd::prelude::*;

use crate::analyzed::{
    ExpressionView, IdentityView, MatchArmView, ReferenceView, SelectedExpressionsView,
};
use crate::inliner;
use crate::inliner::circles;

verus! {

/// Every polynomial in `e` has an id, and none is an intermediate polynomial.
pub open spec fn no_intermediates<T>(e: ExpressionView<T>) -> bool {
    inliner::ends_within(Map::empty(), e, 0)
}

/// What has no intermediate polynomials does not depend on their definitions: it
/// can be inlined, and that leaves it as it is.
pub proof fn lemma_nothing_to_inline<T>(
    intermediates: Map<u64, ExpressionView<T>>,
    e: ExpressionView<T>,
)
    requires
        no_intermediates(e),
    ensures
        inliner::inlinable(intermediates, e),
        inliner::inlined(intermediates, e) == e,
{
    lemma_unchanged(intermediates, e);
    inliner::lemma_inlined(intermediates, e, 0);
}

proof fn lemma_unchanged<T>(intermediates: Map<u64, ExpressionView<T>>, e: ExpressionView<T>)
    requires
        inliner::ends_within(Map::empty(), e, 0),
    ensures
        inliner::ends_within(intermediates, e, 0),
        inliner::inline_to(intermediates, e, 0) == e,
    decreases e,
{
    match e {
        ExpressionView::Tuple(items) => {
            lemma_all_unchanged(intermediates, items);
        },
        ExpressionView::ArrayLiteral(items) => {
            lemma_all_unchanged(intermediates, items);
        },
        ExpressionView::LambdaExpression(_, body) => {
            lemma_unchanged(intermediates, *body);
        },
        ExpressionView::BinaryOperation(left, _, right) => {
            lemma_unchanged(intermediates, *left);
            lemma_unchanged(intermediates, *right);
        },
        ExpressionView::UnaryOperation(_, value) => {
            lemma_unchanged(intermediates, *value);
        },
        ExpressionView::FunctionCall(_, arguments) => {
            lemma_all_unchanged(intermediates, arguments);
        },
        ExpressionView::MatchExpression(scrutinee, arms) => {
            lemma_unchanged(intermediates, *scrutinee);
            lemma_arms_unchanged(intermediates, arms);
        },
        _ => {},
    }
}

proof fn lemma_all_unchanged<T>(
    intermediates: Map<u64, ExpressionView<T>>,
    items: Seq<ExpressionView<T>>,
)
    requires
        inliner::all_end_within(Map::empty(), items, 0),
    ensures
        inliner::all_end_within(intermediates, items, 0),
        inliner::inline_all_to(intermediates, items, 0) == items,
    decreases items,
{
    assert forall|i: int| 0 <= i < items.len() implies inliner::ends_within(
        intermediates,
        #[trigger] items[i],
        0,
    ) && inliner::inline_to(intermediates, items[i], 0) == items[i] by {
        lemma_unchanged(intermediates, items[i]);
    }
    assert(inliner::inline_all_to(intermediates, items, 0) =~= items);
}

proof fn lemma_arms_unchanged<T>(
    intermediates: Map<u64, ExpressionView<T>>,
    arms: Seq<MatchArmView<T>>,
)
    requires
        inliner::arms_end_within(Map::empty(), arms, 0),
    ensures
        inliner::arms_end_within(intermediates, arms, 0),
        inliner::inline_arms_to(intermediates, arms, 0) == arms,
    decreases arms,
{
    assert forall|i: int| 0 <= i < arms.len() implies inliner::arm_ends_within(
        intermediates,
        #[trigger] arms[i],
        0,
    ) && inliner::inline_arm_to(intermediates, arms[i], 0) == arms[i] by {
        assert(inliner::arm_ends_within(Map::empty(), arms[i], 0));
        if let Some(pattern) = arms[i].pattern {
            lemma_unchanged(intermediates, pattern);
        }
        lemma_unchanged(intermediates, arms[i].value);
    }
    assert(inliner::inline_arms_to(intermediates, arms, 0) =~= arms);
}

/// Inlining leaves no intermediate polynomial anywhere.
pub proof fn lemma_none_left<T>(intermediates: Map<u64, ExpressionView<T>>, e: ExpressionView<T>)
    requires
        inliner::inlinable(intermediates, e),
    ensures
        no_intermediates(inliner::inlined(intermediates, e)),
{
    let depth = choose|depth: nat| inliner::ends_within(intermediates, e, depth);
    lemma_none_left_within(intermediates, e, depth);
}

proof fn lemma_none_left_within<T>(
    intermediates: Map<u64, ExpressionView<T>>,
    e: ExpressionView<T>,
    depth: nat,
)
    requires
        inliner::ends_within(intermediates, e, depth),
    ensures
        no_intermediates(inliner::inline_to(intermediates, e, depth)),
    decreases depth, e,
{
    match e {
        ExpressionView::Reference(ReferenceView::Poly(reference)) => {
            if let Some(id) = inliner::intermediate_id(reference) {
                lemma_none_left_within(intermediates, intermediates[id], (depth - 1) as nat);
            }
        },
        ExpressionView::Tuple(items) => {
            lemma_none_left_in_all(intermediates, items, depth);
        },
        ExpressionView::ArrayLiteral(items) => {
            lemma_none_left_in_all(intermediates, items, depth);
        },
        ExpressionView::LambdaExpression(_, body) => {
            lemma_none_left_within(intermediates, *body, depth);
        },
        ExpressionView::BinaryOperation(left, _, right) => {
            lemma_none_left_within(intermediates, *left, depth);
            lemma_none_left_within(intermediates, *right, depth);
        },
        ExpressionView::UnaryOperation(_, value) => {
            lemma_none_left_within(intermediates, *value, depth);
        },
        ExpressionView::FunctionCall(_, arguments) => {
            lemma_none_left_in_all(intermediates, arguments, depth);
        },
        ExpressionView::MatchExpression(scrutinee, arms) => {
            lemma_none_left_within(intermediates, *scrutinee, depth);
            lemma_none_left_in_arms(intermediates, arms, depth);
        },
        _ => {},
    }
}

proof fn lemma_none_left_in_all<T>(
    intermediates: Map<u64, ExpressionView<T>>,
    items: Seq<ExpressionView<T>>,
    depth: nat,
)
    requires
        inliner::all_end_within(intermediates, items, depth),
    ensures
        inliner::all_end_within(
            Map::empty(),
            inliner::inline_all_to(intermediates, items, depth),
            0,
        ),
    decreases depth, items,
{
    let done = inliner::inline_all_to(intermediates, items, depth);
    assert forall|i: int| 0 <= i < done.len() implies inliner::ends_within(
        Map::empty(),
        #[trigger] done[i],
        0,
    ) by {
        lemma_none_left_within(intermediates, items[i], depth);
    }
}

proof fn lemma_none_left_in_arms<T>(
    intermediates: Map<u64, ExpressionView<T>>,
    arms: Seq<MatchArmView<T>>,
    depth: nat,
)
    requires
        inliner::arms_end_within(intermediates, arms, depth),
    ensures
        inliner::arms_end_within(
            Map::empty(),
            inliner::inline_arms_to(intermediates, arms, depth),
            0,
        ),
    decreases depth, arms,
{
    let done = inliner::inline_arms_to(intermediates, arms, depth);
    assert forall|i: int| 0 <= i < done.len() implies inliner::arm_ends_within(
        Map::empty(),
        #[trigger] done[i],
        0,
    ) by {
        let arm = arms[i];
        assert(inliner::arm_ends_within(intermediates, arm, depth));
        if let Some(pattern) = arm.pattern {
            lemma_none_left_within(intermediates, pattern, depth);
        }
        lemma_none_left_within(intermediates, arm.value, depth);
        assert(done[i] == inliner::inline_arm_to(intermediates, arm, depth));
    }
}

/// Inlining a second time changes nothing.
pub proof fn lemma_inlined_once<T>(intermediates: Map<u64, ExpressionView<T>>, e: ExpressionView<T>)
    requires
        inliner::inlinable(intermediates, e),
    ensures
        inliner::inlined(intermediates, inliner::inlined(intermediates, e)) == inliner::inlined(
            intermediates,
            e,
        ),
{
    lemma_none_left(intermediates, e);
    lemma_nothing_to_inline(intermediates, inliner::inlined(intermediates, e));
}

/// A reference to an intermediate polynomial, shifted or not, becomes what its
/// definition becomes.
pub proof fn lemma_reference_inlined<T>(
    intermediates: Map<u64, ExpressionView<T>>,
    reference: ReferenceView,
    id: u64,
)
    requires
        reference matches ReferenceView::Poly(poly) && inliner::intermediate_id(poly) == Some(id),
        inliner::inlinable(intermediates, ExpressionView::Reference(reference)),
    ensures
        intermediates.contains_key(id),
        inliner::inlinable(intermediates, intermediates[id]),
        inliner::inlined(intermediates, ExpressionView::Reference(reference)) == inliner::inlined(
            intermediates,
            intermediates[id],
        ),
{
    let e = ExpressionView::<T>::Reference(reference);
    let depth = choose|depth: nat| inliner::ends_within(intermediates, e, depth);
    inliner::lemma_inlined(intermediates, intermediates[id], (depth - 1) as nat);
    inliner::lemma_inlined(intermediates, e, depth);
}

/// The arm with its pattern and its value inlined.
pub open spec fn inlined_arm<T>(
    intermediates: Map<u64, ExpressionView<T>>,
    arm: MatchArmView<T>,
) -> MatchArmView<T> {
    MatchArmView {
        pattern: match arm.pattern {
            None => None,
            Some(p) => Some(inliner::inlined(intermediates, p)),
        },
        value: inliner::inlined(intermediates, arm.value),
    }
}

/// `e` where its direct parts are inlined, and `e` is not itself a reference to an
/// intermediate polynomial.
pub open spec fn with_parts_inlined<T>(
    intermediates: Map<u64, ExpressionView<T>>,
    e: ExpressionView<T>,
) -> ExpressionView<T> {
    match e {
        ExpressionView::Tuple(items) => ExpressionView::Tuple(
            inliner::inlined_all(intermediates, items),
        ),
        ExpressionView::ArrayLiteral(items) => ExpressionView::ArrayLiteral(
            inliner::inlined_all(intermediates, items),
        ),
        ExpressionView::LambdaExpression(params, body) => ExpressionView::LambdaExpression(
            params,
            Box::new(inliner::inlined(intermediates, *body)),
        ),
        ExpressionView::BinaryOperation(left, op, right) => ExpressionView::BinaryOperation(
            Box::new(inliner::inlined(intermediates, *left)),
            op,
            Box::new(inliner::inlined(intermediates, *right)),
        ),
        ExpressionView::UnaryOperation(op, value) => ExpressionView::UnaryOperation(
            op,
            Box::new(inliner::inlined(intermediates, *value)),
        ),
        ExpressionView::FunctionCall(id, arguments) => ExpressionView::FunctionCall(
            id,
            inliner::inlined_all(intermediates, arguments),
        ),
        ExpressionView::MatchExpression(scrutinee, arms) => ExpressionView::MatchExpression(
            Box::new(inliner::inlined(intermediates, *scrutinee)),
            arms.map_values(|arm: MatchArmView<T>| inlined_arm(intermediates, arm)),
        ),
        _ => e,
    }
}

/// Inlining an expression is inlining its parts and leaving all else as it is.
pub proof fn lemma_parts_inlined<T>(
    intermediates: Map<u64, ExpressionView<T>>,
    e: ExpressionView<T>,
)
    requires
        inliner::inlinable(intermediates, e),
        e matches ExpressionView::Reference(ReferenceView::Poly(poly)) ==> inliner::intermediate_id(
            poly,
        ) is None,
    ensures
        inliner::inlined(intermediates, e) == with_parts_inlined(intermediates, e),
{
    let depth = choose|depth: nat| inliner::ends_within(intermediates, e, depth);
    inliner::lemma_inlined(intermediates, e, depth);
    match e {
        ExpressionView::Tuple(items) => {
            lemma_all_inlined(intermediates, items, depth);
        },
        ExpressionView::ArrayLiteral(items) => {
            lemma_all_inlined(intermediates, items, depth);
        },
        ExpressionView::LambdaExpression(_, body) => {
            inliner::lemma_inlined(intermediates, *body, depth);
        },
        ExpressionView::BinaryOperation(left, _, right) => {
            inliner::lemma_inlined(intermediates, *left, depth);
            inliner::lemma_inlined(intermediates, *right, depth);
        },
        ExpressionView::UnaryOperation(_, value) => {
            inliner::lemma_inlined(intermediates, *value, depth);
        },
        ExpressionView::FunctionCall(_, arguments) => {
            lemma_all_inlined(intermediates, arguments, depth);
        },
        ExpressionView::MatchExpression(scrutinee, arms) => {
            inliner::lemma_inlined(intermediates, *scrutinee, depth);
            lemma_arms_inlined(intermediates, arms, depth);
        },
        _ => {},
    }
}

proof fn lemma_all_inlined<T>(
    intermediates: Map<u64, ExpressionView<T>>,
    items: Seq<ExpressionView<T>>,
    depth: nat,
)
    requires
        inliner::all_end_within(intermediates, items, depth),
    ensures
        inliner::inlined_all(intermediates, items) == inliner::inline_all_to(
            intermediates,
            items,
            depth,
        ),
{
    assert forall|i: int| 0 <= i < items.len() implies inliner::inlined(
        intermediates,
        #[trigger] items[i],
    ) == inliner::inline_to(intermediates, items[i], depth) by {
        inliner::lemma_inlined(intermediates, items[i], depth);
    }
    assert(inliner::inlined_all(intermediates, items) =~= inliner::inline_all_to(
        intermediates,
        items,
        depth,
    ));
}

proof fn lemma_arms_inlined<T>(
    intermediates: Map<u64, ExpressionView<T>>,
    arms: Seq<MatchArmView<T>>,
    depth: nat,
)
    requires
        inliner::arms_end_within(intermediates, arms, depth),
    ensures
        arms.map_values(|arm: MatchArmView<T>| inlined_arm(intermediates, arm))
            == inliner::inline_arms_to(intermediates, arms, depth),
{
    let done = arms.map_values(|arm: MatchArmView<T>| inlined_arm(intermediates, arm));
    let expected = inliner::inline_arms_to(intermediates, arms, depth);
    assert forall|i: int| 0 <= i < arms.len() implies #[trigger] done[i] == expected[i] by {
        assert(inliner::arm_ends_within(intermediates, arms[i], depth));
        if let Some(pattern) = arms[i].pattern {
            inliner::lemma_inlined(intermediates, pattern, depth);
        }
        inliner::lemma_inlined(intermediates, arms[i].value, depth);
        assert(expected[i] == inliner::inline_arm_to(intermediates, arms[i], depth));
    }
    assert(done =~= expected);
}

/// No intermediate polynomial is in the selector or the expressions.
pub open spec fn selected_no_intermediates<T>(selected: SelectedExpressionsView<T>) -> bool {
    &&& selected.selector matches Some(e) ==> no_intermediates(e)
    &&& forall|i: int|
        0 <= i < selected.expressions.len() ==> no_intermediates(
            #[trigger] selected.expressions[i],
        )
}

proof fn lemma_none_left_in_selected<T>(
    intermediates: Map<u64, ExpressionView<T>>,
    selected: SelectedExpressionsView<T>,
)
    requires
        inliner::selected_inlinable(intermediates, selected),
    ensures
        selected_no_intermediates(inliner::inlined_selected(intermediates, selected)),
{
    if let Some(e) = selected.selector {
        lemma_none_left(intermediates, e);
    }
    let done = inliner::inlined_selected(intermediates, selected).expressions;
    assert forall|i: int| 0 <= i < done.len() implies no_intermediates(#[trigger] done[i]) by {
        assert(inliner::inlinable(intermediates, selected.expressions[i]));
        lemma_none_left(intermediates, selected.expressions[i]);
    }
}

/// An identity keeps its id, its kind, its place and the number of its
/// expressions when it is inlined, and has no intermediate polynomial then.
pub proof fn lemma_identity_inlined<T>(
    intermediates: Map<u64, ExpressionView<T>>,
    identity: IdentityView<T>,
)
    requires
        inliner::identity_inlinable(intermediates, identity),
    ensures
        ({
            let done = inliner::inlined_identity(intermediates, identity);
            &&& done.id == identity.id
            &&& done.kind == identity.kind
            &&& done.source == identity.source
            &&& done.left.selector is Some <==> identity.left.selector is Some
            &&& done.right.selector is Some <==> identity.right.selector is Some
            &&& done.left.expressions.len() == identity.left.expressions.len()
            &&& done.right.expressions.len() == identity.right.expressions.len()
            &&& selected_no_intermediates(done.left)
            &&& selected_no_intermediates(done.right)
        }),
{
    lemma_none_left_in_selected(intermediates, identity.left);
    lemma_none_left_in_selected(intermediates, identity.right);
}

proof fn lemma_selected_unchanged<T>(
    intermediates: Map<u64, ExpressionView<T>>,
    selected: SelectedExpressionsView<T>,
)
    requires
        selected_no_intermediates(selected),
    ensures
        inliner::selected_inlinable(intermediates, selected),
        inliner::inlined_selected(intermediates, selected) == selected,
{
    if let Some(e) = selected.selector {
        lemma_nothing_to_inline(intermediates, e);
    }
    assert forall|i: int| 0 <= i < selected.expressions.len() implies inliner::inlinable(
        intermediates,
        #[trigger] selected.expressions[i],
    ) && inliner::inlined(intermediates, selected.expressions[i]) == selected.expressions[i] by {
        lemma_nothing_to_inline(intermediates, selected.expressions[i]);
    }
    assert(inliner::inlined_all(intermediates, selected.expressions) =~= selected.expressions);
}

/// An identity without intermediate polynomials can be inlined, and that leaves
/// it as it is.
pub proof fn lemma_identity_unchanged<T>(
    intermediates: Map<u64, ExpressionView<T>>,
    identity: IdentityView<T>,
)
    requires
        selected_no_intermediates(identity.left),
        selected_no_intermediates(identity.right),
    ensures
        inliner::identity_inlinable(intermediates, identity),
        inliner::inlined_identity(intermediates, identity) == identity,
{
    lemma_selected_unchanged(intermediates, identity.left);
    lemma_selected_unchanged(intermediates, identity.right);
}

/// The intermediate polynomials that are defined and have an id below `end`.
pub open spec fn defined_below<T>(
    intermediates: Map<u64, ExpressionView<T>>,
    end: int,
) -> Set<u64> {
    Set::new(|id: u64| intermediates.contains_key(id) && id < end)
}

/// Every intermediate polynomial refers to earlier ones alone.
pub open spec fn refer_back<T>(intermediates: Map<u64, ExpressionView<T>>) -> bool {
    forall|id: u64| #[trigger]
        intermediates.contains_key(id) ==> circles::refers_within(
            defined_below(intermediates, id as int),
            intermediates[id],
        )
}

proof fn lemma_below_ends<T>(intermediates: Map<u64, ExpressionView<T>>, end: nat)
    requires
        refer_back(intermediates),
    ensures
        circles::known_end_within(intermediates, defined_below(intermediates, end as int), end),
    decreases end,
{
    let known = defined_below(intermediates, end as int);
    if end > 0 {
        let before = defined_below(intermediates, end - 1);
        lemma_below_ends(intermediates, (end - 1) as nat);
        assert forall|id: u64| #[trigger] known.contains(id) implies intermediates.contains_key(id)
            && inliner::ends_within(intermediates, intermediates[id], end) by {
            if id < end - 1 {
                assert(before.contains(id));
                inliner::lemma_more_levels(
                    intermediates,
                    intermediates[id],
                    (end - 1) as nat,
                    end,
                );
            } else {
                circles::lemma_one_more_level(
                    intermediates,
                    before,
                    intermediates[id],
                    (end - 1) as nat,
                );
            }
        }
    }
}

/// Where every intermediate polynomial refers to earlier ones alone, all that
/// refers to defined ones can be inlined.
pub proof fn lemma_earlier_ones_inlinable<T>(
    intermediates: Map<u64, ExpressionView<T>>,
    e: ExpressionView<T>,
)
    requires
        refer_back(intermediates),
        circles::refers_within(intermediates.dom(), e),
    ensures
        inliner::inlinable(intermediates, e),
{
    let end: nat = u64::MAX as nat + 1;
    lemma_below_ends(intermediates, end);
    assert(defined_below(intermediates, end as int) =~= intermediates.dom());
    circles::lemma_one_more_level(intermediates, intermediates.dom(), e, end);
}

} // verus!
