//! What inlining does to each form of expression, to identities and to programs.
use vstd::prelude::*;

use crate::analyzed::{
    AnalyzedView, DefinitionView, ExpressionView, IdentityView, MatchArmView, PolyID,
    PolynomialReferenceView, PolynomialType, ReferenceView, SelectedExpressionsView,
    StatementIdentifierView, SymbolKind,
};
use crate::inliner;
use crate::inliner::cache;
use crate::inliner::circles;

verus! {

/// A reference is to an intermediate polynomial exactly if its polynomial is one,
/// which is then found by its id.
pub proof fn lemma_intermediate_ids(reference: PolynomialReferenceView, id: u64)
    ensures
        inliner::intermediate_id(reference) == Some(id) <==> reference.poly_id == Some(
            PolyID { id, ptype: PolynomialType::Intermediate },
        ),
{
}

/// A reference to an intermediate polynomial can be inlined exactly if the
/// polynomial is defined and its definition can be inlined, and becomes what the
/// definition becomes, whether it is shifted, has an index or neither. A
/// reference to another polynomial stays as it is. One to no polynomial cannot be
/// inlined.
pub proof fn lemma_references<T>(
    intermediates: Map<u64, ExpressionView<T>>,
    reference: PolynomialReferenceView,
)
    ensures
        ({
            let e = ExpressionView::Reference(ReferenceView::Poly(reference));
            match reference.poly_id {
                None => !inliner::inlinable(intermediates, e),
                Some(poly) => if poly.ptype == PolynomialType::Intermediate {
                    &&& inliner::inlinable(intermediates, e) <==> intermediates.contains_key(
                        poly.id,
                    ) && inliner::inlinable(intermediates, intermediates[poly.id])
                    &&& inliner::inlinable(intermediates, e) ==> inliner::inlined(intermediates, e)
                        == inliner::inlined(intermediates, intermediates[poly.id])
                } else {
                    &&& inliner::inlinable(intermediates, e)
                    &&& inliner::inlined(intermediates, e) == e
                },
            }
        }),
{
    let e = ExpressionView::<T>::Reference(ReferenceView::Poly(reference));
    match reference.poly_id {
        None => {
            assert forall|depth: nat| !inliner::ends_within(intermediates, e, depth) by {}
        },
        Some(poly) => if poly.ptype == PolynomialType::Intermediate {
            assert(inliner::intermediate_id(reference) == Some(poly.id));
            let definition = intermediates[poly.id];
            if inliner::inlinable(intermediates, e) {
                let depth = choose|depth: nat| inliner::ends_within(intermediates, e, depth);
                inliner::lemma_inlined(intermediates, definition, (depth - 1) as nat);
                inliner::lemma_inlined(intermediates, e, depth);
            }
            if intermediates.contains_key(poly.id) && inliner::inlinable(
                intermediates,
                definition,
            ) {
                let depth = choose|d: nat| inliner::ends_within(intermediates, definition, d);
                assert(inliner::ends_within(intermediates, e, depth + 1));
            }
        } else {
            assert(inliner::intermediate_id(reference) is None);
            inliner::lemma_inlined(intermediates, e, 0);
        },
    }
}

/// What has no parts and is no polynomial can be inlined and stays as it is.
pub proof fn lemma_leaves<T>(intermediates: Map<u64, ExpressionView<T>>, e: ExpressionView<T>)
    requires
        e is Constant || e is PublicReference || e is Number || e is String || (e matches
            ExpressionView::Reference(reference) && reference is LocalVar),
    ensures
        inliner::inlinable(intermediates, e),
        inliner::inlined(intermediates, e) == e,
{
    inliner::lemma_inlined(intermediates, e, 0);
}

/// All of the expressions can be inlined.
pub open spec fn all_inlinable<T>(
    intermediates: Map<u64, ExpressionView<T>>,
    items: Seq<ExpressionView<T>>,
) -> bool {
    forall|i: int| 0 <= i < items.len() ==> inliner::inlinable(intermediates, #[trigger] items[i])
}

/// The expressions of `done` are those of `items`, each in its place and inlined.
pub open spec fn each_inlined<T>(
    intermediates: Map<u64, ExpressionView<T>>,
    items: Seq<ExpressionView<T>>,
    done: Seq<ExpressionView<T>>,
) -> bool {
    &&& done.len() == items.len()
    &&& forall|i: int|
        0 <= i < items.len() ==> #[trigger] done[i] == inliner::inlined(intermediates, items[i])
}

spec fn larger(a: nat, b: nat) -> nat {
    if a < b {
        b
    } else {
        a
    }
}

proof fn lemma_common_depth<T>(
    intermediates: Map<u64, ExpressionView<T>>,
    items: Seq<ExpressionView<T>>,
) -> (depth: nat)
    requires
        all_inlinable(intermediates, items),
    ensures
        inliner::all_end_within(intermediates, items, depth),
    decreases items.len(),
{
    if items.len() == 0 {
        0
    } else {
        let front = items.drop_last();
        assert forall|i: int| 0 <= i < front.len() implies inliner::inlinable(
            intermediates,
            #[trigger] front[i],
        ) by {
            assert(front[i] == items[i]);
        }
        let last = items.last();
        assert(inliner::inlinable(intermediates, items[items.len() - 1]));
        let a = lemma_common_depth(intermediates, front);
        let b = choose|d: nat| inliner::ends_within(intermediates, last, d);
        let depth = larger(a, b);
        inliner::lemma_more_levels(intermediates, last, b, depth);
        assert forall|i: int| 0 <= i < items.len() implies inliner::ends_within(
            intermediates,
            #[trigger] items[i],
            depth,
        ) by {
            if i < front.len() {
                assert(front[i] == items[i]);
                inliner::lemma_more_levels(intermediates, items[i], a, depth);
            }
        }
        depth
    }
}

proof fn lemma_all_of<T>(
    intermediates: Map<u64, ExpressionView<T>>,
    items: Seq<ExpressionView<T>>,
    depth: nat,
)
    requires
        inliner::all_end_within(intermediates, items, depth),
    ensures
        all_inlinable(intermediates, items),
        each_inlined(intermediates, items, inliner::inline_all_to(intermediates, items, depth)),
{
    assert forall|i: int| 0 <= i < items.len() implies inliner::inlinable(
        intermediates,
        #[trigger] items[i],
    ) && inliner::inlined(intermediates, items[i]) == inliner::inline_to(
        intermediates,
        items[i],
        depth,
    ) by {
        inliner::lemma_inlined(intermediates, items[i], depth);
    }
    let done = inliner::inline_all_to(intermediates, items, depth);
    assert forall|i: int| 0 <= i < items.len() implies #[trigger] done[i] == inliner::inlined(
        intermediates,
        items[i],
    ) by {
        assert(inliner::inlinable(intermediates, items[i]));
    }
}

/// Tuples, arrays and calls can be inlined exactly if all their parts can, and
/// become what their parts become, each in its place.
pub proof fn lemma_collections<T>(
    intermediates: Map<u64, ExpressionView<T>>,
    items: Seq<ExpressionView<T>>,
    name: Seq<char>,
)
    ensures
        ({
            let tuple = ExpressionView::Tuple(items);
            let array = ExpressionView::ArrayLiteral(items);
            let call = ExpressionView::FunctionCall(name, items);
            let parts = all_inlinable(intermediates, items);
            &&& inliner::inlinable(intermediates, tuple) <==> parts
            &&& inliner::inlinable(intermediates, array) <==> parts
            &&& inliner::inlinable(intermediates, call) <==> parts
            &&& parts ==> {
                &&& inliner::inlined(intermediates, tuple) matches ExpressionView::Tuple(done)
                &&& each_inlined(intermediates, items, done)
            }
            &&& parts ==> {
                &&& inliner::inlined(intermediates, array) matches ExpressionView::ArrayLiteral(
                    done,
                )
                &&& each_inlined(intermediates, items, done)
            }
            &&& parts ==> {
                &&& inliner::inlined(intermediates, call) matches ExpressionView::FunctionCall(
                    same,
                    done,
                )
                &&& same == name
                &&& each_inlined(intermediates, items, done)
            }
        }),
{
    let tuple = ExpressionView::<T>::Tuple(items);
    let array = ExpressionView::<T>::ArrayLiteral(items);
    let call = ExpressionView::<T>::FunctionCall(name, items);
    if all_inlinable(intermediates, items) {
        let depth = lemma_common_depth(intermediates, items);
        lemma_all_of(intermediates, items, depth);
        inliner::lemma_inlined(intermediates, tuple, depth);
        inliner::lemma_inlined(intermediates, array, depth);
        inliner::lemma_inlined(intermediates, call, depth);
    }
    if inliner::inlinable(intermediates, tuple) {
        let depth = choose|d: nat| inliner::ends_within(intermediates, tuple, d);
        lemma_all_of(intermediates, items, depth);
    }
    if inliner::inlinable(intermediates, array) {
        let depth = choose|d: nat| inliner::ends_within(intermediates, array, d);
        lemma_all_of(intermediates, items, depth);
    }
    if inliner::inlinable(intermediates, call) {
        let depth = choose|d: nat| inliner::ends_within(intermediates, call, d);
        lemma_all_of(intermediates, items, depth);
    }
}

/// Operations and functions can be inlined exactly if their operands or their body
/// can. They keep the operator or the parameters, and the order of the operands.
pub proof fn lemma_operations<T>(
    intermediates: Map<u64, ExpressionView<T>>,
    e: ExpressionView<T>,
)
    ensures
        e matches ExpressionView::BinaryOperation(left, op, right) ==> {
            &&& inliner::inlinable(intermediates, e) <==> inliner::inlinable(intermediates, *left)
                && inliner::inlinable(intermediates, *right)
            &&& inliner::inlinable(intermediates, e) ==> {
                &&& inliner::inlined(intermediates, e) matches ExpressionView::BinaryOperation(
                    l,
                    same,
                    r,
                )
                &&& same == op
                &&& *l == inliner::inlined(intermediates, *left)
                &&& *r == inliner::inlined(intermediates, *right)
            }
        },
        e matches ExpressionView::UnaryOperation(op, value) ==> {
            &&& inliner::inlinable(intermediates, e) <==> inliner::inlinable(intermediates, *value)
            &&& inliner::inlinable(intermediates, e) ==> {
                &&& inliner::inlined(intermediates, e) matches ExpressionView::UnaryOperation(
                    same,
                    v,
                )
                &&& same == op
                &&& *v == inliner::inlined(intermediates, *value)
            }
        },
        e matches ExpressionView::LambdaExpression(params, body) ==> {
            &&& inliner::inlinable(intermediates, e) <==> inliner::inlinable(intermediates, *body)
            &&& inliner::inlinable(intermediates, e) ==> {
                &&& inliner::inlined(intermediates, e) matches ExpressionView::LambdaExpression(
                    same,
                    b,
                )
                &&& same == params
                &&& *b == inliner::inlined(intermediates, *body)
            }
        },
{
    if inliner::inlinable(intermediates, e) {
        let depth = choose|d: nat| inliner::ends_within(intermediates, e, d);
        inliner::lemma_inlined(intermediates, e, depth);
        match e {
            ExpressionView::BinaryOperation(left, _, right) => {
                inliner::lemma_inlined(intermediates, *left, depth);
                inliner::lemma_inlined(intermediates, *right, depth);
            },
            ExpressionView::UnaryOperation(_, value) => {
                inliner::lemma_inlined(intermediates, *value, depth);
            },
            ExpressionView::LambdaExpression(_, body) => {
                inliner::lemma_inlined(intermediates, *body, depth);
            },
            _ => {},
        }
    }
    match e {
        ExpressionView::BinaryOperation(left, _, right) => {
            if inliner::inlinable(intermediates, *left) && inliner::inlinable(
                intermediates,
                *right,
            ) {
                let a = choose|d: nat| inliner::ends_within(intermediates, *left, d);
                let b = choose|d: nat| inliner::ends_within(intermediates, *right, d);
                let depth = larger(a, b);
                inliner::lemma_more_levels(intermediates, *left, a, depth);
                inliner::lemma_more_levels(intermediates, *right, b, depth);
                assert(inliner::ends_within(intermediates, e, depth));
            }
        },
        ExpressionView::UnaryOperation(_, value) => {
            if inliner::inlinable(intermediates, *value) {
                let depth = choose|d: nat| inliner::ends_within(intermediates, *value, d);
                assert(inliner::ends_within(intermediates, e, depth));
            }
        },
        ExpressionView::LambdaExpression(_, body) => {
            if inliner::inlinable(intermediates, *body) {
                let depth = choose|d: nat| inliner::ends_within(intermediates, *body, d);
                assert(inliner::ends_within(intermediates, e, depth));
            }
        },
        _ => {},
    }
}

/// The pattern and the value of the arm can be inlined.
pub open spec fn arm_inlinable<T>(
    intermediates: Map<u64, ExpressionView<T>>,
    arm: MatchArmView<T>,
) -> bool {
    &&& arm.pattern matches Some(e) ==> inliner::inlinable(intermediates, e)
    &&& inliner::inlinable(intermediates, arm.value)
}

/// `done` is the arm with its pattern and its value inlined.
pub open spec fn arm_inlined<T>(
    intermediates: Map<u64, ExpressionView<T>>,
    arm: MatchArmView<T>,
    done: MatchArmView<T>,
) -> bool {
    &&& done.pattern is Some <==> arm.pattern is Some
    &&& arm.pattern matches Some(e) ==> done.pattern == Some(inliner::inlined(intermediates, e))
    &&& done.value == inliner::inlined(intermediates, arm.value)
}

proof fn lemma_arm_depth<T>(
    intermediates: Map<u64, ExpressionView<T>>,
    arm: MatchArmView<T>,
) -> (depth: nat)
    requires
        arm_inlinable(intermediates, arm),
    ensures
        inliner::arm_ends_within(intermediates, arm, depth),
{
    let a = choose|d: nat| inliner::ends_within(intermediates, arm.value, d);
    match arm.pattern {
        None => a,
        Some(e) => {
            let b = choose|d: nat| inliner::ends_within(intermediates, e, d);
            let depth = larger(a, b);
            inliner::lemma_more_levels(intermediates, arm.value, a, depth);
            inliner::lemma_more_levels(intermediates, e, b, depth);
            depth
        },
    }
}

proof fn lemma_arm_more<T>(
    intermediates: Map<u64, ExpressionView<T>>,
    arm: MatchArmView<T>,
    depth: nat,
    more: nat,
)
    requires
        inliner::arm_ends_within(intermediates, arm, depth),
        depth <= more,
    ensures
        inliner::arm_ends_within(intermediates, arm, more),
{
    if let Some(e) = arm.pattern {
        inliner::lemma_more_levels(intermediates, e, depth, more);
    }
    inliner::lemma_more_levels(intermediates, arm.value, depth, more);
}

proof fn lemma_common_depth_of_arms<T>(
    intermediates: Map<u64, ExpressionView<T>>,
    arms: Seq<MatchArmView<T>>,
) -> (depth: nat)
    requires
        forall|i: int| 0 <= i < arms.len() ==> arm_inlinable(intermediates, #[trigger] arms[i]),
    ensures
        inliner::arms_end_within(intermediates, arms, depth),
    decreases arms.len(),
{
    if arms.len() == 0 {
        0
    } else {
        let front = arms.drop_last();
        let last = arms.last();
        assert(arm_inlinable(intermediates, arms[arms.len() - 1]));
        let a = lemma_common_depth_of_arms(intermediates, front);
        let b = lemma_arm_depth(intermediates, last);
        let depth = larger(a, b);
        lemma_arm_more(intermediates, last, b, depth);
        assert forall|i: int| 0 <= i < arms.len() implies inliner::arm_ends_within(
            intermediates,
            #[trigger] arms[i],
            depth,
        ) by {
            if i < front.len() {
                assert(front[i] == arms[i]);
                lemma_arm_more(intermediates, arms[i], a, depth);
            }
        }
        depth
    }
}

/// A match can be inlined exactly if all its parts can, and becomes what they
/// become, each in its place.
pub proof fn lemma_matches<T>(
    intermediates: Map<u64, ExpressionView<T>>,
    scrutinee: ExpressionView<T>,
    arms: Seq<MatchArmView<T>>,
)
    ensures
        ({
            let e = ExpressionView::MatchExpression(Box::new(scrutinee), arms);
            let parts = inliner::inlinable(intermediates, scrutinee) && forall|i: int|
                0 <= i < arms.len() ==> arm_inlinable(intermediates, #[trigger] arms[i]);
            &&& inliner::inlinable(intermediates, e) <==> parts
            &&& parts ==> {
                &&& inliner::inlined(intermediates, e) matches ExpressionView::MatchExpression(
                    s,
                    done,
                )
                &&& *s == inliner::inlined(intermediates, scrutinee)
                &&& done.len() == arms.len()
                &&& forall|i: int|
                    0 <= i < arms.len() ==> arm_inlined(
                        intermediates,
                        arms[i],
                        #[trigger] done[i],
                    )
            }
        }),
{
    let e = ExpressionView::MatchExpression(Box::new(scrutinee), arms);
    let parts = inliner::inlinable(intermediates, scrutinee) && forall|i: int|
        0 <= i < arms.len() ==> arm_inlinable(intermediates, #[trigger] arms[i]);
    if parts {
        let a = choose|d: nat| inliner::ends_within(intermediates, scrutinee, d);
        let b = lemma_common_depth_of_arms(intermediates, arms);
        let depth = larger(a, b);
        inliner::lemma_more_levels(intermediates, scrutinee, a, depth);
        inliner::lemma_more_levels_arms(intermediates, arms, b, depth);
        assert(inliner::ends_within(intermediates, e, depth));
    }
    if inliner::inlinable(intermediates, e) {
        let depth = choose|d: nat| inliner::ends_within(intermediates, e, d);
        inliner::lemma_inlined(intermediates, e, depth);
        inliner::lemma_inlined(intermediates, scrutinee, depth);
        assert(inliner::arms_end_within(intermediates, arms, depth));
        let done = inliner::inline_arms_to(intermediates, arms, depth);
        assert forall|i: int| 0 <= i < arms.len() implies arm_inlinable(
            intermediates,
            #[trigger] arms[i],
        ) && arm_inlined(intermediates, arms[i], done[i]) by {
            assert(inliner::arm_ends_within(intermediates, arms[i], depth));
            if let Some(pattern) = arms[i].pattern {
                inliner::lemma_inlined(intermediates, pattern, depth);
            }
            inliner::lemma_inlined(intermediates, arms[i].value, depth);
            assert(done[i] == inliner::inline_arm_to(intermediates, arms[i], depth));
        }
        assert forall|i: int| 0 <= i < arms.len() implies arm_inlined(
            intermediates,
            arms[i],
            #[trigger] done[i],
        ) by {
            assert(arm_inlinable(intermediates, arms[i]));
        }
    }
}

/// Nothing can be inlined that uses polynomials defined in a circle: if each of
/// the polynomials of `circle` uses one of them, then no expression that uses one
/// of them can be inlined.
pub proof fn lemma_circles<T>(
    intermediates: Map<u64, ExpressionView<T>>,
    circle: Set<u64>,
    e: ExpressionView<T>,
)
    requires
        forall|id: u64| #[trigger]
            circle.contains(id) && intermediates.contains_key(id) ==> !circles::refers_within(
                circle.complement(),
                intermediates[id],
            ),
        !circles::refers_within(circle.complement(), e),
    ensures
        !inliner::inlinable(intermediates, e),
{
    if inliner::inlinable(intermediates, e) {
        let depth = choose|d: nat| inliner::ends_within(intermediates, e, d);
        lemma_outside(intermediates, circle, e, depth);
    }
}

proof fn lemma_outside<T>(
    intermediates: Map<u64, ExpressionView<T>>,
    circle: Set<u64>,
    e: ExpressionView<T>,
    depth: nat,
)
    requires
        forall|id: u64| #[trigger]
            circle.contains(id) && intermediates.contains_key(id) ==> !circles::refers_within(
                circle.complement(),
                intermediates[id],
            ),
        inliner::ends_within(intermediates, e, depth),
    ensures
        circles::refers_within(circle.complement(), e),
    decreases depth, e,
{
    match e {
        ExpressionView::Reference(ReferenceView::Poly(reference)) => {
            if let Some(id) = inliner::intermediate_id(reference) {
                if circle.contains(id) {
                    lemma_outside(intermediates, circle, intermediates[id], (depth - 1) as nat);
                }
            }
        },
        ExpressionView::Tuple(items) => {
            lemma_all_outside(intermediates, circle, items, depth);
        },
        ExpressionView::ArrayLiteral(items) => {
            lemma_all_outside(intermediates, circle, items, depth);
        },
        ExpressionView::LambdaExpression(_, body) => {
            lemma_outside(intermediates, circle, *body, depth);
        },
        ExpressionView::BinaryOperation(left, _, right) => {
            lemma_outside(intermediates, circle, *left, depth);
            lemma_outside(intermediates, circle, *right, depth);
        },
        ExpressionView::UnaryOperation(_, value) => {
            lemma_outside(intermediates, circle, *value, depth);
        },
        ExpressionView::FunctionCall(_, arguments) => {
            lemma_all_outside(intermediates, circle, arguments, depth);
        },
        ExpressionView::MatchExpression(scrutinee, arms) => {
            lemma_outside(intermediates, circle, *scrutinee, depth);
            lemma_arms_outside(intermediates, circle, arms, depth);
        },
        _ => {},
    }
}

proof fn lemma_all_outside<T>(
    intermediates: Map<u64, ExpressionView<T>>,
    circle: Set<u64>,
    items: Seq<ExpressionView<T>>,
    depth: nat,
)
    requires
        forall|id: u64| #[trigger]
            circle.contains(id) && intermediates.contains_key(id) ==> !circles::refers_within(
                circle.complement(),
                intermediates[id],
            ),
        inliner::all_end_within(intermediates, items, depth),
    ensures
        circles::all_refer_within(circle.complement(), items),
    decreases depth, items,
{
    assert forall|i: int| 0 <= i < items.len() implies circles::refers_within(
        circle.complement(),
        #[trigger] items[i],
    ) by {
        lemma_outside(intermediates, circle, items[i], depth);
    }
}

proof fn lemma_arms_outside<T>(
    intermediates: Map<u64, ExpressionView<T>>,
    circle: Set<u64>,
    arms: Seq<MatchArmView<T>>,
    depth: nat,
)
    requires
        forall|id: u64| #[trigger]
            circle.contains(id) && intermediates.contains_key(id) ==> !circles::refers_within(
                circle.complement(),
                intermediates[id],
            ),
        inliner::arms_end_within(intermediates, arms, depth),
    ensures
        circles::arms_refer_within(circle.complement(), arms),
    decreases depth, arms,
{
    assert forall|i: int| 0 <= i < arms.len() implies circles::arm_refers_within(
        circle.complement(),
        #[trigger] arms[i],
    ) by {
        assert(inliner::arm_ends_within(intermediates, arms[i], depth));
        if let Some(pattern) = arms[i].pattern {
            lemma_outside(intermediates, circle, pattern, depth);
        }
        lemma_outside(intermediates, circle, arms[i].value, depth);
    }
}

/// An expression uses known polynomials alone exactly if all its parts do, and a
/// reference exactly if its polynomial is known or is no intermediate one.
pub proof fn lemma_uses<T>(known: Set<u64>, e: ExpressionView<T>)
    ensures
        circles::refers_within(known, e) <==> match e {
            ExpressionView::Reference(ReferenceView::Poly(reference)) => {
                &&& reference.poly_id matches Some(poly)
                &&& poly.ptype == PolynomialType::Intermediate ==> known.contains(poly.id)
            },
            ExpressionView::Tuple(items) => forall|i: int|
                0 <= i < items.len() ==> circles::refers_within(known, #[trigger] items[i]),
            ExpressionView::ArrayLiteral(items) => forall|i: int|
                0 <= i < items.len() ==> circles::refers_within(known, #[trigger] items[i]),
            ExpressionView::FunctionCall(_, items) => forall|i: int|
                0 <= i < items.len() ==> circles::refers_within(known, #[trigger] items[i]),
            ExpressionView::LambdaExpression(_, body) => circles::refers_within(known, *body),
            ExpressionView::BinaryOperation(left, _, right) => circles::refers_within(
                known,
                *left,
            ) && circles::refers_within(known, *right),
            ExpressionView::UnaryOperation(_, value) => circles::refers_within(known, *value),
            ExpressionView::MatchExpression(scrutinee, arms) => {
                &&& circles::refers_within(known, *scrutinee)
                &&& forall|i: int|
                    0 <= i < arms.len() ==> {
                        &&& (#[trigger] arms[i]).pattern matches Some(p) ==> circles::refers_within(
                            known,
                            p,
                        )
                        &&& circles::refers_within(known, arms[i].value)
                    }
            },
            _ => true,
        },
{
    match e {
        ExpressionView::Tuple(items) => {
            assert(circles::refers_within(known, e) <==> circles::all_refer_within(known, items));
        },
        ExpressionView::ArrayLiteral(items) => {
            assert(circles::refers_within(known, e) <==> circles::all_refer_within(known, items));
        },
        ExpressionView::FunctionCall(_, items) => {
            assert(circles::refers_within(known, e) <==> circles::all_refer_within(known, items));
        },
        ExpressionView::MatchExpression(scrutinee, arms) => {
            assert(circles::refers_within(known, e) <==> circles::refers_within(known, *scrutinee)
                && circles::arms_refer_within(known, arms));
            assert forall|i: int| 0 <= i < arms.len() implies (circles::arm_refers_within(
                known,
                #[trigger] arms[i],
            ) <==> {
                &&& arms[i].pattern matches Some(p) ==> circles::refers_within(known, p)
                &&& circles::refers_within(known, arms[i].value)
            }) by {}
        },
        _ => {},
    }
}

/// One side of an inlined identity has the inlined selector, and at each position
/// the inlined expression of that position.
pub open spec fn side_inlined<T>(
    intermediates: Map<u64, ExpressionView<T>>,
    selected: SelectedExpressionsView<T>,
    done: SelectedExpressionsView<T>,
) -> bool {
    &&& done.selector is Some <==> selected.selector is Some
    &&& selected.selector matches Some(e) ==> done.selector == Some(
        inliner::inlined(intermediates, e),
    )
    &&& done.expressions.len() == selected.expressions.len()
    &&& forall|i: int|
        0 <= i < selected.expressions.len() ==> #[trigger] done.expressions[i]
            == inliner::inlined(intermediates, selected.expressions[i])
}

/// `done` is the identity with both sides inlined and all else as it was.
pub open spec fn identity_substituted<T>(
    intermediates: Map<u64, ExpressionView<T>>,
    identity: IdentityView<T>,
    done: IdentityView<T>,
) -> bool {
    &&& side_inlined(intermediates, identity.left, done.left)
    &&& side_inlined(intermediates, identity.right, done.right)
    &&& done.id == identity.id
    &&& done.kind == identity.kind
    &&& done.source == identity.source
}

/// The selector and all expressions of one side of an identity can be inlined.
pub open spec fn side_inlinable<T>(
    intermediates: Map<u64, ExpressionView<T>>,
    selected: SelectedExpressionsView<T>,
) -> bool {
    &&& selected.selector matches Some(e) ==> inliner::inlinable(intermediates, e)
    &&& all_inlinable(intermediates, selected.expressions)
}

/// Each side of an inlined identity is what that side becomes: the selector is the
/// inlined selector, and the expression at each position is the inlined
/// expression of that position. All else stays. The identity can be inlined
/// exactly if both sides can.
pub proof fn lemma_identities<T>(
    intermediates: Map<u64, ExpressionView<T>>,
    identity: IdentityView<T>,
)
    ensures
        ({
            let done = inliner::inlined_identity(intermediates, identity);
            &&& identity_substituted(intermediates, identity, done)
            &&& side_inlined(
                intermediates,
                identity.left,
                inliner::inlined_selected(intermediates, identity.left),
            )
            &&& each_inlined(
                intermediates,
                identity.left.expressions,
                inliner::inlined_all(intermediates, identity.left.expressions),
            )
        }),
        inliner::identity_inlinable(intermediates, identity) <==> side_inlinable(
            intermediates,
            identity.left,
        ) && side_inlinable(intermediates, identity.right),
        inliner::selected_inlinable(intermediates, identity.left) <==> side_inlinable(
            intermediates,
            identity.left,
        ),
{
}

/// The order of the definitions is that of the statements: one more statement adds
/// at the end the definition that it names, if that is of a polynomial of the
/// type, and else nothing.
pub proof fn lemma_source_order<T>(
    definitions: Map<Seq<char>, DefinitionView<T>>,
    order: Seq<StatementIdentifierView>,
    statement: StatementIdentifierView,
    poly_type: PolynomialType,
)
    ensures
        inliner::definitions_in_order(definitions, Seq::empty(), poly_type) == Seq::<
            DefinitionView<T>,
        >::empty(),
        ({
            let before = inliner::definitions_in_order(definitions, order, poly_type);
            let after = inliner::definitions_in_order(
                definitions,
                order.push(statement),
                poly_type,
            );
            match statement {
                StatementIdentifierView::Definition(name) => if definitions.contains_key(name)
                    && definitions[name].0.kind == SymbolKind::Poly(poly_type) {
                    after == before.push(definitions[name])
                } else {
                    after == before
                },
                _ => after == before,
            }
        }),
{
    assert(order.push(statement).drop_last() =~= order);
}

/// The expression of a polynomial is found by the id of its symbol. Of several
/// with the same id the last counts.
pub proof fn lemma_expressions<T>(
    definitions: Seq<DefinitionView<T>>,
    definition: DefinitionView<T>,
    id: u64,
)
    ensures
        !inliner::expressions_by_id(Seq::<DefinitionView<T>>::empty()).contains_key(id),
        ({
            let before = inliner::expressions_by_id(definitions);
            let after = inliner::expressions_by_id(definitions.push(definition));
            &&& after.contains_key(id) <==> before.contains_key(id) || id == definition.0.id
            &&& id == definition.0.id ==> (definition.1 matches Some(value) ==> (value matches
                crate::analyzed::FunctionValueDefinitionView::Expression(e) ==> after[id] == e))
            &&& id != definition.0.id && before.contains_key(id) ==> after[id] == before[id]
        }),
{
    assert(definitions.push(definition).drop_last() =~= definitions);
}

/// The intermediate polynomials of a program are those in its source order, and it
/// can be inlined exactly if these are defined by expressions and all its
/// identities can be inlined.
pub proof fn lemma_programs<T>(program: AnalyzedView<T>)
    ensures
        ({
            let definitions = inliner::definitions_in_order(
                program.definitions,
                program.source_order,
                PolynomialType::Intermediate,
            );
            let intermediates = inliner::expressions_by_id(definitions);
            &&& inliner::intermediate_definitions(program) == definitions
            &&& inliner::intermediates_of(program) == intermediates
            &&& inliner::by_expressions(definitions) <==> forall|i: int|
                0 <= i < definitions.len() ==> ((#[trigger] definitions[i]).1 matches Some(value)
                    && value is Expression)
            &&& inliner::program_inlinable(program) <==> {
                &&& inliner::by_expressions(definitions)
                &&& forall|i: int|
                    0 <= i < program.identities.len() ==> {
                        &&& side_inlinable(intermediates, (#[trigger] program.identities[i]).left)
                        &&& side_inlinable(intermediates, program.identities[i].right)
                    }
            }
        }),
{
    let intermediates = inliner::intermediates_of(program);
    assert forall|i: int| 0 <= i < program.identities.len() implies (
    inliner::identity_inlinable(intermediates, #[trigger] program.identities[i])
        <==> side_inlinable(intermediates, program.identities[i].left) && side_inlinable(
        intermediates,
        program.identities[i].right,
    )) by {
        lemma_identities(intermediates, program.identities[i]);
    }
}

/// With a cache, a polynomial that is in it becomes what is cached, and any other
/// what its definition becomes with the same cache.
pub proof fn lemma_cached<T>(
    table: Map<u64, ExpressionView<T>>,
    cache: Map<u64, ExpressionView<T>>,
    reference: PolynomialReferenceView,
    id: u64,
    depth: nat,
)
    requires
        reference.poly_id == Some(PolyID { id, ptype: PolynomialType::Intermediate }),
    ensures
        ({
            let e = ExpressionView::Reference(ReferenceView::Poly(reference));
            &&& cache.contains_key(id) ==> {
                &&& cache::ends_with_cache(table, cache, e, depth)
                &&& cache::inline_with(table, cache, e, depth) == cache[id]
                &&& cache::reached(table, cache, e, depth) == Set::<u64>::empty()
            }
            &&& !cache.contains_key(id) ==> {
                &&& cache::ends_with_cache(table, cache, e, depth + 1) <==> table.contains_key(id)
                    && cache::ends_with_cache(table, cache, table[id], depth)
                &&& !cache::ends_with_cache(table, cache, e, 0)
                &&& cache::inline_with(table, cache, e, depth + 1) == cache::inline_with(
                    table,
                    cache,
                    table[id],
                    depth,
                )
                &&& cache::reached(table, cache, e, depth + 1) == cache::reached(
                    table,
                    cache,
                    table[id],
                    depth,
                ).insert(id)
            }
        }),
{
}

/// What is added to a cache is what the polynomials become with the cache as it
/// was. What is in it stays.
pub proof fn lemma_filled<T>(
    table: Map<u64, ExpressionView<T>>,
    cache: Map<u64, ExpressionView<T>>,
    ids: Set<u64>,
    id: u64,
    depth: nat,
)
    ensures
        ({
            let after = cache::filled(table, cache, ids, depth);
            &&& after.contains_key(id) <==> cache.contains_key(id) || ids.contains(id)
            &&& cache.contains_key(id) ==> after[id] == cache[id]
            &&& ids.contains(id) && !cache.contains_key(id) ==> after[id] == cache::inline_with(
                table,
                cache,
                table[id],
                depth,
            )
        }),
{
}

/// A polynomial is resolved on the way of one of the expressions.
pub open spec fn reached_in_one<T>(
    table: Map<u64, ExpressionView<T>>,
    cache: Map<u64, ExpressionView<T>>,
    items: Seq<ExpressionView<T>>,
    depth: nat,
    id: u64,
) -> bool {
    exists|i: int|
        0 <= i < items.len() && cache::reached(table, cache, #[trigger] items[i], depth).contains(
            id,
        )
}

proof fn lemma_reached_in_one<T>(
    table: Map<u64, ExpressionView<T>>,
    cache: Map<u64, ExpressionView<T>>,
    items: Seq<ExpressionView<T>>,
    depth: nat,
    id: u64,
)
    ensures
        cache::reached_in_all(table, cache, items, depth).contains(id) <==> reached_in_one(
            table,
            cache,
            items,
            depth,
            id,
        ),
    decreases items.len(),
{
    if items.len() > 0 {
        let front = items.drop_last();
        lemma_reached_in_one(table, cache, front, depth, id);
        if reached_in_one(table, cache, front, depth, id) {
            let i = choose|i: int|
                0 <= i < front.len() && cache::reached(
                    table,
                    cache,
                    #[trigger] front[i],
                    depth,
                ).contains(id);
            assert(cache::reached(table, cache, items[i], depth).contains(id));
        }
        if cache::reached(table, cache, items.last(), depth).contains(id) {
            assert(cache::reached(table, cache, items[items.len() - 1], depth).contains(id));
        }
        if reached_in_one(table, cache, items, depth, id) {
            let i = choose|i: int|
                0 <= i < items.len() && cache::reached(
                    table,
                    cache,
                    #[trigger] items[i],
                    depth,
                ).contains(id);
            if i < front.len() {
                assert(cache::reached(table, cache, front[i], depth).contains(id));
            }
        }
    }
}

/// What is resolved for an expression, and so is in the cache afterwards, is what
/// is resolved for its parts.
pub proof fn lemma_reached<T>(
    table: Map<u64, ExpressionView<T>>,
    cache: Map<u64, ExpressionView<T>>,
    e: ExpressionView<T>,
    depth: nat,
    id: u64,
)
    ensures
        ({
            let found = cache::reached(table, cache, e, depth).contains(id);
            match e {
                ExpressionView::Tuple(items) => found <==> reached_in_one(
                    table,
                    cache,
                    items,
                    depth,
                    id,
                ),
                ExpressionView::ArrayLiteral(items) => found <==> reached_in_one(
                    table,
                    cache,
                    items,
                    depth,
                    id,
                ),
                ExpressionView::FunctionCall(_, items) => found <==> reached_in_one(
                    table,
                    cache,
                    items,
                    depth,
                    id,
                ),
                ExpressionView::LambdaExpression(_, body) => found <==> cache::reached(
                    table,
                    cache,
                    *body,
                    depth,
                ).contains(id),
                ExpressionView::BinaryOperation(left, _, right) => found <==> cache::reached(
                    table,
                    cache,
                    *left,
                    depth,
                ).contains(id) || cache::reached(table, cache, *right, depth).contains(id),
                ExpressionView::UnaryOperation(_, value) => found <==> cache::reached(
                    table,
                    cache,
                    *value,
                    depth,
                ).contains(id),
                _ => true,
            }
        }),
{
    match e {
        ExpressionView::Tuple(items) => {
            lemma_reached_in_one(table, cache, items, depth, id);
        },
        ExpressionView::ArrayLiteral(items) => {
            lemma_reached_in_one(table, cache, items, depth, id);
        },
        ExpressionView::FunctionCall(_, items) => {
            lemma_reached_in_one(table, cache, items, depth, id);
        },
        _ => {},
    }
}

} // verus!
