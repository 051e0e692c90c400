//! Inlining of intermediate polynomials.
use std::collections::HashMap;

use vstd::prelude::*;

use crate::analyzed;
use crate::analyzed::{
    Analyzed, AnalyzedView, Definition, DefinitionView, Expression, ExpressionView,
    FunctionValueDefinition, Identity, IdentityView, MatchArmView, PolyID, PolynomialReferenceView,
    PolynomialType, Reference, ReferenceView, SelectedExpressionsView, StatementIdentifier,
    StatementIdentifierView, SymbolKind,
};
use crate::laws::substitution;
use crate::parsed::{
    ArrayLiteral, FunctionCall, LambdaExpression, MatchArm, MatchPattern, SelectedExpressions,
};

pub mod cache;
pub mod circles;

verus! {

/// The id of the intermediate polynomial that `reference` refers to, if it refers
/// to one.
pub open spec fn intermediate_id(reference: PolynomialReferenceView) -> Option<u64> {
    match reference.poly_id {
        Some(PolyID { id, ptype: PolynomialType::Intermediate }) => Some(id),
        _ => None,
    }
}

/// `e` with intermediate polynomials replaced by what `intermediates` defines
/// them to be, in what replaces them again, and so on through `depth` levels.
pub open spec fn inline_to<T>(
    intermediates: Map<u64, ExpressionView<T>>,
    e: ExpressionView<T>,
    depth: nat,
) -> ExpressionView<T>
    decreases depth, e,
{
    match e {
        ExpressionView::Reference(ReferenceView::Poly(reference)) => match intermediate_id(
            reference,
        ) {
            Some(id) => if depth > 0 {
                inline_to(intermediates, intermediates[id], (depth - 1) as nat)
            } else {
                e
            },
            None => e,
        },
        ExpressionView::Tuple(items) => ExpressionView::Tuple(
            inline_all_to(intermediates, items, depth),
        ),
        ExpressionView::ArrayLiteral(items) => ExpressionView::ArrayLiteral(
            inline_all_to(intermediates, items, depth),
        ),
        ExpressionView::LambdaExpression(params, body) => ExpressionView::LambdaExpression(
            params,
            Box::new(inline_to(intermediates, *body, depth)),
        ),
        ExpressionView::BinaryOperation(left, op, right) => ExpressionView::BinaryOperation(
            Box::new(inline_to(intermediates, *left, depth)),
            op,
            Box::new(inline_to(intermediates, *right, depth)),
        ),
        ExpressionView::UnaryOperation(op, value) => ExpressionView::UnaryOperation(
            op,
            Box::new(inline_to(intermediates, *value, depth)),
        ),
        ExpressionView::FunctionCall(id, arguments) => ExpressionView::FunctionCall(
            id,
            inline_all_to(intermediates, arguments, depth),
        ),
        ExpressionView::MatchExpression(scrutinee, arms) => ExpressionView::MatchExpression(
            Box::new(inline_to(intermediates, *scrutinee, depth)),
            inline_arms_to(intermediates, arms, depth),
        ),
        _ => e,
    }
}

pub open spec fn inline_all_to<T>(
    intermediates: Map<u64, ExpressionView<T>>,
    items: Seq<ExpressionView<T>>,
    depth: nat,
) -> Seq<ExpressionView<T>>
    decreases depth, items,
{
    Seq::new(
        items.len(),
        |i: int|
            if 0 <= i < items.len() {
                inline_to(intermediates, items[i], depth)
            } else {
                vstd::pervasive::arbitrary()
            },
    )
}

pub open spec fn inline_arm_to<T>(
    intermediates: Map<u64, ExpressionView<T>>,
    arm: MatchArmView<T>,
    depth: nat,
) -> MatchArmView<T>
    decreases depth, arm,
{
    MatchArmView {
        pattern: match arm.pattern {
            None => None,
            Some(e) => Some(inline_to(intermediates, e, depth)),
        },
        value: inline_to(intermediates, arm.value, depth),
    }
}

pub open spec fn inline_arms_to<T>(
    intermediates: Map<u64, ExpressionView<T>>,
    arms: Seq<MatchArmView<T>>,
    depth: nat,
) -> Seq<MatchArmView<T>>
    decreases depth, arms,
{
    Seq::new(
        arms.len(),
        |i: int|
            if 0 <= i < arms.len() {
                inline_arm_to(intermediates, arms[i], depth)
            } else {
                vstd::pervasive::arbitrary()
            },
    )
}

/// Every polynomial in `e` has an id, every intermediate polynomial in it is
/// defined, by an expression of which the same holds, and the chains of
/// definitions end after at most `depth` levels.
pub open spec fn ends_within<T>(
    intermediates: Map<u64, ExpressionView<T>>,
    e: ExpressionView<T>,
    depth: nat,
) -> bool
    decreases depth, e,
{
    match e {
        ExpressionView::Reference(ReferenceView::Poly(reference)) => {
            &&& reference.poly_id is Some
            &&& intermediate_id(reference) matches Some(id) ==> {
                &&& intermediates.contains_key(id)
                &&& depth > 0
                &&& ends_within(intermediates, intermediates[id], (depth - 1) as nat)
            }
        },
        ExpressionView::Tuple(items) => all_end_within(intermediates, items, depth),
        ExpressionView::ArrayLiteral(items) => all_end_within(intermediates, items, depth),
        ExpressionView::LambdaExpression(_, body) => ends_within(intermediates, *body, depth),
        ExpressionView::BinaryOperation(left, _, right) => {
            &&& ends_within(intermediates, *left, depth)
            &&& ends_within(intermediates, *right, depth)
        },
        ExpressionView::UnaryOperation(_, value) => ends_within(intermediates, *value, depth),
        ExpressionView::FunctionCall(_, arguments) => all_end_within(
            intermediates,
            arguments,
            depth,
        ),
        ExpressionView::MatchExpression(scrutinee, arms) => {
            &&& ends_within(intermediates, *scrutinee, depth)
            &&& arms_end_within(intermediates, arms, depth)
        },
        _ => true,
    }
}

pub open spec fn all_end_within<T>(
    intermediates: Map<u64, ExpressionView<T>>,
    items: Seq<ExpressionView<T>>,
    depth: nat,
) -> bool
    decreases depth, items,
{
    forall|i: int|
        0 <= i < items.len() ==> ends_within(intermediates, #[trigger] items[i], depth)
}

pub open spec fn arm_ends_within<T>(
    intermediates: Map<u64, ExpressionView<T>>,
    arm: MatchArmView<T>,
    depth: nat,
) -> bool
    decreases depth, arm,
{
    &&& arm.pattern matches Some(e) ==> ends_within(intermediates, e, depth)
    &&& ends_within(intermediates, arm.value, depth)
}

pub open spec fn arms_end_within<T>(
    intermediates: Map<u64, ExpressionView<T>>,
    arms: Seq<MatchArmView<T>>,
    depth: nat,
) -> bool
    decreases depth, arms,
{
    forall|i: int|
        0 <= i < arms.len() ==> arm_ends_within(intermediates, #[trigger] arms[i], depth)
}

/// The intermediate polynomials in `e` are not defined in a circle, and all are
/// defined.
pub open spec fn inlinable<T>(
    intermediates: Map<u64, ExpressionView<T>>,
    e: ExpressionView<T>,
) -> bool {
    exists|depth: nat| ends_within(intermediates, e, depth)
}

/// `e` with all intermediate polynomials replaced by what they stand for.
pub open spec fn inlined<T>(
    intermediates: Map<u64, ExpressionView<T>>,
    e: ExpressionView<T>,
) -> ExpressionView<T> {
    inline_to(intermediates, e, choose|depth: nat| ends_within(intermediates, e, depth))
}

/// More levels than needed change nothing.
pub proof fn lemma_more_levels<T>(
    intermediates: Map<u64, ExpressionView<T>>,
    e: ExpressionView<T>,
    depth: nat,
    more: nat,
)
    requires
        ends_within(intermediates, e, depth),
        depth <= more,
    ensures
        ends_within(intermediates, e, more),
        inline_to(intermediates, e, more) == inline_to(intermediates, e, depth),
    decreases depth, e,
{
    match e {
        ExpressionView::Reference(ReferenceView::Poly(reference)) => {
            if let Some(id) = intermediate_id(reference) {
                lemma_more_levels(
                    intermediates,
                    intermediates[id],
                    (depth - 1) as nat,
                    (more - 1) as nat,
                );
            }
        },
        ExpressionView::Tuple(items) => {
            lemma_more_levels_all(intermediates, items, depth, more);
        },
        ExpressionView::ArrayLiteral(items) => {
            lemma_more_levels_all(intermediates, items, depth, more);
        },
        ExpressionView::LambdaExpression(_, body) => {
            lemma_more_levels(intermediates, *body, depth, more);
        },
        ExpressionView::BinaryOperation(left, _, right) => {
            lemma_more_levels(intermediates, *left, depth, more);
            lemma_more_levels(intermediates, *right, depth, more);
        },
        ExpressionView::UnaryOperation(_, value) => {
            lemma_more_levels(intermediates, *value, depth, more);
        },
        ExpressionView::FunctionCall(_, arguments) => {
            lemma_more_levels_all(intermediates, arguments, depth, more);
        },
        ExpressionView::MatchExpression(scrutinee, arms) => {
            lemma_more_levels(intermediates, *scrutinee, depth, more);
            lemma_more_levels_arms(intermediates, arms, depth, more);
        },
        _ => {},
    }
}

pub proof fn lemma_more_levels_all<T>(
    intermediates: Map<u64, ExpressionView<T>>,
    items: Seq<ExpressionView<T>>,
    depth: nat,
    more: nat,
)
    requires
        all_end_within(intermediates, items, depth),
        depth <= more,
    ensures
        all_end_within(intermediates, items, more),
        inline_all_to(intermediates, items, more) == inline_all_to(intermediates, items, depth),
    decreases depth, items,
{
    assert forall|i: int| 0 <= i < items.len() implies ends_within(
        intermediates,
        #[trigger] items[i],
        more,
    ) && inline_to(intermediates, items[i], more) == inline_to(
        intermediates,
        items[i],
        depth,
    ) by {
        lemma_more_levels(intermediates, items[i], depth, more);
    }
    assert(inline_all_to(intermediates, items, more) =~= inline_all_to(
        intermediates,
        items,
        depth,
    ));
}

pub proof fn lemma_more_levels_arms<T>(
    intermediates: Map<u64, ExpressionView<T>>,
    arms: Seq<MatchArmView<T>>,
    depth: nat,
    more: nat,
)
    requires
        arms_end_within(intermediates, arms, depth),
        depth <= more,
    ensures
        arms_end_within(intermediates, arms, more),
        inline_arms_to(intermediates, arms, more) == inline_arms_to(intermediates, arms, depth),
    decreases depth, arms,
{
    assert forall|i: int| 0 <= i < arms.len() implies arm_ends_within(
        intermediates,
        #[trigger] arms[i],
        more,
    ) && inline_arm_to(intermediates, arms[i], more) == inline_arm_to(
        intermediates,
        arms[i],
        depth,
    ) by {
        assert(arm_ends_within(intermediates, arms[i], depth));
        if let Some(pattern) = arms[i].pattern {
            lemma_more_levels(intermediates, pattern, depth, more);
        }
        lemma_more_levels(intermediates, arms[i].value, depth, more);
    }
    assert(inline_arms_to(intermediates, arms, more) =~= inline_arms_to(
        intermediates,
        arms,
        depth,
    ));
}

/// Any depth within which the definitions end gives the inlined expression.
pub proof fn lemma_inlined<T>(
    intermediates: Map<u64, ExpressionView<T>>,
    e: ExpressionView<T>,
    depth: nat,
)
    requires
        ends_within(intermediates, e, depth),
    ensures
        inlinable(intermediates, e),
        inlined(intermediates, e) == inline_to(intermediates, e, depth),
{
    let chosen = choose|d: nat| ends_within(intermediates, e, d);
    if chosen <= depth {
        lemma_more_levels(intermediates, e, chosen, depth);
    } else {
        lemma_more_levels(intermediates, e, depth, chosen);
    }
}

/// The definitions of intermediate polynomials by their ids.
pub open spec fn table_view<T>(table: Map<u64, Expression<T>>) -> Map<u64, ExpressionView<T>> {
    table.map_values(|e: Expression<T>| e@)
}

/// The entries of a cache stay when it is filled, and those that are added are for
/// the ids.
proof fn lemma_entries<T>(
    table: Map<u64, ExpressionView<T>>,
    before: Map<u64, Expression<T>>,
    after: Map<u64, Expression<T>>,
    ids: Set<u64>,
    depth: nat,
)
    requires
        table_view(after) == cache::filled(table, table_view(before), ids, depth),
    ensures
        forall|id: u64| #[trigger]
            before.contains_key(id) ==> after.contains_key(id) && after[id]@ == before[id]@,
        forall|id: u64| #[trigger]
            after.contains_key(id) <==> before.contains_key(id) || ids.contains(id),
{
    let view = table_view(after);
    assert forall|id: u64| #[trigger] before.contains_key(id) implies after.contains_key(id)
        && after[id]@ == before[id]@ by {
        assert(table_view(before).contains_key(id));
        assert(view.contains_key(id));
        assert(view[id] == table_view(before)[id]);
    }
    assert forall|id: u64| #[trigger]
        after.contains_key(id) <==> before.contains_key(id) || ids.contains(id) by {
        assert(view.contains_key(id) <==> after.contains_key(id));
        assert(table_view(before).contains_key(id) <==> before.contains_key(id));
    }
}

/// Recursively inlines intermediate polynomials inside the definition of one and
/// caches what comes of it, so that it is not done twice: a polynomial that is
/// in the cache is taken from there, and every one that is resolved on the way
/// is in the cache afterwards.
pub(crate) fn inlined_expression_from_intermediate_poly_id<T: Copy>(
    poly_id: u64,
    intermediate_polynomials: &HashMap<u64, Expression<T>>,
    cache: &mut HashMap<u64, Expression<T>>,
    Ghost(depth): Ghost<nat>,
) -> (result: Expression<T>)
    requires
        intermediate_polynomials@.contains_key(poly_id),
        cache::ends_with_cache(
            table_view(intermediate_polynomials@),
            table_view(old(cache)@),
            intermediate_polynomials@[poly_id]@,
            depth,
        ),
    ensures
        result@ == cache::inline_with(
            table_view(intermediate_polynomials@),
            table_view(old(cache)@),
            intermediate_polynomials@[poly_id]@,
            depth,
        ),
        table_view(final(cache)@) == cache::filled(
            table_view(intermediate_polynomials@),
            table_view(old(cache)@),
            cache::reached(
                table_view(intermediate_polynomials@),
                table_view(old(cache)@),
                intermediate_polynomials@[poly_id]@,
                depth,
            ),
            depth,
        ).insert(poly_id, result@),
        final(cache)@.contains_key(poly_id),
        final(cache)@[poly_id]@ == result@,
        forall|id: u64| #[trigger]
            old(cache)@.contains_key(id) && id != poly_id ==> final(cache)@.contains_key(id)
                && final(cache)@[id]@ == old(cache)@[id]@,
        forall|id: u64| #[trigger]
            final(cache)@.contains_key(id) <==> old(cache)@.contains_key(id) || id == poly_id
                || cache::reached(
                table_view(intermediate_polynomials@),
                table_view(old(cache)@),
                intermediate_polynomials@[poly_id]@,
                depth,
            ).contains(id),
        cache::cache_fits(table_view(intermediate_polynomials@), table_view(old(cache)@)) ==> {
            &&& result@ == inlined(
                table_view(intermediate_polynomials@),
                intermediate_polynomials@[poly_id]@,
            )
            &&& cache::cache_fits(
                table_view(intermediate_polynomials@),
                table_view(final(cache)@),
            )
        },
    decreases depth, 1nat, intermediate_polynomials@[poly_id],
{
    let ghost table = table_view(intermediate_polynomials@);
    let ghost before = cache@;
    let definition = intermediate_polynomials.get(&poly_id).unwrap();
    let ghost ids = cache::reached(table, table_view(before), definition@, depth);
    let e = inline_expression(definition, intermediate_polynomials, cache, Ghost(depth));
    let ghost filled = cache@;
    cache.insert(poly_id, e.clone());
    proof {
        lemma_entries(table, before, filled, ids, depth);
        assert(table_view(cache@) =~= table_view(filled).insert(poly_id, e@));
        if cache::cache_fits(table, table_view(before)) {
            cache::lemma_reached_self_contained(table, table_view(before), definition@, depth);
            cache::lemma_filled_fits(table, table_view(before), ids, depth);
            cache::lemma_cache_inlines(table, table_view(before), definition@, depth);
            assert forall|id: u64| #[trigger] table_view(cache@).contains_key(id) implies {
                &&& table.contains_key(id)
                &&& inlinable(table, table[id])
                &&& table_view(cache@)[id] == inlined(table, table[id])
            } by {
                if id != poly_id {
                    assert(table_view(filled).contains_key(id));
                }
            }
        }
    }
    e
}

/// Inlines intermediate polynomials in `e`.
fn inline_expression<T: Copy>(
    e: &Expression<T>,
    intermediate_polynomials: &HashMap<u64, Expression<T>>,
    cache: &mut HashMap<u64, Expression<T>>,
    Ghost(depth): Ghost<nat>,
) -> (result: Expression<T>)
    requires
        cache::ends_with_cache(
            table_view(intermediate_polynomials@),
            table_view(old(cache)@),
            e@,
            depth,
        ),
    ensures
        result@ == cache::inline_with(
            table_view(intermediate_polynomials@),
            table_view(old(cache)@),
            e@,
            depth,
        ),
        table_view(final(cache)@) == cache::filled(
            table_view(intermediate_polynomials@),
            table_view(old(cache)@),
            cache::reached(
                table_view(intermediate_polynomials@),
                table_view(old(cache)@),
                e@,
                depth,
            ),
            depth,
        ),
        forall|id: u64| #[trigger]
            old(cache)@.contains_key(id) ==> final(cache)@.contains_key(id)
                && final(cache)@[id]@ == old(cache)@[id]@,
        forall|id: u64| #[trigger]
            final(cache)@.contains_key(id) <==> old(cache)@.contains_key(id) || cache::reached(
                table_view(intermediate_polynomials@),
                table_view(old(cache)@),
                e@,
                depth,
            ).contains(id),
    decreases depth, 0nat, *e,
{
    let ghost table = table_view(intermediate_polynomials@);
    let ghost before = table_view(cache@);
    let ghost entries = cache@;
    proof {
        lemma_nothing_filled(table, before, depth);
    }
    let result = match e {
        Expression::Constant(name) => Expression::Constant(name.clone()),
        Expression::Reference(reference) => match reference {
            Reference::LocalVar(id, name) => Expression::Reference(
                Reference::LocalVar(*id, name.clone()),
            ),
            Reference::Poly(poly) => match poly.poly_id {
                Some(PolyID { id, ptype: PolynomialType::Intermediate }) => {
                    let cached = match cache.get(&id) {
                        Some(e) => Some(e.clone()),
                        None => None,
                    };
                    assert(before.contains_key(id) <==> cached is Some);
                    match cached {
                        Some(e) => e,
                        None => {
                            proof {
                                cache::lemma_filled_reference(table, before, e@, id, depth);
                            }
                            inlined_expression_from_intermediate_poly_id(
                                id,
                                intermediate_polynomials,
                                cache,
                                Ghost((depth - 1) as nat),
                            )
                        },
                    }
                },
                _ => Expression::Reference(Reference::Poly(poly.clone())),
            },
        },
        Expression::PublicReference(name) => Expression::PublicReference(name.clone()),
        Expression::Number(n) => Expression::Number(*n),
        Expression::String(s) => Expression::String(s.clone()),
        Expression::Tuple(items) => Expression::Tuple(
            inline_expressions(items, intermediate_polynomials, cache, Ghost(depth)),
        ),
        Expression::ArrayLiteral(array) => Expression::ArrayLiteral(
            ArrayLiteral {
                items: inline_expressions(
                    &array.items,
                    intermediate_polynomials,
                    cache,
                    Ghost(depth),
                ),
            },
        ),
        Expression::LambdaExpression(lambda) => {
            let body = inline_expression(
                &lambda.body,
                intermediate_polynomials,
                cache,
                Ghost(depth),
            );
            Expression::LambdaExpression(
                LambdaExpression {
                    params: analyzed::clone_strings(&lambda.params),
                    body: Box::new(body),
                },
            )
        },
        Expression::BinaryOperation(left, op, right) => {
            let l = inline_expression(left, intermediate_polynomials, cache, Ghost(depth));
            proof {
                let ids = cache::reached(table, before, left@, depth);
                let more = cache::reached(table, before, right@, depth);
                let rest = cache::reached(table, table_view(cache@), right@, depth);
                cache::lemma_reached_self_contained(table, before, left@, depth);
                cache::lemma_reached_self_contained(table, before, right@, depth);
                cache::lemma_filled_same(table, before, right@, ids, depth, depth);
                cache::lemma_filled_in_steps(table, before, ids, more, rest, depth);
            }
            let r = inline_expression(right, intermediate_polynomials, cache, Ghost(depth));
            Expression::BinaryOperation(Box::new(l), *op, Box::new(r))
        },
        Expression::UnaryOperation(op, value) => {
            let v = inline_expression(value, intermediate_polynomials, cache, Ghost(depth));
            Expression::UnaryOperation(*op, Box::new(v))
        },
        Expression::FunctionCall(call) => Expression::FunctionCall(
            FunctionCall {
                id: call.id.clone(),
                arguments: inline_expressions(
                    &call.arguments,
                    intermediate_polynomials,
                    cache,
                    Ghost(depth),
                ),
            },
        ),
        Expression::MatchExpression(scrutinee, arms) => {
            let s = inline_expression(scrutinee, intermediate_polynomials, cache, Ghost(depth));
            proof {
                let views = analyzed::arms_view(arms@);
                let ids = cache::reached(table, before, scrutinee@, depth);
                let more = cache::reached_in_arms(table, before, views, depth);
                let rest = cache::reached_in_arms(table, table_view(cache@), views, depth);
                cache::lemma_reached_self_contained(table, before, scrutinee@, depth);
                cache::lemma_reached_self_contained_arms(table, before, views, depth);
                cache::lemma_filled_same_arms(table, before, views, ids, depth, depth);
                cache::lemma_filled_in_steps(table, before, ids, more, rest, depth);
            }
            let a = inline_match_arms(arms, intermediate_polynomials, cache, Ghost(depth));
            Expression::MatchExpression(Box::new(s), a)
        },
    };
    proof {
        let ids = cache::reached(table, before, e@, depth);
        lemma_entries(table, entries, cache@, ids, depth);
    }
    result
}

/// A cache stays as it is when nothing is added.
proof fn lemma_nothing_filled<T>(
    table: Map<u64, ExpressionView<T>>,
    cache: Map<u64, ExpressionView<T>>,
    depth: nat,
)
    ensures
        cache::filled(table, cache, Set::empty(), depth) == cache,
        cache::self_contained(table, cache, Set::empty(), depth),
{
    assert(cache::filled(table, cache, Set::empty(), depth) =~= cache);
}

fn inline_expressions<T: Copy>(
    items: &Vec<Expression<T>>,
    intermediate_polynomials: &HashMap<u64, Expression<T>>,
    cache: &mut HashMap<u64, Expression<T>>,
    Ghost(depth): Ghost<nat>,
) -> (result: Vec<Expression<T>>)
    requires
        cache::all_end_with_cache(
            table_view(intermediate_polynomials@),
            table_view(old(cache)@),
            analyzed::expressions_view(items@),
            depth,
        ),
    ensures
        analyzed::expressions_view(result@) == cache::inline_all_with(
            table_view(intermediate_polynomials@),
            table_view(old(cache)@),
            analyzed::expressions_view(items@),
            depth,
        ),
        table_view(final(cache)@) == cache::filled(
            table_view(intermediate_polynomials@),
            table_view(old(cache)@),
            cache::reached_in_all(
                table_view(intermediate_polynomials@),
                table_view(old(cache)@),
                analyzed::expressions_view(items@),
                depth,
            ),
            depth,
        ),
        forall|id: u64| #[trigger]
            old(cache)@.contains_key(id) ==> final(cache)@.contains_key(id)
                && final(cache)@[id]@ == old(cache)@[id]@,
        forall|id: u64| #[trigger]
            final(cache)@.contains_key(id) <==> old(cache)@.contains_key(id)
                || cache::reached_in_all(
                table_view(intermediate_polynomials@),
                table_view(old(cache)@),
                analyzed::expressions_view(items@),
                depth,
            ).contains(id),
    decreases depth, 0nat, items,
{
    let ghost table = table_view(intermediate_polynomials@);
    let ghost entries = cache@;
    let ghost before = table_view(entries);
    let ghost views = analyzed::expressions_view(items@);
    let mut done: Vec<Expression<T>> = Vec::new();
    let mut i: usize = 0;
    proof {
        assert(views.take(0).len() == 0);
        lemma_nothing_filled(table, before, depth);
    }
    while i < items.len()
        invariant
            table == table_view(intermediate_polynomials@),
            entries == old(cache)@,
            before == table_view(entries),
            views == analyzed::expressions_view(items@),
            cache::all_end_with_cache(table, before, views, depth),
            i <= items@.len(),
            done@.len() == i,
            cache::self_contained(
                table,
                before,
                cache::reached_in_all(table, before, views.take(i as int), depth),
                depth,
            ),
            table_view(cache@) == cache::filled(
                table,
                before,
                cache::reached_in_all(table, before, views.take(i as int), depth),
                depth,
            ),
            forall|k: int|
                0 <= k < i ==> (#[trigger] done@[k])@ == cache::inline_with(
                    table,
                    before,
                    views[k],
                    depth,
                ),
        decreases items@.len() - i,
    {
        proof {
            let e = views[i as int];
            assert(e == items@[i as int]@);
            assert(views.take(i + 1).drop_last() =~= views.take(i as int));
            assert(views.take(i + 1).last() == e);
            let ids = cache::reached_in_all(table, before, views.take(i as int), depth);
            let more = cache::reached(table, before, e, depth);
            let rest = cache::reached(table, table_view(cache@), e, depth);
            cache::lemma_reached_self_contained(table, before, e, depth);
            cache::lemma_filled_same(table, before, e, ids, depth, depth);
            cache::lemma_filled_in_steps(table, before, ids, more, rest, depth);
        }
        done.push(inline_expression(&items[i], intermediate_polynomials, cache, Ghost(depth)));
        i = i + 1;
    }
    proof {
        assert(views.take(i as int) =~= views);
        assert(analyzed::expressions_view(done@) =~= cache::inline_all_with(
            table,
            before,
            views,
            depth,
        ));
        let ids = cache::reached_in_all(table, before, views, depth);
        lemma_entries(table, entries, cache@, ids, depth);
    }
    done
}

fn inline_match_arms<T: Copy>(
    arms: &Vec<MatchArm<Expression<T>>>,
    intermediate_polynomials: &HashMap<u64, Expression<T>>,
    cache: &mut HashMap<u64, Expression<T>>,
    Ghost(depth): Ghost<nat>,
) -> (result: Vec<MatchArm<Expression<T>>>)
    requires
        cache::arms_end_with_cache(
            table_view(intermediate_polynomials@),
            table_view(old(cache)@),
            analyzed::arms_view(arms@),
            depth,
        ),
    ensures
        analyzed::arms_view(result@) == cache::inline_arms_with(
            table_view(intermediate_polynomials@),
            table_view(old(cache)@),
            analyzed::arms_view(arms@),
            depth,
        ),
        table_view(final(cache)@) == cache::filled(
            table_view(intermediate_polynomials@),
            table_view(old(cache)@),
            cache::reached_in_arms(
                table_view(intermediate_polynomials@),
                table_view(old(cache)@),
                analyzed::arms_view(arms@),
                depth,
            ),
            depth,
        ),
        forall|id: u64| #[trigger]
            old(cache)@.contains_key(id) ==> final(cache)@.contains_key(id)
                && final(cache)@[id]@ == old(cache)@[id]@,
        forall|id: u64| #[trigger]
            final(cache)@.contains_key(id) <==> old(cache)@.contains_key(id)
                || cache::reached_in_arms(
                table_view(intermediate_polynomials@),
                table_view(old(cache)@),
                analyzed::arms_view(arms@),
                depth,
            ).contains(id),
    decreases depth, 0nat, arms,
{
    let ghost table = table_view(intermediate_polynomials@);
    let ghost entries = cache@;
    let ghost before = table_view(entries);
    let ghost views = analyzed::arms_view(arms@);
    let mut done: Vec<MatchArm<Expression<T>>> = Vec::new();
    let mut i: usize = 0;
    proof {
        assert(views.take(0).len() == 0);
        lemma_nothing_filled(table, before, depth);
    }
    while i < arms.len()
        invariant
            table == table_view(intermediate_polynomials@),
            entries == old(cache)@,
            before == table_view(entries),
            views == analyzed::arms_view(arms@),
            cache::arms_end_with_cache(table, before, views, depth),
            i <= arms@.len(),
            done@.len() == i,
            cache::self_contained(
                table,
                before,
                cache::reached_in_arms(table, before, views.take(i as int), depth),
                depth,
            ),
            table_view(cache@) == cache::filled(
                table,
                before,
                cache::reached_in_arms(table, before, views.take(i as int), depth),
                depth,
            ),
            forall|k: int|
                0 <= k < i ==> analyzed::arm_view(#[trigger] done@[k]) == cache::inline_arm_with(
                    table,
                    before,
                    views[k],
                    depth,
                ),
        decreases arms@.len() - i,
    {
        let arm = &arms[i];
        let ghost current = analyzed::arm_view(*arm);
        let ghost ids = cache::reached_in_arms(table, before, views.take(i as int), depth);
        let ghost in_value = cache::reached(table, before, current.value, depth);
        let ghost in_arm = cache::reached_in_arm(table, before, current, depth);
        proof {
            assert(views[i as int] == current);
            assert(cache::arm_ends_with_cache(table, before, current, depth));
            assert(views.take(i + 1).drop_last() =~= views.take(i as int));
            assert(views.take(i + 1).last() == current);
            cache::lemma_reached_self_contained(table, before, current.value, depth);
        }
        let ghost mut so_far = ids;
        let pattern = match &arm.pattern {
            MatchPattern::CatchAll => MatchPattern::CatchAll,
            MatchPattern::Pattern(e) => {
                proof {
                    let more = cache::reached(table, before, e@, depth);
                    let rest = cache::reached(table, table_view(cache@), e@, depth);
                    cache::lemma_reached_self_contained(table, before, e@, depth);
                    cache::lemma_filled_same(table, before, e@, ids, depth, depth);
                    cache::lemma_filled_in_steps(table, before, ids, more, rest, depth);
                    so_far = ids.union(more);
                }
                MatchPattern::Pattern(
                    inline_expression(e, intermediate_polynomials, cache, Ghost(depth)),
                )
            },
        };
        proof {
            let rest = cache::reached(table, table_view(cache@), current.value, depth);
            cache::lemma_filled_same(table, before, current.value, so_far, depth, depth);
            cache::lemma_filled_in_steps(table, before, so_far, in_value, rest, depth);
            assert(so_far.union(in_value) =~= ids.union(in_arm));
        }
        let value = inline_expression(&arm.value, intermediate_polynomials, cache, Ghost(depth));
        done.push(MatchArm { pattern, value });
        assert(analyzed::arm_view(done@[i as int]) == cache::inline_arm_with(
            table,
            before,
            current,
            depth,
        ));
        i = i + 1;
    }
    proof {
        assert(views.take(i as int) =~= views);
        assert(analyzed::arms_view(done@) =~= cache::inline_arms_with(
            table,
            before,
            views,
            depth,
        ));
        let ids = cache::reached_in_arms(table, before, views, depth);
        lemma_entries(table, entries, cache@, ids, depth);
    }
    done
}

/// The expressions with all intermediate polynomials replaced by what they stand
/// for.
pub open spec fn inlined_all<T>(
    intermediates: Map<u64, ExpressionView<T>>,
    items: Seq<ExpressionView<T>>,
) -> Seq<ExpressionView<T>> {
    items.map_values(|e: ExpressionView<T>| inlined(intermediates, e))
}

pub open spec fn inlined_selected<T>(
    intermediates: Map<u64, ExpressionView<T>>,
    selected: SelectedExpressionsView<T>,
) -> SelectedExpressionsView<T> {
    SelectedExpressionsView {
        selector: match selected.selector {
            None => None,
            Some(e) => Some(inlined(intermediates, e)),
        },
        expressions: inlined_all(intermediates, selected.expressions),
    }
}

/// The identity with all intermediate polynomials replaced by what they stand
/// for.
pub open spec fn inlined_identity<T>(
    intermediates: Map<u64, ExpressionView<T>>,
    identity: IdentityView<T>,
) -> IdentityView<T> {
    IdentityView {
        left: inlined_selected(intermediates, identity.left),
        right: inlined_selected(intermediates, identity.right),
        ..identity
    }
}

pub open spec fn selected_inlinable<T>(
    intermediates: Map<u64, ExpressionView<T>>,
    selected: SelectedExpressionsView<T>,
) -> bool {
    &&& selected.selector matches Some(e) ==> inlinable(intermediates, e)
    &&& forall|i: int|
        0 <= i < selected.expressions.len() ==> inlinable(
            intermediates,
            #[trigger] selected.expressions[i],
        )
}

/// The intermediate polynomials in the identity are not defined in a circle, and
/// all are defined.
pub open spec fn identity_inlinable<T>(
    intermediates: Map<u64, ExpressionView<T>>,
    identity: IdentityView<T>,
) -> bool {
    selected_inlinable(intermediates, identity.left) && selected_inlinable(
        intermediates,
        identity.right,
    )
}

/// The definitions of polynomials of a type, in the order of `order`.
pub open spec fn definitions_in_order<T>(
    definitions: Map<Seq<char>, DefinitionView<T>>,
    order: Seq<StatementIdentifierView>,
    poly_type: PolynomialType,
) -> Seq<DefinitionView<T>>
    decreases order.len(),
{
    if order.len() == 0 {
        Seq::empty()
    } else {
        let front = definitions_in_order(definitions, order.drop_last(), poly_type);
        match order.last() {
            StatementIdentifierView::Definition(name) => if definitions.contains_key(name)
                && definitions[name].0.kind == SymbolKind::Poly(poly_type) {
                front.push(definitions[name])
            } else {
                front
            },
            _ => front,
        }
    }
}

/// Every definition in the list is by an expression.
pub open spec fn by_expressions<T>(definitions: Seq<DefinitionView<T>>) -> bool {
    forall|i: int|
        0 <= i < definitions.len() ==> ((#[trigger] definitions[i]).1 matches Some(value)
            && value is Expression)
}

/// The expressions that define the symbols of the list, by the ids of the
/// symbols.
pub open spec fn expressions_by_id<T>(definitions: Seq<DefinitionView<T>>) -> Map<
    u64,
    ExpressionView<T>,
>
    decreases definitions.len(),
{
    if definitions.len() == 0 {
        Map::empty()
    } else {
        let last = definitions.last();
        expressions_by_id(definitions.drop_last()).insert(last.0.id, last.1->Some_0->Expression_0)
    }
}

/// The definitions of the intermediate polynomials of a program, in source order.
pub open spec fn intermediate_definitions<T>(analyzed: AnalyzedView<T>) -> Seq<DefinitionView<T>> {
    definitions_in_order(analyzed.definitions, analyzed.source_order, PolynomialType::Intermediate)
}

/// The expressions that the intermediate polynomials of a program stand for, by
/// their ids.
pub open spec fn intermediates_of<T>(analyzed: AnalyzedView<T>) -> Map<u64, ExpressionView<T>> {
    expressions_by_id(intermediate_definitions(analyzed))
}

/// The intermediate polynomials of the program are defined by expressions, and
/// those that identities use are not defined in a circle.
pub open spec fn program_inlinable<T>(analyzed: AnalyzedView<T>) -> bool {
    &&& by_expressions(intermediate_definitions(analyzed))
    &&& forall|i: int|
        0 <= i < analyzed.identities.len() ==> identity_inlinable(
            intermediates_of(analyzed),
            #[trigger] analyzed.identities[i],
        )
}

impl<T> Analyzed<T> {
    /// The definitions of polynomials of a type, in source order.
    pub fn definitions_in_source_order(&self, poly_type: PolynomialType) -> (result: Vec<
        &Definition<T>,
    >)
        requires
            self.wf(),
        ensures
            result@.map_values(|definition: &Definition<T>| analyzed::definition_view(*definition))
                == definitions_in_order(self@.definitions, self@.source_order, poly_type),
    {
        let ghost definitions = self@.definitions;
        let ghost order = self@.source_order;
        let ghost view = |definition: &Definition<T>| analyzed::definition_view(*definition);
        let mut result: Vec<&Definition<T>> = Vec::new();
        let mut i: usize = 0;
        assert(order.take(0).len() == 0);
        assert(result@.map_values(view) =~= Seq::empty());
        while i < self.source_order.len()
            invariant
                self.wf(),
                definitions == self@.definitions,
                order == self@.source_order,
                order.len() == self.source_order@.len(),
                view == (|definition: &Definition<T>| analyzed::definition_view(*definition)),
                i <= self.source_order@.len(),
                result@.map_values(view) == definitions_in_order(
                    definitions,
                    order.take(i as int),
                    poly_type,
                ),
            decreases self.source_order@.len() - i,
        {
            assert(order.take(i + 1).drop_last() =~= order.take(i as int));
            assert(order[i as int] == self.source_order@[i as int]@);
            if let StatementIdentifier::Definition(name) = &self.source_order[i] {
                match self.definitions.get(name.as_str()) {
                    Some(definition) => {
                        assert(definitions[name@] == analyzed::definition_view(*definition));
                        if definition.0.kind == SymbolKind::Poly(poly_type) {
                            let ghost before = result@;
                            result.push(definition);
                            assert(result@.map_values(view) =~= before.map_values(view).push(
                                view(definition),
                            ));
                        }
                    },
                    None => {},
                }
            }
            i = i + 1;
        }
        assert(order.take(i as int) =~= order);
        result
    }
}

/// Takes identities and inlines intermediate polynomials everywhere.
pub fn substitute_intermediate<T: Copy>(
    identities: &Vec<Identity<T>>,
    intermediate_polynomials: &HashMap<u64, Expression<T>>,
) -> (result: Vec<Identity<T>>)
    requires
        forall|i: int|
            0 <= i < identities@.len() ==> identity_inlinable(
                table_view(intermediate_polynomials@),
                (#[trigger] identities@[i])@,
            ),
    ensures
        analyzed::identities_view(result@) == analyzed::identities_view(identities@).map_values(
            |identity: IdentityView<T>|
                inlined_identity(table_view(intermediate_polynomials@), identity),
        ),
        result@.len() == identities@.len(),
        forall|i: int|
            0 <= i < identities@.len() ==> substitution::identity_substituted(
                table_view(intermediate_polynomials@),
                identities@[i]@,
                (#[trigger] result@[i])@,
            ),
{
    let ghost intermediates = table_view(intermediate_polynomials@);
    let mut cache: HashMap<u64, Expression<T>> = HashMap::new();
    let mut done: Vec<Identity<T>> = Vec::new();
    let mut i: usize = 0;
    while i < identities.len()
        invariant
            intermediates == table_view(intermediate_polynomials@),
            cache::cache_fits(intermediates, table_view(cache@)),
            i <= identities@.len(),
            done@.len() == i,
            forall|k: int|
                0 <= k < identities@.len() ==> identity_inlinable(
                    intermediates,
                    (#[trigger] identities@[k])@,
                ),
            forall|k: int|
                0 <= k < i ==> (#[trigger] done@[k])@ == inlined_identity(
                    intermediates,
                    identities@[k]@,
                ),
        decreases identities@.len() - i,
    {
        let identity = &identities[i];
        assert(identity_inlinable(intermediates, identity@));
        let left = inline_selected(&identity.left, intermediate_polynomials, &mut cache);
        let right = inline_selected(&identity.right, intermediate_polynomials, &mut cache);
        done.push(
            Identity {
                id: identity.id,
                kind: identity.kind,
                source: identity.source.clone(),
                left,
                right,
            },
        );
        i = i + 1;
    }
    assert(analyzed::identities_view(done@) =~= analyzed::identities_view(identities@).map_values(
        |identity: IdentityView<T>| inlined_identity(intermediates, identity),
    ));
    proof {
        assert forall|k: int| 0 <= k < identities@.len() implies substitution::identity_substituted(
            intermediates,
            identities@[k]@,
            (#[trigger] done@[k])@,
        ) by {
            substitution::lemma_identities(intermediates, identities@[k]@);
        }
    }
    done
}

/// Inlines intermediate polynomials in an expression that can be inlined, with a
/// cache that fits.
fn inline_wholly<T: Copy>(
    e: &Expression<T>,
    intermediate_polynomials: &HashMap<u64, Expression<T>>,
    cache: &mut HashMap<u64, Expression<T>>,
) -> (result: Expression<T>)
    requires
        inlinable(table_view(intermediate_polynomials@), e@),
        cache::cache_fits(table_view(intermediate_polynomials@), table_view(old(cache)@)),
    ensures
        result@ == inlined(table_view(intermediate_polynomials@), e@),
        cache::cache_fits(table_view(intermediate_polynomials@), table_view(final(cache)@)),
        forall|id: u64| #[trigger]
            old(cache)@.contains_key(id) ==> final(cache)@.contains_key(id)
                && final(cache)@[id]@ == old(cache)@[id]@,
{
    let ghost table = table_view(intermediate_polynomials@);
    let ghost before = table_view(cache@);
    let ghost depth = choose|depth: nat| ends_within(table, e@, depth);
    proof {
        cache::lemma_cache_suffices(table, before, e@, depth);
        cache::lemma_cache_inlines(table, before, e@, depth);
        cache::lemma_reached_self_contained(table, before, e@, depth);
        let ids = cache::reached(table, before, e@, depth);
        cache::lemma_filled_fits(table, before, ids, depth);
    }
    inline_expression(e, intermediate_polynomials, cache, Ghost(depth))
}

/// Inlines intermediate polynomials in one side of an identity.
fn inline_selected<T: Copy>(
    selected: &SelectedExpressions<Expression<T>>,
    intermediate_polynomials: &HashMap<u64, Expression<T>>,
    cache: &mut HashMap<u64, Expression<T>>,
) -> (result: SelectedExpressions<Expression<T>>)
    requires
        selected_inlinable(table_view(intermediate_polynomials@), selected@),
        cache::cache_fits(table_view(intermediate_polynomials@), table_view(old(cache)@)),
    ensures
        result@ == inlined_selected(table_view(intermediate_polynomials@), selected@),
        cache::cache_fits(table_view(intermediate_polynomials@), table_view(final(cache)@)),
        forall|id: u64| #[trigger]
            old(cache)@.contains_key(id) ==> final(cache)@.contains_key(id)
                && final(cache)@[id]@ == old(cache)@[id]@,
{
    let ghost intermediates = table_view(intermediate_polynomials@);
    let selector = match &selected.selector {
        None => None,
        Some(e) => Some(inline_wholly(e, intermediate_polynomials, cache)),
    };
    let ghost views = selected@.expressions;
    let mut expressions: Vec<Expression<T>> = Vec::new();
    let mut i: usize = 0;
    while i < selected.expressions.len()
        invariant
            intermediates == table_view(intermediate_polynomials@),
            views == analyzed::expressions_view(selected.expressions@),
            cache::cache_fits(intermediates, table_view(cache@)),
            i <= views.len(),
            expressions@.len() == i,
            forall|k: int|
                0 <= k < views.len() ==> inlinable(intermediates, #[trigger] views[k]),
            forall|k: int|
                0 <= k < i ==> (#[trigger] expressions@[k])@ == inlined(intermediates, views[k]),
            forall|id: u64| #[trigger]
                old(cache)@.contains_key(id) ==> cache@.contains_key(id) && cache@[id]@ == old(
                    cache,
                )@[id]@,
        decreases views.len() - i,
    {
        let e = &selected.expressions[i];
        assert(views[i as int] == e@);
        expressions.push(inline_wholly(e, intermediate_polynomials, cache));
        i = i + 1;
    }
    assert(analyzed::expressions_view(expressions@) =~= inlined_all(intermediates, views));
    SelectedExpressions { selector, expressions }
}

/// The expressions that define the symbols of the list, by the ids of the
/// symbols.
fn table_of<T: Copy>(definitions: &Vec<&Definition<T>>) -> (table: HashMap<u64, Expression<T>>)
    requires
        by_expressions(
            definitions@.map_values(
                |definition: &Definition<T>| analyzed::definition_view(*definition),
            ),
        ),
    ensures
        table_view(table@) == expressions_by_id(
            definitions@.map_values(
                |definition: &Definition<T>| analyzed::definition_view(*definition),
            ),
        ),
{
    let ghost view = |definition: &Definition<T>| analyzed::definition_view(*definition);
    let ghost views = definitions@.map_values(view);
    let mut table: HashMap<u64, Expression<T>> = HashMap::new();
    let mut i: usize = 0;
    assert(views.take(0).len() == 0);
    assert(table_view(table@) =~= Map::empty());
    while i < definitions.len()
        invariant
            view == (|definition: &Definition<T>| analyzed::definition_view(*definition)),
            views == definitions@.map_values(view),
            by_expressions(views),
            i <= definitions@.len(),
            table_view(table@) == expressions_by_id(views.take(i as int)),
        decreases definitions@.len() - i,
    {
        let definition = definitions[i];
        assert(views.take(i + 1).drop_last() =~= views.take(i as int));
        assert(views[i as int] == analyzed::definition_view(*definition));
        if let Some(FunctionValueDefinition::Expression(e)) = &definition.1 {
            let ghost before = table@;
            table.insert(definition.0.id, e.clone());
            assert(table_view(table@) =~= table_view(before).insert(definition.0.id, e@));
        }
        i = i + 1;
    }
    assert(views.take(i as int) =~= views);
    table
}

/// The identities of a program without intermediate polynomials: each is
/// replaced by what it stands for.
pub fn inline_intermediate_polynomials<T: Copy>(analyzed: &Analyzed<T>) -> (result: Vec<
    Identity<T>,
>)
    requires
        analyzed.wf(),
        program_inlinable(analyzed@),
    ensures
        analyzed::identities_view(result@) == analyzed@.identities.map_values(
            |identity: IdentityView<T>| inlined_identity(intermediates_of(analyzed@), identity),
        ),
        result@.len() == analyzed@.identities.len(),
        forall|i: int|
            0 <= i < analyzed@.identities.len() ==> substitution::identity_substituted(
                intermediates_of(analyzed@),
                analyzed@.identities[i],
                (#[trigger] result@[i])@,
            ),
{
    let definitions = analyzed.definitions_in_source_order(PolynomialType::Intermediate);
    let intermediate_polynomials = table_of(&definitions);
    assert forall|k: int| 0 <= k < analyzed.identities@.len() implies identity_inlinable(
        intermediates_of(analyzed@),
        (#[trigger] analyzed.identities@[k])@,
    ) by {
        assert(analyzed@.identities[k] == analyzed.identities@[k]@);
    }
    substitute_intermediate(&analyzed.identities, &intermediate_polynomials)
}

} // verus!
