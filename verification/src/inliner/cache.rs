//! What the cache of inlined intermediate polynomials does.
use vstd::prelude::*;

use crate::analyzed::{ExpressionView, MatchArmView, ReferenceView};
use crate::inliner;

verus! {

/// Every polynomial in `e` has an id. Every intermediate polynomial in it is in
/// the cache, or else in the table, defined by an expression of which the same
/// holds, and the chains of definitions end after at most `depth` levels.
pub open spec fn ends_with_cache<T>(
    table: Map<u64, ExpressionView<T>>,
    cache: Map<u64, ExpressionView<T>>,
    e: ExpressionView<T>,
    depth: nat,
) -> bool
    decreases depth, e,
{
    match e {
        ExpressionView::Reference(ReferenceView::Poly(reference)) => {
            &&& reference.poly_id is Some
            &&& inliner::intermediate_id(reference) matches Some(id) ==> {
                ||| cache.contains_key(id)
                ||| {
                    &&& table.contains_key(id)
                    &&& depth > 0
                    &&& ends_with_cache(table, cache, table[id], (depth - 1) as nat)
                }
            }
        },
        ExpressionView::Tuple(items) => all_end_with_cache(table, cache, items, depth),
        ExpressionView::ArrayLiteral(items) => all_end_with_cache(table, cache, items, depth),
        ExpressionView::LambdaExpression(_, body) => ends_with_cache(table, cache, *body, depth),
        ExpressionView::BinaryOperation(left, _, right) => {
            &&& ends_with_cache(table, cache, *left, depth)
            &&& ends_with_cache(table, cache, *right, depth)
        },
        ExpressionView::UnaryOperation(_, value) => ends_with_cache(table, cache, *value, depth),
        ExpressionView::FunctionCall(_, arguments) => all_end_with_cache(
            table,
            cache,
            arguments,
            depth,
        ),
        ExpressionView::MatchExpression(scrutinee, arms) => {
            &&& ends_with_cache(table, cache, *scrutinee, depth)
            &&& arms_end_with_cache(table, cache, arms, depth)
        },
        _ => true,
    }
}

pub open spec fn all_end_with_cache<T>(
    table: Map<u64, ExpressionView<T>>,
    cache: Map<u64, ExpressionView<T>>,
    items: Seq<ExpressionView<T>>,
    depth: nat,
) -> bool
    decreases depth, items,
{
    forall|i: int|
        0 <= i < items.len() ==> ends_with_cache(table, cache, #[trigger] items[i], depth)
}

pub open spec fn arm_ends_with_cache<T>(
    table: Map<u64, ExpressionView<T>>,
    cache: Map<u64, ExpressionView<T>>,
    arm: MatchArmView<T>,
    depth: nat,
) -> bool
    decreases depth, arm,
{
    &&& arm.pattern matches Some(e) ==> ends_with_cache(table, cache, e, depth)
    &&& ends_with_cache(table, cache, arm.value, depth)
}

pub open spec fn arms_end_with_cache<T>(
    table: Map<u64, ExpressionView<T>>,
    cache: Map<u64, ExpressionView<T>>,
    arms: Seq<MatchArmView<T>>,
    depth: nat,
) -> bool
    decreases depth, arms,
{
    forall|i: int|
        0 <= i < arms.len() ==> arm_ends_with_cache(table, cache, #[trigger] arms[i], depth)
}

/// `e` with intermediate polynomials replaced: by what the cache has for them, or
/// else by their definitions in the table, in which the same is done, through
/// `depth` levels.
pub open spec fn inline_with<T>(
    table: Map<u64, ExpressionView<T>>,
    cache: Map<u64, ExpressionView<T>>,
    e: ExpressionView<T>,
    depth: nat,
) -> ExpressionView<T>
    decreases depth, e,
{
    match e {
        ExpressionView::Reference(ReferenceView::Poly(reference)) => match inliner::intermediate_id(
            reference,
        ) {
            Some(id) => if cache.contains_key(id) {
                cache[id]
            } else if depth > 0 {
                inline_with(table, cache, table[id], (depth - 1) as nat)
            } else {
                e
            },
            None => e,
        },
        ExpressionView::Tuple(items) => ExpressionView::Tuple(
            inline_all_with(table, cache, items, depth),
        ),
        ExpressionView::ArrayLiteral(items) => ExpressionView::ArrayLiteral(
            inline_all_with(table, cache, items, depth),
        ),
        ExpressionView::LambdaExpression(params, body) => ExpressionView::LambdaExpression(
            params,
            Box::new(inline_with(table, cache, *body, depth)),
        ),
        ExpressionView::BinaryOperation(left, op, right) => ExpressionView::BinaryOperation(
            Box::new(inline_with(table, cache, *left, depth)),
            op,
            Box::new(inline_with(table, cache, *right, depth)),
        ),
        ExpressionView::UnaryOperation(op, value) => ExpressionView::UnaryOperation(
            op,
            Box::new(inline_with(table, cache, *value, depth)),
        ),
        ExpressionView::FunctionCall(id, arguments) => ExpressionView::FunctionCall(
            id,
            inline_all_with(table, cache, arguments, depth),
        ),
        ExpressionView::MatchExpression(scrutinee, arms) => ExpressionView::MatchExpression(
            Box::new(inline_with(table, cache, *scrutinee, depth)),
            inline_arms_with(table, cache, arms, depth),
        ),
        _ => e,
    }
}

pub open spec fn inline_all_with<T>(
    table: Map<u64, ExpressionView<T>>,
    cache: Map<u64, ExpressionView<T>>,
    items: Seq<ExpressionView<T>>,
    depth: nat,
) -> Seq<ExpressionView<T>>
    decreases depth, items,
{
    Seq::new(
        items.len(),
        |i: int|
            if 0 <= i < items.len() {
                inline_with(table, cache, items[i], depth)
            } else {
                vstd::pervasive::arbitrary()
            },
    )
}

pub open spec fn inline_arm_with<T>(
    table: Map<u64, ExpressionView<T>>,
    cache: Map<u64, ExpressionView<T>>,
    arm: MatchArmView<T>,
    depth: nat,
) -> MatchArmView<T>
    decreases depth, arm,
{
    MatchArmView {
        pattern: match arm.pattern {
            None => None,
            Some(e) => Some(inline_with(table, cache, e, depth)),
        },
        value: inline_with(table, cache, arm.value, depth),
    }
}

pub open spec fn inline_arms_with<T>(
    table: Map<u64, ExpressionView<T>>,
    cache: Map<u64, ExpressionView<T>>,
    arms: Seq<MatchArmView<T>>,
    depth: nat,
) -> Seq<MatchArmView<T>>
    decreases depth, arms,
{
    Seq::new(
        arms.len(),
        |i: int|
            if 0 <= i < arms.len() {
                inline_arm_with(table, cache, arms[i], depth)
            } else {
                vstd::pervasive::arbitrary()
            },
    )
}

/// The intermediate polynomials that are resolved to inline `e`: those in it that
/// the cache does not have, and those in their definitions, and so on through
/// `depth` levels.
pub open spec fn reached<T>(
    table: Map<u64, ExpressionView<T>>,
    cache: Map<u64, ExpressionView<T>>,
    e: ExpressionView<T>,
    depth: nat,
) -> Set<u64>
    decreases depth, e,
{
    match e {
        ExpressionView::Reference(ReferenceView::Poly(reference)) => match inliner::intermediate_id(
            reference,
        ) {
            Some(id) => if cache.contains_key(id) || depth == 0 {
                Set::empty()
            } else {
                reached(table, cache, table[id], (depth - 1) as nat).insert(id)
            },
            None => Set::empty(),
        },
        ExpressionView::Tuple(items) => reached_in_all(table, cache, items, depth),
        ExpressionView::ArrayLiteral(items) => reached_in_all(table, cache, items, depth),
        ExpressionView::LambdaExpression(_, body) => reached(table, cache, *body, depth),
        ExpressionView::BinaryOperation(left, _, right) => reached(
            table,
            cache,
            *left,
            depth,
        ).union(reached(table, cache, *right, depth)),
        ExpressionView::UnaryOperation(_, value) => reached(table, cache, *value, depth),
        ExpressionView::FunctionCall(_, arguments) => reached_in_all(
            table,
            cache,
            arguments,
            depth,
        ),
        ExpressionView::MatchExpression(scrutinee, arms) => reached(
            table,
            cache,
            *scrutinee,
            depth,
        ).union(reached_in_arms(table, cache, arms, depth)),
        _ => Set::empty(),
    }
}

pub open spec fn reached_in_all<T>(
    table: Map<u64, ExpressionView<T>>,
    cache: Map<u64, ExpressionView<T>>,
    items: Seq<ExpressionView<T>>,
    depth: nat,
) -> Set<u64>
    decreases depth, items,
{
    if items.len() == 0 {
        Set::empty()
    } else {
        reached_in_all(table, cache, items.drop_last(), depth).union(
            reached(table, cache, items.last(), depth),
        )
    }
}

pub open spec fn reached_in_arm<T>(
    table: Map<u64, ExpressionView<T>>,
    cache: Map<u64, ExpressionView<T>>,
    arm: MatchArmView<T>,
    depth: nat,
) -> Set<u64>
    decreases depth, arm,
{
    let in_pattern = match arm.pattern {
        None => Set::empty(),
        Some(e) => reached(table, cache, e, depth),
    };
    in_pattern.union(reached(table, cache, arm.value, depth))
}

pub open spec fn reached_in_arms<T>(
    table: Map<u64, ExpressionView<T>>,
    cache: Map<u64, ExpressionView<T>>,
    arms: Seq<MatchArmView<T>>,
    depth: nat,
) -> Set<u64>
    decreases depth, arms,
{
    if arms.len() == 0 {
        Set::empty()
    } else {
        reached_in_arms(table, cache, arms.drop_last(), depth).union(
            reached_in_arm(table, cache, arms.last(), depth),
        )
    }
}

/// The cache with the polynomials `ids` added, each with what it is replaced by.
pub open spec fn filled<T>(
    table: Map<u64, ExpressionView<T>>,
    cache: Map<u64, ExpressionView<T>>,
    ids: Set<u64>,
    depth: nat,
) -> Map<u64, ExpressionView<T>> {
    Map::new(
        |id: u64| cache.contains_key(id) || ids.contains(id),
        |id: u64|
            if cache.contains_key(id) {
                cache[id]
            } else {
                inline_with(table, cache, table[id], depth)
            },
    )
}

/// The polynomials `ids` are in the table and not in the cache, their definitions
/// end within `depth` levels, and what is resolved for these is among `ids`.
pub open spec fn self_contained<T>(
    table: Map<u64, ExpressionView<T>>,
    cache: Map<u64, ExpressionView<T>>,
    ids: Set<u64>,
    depth: nat,
) -> bool {
    forall|id: u64| #[trigger]
        ids.contains(id) ==> {
            &&& !cache.contains_key(id)
            &&& table.contains_key(id)
            &&& ends_with_cache(table, cache, table[id], depth)
            &&& reached(table, cache, table[id], depth).subset_of(ids)
        }
}

/// What is cached for an intermediate polynomial is what it stands for.
pub open spec fn cache_fits<T>(
    table: Map<u64, ExpressionView<T>>,
    cache: Map<u64, ExpressionView<T>>,
) -> bool {
    forall|id: u64| #[trigger]
        cache.contains_key(id) ==> {
            &&& table.contains_key(id)
            &&& inliner::inlinable(table, table[id])
            &&& cache[id] == inliner::inlined(table, table[id])
        }
}

/// More levels than needed change nothing.
pub proof fn lemma_more_levels_with<T>(
    table: Map<u64, ExpressionView<T>>,
    cache: Map<u64, ExpressionView<T>>,
    e: ExpressionView<T>,
    depth: nat,
    more: nat,
)
    requires
        ends_with_cache(table, cache, e, depth),
        depth <= more,
    ensures
        ends_with_cache(table, cache, e, more),
        inline_with(table, cache, e, more) == inline_with(table, cache, e, depth),
        reached(table, cache, e, more) == reached(table, cache, e, depth),
    decreases depth, e,
{
    match e {
        ExpressionView::Reference(ReferenceView::Poly(reference)) => {
            if let Some(id) = inliner::intermediate_id(reference) {
                if !cache.contains_key(id) {
                    lemma_more_levels_with(
                        table,
                        cache,
                        table[id],
                        (depth - 1) as nat,
                        (more - 1) as nat,
                    );
                }
            }
        },
        ExpressionView::Tuple(items) => {
            lemma_more_levels_with_all(table, cache, items, depth, more);
        },
        ExpressionView::ArrayLiteral(items) => {
            lemma_more_levels_with_all(table, cache, items, depth, more);
        },
        ExpressionView::LambdaExpression(_, body) => {
            lemma_more_levels_with(table, cache, *body, depth, more);
        },
        ExpressionView::BinaryOperation(left, _, right) => {
            lemma_more_levels_with(table, cache, *left, depth, more);
            lemma_more_levels_with(table, cache, *right, depth, more);
        },
        ExpressionView::UnaryOperation(_, value) => {
            lemma_more_levels_with(table, cache, *value, depth, more);
        },
        ExpressionView::FunctionCall(_, arguments) => {
            lemma_more_levels_with_all(table, cache, arguments, depth, more);
        },
        ExpressionView::MatchExpression(scrutinee, arms) => {
            lemma_more_levels_with(table, cache, *scrutinee, depth, more);
            lemma_more_levels_with_arms(table, cache, arms, depth, more);
        },
        _ => {},
    }
}

proof fn lemma_more_levels_with_all<T>(
    table: Map<u64, ExpressionView<T>>,
    cache: Map<u64, ExpressionView<T>>,
    items: Seq<ExpressionView<T>>,
    depth: nat,
    more: nat,
)
    requires
        all_end_with_cache(table, cache, items, depth),
        depth <= more,
    ensures
        all_end_with_cache(table, cache, items, more),
        inline_all_with(table, cache, items, more) == inline_all_with(table, cache, items, depth),
        reached_in_all(table, cache, items, more) == reached_in_all(table, cache, items, depth),
    decreases depth, items,
{
    assert forall|i: int| 0 <= i < items.len() implies ends_with_cache(
        table,
        cache,
        #[trigger] items[i],
        more,
    ) && inline_with(table, cache, items[i], more) == inline_with(
        table,
        cache,
        items[i],
        depth,
    ) by {
        lemma_more_levels_with(table, cache, items[i], depth, more);
    }
    assert(inline_all_with(table, cache, items, more) =~= inline_all_with(
        table,
        cache,
        items,
        depth,
    ));
    if items.len() > 0 {
        assert(items[items.len() - 1] == items.last());
        lemma_more_levels_with(table, cache, items.last(), depth, more);
        lemma_more_levels_with_all(table, cache, items.drop_last(), depth, more);
    }
}

proof fn lemma_more_levels_with_arms<T>(
    table: Map<u64, ExpressionView<T>>,
    cache: Map<u64, ExpressionView<T>>,
    arms: Seq<MatchArmView<T>>,
    depth: nat,
    more: nat,
)
    requires
        arms_end_with_cache(table, cache, arms, depth),
        depth <= more,
    ensures
        arms_end_with_cache(table, cache, arms, more),
        inline_arms_with(table, cache, arms, more) == inline_arms_with(table, cache, arms, depth),
        reached_in_arms(table, cache, arms, more) == reached_in_arms(table, cache, arms, depth),
    decreases depth, arms,
{
    assert forall|i: int| 0 <= i < arms.len() implies arm_ends_with_cache(
        table,
        cache,
        #[trigger] arms[i],
        more,
    ) && inline_arm_with(table, cache, arms[i], more) == inline_arm_with(
        table,
        cache,
        arms[i],
        depth,
    ) by {
        lemma_more_levels_with_arm(table, cache, arms[i], depth, more);
    }
    assert(inline_arms_with(table, cache, arms, more) =~= inline_arms_with(
        table,
        cache,
        arms,
        depth,
    ));
    if arms.len() > 0 {
        assert(arms[arms.len() - 1] == arms.last());
        lemma_more_levels_with_arm(table, cache, arms.last(), depth, more);
        lemma_more_levels_with_arms(table, cache, arms.drop_last(), depth, more);
    }
}

proof fn lemma_more_levels_with_arm<T>(
    table: Map<u64, ExpressionView<T>>,
    cache: Map<u64, ExpressionView<T>>,
    arm: MatchArmView<T>,
    depth: nat,
    more: nat,
)
    requires
        arm_ends_with_cache(table, cache, arm, depth),
        depth <= more,
    ensures
        arm_ends_with_cache(table, cache, arm, more),
        inline_arm_with(table, cache, arm, more) == inline_arm_with(table, cache, arm, depth),
        reached_in_arm(table, cache, arm, more) == reached_in_arm(table, cache, arm, depth),
    decreases depth, arm,
{
    if let Some(pattern) = arm.pattern {
        lemma_more_levels_with(table, cache, pattern, depth, more);
    }
    lemma_more_levels_with(table, cache, arm.value, depth, more);
}

proof fn lemma_self_contained_more<T>(
    table: Map<u64, ExpressionView<T>>,
    cache: Map<u64, ExpressionView<T>>,
    ids: Set<u64>,
    depth: nat,
    more: nat,
)
    requires
        self_contained(table, cache, ids, depth),
        depth <= more,
    ensures
        self_contained(table, cache, ids, more),
        filled(table, cache, ids, more) == filled(table, cache, ids, depth),
{
    assert forall|id: u64| #[trigger] ids.contains(id) implies {
        &&& !cache.contains_key(id)
        &&& table.contains_key(id)
        &&& ends_with_cache(table, cache, table[id], more)
        &&& reached(table, cache, table[id], more).subset_of(ids)
        &&& inline_with(table, cache, table[id], more) == inline_with(
            table,
            cache,
            table[id],
            depth,
        )
    } by {
        lemma_more_levels_with(table, cache, table[id], depth, more);
    }
    assert(filled(table, cache, ids, more) =~= filled(table, cache, ids, depth));
}

proof fn lemma_self_contained_union<T>(
    table: Map<u64, ExpressionView<T>>,
    cache: Map<u64, ExpressionView<T>>,
    a: Set<u64>,
    b: Set<u64>,
    depth: nat,
)
    requires
        self_contained(table, cache, a, depth),
        self_contained(table, cache, b, depth),
    ensures
        self_contained(table, cache, a.union(b), depth),
{
}

/// What is resolved for `e` is all that is resolved for it.
pub proof fn lemma_reached_self_contained<T>(
    table: Map<u64, ExpressionView<T>>,
    cache: Map<u64, ExpressionView<T>>,
    e: ExpressionView<T>,
    depth: nat,
)
    requires
        ends_with_cache(table, cache, e, depth),
    ensures
        self_contained(table, cache, reached(table, cache, e, depth), depth),
    decreases depth, e,
{
    match e {
        ExpressionView::Reference(ReferenceView::Poly(reference)) => {
            if let Some(id) = inliner::intermediate_id(reference) {
                if !cache.contains_key(id) {
                    let less = (depth - 1) as nat;
                    let below = reached(table, cache, table[id], less);
                    lemma_reached_self_contained(table, cache, table[id], less);
                    lemma_self_contained_more(table, cache, below, less, depth);
                    lemma_more_levels_with(table, cache, table[id], less, depth);
                    assert(reached(table, cache, e, depth) == below.insert(id));
                }
            }
        },
        ExpressionView::Tuple(items) => {
            lemma_reached_self_contained_all(table, cache, items, depth);
        },
        ExpressionView::ArrayLiteral(items) => {
            lemma_reached_self_contained_all(table, cache, items, depth);
        },
        ExpressionView::LambdaExpression(_, body) => {
            lemma_reached_self_contained(table, cache, *body, depth);
        },
        ExpressionView::BinaryOperation(left, _, right) => {
            lemma_reached_self_contained(table, cache, *left, depth);
            lemma_reached_self_contained(table, cache, *right, depth);
            lemma_self_contained_union(
                table,
                cache,
                reached(table, cache, *left, depth),
                reached(table, cache, *right, depth),
                depth,
            );
        },
        ExpressionView::UnaryOperation(_, value) => {
            lemma_reached_self_contained(table, cache, *value, depth);
        },
        ExpressionView::FunctionCall(_, arguments) => {
            lemma_reached_self_contained_all(table, cache, arguments, depth);
        },
        ExpressionView::MatchExpression(scrutinee, arms) => {
            lemma_reached_self_contained(table, cache, *scrutinee, depth);
            lemma_reached_self_contained_arms(table, cache, arms, depth);
            lemma_self_contained_union(
                table,
                cache,
                reached(table, cache, *scrutinee, depth),
                reached_in_arms(table, cache, arms, depth),
                depth,
            );
        },
        _ => {},
    }
}

proof fn lemma_reached_self_contained_all<T>(
    table: Map<u64, ExpressionView<T>>,
    cache: Map<u64, ExpressionView<T>>,
    items: Seq<ExpressionView<T>>,
    depth: nat,
)
    requires
        all_end_with_cache(table, cache, items, depth),
    ensures
        self_contained(table, cache, reached_in_all(table, cache, items, depth), depth),
    decreases depth, items,
{
    if items.len() > 0 {
        let front = items.drop_last();
        assert(items[items.len() - 1] == items.last());
        lemma_reached_self_contained_all(table, cache, front, depth);
        lemma_reached_self_contained(table, cache, items.last(), depth);
        lemma_self_contained_union(
            table,
            cache,
            reached_in_all(table, cache, front, depth),
            reached(table, cache, items.last(), depth),
            depth,
        );
    }
}

pub proof fn lemma_reached_self_contained_arms<T>(
    table: Map<u64, ExpressionView<T>>,
    cache: Map<u64, ExpressionView<T>>,
    arms: Seq<MatchArmView<T>>,
    depth: nat,
)
    requires
        arms_end_with_cache(table, cache, arms, depth),
    ensures
        self_contained(table, cache, reached_in_arms(table, cache, arms, depth), depth),
    decreases depth, arms,
{
    if arms.len() > 0 {
        let front = arms.drop_last();
        assert(arms[arms.len() - 1] == arms.last());
        lemma_reached_self_contained_arms(table, cache, front, depth);
        lemma_reached_self_contained_arm(table, cache, arms.last(), depth);
        lemma_self_contained_union(
            table,
            cache,
            reached_in_arms(table, cache, front, depth),
            reached_in_arm(table, cache, arms.last(), depth),
            depth,
        );
    }
}

proof fn lemma_reached_self_contained_arm<T>(
    table: Map<u64, ExpressionView<T>>,
    cache: Map<u64, ExpressionView<T>>,
    arm: MatchArmView<T>,
    depth: nat,
)
    requires
        arm_ends_with_cache(table, cache, arm, depth),
    ensures
        self_contained(table, cache, reached_in_arm(table, cache, arm, depth), depth),
    decreases depth, arm,
{
    lemma_reached_self_contained(table, cache, arm.value, depth);
    if let Some(pattern) = arm.pattern {
        lemma_reached_self_contained(table, cache, pattern, depth);
        lemma_self_contained_union(
            table,
            cache,
            reached(table, cache, pattern, depth),
            reached(table, cache, arm.value, depth),
            depth,
        );
    }
}

/// A cache that has been filled leads to the same, and what is still resolved
/// with it adds up to the same.
pub proof fn lemma_filled_same<T>(
    table: Map<u64, ExpressionView<T>>,
    cache: Map<u64, ExpressionView<T>>,
    e: ExpressionView<T>,
    ids: Set<u64>,
    depth: nat,
    full: nat,
)
    requires
        self_contained(table, cache, ids, full),
        ends_with_cache(table, cache, e, depth),
        depth <= full,
    ensures
        ({
            let after = filled(table, cache, ids, full);
            &&& ends_with_cache(table, after, e, depth)
            &&& inline_with(table, after, e, depth) == inline_with(table, cache, e, depth)
            &&& reached(table, after, e, depth).union(ids) == reached(
                table,
                cache,
                e,
                depth,
            ).union(ids)
        }),
    decreases depth, e,
{
    match e {
        ExpressionView::Reference(ReferenceView::Poly(reference)) => {
            if let Some(id) = inliner::intermediate_id(reference) {
                if !cache.contains_key(id) {
                    let less = (depth - 1) as nat;
                    let after = filled(table, cache, ids, full);
                    if ids.contains(id) {
                        lemma_more_levels_with(table, cache, table[id], less, full);
                        assert(after[id] == inline_with(table, cache, table[id], full));
                        let below = reached(table, cache, table[id], less);
                        assert(reached(table, cache, e, depth) == below.insert(id));
                        assert(below.subset_of(ids));
                        assert(below.insert(id).union(ids) =~= ids);
                        assert(Set::<u64>::empty().union(ids) =~= ids);
                    } else {
                        lemma_filled_same(table, cache, table[id], ids, less, full);
                        assert(!after.contains_key(id));
                        lemma_union_same(
                            reached(table, after, table[id], less),
                            Set::empty().insert(id),
                            reached(table, cache, table[id], less),
                            Set::empty().insert(id),
                            ids,
                        );
                        assert(reached(table, after, e, depth) =~= reached(
                            table,
                            after,
                            table[id],
                            less,
                        ).union(Set::empty().insert(id)));
                        assert(reached(table, cache, e, depth) =~= reached(
                            table,
                            cache,
                            table[id],
                            less,
                        ).union(Set::empty().insert(id)));
                    }
                }
            }
        },
        ExpressionView::Tuple(items) => {
            lemma_filled_same_all(table, cache, items, ids, depth, full);
        },
        ExpressionView::ArrayLiteral(items) => {
            lemma_filled_same_all(table, cache, items, ids, depth, full);
        },
        ExpressionView::LambdaExpression(_, body) => {
            lemma_filled_same(table, cache, *body, ids, depth, full);
        },
        ExpressionView::BinaryOperation(left, _, right) => {
            lemma_filled_same(table, cache, *left, ids, depth, full);
            lemma_filled_same(table, cache, *right, ids, depth, full);
            let after = filled(table, cache, ids, full);
            lemma_union_same(
                reached(table, after, *left, depth),
                reached(table, after, *right, depth),
                reached(table, cache, *left, depth),
                reached(table, cache, *right, depth),
                ids,
            );
        },
        ExpressionView::UnaryOperation(_, value) => {
            lemma_filled_same(table, cache, *value, ids, depth, full);
        },
        ExpressionView::FunctionCall(_, arguments) => {
            lemma_filled_same_all(table, cache, arguments, ids, depth, full);
        },
        ExpressionView::MatchExpression(scrutinee, arms) => {
            lemma_filled_same(table, cache, *scrutinee, ids, depth, full);
            lemma_filled_same_arms(table, cache, arms, ids, depth, full);
            let after = filled(table, cache, ids, full);
            lemma_union_same(
                reached(table, after, *scrutinee, depth),
                reached_in_arms(table, after, arms, depth),
                reached(table, cache, *scrutinee, depth),
                reached_in_arms(table, cache, arms, depth),
                ids,
            );
        },
        _ => {},
    }
}

proof fn lemma_filled_same_all<T>(
    table: Map<u64, ExpressionView<T>>,
    cache: Map<u64, ExpressionView<T>>,
    items: Seq<ExpressionView<T>>,
    ids: Set<u64>,
    depth: nat,
    full: nat,
)
    requires
        self_contained(table, cache, ids, full),
        all_end_with_cache(table, cache, items, depth),
        depth <= full,
    ensures
        ({
            let after = filled(table, cache, ids, full);
            &&& all_end_with_cache(table, after, items, depth)
            &&& inline_all_with(table, after, items, depth) == inline_all_with(
                table,
                cache,
                items,
                depth,
            )
            &&& reached_in_all(table, after, items, depth).union(ids) == reached_in_all(
                table,
                cache,
                items,
                depth,
            ).union(ids)
        }),
    decreases depth, items,
{
    let after = filled(table, cache, ids, full);
    assert forall|i: int| 0 <= i < items.len() implies ends_with_cache(
        table,
        after,
        #[trigger] items[i],
        depth,
    ) && inline_with(table, after, items[i], depth) == inline_with(
        table,
        cache,
        items[i],
        depth,
    ) by {
        lemma_filled_same(table, cache, items[i], ids, depth, full);
    }
    assert(inline_all_with(table, after, items, depth) =~= inline_all_with(
        table,
        cache,
        items,
        depth,
    ));
    if items.len() > 0 {
        assert(items[items.len() - 1] == items.last());
        lemma_filled_same(table, cache, items.last(), ids, depth, full);
        lemma_filled_same_all(table, cache, items.drop_last(), ids, depth, full);
        lemma_union_same(
            reached_in_all(table, after, items.drop_last(), depth),
            reached(table, after, items.last(), depth),
            reached_in_all(table, cache, items.drop_last(), depth),
            reached(table, cache, items.last(), depth),
            ids,
        );
    }
}

pub proof fn lemma_filled_same_arms<T>(
    table: Map<u64, ExpressionView<T>>,
    cache: Map<u64, ExpressionView<T>>,
    arms: Seq<MatchArmView<T>>,
    ids: Set<u64>,
    depth: nat,
    full: nat,
)
    requires
        self_contained(table, cache, ids, full),
        arms_end_with_cache(table, cache, arms, depth),
        depth <= full,
    ensures
        ({
            let after = filled(table, cache, ids, full);
            &&& arms_end_with_cache(table, after, arms, depth)
            &&& inline_arms_with(table, after, arms, depth) == inline_arms_with(
                table,
                cache,
                arms,
                depth,
            )
            &&& reached_in_arms(table, after, arms, depth).union(ids) == reached_in_arms(
                table,
                cache,
                arms,
                depth,
            ).union(ids)
        }),
    decreases depth, arms,
{
    let after = filled(table, cache, ids, full);
    assert forall|i: int| 0 <= i < arms.len() implies arm_ends_with_cache(
        table,
        after,
        #[trigger] arms[i],
        depth,
    ) && inline_arm_with(table, after, arms[i], depth) == inline_arm_with(
        table,
        cache,
        arms[i],
        depth,
    ) by {
        lemma_filled_same_arm(table, cache, arms[i], ids, depth, full);
    }
    assert(inline_arms_with(table, after, arms, depth) =~= inline_arms_with(
        table,
        cache,
        arms,
        depth,
    ));
    if arms.len() > 0 {
        assert(arms[arms.len() - 1] == arms.last());
        lemma_filled_same_arm(table, cache, arms.last(), ids, depth, full);
        lemma_filled_same_arms(table, cache, arms.drop_last(), ids, depth, full);
        lemma_union_same(
            reached_in_arms(table, after, arms.drop_last(), depth),
            reached_in_arm(table, after, arms.last(), depth),
            reached_in_arms(table, cache, arms.drop_last(), depth),
            reached_in_arm(table, cache, arms.last(), depth),
            ids,
        );
    }
}

proof fn lemma_filled_same_arm<T>(
    table: Map<u64, ExpressionView<T>>,
    cache: Map<u64, ExpressionView<T>>,
    arm: MatchArmView<T>,
    ids: Set<u64>,
    depth: nat,
    full: nat,
)
    requires
        self_contained(table, cache, ids, full),
        arm_ends_with_cache(table, cache, arm, depth),
        depth <= full,
    ensures
        ({
            let after = filled(table, cache, ids, full);
            &&& arm_ends_with_cache(table, after, arm, depth)
            &&& inline_arm_with(table, after, arm, depth) == inline_arm_with(
                table,
                cache,
                arm,
                depth,
            )
            &&& reached_in_arm(table, after, arm, depth).union(ids) == reached_in_arm(
                table,
                cache,
                arm,
                depth,
            ).union(ids)
        }),
    decreases depth, arm,
{
    let after = filled(table, cache, ids, full);
    lemma_filled_same(table, cache, arm.value, ids, depth, full);
    if let Some(pattern) = arm.pattern {
        lemma_filled_same(table, cache, pattern, ids, depth, full);
        lemma_union_same(
            reached(table, after, pattern, depth),
            reached(table, after, arm.value, depth),
            reached(table, cache, pattern, depth),
            reached(table, cache, arm.value, depth),
            ids,
        );
    } else {
        assert(Set::<u64>::empty().union(reached(table, after, arm.value, depth)) =~= reached(
            table,
            after,
            arm.value,
            depth,
        ));
        assert(Set::<u64>::empty().union(reached(table, cache, arm.value, depth)) =~= reached(
            table,
            cache,
            arm.value,
            depth,
        ));
    }
}

proof fn lemma_union_same(
    a: Set<u64>,
    b: Set<u64>,
    other_a: Set<u64>,
    other_b: Set<u64>,
    ids: Set<u64>,
)
    requires
        a.union(ids) == other_a.union(ids),
        b.union(ids) == other_b.union(ids),
    ensures
        a.union(b).union(ids) == other_a.union(other_b).union(ids),
{
    assert forall|id: u64| a.union(b).union(ids).contains(id) implies #[trigger] other_a.union(
        other_b,
    ).union(ids).contains(id) by {
        if a.contains(id) {
            assert(a.union(ids).contains(id));
            assert(other_a.union(ids).contains(id));
        }
        if b.contains(id) {
            assert(b.union(ids).contains(id));
            assert(other_b.union(ids).contains(id));
        }
    }
    assert forall|id: u64|
        other_a.union(other_b).union(ids).contains(id) implies #[trigger] a.union(b).union(
        ids,
    ).contains(id) by {
        if other_a.contains(id) {
            assert(other_a.union(ids).contains(id));
            assert(a.union(ids).contains(id));
        }
        if other_b.contains(id) {
            assert(other_b.union(ids).contains(id));
            assert(b.union(ids).contains(id));
        }
    }
    assert(a.union(b).union(ids) =~= other_a.union(other_b).union(ids));
}

/// Filling a cache in two steps is filling it in one: `rest` is what is resolved
/// in the second step where it would be `more` without the first.
pub proof fn lemma_filled_in_steps<T>(
    table: Map<u64, ExpressionView<T>>,
    cache: Map<u64, ExpressionView<T>>,
    ids: Set<u64>,
    more: Set<u64>,
    rest: Set<u64>,
    depth: nat,
)
    requires
        self_contained(table, cache, ids, depth),
        self_contained(table, cache, more, depth),
        rest.union(ids) == more.union(ids),
    ensures
        self_contained(table, cache, ids.union(more), depth),
        filled(table, filled(table, cache, ids, depth), rest, depth) == filled(
            table,
            cache,
            ids.union(more),
            depth,
        ),
{
    let after = filled(table, cache, ids, depth);
    lemma_self_contained_union(table, cache, ids, more, depth);
    assert forall|id: u64|
        after.contains_key(id) || rest.contains(id) <==> cache.contains_key(id)
            || #[trigger] ids.union(more).contains(id) by {
        if rest.contains(id) {
            assert(rest.union(ids).contains(id));
            assert(more.union(ids).contains(id));
        }
        if more.contains(id) {
            assert(more.union(ids).contains(id));
            assert(rest.union(ids).contains(id));
        }
    }
    assert forall|id: u64|
        rest.contains(id) && !after.contains_key(id) implies #[trigger] inline_with(
        table,
        after,
        table[id],
        depth,
    ) == inline_with(table, cache, table[id], depth) by {
        assert(rest.union(ids).contains(id));
        assert(more.union(ids).contains(id));
        assert(more.contains(id));
        lemma_filled_same(table, cache, table[id], ids, depth, depth);
    }
    assert(filled(table, after, rest, depth) =~= filled(table, cache, ids.union(more), depth));
}

/// Resolving a polynomial fills the cache for its definition and adds the
/// polynomial itself.
pub proof fn lemma_filled_reference<T>(
    table: Map<u64, ExpressionView<T>>,
    cache: Map<u64, ExpressionView<T>>,
    e: ExpressionView<T>,
    id: u64,
    depth: nat,
)
    requires
        ends_with_cache(table, cache, e, depth),
        e matches ExpressionView::Reference(ReferenceView::Poly(reference))
            && inliner::intermediate_id(reference) == Some(id),
        !cache.contains_key(id),
    ensures
        ({
            let less = (depth - 1) as nat;
            filled(table, cache, reached(table, cache, table[id], less), less).insert(
                id,
                inline_with(table, cache, table[id], less),
            ) == filled(table, cache, reached(table, cache, e, depth), depth)
        }),
{
    let less = (depth - 1) as nat;
    let below = reached(table, cache, table[id], less);
    lemma_reached_self_contained(table, cache, table[id], less);
    lemma_self_contained_more(table, cache, below, less, depth);
    lemma_more_levels_with(table, cache, table[id], less, depth);
    assert(reached(table, cache, e, depth) == below.insert(id));
    assert(filled(table, cache, below, depth).insert(
        id,
        inline_with(table, cache, table[id], less),
    ) =~= filled(table, cache, below.insert(id), depth));
}

/// What can be inlined without a cache can be inlined with one, and with a cache
/// that fits the outcome is the same.
pub proof fn lemma_cache_suffices<T>(
    table: Map<u64, ExpressionView<T>>,
    cache: Map<u64, ExpressionView<T>>,
    e: ExpressionView<T>,
    depth: nat,
)
    requires
        cache_fits(table, cache),
        inliner::ends_within(table, e, depth),
    ensures
        ends_with_cache(table, cache, e, depth),
        inline_with(table, cache, e, depth) == inliner::inline_to(table, e, depth),
    decreases depth, e,
{
    match e {
        ExpressionView::Reference(ReferenceView::Poly(reference)) => {
            if let Some(id) = inliner::intermediate_id(reference) {
                if cache.contains_key(id) {
                    inliner::lemma_inlined(table, table[id], (depth - 1) as nat);
                } else {
                    lemma_cache_suffices(table, cache, table[id], (depth - 1) as nat);
                }
            }
        },
        ExpressionView::Tuple(items) => {
            lemma_cache_suffices_all(table, cache, items, depth);
        },
        ExpressionView::ArrayLiteral(items) => {
            lemma_cache_suffices_all(table, cache, items, depth);
        },
        ExpressionView::LambdaExpression(_, body) => {
            lemma_cache_suffices(table, cache, *body, depth);
        },
        ExpressionView::BinaryOperation(left, _, right) => {
            lemma_cache_suffices(table, cache, *left, depth);
            lemma_cache_suffices(table, cache, *right, depth);
        },
        ExpressionView::UnaryOperation(_, value) => {
            lemma_cache_suffices(table, cache, *value, depth);
        },
        ExpressionView::FunctionCall(_, arguments) => {
            lemma_cache_suffices_all(table, cache, arguments, depth);
        },
        ExpressionView::MatchExpression(scrutinee, arms) => {
            lemma_cache_suffices(table, cache, *scrutinee, depth);
            lemma_cache_suffices_arms(table, cache, arms, depth);
        },
        _ => {},
    }
}

proof fn lemma_cache_suffices_all<T>(
    table: Map<u64, ExpressionView<T>>,
    cache: Map<u64, ExpressionView<T>>,
    items: Seq<ExpressionView<T>>,
    depth: nat,
)
    requires
        cache_fits(table, cache),
        inliner::all_end_within(table, items, depth),
    ensures
        all_end_with_cache(table, cache, items, depth),
        inline_all_with(table, cache, items, depth) == inliner::inline_all_to(
            table,
            items,
            depth,
        ),
    decreases depth, items,
{
    assert forall|i: int| 0 <= i < items.len() implies ends_with_cache(
        table,
        cache,
        #[trigger] items[i],
        depth,
    ) && inline_with(table, cache, items[i], depth) == inliner::inline_to(
        table,
        items[i],
        depth,
    ) by {
        lemma_cache_suffices(table, cache, items[i], depth);
    }
    assert(inline_all_with(table, cache, items, depth) =~= inliner::inline_all_to(
        table,
        items,
        depth,
    ));
}

proof fn lemma_cache_suffices_arms<T>(
    table: Map<u64, ExpressionView<T>>,
    cache: Map<u64, ExpressionView<T>>,
    arms: Seq<MatchArmView<T>>,
    depth: nat,
)
    requires
        cache_fits(table, cache),
        inliner::arms_end_within(table, arms, depth),
    ensures
        arms_end_with_cache(table, cache, arms, depth),
        inline_arms_with(table, cache, arms, depth) == inliner::inline_arms_to(
            table,
            arms,
            depth,
        ),
    decreases depth, arms,
{
    assert forall|i: int| 0 <= i < arms.len() implies arm_ends_with_cache(
        table,
        cache,
        #[trigger] arms[i],
        depth,
    ) && inline_arm_with(table, cache, arms[i], depth) == inliner::inline_arm_to(
        table,
        arms[i],
        depth,
    ) by {
        assert(inliner::arm_ends_within(table, arms[i], depth));
        if let Some(pattern) = arms[i].pattern {
            lemma_cache_suffices(table, cache, pattern, depth);
        }
        lemma_cache_suffices(table, cache, arms[i].value, depth);
    }
    assert(inline_arms_with(table, cache, arms, depth) =~= inliner::inline_arms_to(
        table,
        arms,
        depth,
    ));
}

spec fn larger(a: nat, b: nat) -> nat {
    if a < b {
        b
    } else {
        a
    }
}

/// The number of levels after which the definitions end that the cache cuts short.
proof fn lemma_levels<T>(
    table: Map<u64, ExpressionView<T>>,
    cache: Map<u64, ExpressionView<T>>,
    e: ExpressionView<T>,
    depth: nat,
) -> (levels: nat)
    requires
        cache_fits(table, cache),
        ends_with_cache(table, cache, e, depth),
    ensures
        inliner::ends_within(table, e, levels),
    decreases depth, e,
{
    match e {
        ExpressionView::Reference(ReferenceView::Poly(reference)) => {
            match inliner::intermediate_id(reference) {
                Some(id) => {
                    let below = if cache.contains_key(id) {
                        choose|levels: nat| inliner::ends_within(table, table[id], levels)
                    } else {
                        lemma_levels(table, cache, table[id], (depth - 1) as nat)
                    };
                    assert(inliner::ends_within(table, table[id], below));
                    below + 1
                },
                None => 0,
            }
        },
        ExpressionView::Tuple(items) => lemma_levels_all(table, cache, items, depth),
        ExpressionView::ArrayLiteral(items) => lemma_levels_all(table, cache, items, depth),
        ExpressionView::LambdaExpression(_, body) => lemma_levels(table, cache, *body, depth),
        ExpressionView::BinaryOperation(left, _, right) => {
            let l = lemma_levels(table, cache, *left, depth);
            let r = lemma_levels(table, cache, *right, depth);
            inliner::lemma_more_levels(table, *left, l, larger(l, r));
            inliner::lemma_more_levels(table, *right, r, larger(l, r));
            larger(l, r)
        },
        ExpressionView::UnaryOperation(_, value) => lemma_levels(table, cache, *value, depth),
        ExpressionView::FunctionCall(_, arguments) => lemma_levels_all(
            table,
            cache,
            arguments,
            depth,
        ),
        ExpressionView::MatchExpression(scrutinee, arms) => {
            let s = lemma_levels(table, cache, *scrutinee, depth);
            let a = lemma_levels_arms(table, cache, arms, depth);
            inliner::lemma_more_levels(table, *scrutinee, s, larger(s, a));
            inliner::lemma_more_levels_arms(table, arms, a, larger(s, a));
            larger(s, a)
        },
        _ => 0,
    }
}

proof fn lemma_levels_all<T>(
    table: Map<u64, ExpressionView<T>>,
    cache: Map<u64, ExpressionView<T>>,
    items: Seq<ExpressionView<T>>,
    depth: nat,
) -> (levels: nat)
    requires
        cache_fits(table, cache),
        all_end_with_cache(table, cache, items, depth),
    ensures
        inliner::all_end_within(table, items, levels),
    decreases depth, items,
{
    if items.len() == 0 {
        0
    } else {
        let front = items.drop_last();
        assert(items[items.len() - 1] == items.last());
        let f = lemma_levels_all(table, cache, front, depth);
        let l = lemma_levels(table, cache, items.last(), depth);
        inliner::lemma_more_levels_all(table, front, f, larger(f, l));
        inliner::lemma_more_levels(table, items.last(), l, larger(f, l));
        assert forall|i: int| 0 <= i < items.len() implies inliner::ends_within(
            table,
            #[trigger] items[i],
            larger(f, l),
        ) by {
            if i < front.len() {
                assert(items[i] == front[i]);
            }
        }
        larger(f, l)
    }
}

proof fn lemma_levels_arms<T>(
    table: Map<u64, ExpressionView<T>>,
    cache: Map<u64, ExpressionView<T>>,
    arms: Seq<MatchArmView<T>>,
    depth: nat,
) -> (levels: nat)
    requires
        cache_fits(table, cache),
        arms_end_with_cache(table, cache, arms, depth),
    ensures
        inliner::arms_end_within(table, arms, levels),
    decreases depth, arms,
{
    if arms.len() == 0 {
        0
    } else {
        let front = arms.drop_last();
        let last = arms.last();
        assert(arms[arms.len() - 1] == last);
        assert(arm_ends_with_cache(table, cache, last, depth));
        let f = lemma_levels_arms(table, cache, front, depth);
        let v = lemma_levels(table, cache, last.value, depth);
        let p = match last.pattern {
            None => 0,
            Some(pattern) => lemma_levels(table, cache, pattern, depth),
        };
        let levels = larger(f, larger(v, p));
        inliner::lemma_more_levels_arms(table, front, f, levels);
        inliner::lemma_more_levels(table, last.value, v, levels);
        if let Some(pattern) = last.pattern {
            inliner::lemma_more_levels(table, pattern, p, levels);
        }
        assert(inliner::arm_ends_within(table, last, levels));
        assert forall|i: int| 0 <= i < arms.len() implies inliner::arm_ends_within(
            table,
            #[trigger] arms[i],
            levels,
        ) by {
            if i < front.len() {
                assert(arms[i] == front[i]);
            }
        }
        levels
    }
}

/// With a cache that fits, what comes of `e` is what it stands for.
pub proof fn lemma_cache_inlines<T>(
    table: Map<u64, ExpressionView<T>>,
    cache: Map<u64, ExpressionView<T>>,
    e: ExpressionView<T>,
    depth: nat,
)
    requires
        cache_fits(table, cache),
        ends_with_cache(table, cache, e, depth),
    ensures
        inliner::inlinable(table, e),
        inline_with(table, cache, e, depth) == inliner::inlined(table, e),
{
    let levels = lemma_levels(table, cache, e, depth);
    let more = larger(levels, depth);
    inliner::lemma_more_levels(table, e, levels, more);
    inliner::lemma_inlined(table, e, more);
    lemma_cache_suffices(table, cache, e, more);
    lemma_more_levels_with(table, cache, e, depth, more);
}

/// With a cache that fits, the outcome is that without a cache.
pub proof fn lemma_cache_changes_nothing<T>(
    table: Map<u64, ExpressionView<T>>,
    cache: Map<u64, ExpressionView<T>>,
    e: ExpressionView<T>,
    depth: nat,
    without: nat,
)
    requires
        cache_fits(table, cache),
        ends_with_cache(table, cache, e, depth),
        ends_with_cache(table, Map::empty(), e, without),
    ensures
        inline_with(table, cache, e, depth) == inline_with(table, Map::empty(), e, without),
{
    lemma_cache_inlines(table, cache, e, depth);
    lemma_cache_inlines(table, Map::empty(), e, without);
}

/// A cache that fits still fits when it is filled.
pub proof fn lemma_filled_fits<T>(
    table: Map<u64, ExpressionView<T>>,
    cache: Map<u64, ExpressionView<T>>,
    ids: Set<u64>,
    depth: nat,
)
    requires
        cache_fits(table, cache),
        self_contained(table, cache, ids, depth),
    ensures
        cache_fits(table, filled(table, cache, ids, depth)),
{
    let after = filled(table, cache, ids, depth);
    assert forall|id: u64| #[trigger] after.contains_key(id) implies {
        &&& table.contains_key(id)
        &&& inliner::inlinable(table, table[id])
        &&& after[id] == inliner::inlined(table, table[id])
    } by {
        if !cache.contains_key(id) {
            assert(ids.contains(id));
            lemma_cache_inlines(table, cache, table[id], depth);
        }
    }
}

} // verus!
