//! Stable sorting by a strict order.

use vstd::prelude::*;

verus! {

/// A sorted sequence with one more item, which goes behind all items that it
/// does not come before.
pub open spec fn insert_sorted<M>(sorted: Seq<M>, item: M, before: spec_fn(M, M) -> bool) -> Seq<M>
    decreases sorted.len(),
{
    if sorted.len() == 0 || !before(item, sorted.last()) {
        sorted.push(item)
    } else {
        insert_sorted(sorted.drop_last(), item, before).push(sorted.last())
    }
}

/// The items in order; items of which neither comes before the other keep the
/// order they had.
pub open spec fn stable_sort<M>(items: Seq<M>, before: spec_fn(M, M) -> bool) -> Seq<M>
    decreases items.len(),
{
    if items.len() == 0 {
        items
    } else {
        insert_sorted(stable_sort(items.drop_last(), before), items.last(), before)
    }
}

/// A strict order in which items that do not come before each other are
/// interchangeable.
pub open spec fn strict_order<M>(before: spec_fn(M, M) -> bool) -> bool {
    &&& forall|a: M| !#[trigger] before(a, a)
    &&& forall|a: M, b: M, c: M| #[trigger]
        before(a, b) && #[trigger] before(b, c) ==> before(a, c)
    &&& forall|a: M, b: M, c: M|
        #![trigger before(a, b), before(c, b)]
        #![trigger before(a, c), before(b, c)]
        #![trigger before(a, b), before(a, c)]
        before(a, b) ==> before(a, c) || before(c, b)
}

/// No item comes before one that stands ahead of it.
pub open spec fn is_sorted<M>(items: Seq<M>, before: spec_fn(M, M) -> bool) -> bool {
    forall|i: int, j: int|
        0 <= i < j < items.len() ==> !before(#[trigger] items[j], #[trigger] items[i])
}

proof fn lemma_insert_sorted<M>(sorted: Seq<M>, item: M, before: spec_fn(M, M) -> bool)
    ensures
        insert_sorted(sorted, item, before).to_multiset() == sorted.to_multiset().insert(item),
        insert_sorted(sorted, item, before).len() == sorted.len() + 1,
        strict_order(before) && is_sorted(sorted, before) ==> is_sorted(
            insert_sorted(sorted, item, before),
            before,
        ),
    decreases sorted.len(),
{
    broadcast use vstd::seq_lib::group_to_multiset_ensures;

    let r = insert_sorted(sorted, item, before);
    if sorted.len() == 0 || !before(item, sorted.last()) {
        if strict_order(before) && is_sorted(sorted, before) {
            assert forall|i: int, j: int| 0 <= i < j < r.len() implies !before(
                #[trigger] r[j],
                #[trigger] r[i],
            ) by {
                if j == r.len() - 1 && i < sorted.len() - 1 {
                    let last = sorted.last();
                    assert(!before(sorted[sorted.len() - 1], sorted[i]));
                    if before(item, sorted[i]) {
                        assert(before(item, last) || before(last, sorted[i]));
                    }
                }
            }
        }
    } else {
        let init = sorted.drop_last();
        lemma_insert_sorted(init, item, before);
        let inner = insert_sorted(init, item, before);
        assert(sorted =~= init.push(sorted.last()));
        assert(r.to_multiset() =~= sorted.to_multiset().insert(item));
        if strict_order(before) && is_sorted(sorted, before) {
            assert(is_sorted(init, before));
            assert forall|i: int| 0 <= i < inner.len() implies !before(
                sorted.last(),
                #[trigger] inner[i],
            ) by {
                assert(inner.to_multiset().contains(inner[i]));
                if inner[i] == item {
                    if before(sorted.last(), item) {
                        assert(before(item, item));
                    }
                } else {
                    assert(init.to_multiset().contains(inner[i]));
                    assert(init.contains(inner[i]));
                    let k = init.index_of(inner[i]);
                    assert(sorted[k] == inner[i]);
                    assert(!before(sorted[sorted.len() - 1], sorted[k]));
                }
            }
        }
    }
}

/// Sorting keeps every item as often as it occurs, and puts the items in order.
pub proof fn law_stable_sort<M>(items: Seq<M>, before: spec_fn(M, M) -> bool)
    ensures
        stable_sort(items, before).to_multiset() == items.to_multiset(),
        stable_sort(items, before).len() == items.len(),
        strict_order(before) ==> is_sorted(stable_sort(items, before), before),
    decreases items.len(),
{
    broadcast use vstd::seq_lib::group_to_multiset_ensures;

    if items.len() > 0 {
        let init = items.drop_last();
        law_stable_sort(init, before);
        lemma_insert_sorted(stable_sort(init, before), items.last(), before);
        assert(items =~= init.push(items.last()));
    }
}

/// Sorting leaves a sorted sequence as it is.
pub proof fn law_sorted_stays<M>(items: Seq<M>, before: spec_fn(M, M) -> bool)
    requires
        is_sorted(items, before),
    ensures
        stable_sort(items, before) == items,
    decreases items.len(),
{
    if items.len() > 0 {
        let init = items.drop_last();
        assert(is_sorted(init, before));
        law_sorted_stays(init, before);
        if init.len() > 0 {
            assert(!before(items[items.len() - 1], items[items.len() - 2]));
        }
        assert(init.push(items.last()) =~= items);
    }
}

/// Insertion at the place that a search from the back finds.
pub proof fn lemma_insert_at<M>(sorted: Seq<M>, item: M, before: spec_fn(M, M) -> bool, pos: int)
    requires
        0 <= pos <= sorted.len(),
        pos > 0 ==> !before(item, sorted[pos - 1]),
        forall|k: int| pos <= k < sorted.len() ==> before(item, #[trigger] sorted[k]),
    ensures
        insert_sorted(sorted, item, before) == sorted.insert(pos, item),
    decreases sorted.len(),
{
    if pos == sorted.len() {
        assert(sorted.insert(pos, item) =~= sorted.push(item));
    } else {
        let init = sorted.drop_last();
        assert forall|k: int| pos <= k < init.len() implies before(item, #[trigger] init[k]) by {
            assert(init[k] == sorted[k]);
        }
        assert(before(item, sorted[sorted.len() - 1]));
        lemma_insert_at(init, item, before, pos);
        assert(sorted.insert(pos, item) =~= init.insert(pos, item).push(sorted.last()));
    }
}

proof fn lemma_insert_alike<M>(
    sorted: Seq<M>,
    item: M,
    before: spec_fn(M, M) -> bool,
    other: spec_fn(M, M) -> bool,
)
    requires
        forall|i: int|
            0 <= i < sorted.len() ==> before(item, #[trigger] sorted[i]) == other(item, sorted[i]),
    ensures
        insert_sorted(sorted, item, before) == insert_sorted(sorted, item, other),
    decreases sorted.len(),
{
    if sorted.len() > 0 {
        let init = sorted.drop_last();
        assert(sorted[sorted.len() - 1] == sorted.last());
        assert forall|i: int| 0 <= i < init.len() implies before(item, #[trigger] init[i]) == other(
            item,
            init[i],
        ) by {
            assert(init[i] == sorted[i]);
        }
        lemma_insert_alike(init, item, before, other);
    }
}

/// Orders that agree on the items sort them alike.
pub proof fn law_orders_that_agree_sort_alike<M>(
    items: Seq<M>,
    before: spec_fn(M, M) -> bool,
    other: spec_fn(M, M) -> bool,
)
    requires
        forall|i: int, j: int|
            0 <= i < items.len() && 0 <= j < items.len() ==> before(
                #[trigger] items[i],
                #[trigger] items[j],
            ) == other(items[i], items[j]),
    ensures
        stable_sort(items, before) == stable_sort(items, other),
    decreases items.len(),
{
    broadcast use vstd::seq_lib::group_to_multiset_ensures;

    if items.len() > 0 {
        let init = items.drop_last();
        assert forall|i: int, j: int|
            0 <= i < init.len() && 0 <= j < init.len() implies before(
            #[trigger] init[i],
            #[trigger] init[j],
        ) == other(init[i], init[j]) by {
            assert(init[i] == items[i] && init[j] == items[j]);
        }
        law_orders_that_agree_sort_alike(init, before, other);
        let sorted = stable_sort(init, before);
        law_stable_sort(init, before);
        assert forall|i: int| 0 <= i < sorted.len() implies before(
            items.last(),
            #[trigger] sorted[i],
        ) == other(items.last(), sorted[i]) by {
            assert(sorted.to_multiset().contains(sorted[i]));
            assert(init.contains(sorted[i]));
            let k = init.index_of(sorted[i]);
            assert(items[k] == sorted[i]);
            assert(items[items.len() - 1] == items.last());
        }
        lemma_insert_alike(sorted, items.last(), before, other);
    }
}

proof fn lemma_insert_mapped<M>(
    sorted: Seq<M>,
    item: M,
    f: spec_fn(M) -> M,
    before: spec_fn(M, M) -> bool,
)
    requires
        forall|a: M, b: M| #[trigger] before(f(a), f(b)) == before(a, b),
    ensures
        insert_sorted(sorted.map_values(f), f(item), before) == insert_sorted(
            sorted,
            item,
            before,
        ).map_values(f),
    decreases sorted.len(),
{
    let mapped = sorted.map_values(f);
    if sorted.len() == 0 || !before(item, sorted.last()) {
        if sorted.len() > 0 {
            assert(mapped.last() == f(sorted.last()));
            assert(before(f(item), f(sorted.last())) == before(item, sorted.last()));
        }
        assert(sorted.push(item).map_values(f) =~= mapped.push(f(item)));
    } else {
        let init = sorted.drop_last();
        assert(mapped.last() == f(sorted.last()));
        assert(before(f(item), f(sorted.last())) == before(item, sorted.last()));
        assert(mapped.drop_last() =~= init.map_values(f));
        lemma_insert_mapped(init, item, f, before);
        assert(insert_sorted(init, item, before).push(sorted.last()).map_values(f)
            =~= insert_sorted(init, item, before).map_values(f).push(f(sorted.last())));
    }
}

/// Changing items in a way that their order does not see makes no difference to how
/// they are sorted.
pub proof fn law_sort_of_mapped<M>(
    items: Seq<M>,
    f: spec_fn(M) -> M,
    before: spec_fn(M, M) -> bool,
)
    requires
        forall|a: M, b: M| #[trigger] before(f(a), f(b)) == before(a, b),
    ensures
        stable_sort(items.map_values(f), before) == stable_sort(items, before).map_values(f),
    decreases items.len(),
{
    if items.len() == 0 {
        assert(items.map_values(f) =~= items);
        assert(stable_sort(items, before).map_values(f) =~= items);
    } else {
        let init = items.drop_last();
        law_sort_of_mapped(init, f, before);
        assert(items.map_values(f).drop_last() =~= init.map_values(f));
        assert(items.map_values(f).last() == f(items.last()));
        lemma_insert_mapped(stable_sort(init, before), items.last(), f, before);
    }
}

/// Items that meet a condition, with one more.
proof fn lemma_filter_push<M>(items: Seq<M>, item: M, keep: spec_fn(M) -> bool)
    ensures
        items.push(item).filter(keep) == (if keep(item) {
            items.filter(keep).push(item)
        } else {
            items.filter(keep)
        }),
{
    reveal(Seq::filter);
    assert(items.push(item).drop_last() =~= items);
}

proof fn lemma_filter_inserted<M>(
    sorted: Seq<M>,
    item: M,
    before: spec_fn(M, M) -> bool,
    keep: spec_fn(M) -> bool,
)
    requires
        strict_order(before),
        is_sorted(sorted, before),
    ensures
        insert_sorted(sorted, item, before).filter(keep) == (if keep(item) {
            insert_sorted(sorted.filter(keep), item, before)
        } else {
            sorted.filter(keep)
        }),
    decreases sorted.len(),
{
    let part = sorted.filter(keep);
    if sorted.len() == 0 {
        reveal(Seq::filter);
        lemma_filter_push(sorted, item, keep);
    } else if !before(item, sorted.last()) {
        lemma_filter_push(sorted, item, keep);
        if part.len() > 0 {
            let top = part.last();
            assert(part.contains(part[part.len() - 1]));
            sorted.lemma_filter_contains_rev(keep, top);
            let k = sorted.index_of(top);
            if k < sorted.len() - 1 {
                assert(!before(sorted[sorted.len() - 1], sorted[k]));
            }
            assert(!before(item, top));
        }
    } else {
        let init = sorted.drop_last();
        let last = sorted.last();
        assert(init.push(last) =~= sorted);
        assert forall|i: int, j: int| 0 <= i < j < init.len() implies !before(
            #[trigger] init[j],
            #[trigger] init[i],
        ) by {
            assert(!before(sorted[j], sorted[i]));
        }
        lemma_filter_inserted(init, item, before, keep);
        lemma_filter_push(init, last, keep);
        lemma_filter_push(insert_sorted(init, item, before), last, keep);
        if keep(last) {
            assert(part.drop_last() =~= init.filter(keep));
        }
    }
}

/// Leaving items out before sorting or after it makes no difference.
pub proof fn law_filter_sorted<M>(
    items: Seq<M>,
    before: spec_fn(M, M) -> bool,
    keep: spec_fn(M) -> bool,
)
    requires
        strict_order(before),
    ensures
        stable_sort(items, before).filter(keep) == stable_sort(items.filter(keep), before),
    decreases items.len(),
{
    if items.len() == 0 {
        reveal(Seq::filter);
    } else {
        let init = items.drop_last();
        law_filter_sorted(init, before, keep);
        law_stable_sort(init, before);
        lemma_filter_inserted(stable_sort(init, before), items.last(), before, keep);
        lemma_filter_push(init, items.last(), keep);
        assert(init.push(items.last()) =~= items);
        if keep(items.last()) {
            assert(items.filter(keep).drop_last() =~= init.filter(keep));
        }
    }
}

/// Of two different items one comes before the other.
pub open spec fn tells_apart<M>(before: spec_fn(M, M) -> bool) -> bool {
    forall|a: M, b: M| a != b ==> #[trigger] before(a, b) || before(b, a)
}

proof fn lemma_sorted_is_unique<M>(a: Seq<M>, b: Seq<M>, before: spec_fn(M, M) -> bool)
    requires
        is_sorted(a, before),
        is_sorted(b, before),
        tells_apart(before),
        a.to_multiset() == b.to_multiset(),
    ensures
        a == b,
    decreases a.len(),
{
    broadcast use vstd::seq_lib::group_to_multiset_ensures;

    assert(a.to_multiset().len() == a.len() && b.to_multiset().len() == b.len());
    if a.len() == 0 {
        assert(a =~= b);
    } else {
        let x = a.last();
        let y = b.last();
        assert(a[a.len() - 1] == x && b[b.len() - 1] == y);
        assert(a.contains(x) && b.contains(y));
        assert(a.to_multiset().contains(x) && b.to_multiset().contains(y));
        if x != y {
            assert(a.contains(y) && b.contains(x));
            let i = a.index_of(y);
            let j = b.index_of(x);
            assert(!before(a[a.len() - 1], a[i]));
            assert(!before(b[b.len() - 1], b[j]));
            assert(before(x, y) || before(y, x));
        }
        let c = a.drop_last();
        let d = b.drop_last();
        assert(c.push(x) =~= a && d.push(y) =~= b);
        assert(c.to_multiset() =~= a.to_multiset().remove(x));
        assert(d.to_multiset() =~= b.to_multiset().remove(y));
        assert forall|i: int, j: int| 0 <= i < j < c.len() implies !before(
            #[trigger] c[j],
            #[trigger] c[i],
        ) by {
            assert(!before(a[j], a[i]));
        }
        assert forall|i: int, j: int| 0 <= i < j < d.len() implies !before(
            #[trigger] d[j],
            #[trigger] d[i],
        ) by {
            assert(!before(b[j], b[i]));
        }
        lemma_sorted_is_unique(c, d, before);
    }
}

/// By an order that tells any two items apart, the same items are sorted alike,
/// whatever order they come in.
pub proof fn law_sort_forgets_order<M>(a: Seq<M>, b: Seq<M>, before: spec_fn(M, M) -> bool)
    requires
        strict_order(before),
        tells_apart(before),
        a.to_multiset() == b.to_multiset(),
    ensures
        stable_sort(a, before) == stable_sort(b, before),
{
    law_stable_sort(a, before);
    law_stable_sort(b, before);
    lemma_sorted_is_unique(stable_sort(a, before), stable_sort(b, before), before);
}

/// What the items of a sequence stand for.
pub open spec fn modelled<T, M>(items: Seq<T>, model: spec_fn(T) -> M) -> Seq<M> {
    items.map_values(model)
}

/// Sorts items by what they stand for. Items that come in order are passed over
/// in one comparison each.
pub(crate) fn sort_by<T, M, F: Fn(&T, &T) -> bool>(
    items: Vec<T>,
    before: F,
    Ghost(model): Ghost<spec_fn(T) -> M>,
    Ghost(order): Ghost<spec_fn(M, M) -> bool>,
) -> (sorted: Vec<T>)
    requires
        forall|a: &T, b: &T| before.requires((a, b)),
        forall|a: &T, b: &T, r: bool| #[trigger]
            before.ensures((a, b), r) ==> r == order(model(*a), model(*b)),
    ensures
        modelled(sorted@, model) == stable_sort(modelled(items@, model), order),
{
    let ghost all = items@;
    let mut sorted: Vec<T> = Vec::with_capacity(items.len());
    assert(modelled(sorted@, model) =~= stable_sort(modelled(all.take(0), model), order));
    for item in it: items
        invariant
            it.seq() == all,
            forall|a: &T, b: &T| before.requires((a, b)),
            forall|a: &T, b: &T, r: bool| #[trigger]
                before.ensures((a, b), r) ==> r == order(model(*a), model(*b)),
            modelled(sorted@, model) == stable_sort(
                modelled(all.take(it.index() as int), model),
                order,
            ),
    {
        let ghost seen = it.index() as int;
        assert(item == all[seen]);
        let mut pos: usize = sorted.len();
        while pos > 0 && before(&item, &sorted[pos - 1])
            invariant
                pos <= sorted@.len(),
                forall|a: &T, b: &T| before.requires((a, b)),
                forall|a: &T, b: &T, r: bool| #[trigger]
                    before.ensures((a, b), r) ==> r == order(model(*a), model(*b)),
                forall|k: int|
                    pos <= k < sorted@.len() ==> order(model(item), model(#[trigger] sorted@[k])),
            ensures
                pos > 0 ==> !order(model(item), model(sorted@[pos - 1])),
            decreases pos,
        {
            pos = pos - 1;
        }
        proof {
            let had = modelled(sorted@, model);
            assert forall|k: int| pos <= k < had.len() implies order(
                model(item),
                #[trigger] had[k],
            ) by {
                assert(had[k] == model(sorted@[k]));
            }
            lemma_insert_at(had, model(item), order, pos as int);
            assert(modelled(sorted@.insert(pos as int, item), model) =~= had.insert(
                pos as int,
                model(item),
            ));
            let now = modelled(all.take(seen + 1), model);
            assert(now.drop_last() =~= modelled(all.take(seen), model));
            assert(now.last() == model(item));
        }
        sorted.insert(pos, item);
    }
    assert(all.take(all.len() as int) =~= all);
    sorted
}

/// Every two items, at different places, stand in a relation.
pub open spec fn pairwise<M>(items: Seq<M>, related: spec_fn(M, M) -> bool) -> bool {
    forall|i: int, j: int|
        0 <= i < j < items.len() ==> related(#[trigger] items[i], #[trigger] items[j])
}

proof fn lemma_insert_pairwise<M>(
    sorted: Seq<M>,
    item: M,
    before: spec_fn(M, M) -> bool,
    related: spec_fn(M, M) -> bool,
)
    requires
        forall|a: M, b: M| #[trigger] related(a, b) ==> related(b, a),
        pairwise(sorted, related),
        forall|k: int| 0 <= k < sorted.len() ==> related(#[trigger] sorted[k], item),
    ensures
        pairwise(insert_sorted(sorted, item, before), related),
    decreases sorted.len(),
{
    broadcast use vstd::seq_lib::group_to_multiset_ensures;

    if sorted.len() > 0 && before(item, sorted.last()) {
        let init = sorted.drop_last();
        let inner = insert_sorted(init, item, before);
        assert(pairwise(init, related)) by {
            assert forall|i: int, j: int| 0 <= i < j < init.len() implies related(
                #[trigger] init[i],
                #[trigger] init[j],
            ) by {
                assert(related(sorted[i], sorted[j]));
            }
        }
        assert forall|k: int| 0 <= k < init.len() implies related(#[trigger] init[k], item) by {
            assert(related(sorted[k], item));
        }
        lemma_insert_pairwise(init, item, before, related);
        lemma_insert_sorted(init, item, before);
        assert forall|i: int| 0 <= i < inner.len() implies related(
            #[trigger] inner[i],
            sorted.last(),
        ) by {
            assert(inner.to_multiset().contains(inner[i]));
            if inner[i] == item {
                assert(related(sorted[sorted.len() - 1], item));
            } else {
                assert(init.to_multiset().contains(inner[i]));
                assert(init.contains(inner[i]));
                let k = init.index_of(inner[i]);
                assert(related(sorted[k], sorted[sorted.len() - 1]));
            }
        }
    }
}

/// A relation that holds either way round between every two items still does so
/// when they are sorted.
pub proof fn law_sort_keeps_pairwise<M>(
    items: Seq<M>,
    before: spec_fn(M, M) -> bool,
    related: spec_fn(M, M) -> bool,
)
    requires
        forall|a: M, b: M| #[trigger] related(a, b) ==> related(b, a),
        pairwise(items, related),
    ensures
        pairwise(stable_sort(items, before), related),
    decreases items.len(),
{
    broadcast use vstd::seq_lib::group_to_multiset_ensures;

    if items.len() > 0 {
        let init = items.drop_last();
        assert forall|i: int, j: int| 0 <= i < j < init.len() implies related(
            #[trigger] init[i],
            #[trigger] init[j],
        ) by {
            assert(related(items[i], items[j]));
        }
        law_sort_keeps_pairwise(init, before, related);
        law_stable_sort(init, before);
        let sorted = stable_sort(init, before);
        assert forall|k: int| 0 <= k < sorted.len() implies related(
            #[trigger] sorted[k],
            items.last(),
        ) by {
            assert(sorted.to_multiset().contains(sorted[k]));
            assert(init.contains(sorted[k]));
            let i = init.index_of(sorted[k]);
            assert(related(items[i], items[items.len() - 1]));
        }
        lemma_insert_pairwise(sorted, items.last(), before, related);
    }
}

} // verus!
