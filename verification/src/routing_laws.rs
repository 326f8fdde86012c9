//! Which experts a token goes to, and that every choice is worked on once.

use vstd::prelude::*;

use crate::inspection;
use crate::inspection::TokenRow;
use crate::labels::LabelInfo;
use crate::routing;
use crate::routing::{Batch, Dispatch, Placed};
use crate::score;
use crate::sorting;
use crate::text;

verus! {

/// One score comes in front of another: it is greater, or as great and further in front.
pub open spec fn ahead(a: Placed, b: Placed) -> bool {
    score::exceeds(a.score, b.score) || (!score::exceeds(b.score, a.score) && a.place < b.place)
}

spec fn all_ahead(items: Seq<Placed>) -> bool {
    forall|i: int, j: int|
        0 <= i < j < items.len() ==> ahead(#[trigger] items[i], #[trigger] items[j])
}

spec fn numbers(items: Seq<Placed>) -> bool {
    forall|i: int| 0 <= i < items.len() ==> !score::is_nan((#[trigger] items[i]).score)
}

/// One more score, of a place behind all others, is put where it belongs.
proof fn lemma_insert_ahead(
    items: Seq<Placed>,
    item: Placed,
    before: spec_fn(Placed, Placed) -> bool,
)
    requires
        before == (|a: Placed, b: Placed| routing::greater_first(a, b)),
        all_ahead(items),
        numbers(items),
        !score::is_nan(item.score),
        forall|i: int| 0 <= i < items.len() ==> (#[trigger] items[i]).place < item.place,
    ensures
        ({
            let all = sorting::insert_sorted(items, item, before);
            &&& all_ahead(all)
            &&& numbers(all)
            &&& all.len() == items.len() + 1
            &&& forall|i: int|
                0 <= i < all.len() ==> #[trigger] all[i] == item || items.contains(all[i])
        }),
    decreases items.len(),
{
    let all = sorting::insert_sorted(items, item, before);
    if items.len() == 0 || !before(item, items.last()) {
        assert forall|i: int, j: int| 0 <= i < j < all.len() implies ahead(
            #[trigger] all[i],
            #[trigger] all[j],
        ) by {
            if j == items.len() {
                let last = items[items.len() - 1];
                assert(!score::is_nan(last.score));
                assert(!score::is_nan(items[i].score));
                if i < items.len() - 1 {
                    assert(ahead(items[i], last));
                }
            } else {
                assert(ahead(items[i], items[j]));
            }
        }
        assert forall|i: int| 0 <= i < all.len() implies #[trigger] all[i] == item
            || items.contains(all[i]) by {
            if i < items.len() {
                assert(items.contains(items[i]));
            }
        }
    } else {
        let init = items.drop_last();
        let last = items.last();
        assert(items[items.len() - 1] == last);
        assert forall|i: int, j: int| 0 <= i < j < init.len() implies ahead(
            #[trigger] init[i],
            #[trigger] init[j],
        ) by {
            assert(ahead(items[i], items[j]));
        }
        lemma_insert_ahead(init, item, before);
        let part = sorting::insert_sorted(init, item, before);
        assert forall|i: int| 0 <= i < part.len() implies ahead(#[trigger] part[i], last)
            && items.contains(part[i]) || part[i] == item by {
            if part[i] != item {
                assert(init.contains(part[i]));
                let m = init.index_of(part[i]);
                assert(items[m] == part[i]);
                assert(ahead(items[m], items[items.len() - 1]));
            }
        }
        assert forall|i: int, j: int| 0 <= i < j < all.len() implies ahead(
            #[trigger] all[i],
            #[trigger] all[j],
        ) by {
            if j < part.len() {
                assert(ahead(part[i], part[j]));
            } else {
                assert(all[i] == part[i]);
            }
        }
        assert forall|i: int| 0 <= i < all.len() implies #[trigger] all[i] == item
            || items.contains(all[i]) by {
            if i < part.len() {
                assert(all[i] == part[i]);
            }
        }
    }
}

proof fn lemma_ranked_ahead(items: Seq<Placed>, before: spec_fn(Placed, Placed) -> bool)
    requires
        before == (|a: Placed, b: Placed| routing::greater_first(a, b)),
        numbers(items),
        forall|i: int, j: int|
            0 <= i < j < items.len() ==> (#[trigger] items[i]).place < (#[trigger] items[j]).place,
    ensures
        ({
            let all = sorting::stable_sort(items, before);
            &&& all_ahead(all)
            &&& numbers(all)
            &&& all.len() == items.len()
            &&& forall|i: int| 0 <= i < all.len() ==> items.contains(#[trigger] all[i])
        }),
    decreases items.len(),
{
    if items.len() > 0 {
        let init = items.drop_last();
        let last = items.last();
        assert(items[items.len() - 1] == last);
        lemma_ranked_ahead(init, before);
        let part = sorting::stable_sort(init, before);
        assert forall|i: int| 0 <= i < part.len() implies (#[trigger] part[i]).place < last.place by {
            assert(init.contains(part[i]));
            let m = init.index_of(part[i]);
            assert(items[m].place < items[items.len() - 1].place);
        }
        lemma_insert_ahead(part, last, before);
        let all = sorting::stable_sort(items, before);
        assert forall|i: int| 0 <= i < all.len() implies items.contains(#[trigger] all[i]) by {
            if all[i] != last {
                assert(part.contains(all[i]));
                let m = part.index_of(all[i]);
                assert(init.contains(part[m]));
                let n = init.index_of(part[m]);
                assert(items[n] == all[i]);
            }
        }
    }
}

/// The `k` greatest of scores: as many as there are up to `k`, each with its place, from
/// the greatest down, of equal ones the first in front; and one that is left out comes
/// behind all of them.
pub proof fn law_greatest_scores(scores: Seq<u32>, k: int, place: int)
    requires
        0 <= k,
        forall|i: int| 0 <= i < scores.len() ==> (#[trigger] scores[i]) % 0x8000_0000 <= 0x7f80_0000,
        0 <= place < scores.len(),
    ensures
        ({
            let top = routing::top(scores, k);
            &&& top.len() == (if k < scores.len() {
                k
            } else {
                scores.len() as int
            })
            &&& forall|i: int|
                0 <= i < top.len() ==> 0 <= (#[trigger] top[i]).place < scores.len()
                    && top[i].score == scores[top[i].place]
            &&& forall|i: int, j: int|
                0 <= i < j < top.len() ==> {
                    let a = #[trigger] top[i];
                    let b = #[trigger] top[j];
                    &&& a.place != b.place
                    &&& score::exceeds(a.score, b.score) || (!score::exceeds(b.score, a.score)
                        && a.place < b.place)
                }
            &&& (exists|i: int| 0 <= i < top.len() && (#[trigger] top[i]).place == place)
                || forall|i: int|
                0 <= i < top.len() ==> score::exceeds((#[trigger] top[i]).score, scores[place]) || (
                !score::exceeds(scores[place], top[i].score) && top[i].place < place)
        }),
{
    broadcast use vstd::seq_lib::group_to_multiset_ensures;

    let before = |a: Placed, b: Placed| routing::greater_first(a, b);
    let items = routing::placed(scores);
    let sorted = routing::ranked(scores);
    let top = routing::top(scores, k);
    assert forall|i: int| 0 <= i < items.len() implies !score::is_nan((#[trigger] items[i]).score) by {
        assert(scores[i] % 0x8000_0000 <= 0x7f80_0000);
    }
    lemma_ranked_ahead(items, before);
    routing::law_top_is_greatest(scores, k);
    sorting::law_stable_sort(items, before);
    assert forall|i: int| 0 <= i < top.len() implies #[trigger] top[i] == sorted[i] by {}
    assert forall|i: int, j: int| 0 <= i < j < top.len() implies ahead(
        #[trigger] top[i],
        #[trigger] top[j],
    ) by {
        assert(ahead(sorted[i], sorted[j]));
    }
    assert(items.contains(items[place]));
    assert(items.to_multiset().contains(items[place]));
    assert(sorted.contains(items[place]));
    let m = sorted.index_of(items[place]);
    if m < top.len() {
        assert(top[m].place == place);
    } else {
        assert forall|i: int| 0 <= i < top.len() implies ahead(#[trigger] top[i], items[place]) by {
            assert(ahead(sorted[i], sorted[m]));
        }
    }
}

/// The choices of a token stand one behind the other, token by token: the `k` from the
/// token's number times `k` on are the `k` greatest of its scores.
pub proof fn law_choices_by_token(rows: Seq<Vec<u32>>, k: int, num_experts: int, t: int)
    requires
        0 <= k <= num_experts,
        forall|i: int| 0 <= i < rows.len() ==> (#[trigger] rows[i])@.len() == num_experts,
        0 <= t < rows.len(),
    ensures
        routing::chosen(rows, k).len() == rows.len() * k,
        routing::chosen(rows, k).subrange(t * k, t * k + k) == routing::top(rows[t]@, k),
    decreases rows.len(),
{
    let init = rows.drop_last();
    let n = init.len() as int;
    assert(rows[n] == rows.last());
    assert(rows.last()@.len() == num_experts);
    lemma_chosen_len(init, k, num_experts);
    lemma_top_len(rows.last()@, k);
    let before = routing::chosen(init, k);
    let all = routing::chosen(rows, k);
    assert((n + 1) * k == n * k + k) by (nonlinear_arith);
    if t < n {
        assert forall|i: int| 0 <= i < init.len() implies (#[trigger] init[i])@.len() == num_experts by {
            assert(init[i] == rows[i]);
        }
        law_choices_by_token(init, k, num_experts, t);
        assert(0 <= t * k && t * k + k <= n * k) by (nonlinear_arith)
            requires
                0 <= t,
                t + 1 <= n,
                0 <= k,
        ;
        assert(all.subrange(t * k, t * k + k) =~= before.subrange(t * k, t * k + k));
    } else {
        assert(0 <= t * k) by (nonlinear_arith)
            requires
                0 <= t,
                0 <= k,
        ;
        assert(all.subrange(t * k, t * k + k) =~= routing::top(rows.last()@, k));
    }
}

proof fn lemma_top_len(scores: Seq<u32>, k: int)
    requires
        0 <= k <= scores.len(),
    ensures
        routing::top(scores, k).len() == k,
{
    routing::law_top_is_greatest(scores, k);
}

proof fn lemma_chosen_len(rows: Seq<Vec<u32>>, k: int, num_experts: int)
    requires
        0 <= k <= num_experts,
        forall|i: int| 0 <= i < rows.len() ==> (#[trigger] rows[i])@.len() == num_experts,
    ensures
        routing::chosen(rows, k).len() == rows.len() * k,
    decreases rows.len(),
{
    if rows.len() > 0 {
        let init = rows.drop_last();
        assert(rows[rows.len() - 1] == rows.last());
        assert forall|i: int| 0 <= i < init.len() implies (#[trigger] init[i])@.len() == num_experts by {
            assert(init[i] == rows[i]);
        }
        lemma_chosen_len(init, k, num_experts);
        lemma_top_len(rows.last()@, k);
        assert((init.len() + 1) * k == init.len() * k + k) by (nonlinear_arith);
    } else {
        assert(rows.len() * k == 0) by (nonlinear_arith)
            requires
                rows.len() == 0,
        ;
    }
}

/// Choices of experts below one come in front of all others.
proof fn lemma_below_comes_first(experts: Seq<u32>, e: int, n: int)
    requires
        0 <= e <= n,
    ensures
        routing::choices_below(experts, e).len() <= routing::choices_below(experts, n).len(),
        routing::choices_below(experts, n).take(routing::choices_below(experts, e).len() as int)
            == routing::choices_below(experts, e),
    decreases n - e,
{
    let part = routing::choices_below(experts, e);
    if e == n {
        assert(part.take(part.len() as int) =~= part);
    } else {
        lemma_below_comes_first(experts, e, n - 1);
        let init = routing::choices_below(experts, n - 1);
        let all = routing::choices_below(experts, n);
        assert(all.take(part.len() as int) =~= init.take(part.len() as int));
    }
}

/// A choice stands among those of its expert.
proof fn lemma_place_of_choice(experts: Seq<u32>, num_experts: int, i: int) -> (p: int)
    requires
        0 <= i < experts.len(),
        experts[i] < num_experts,
    ensures
        ({
            let all = routing::choices_below(experts, num_experts);
            let e = experts[i] as int;
            &&& routing::choices_below(experts, e).len() <= p < routing::choices_below(
                experts,
                e + 1,
            ).len() <= all.len()
            &&& all[p] == i
        }),
{
    let e = experts[i] as int;
    let all = routing::choices_below(experts, num_experts);
    let before = routing::choices_below(experts, e);
    let with = routing::choices_below(experts, e + 1);
    let own = routing::choices_of(experts, experts.len() as int, e);
    routing::law_choices_of_an_expert(experts, experts.len() as int, e);
    lemma_below_comes_first(experts, e + 1, num_experts);
    assert(own.contains(i));
    let m = own.index_of(i);
    let p = before.len() + m;
    assert(with[p] == i);
    assert(all.take(with.len() as int)[p] == all[p]);
    p
}

/// All choices come, and each of them once.
proof fn lemma_as_many_choices(experts: Seq<u32>, num_experts: int)
    requires
        0 <= num_experts,
        routing::choices_valid(experts, num_experts),
    ensures
        routing::choices_below(experts, num_experts).len() == experts.len(),
{
    let all = routing::choices_below(experts, num_experts);
    routing::law_every_choice_is_dispatched_once(experts, num_experts);
    assert(all.no_duplicates());
    all.unique_seq_to_set();
    let n = experts.len() as int;
    let places = Seq::new(experts.len(), |i: int| i);
    assert(places.no_duplicates());
    places.unique_seq_to_set();
    assert forall|i: int| #[trigger] all.to_set().contains(i) <==> places.to_set().contains(i) by {
        assert(all.to_set().contains(i) <==> all.contains(i));
        assert(places.to_set().contains(i) <==> places.contains(i));
        if 0 <= i < n {
            assert(places[i] == i);
            assert(experts[i] < num_experts);
        }
        if places.contains(i) {
            let m = places.index_of(i);
            assert(places[m] == m);
        }
        assert(all.contains(i) <==> 0 <= i < n && experts[i] < num_experts);
    }
    assert(all.to_set() =~= places.to_set());
}

/// Every choice of an expert is worked on once, among those of the expert and for the
/// token that made it: choice `i` is one of token `i / k`.
pub proof fn law_every_choice_has_its_place(
    experts: Seq<u32>,
    k: int,
    num_experts: int,
    d: Dispatch,
    i: int,
)
    requires
        routing::dispatches(experts, k, num_experts, d),
        forall|j: int| 0 <= j < experts.len() ==> (#[trigger] experts[j]) < num_experts,
        0 <= i < experts.len(),
    ensures
        d.order@.len() == experts.len(),
        d.token_idx@.len() == experts.len(),
        d.bucket_offsets@.len() == num_experts + 1,
        d.bucket_offsets@[0] == 0,
        d.bucket_offsets@[num_experts] == experts.len(),
        exists|p: int|
            {
                &&& d.bucket_offsets@[experts[i] as int] <= p < d.bucket_offsets@[experts[i] + 1]
                &&& #[trigger] d.order@[p] == i
                &&& d.token_idx@[p] == (i / k) as u32
            },
        forall|a: int, b: int|
            0 <= a < b < d.order@.len() ==> #[trigger] d.order@[a] != #[trigger] d.order@[b],
{
    let all = routing::choices_below(experts, num_experts);
    let order = d.order@.map_values(|i: usize| i as int);
    assert(order == all);
    assert(order.len() == d.order@.len());
    assert(experts[i] < num_experts);
    lemma_as_many_choices(experts, num_experts);
    routing::law_every_choice_is_dispatched_once(experts, num_experts);
    let p = lemma_place_of_choice(experts, num_experts, i);
    assert(order[p] == d.order@[p] as int);
    let e = experts[i] as int;
    assert(d.bucket_offsets@[e] == routing::choices_below(experts, e).len());
    assert(d.bucket_offsets@[e + 1] == routing::choices_below(experts, e + 1).len());
    assert(d.bucket_offsets@[0] == routing::choices_below(experts, 0).len());
    assert(d.bucket_offsets@[num_experts] == all.len());
    assert(d.order@[p] == i);
    assert forall|a: int, b: int| 0 <= a < b < d.order@.len() implies #[trigger] d.order@[a]
        != #[trigger] d.order@[b] by {
        assert(order[a] == d.order@[a] as int);
        assert(order[b] == d.order@[b] as int);
        assert(all[a] != all[b]);
    }
}

proof fn lemma_batches(experts: Seq<u32>, n: int)
    requires
        0 <= n,
    ensures
        forall|b: int|
            0 <= b < routing::batches_below(experts, n).len() ==> {
                let batch = #[trigger] routing::batches_below(experts, n)[b];
                &&& 0 <= batch.0 < n
                &&& batch.1 == routing::choices_below(experts, batch.0).len()
                &&& batch.1 + batch.2 == routing::choices_below(experts, batch.0 + 1).len()
                &&& batch.2 > 0
            },
        forall|a: int, b: int|
            0 <= a < b < routing::batches_below(experts, n).len() ==> (
            #[trigger] routing::batches_below(experts, n)[a]).0 < (#[trigger] routing::batches_below(
                experts,
                n,
            )[b]).0,
        forall|e: int|
            0 <= e < n && #[trigger] routing::choices_of(experts, experts.len() as int, e).len() > 0
                ==> exists|b: int|
                0 <= b < routing::batches_below(experts, n).len() && (
                #[trigger] routing::batches_below(experts, n)[b]).0 == e,
    decreases n,
{
    if n > 0 {
        lemma_batches(experts, n - 1);
        let init = routing::batches_below(experts, n - 1);
        let all = routing::batches_below(experts, n);
        assert forall|b: int| 0 <= b < init.len() implies #[trigger] all[b] == init[b] by {}
        assert forall|e: int|
            0 <= e < n && #[trigger] routing::choices_of(experts, experts.len() as int, e).len() > 0 implies exists|
            b: int,
        | 0 <= b < all.len() && (#[trigger] all[b]).0 == e by {
            if e < n - 1 {
                let b = choose|b: int| 0 <= b < init.len() && (#[trigger] init[b]).0 == e;
                assert(all[b].0 == e);
            } else {
                assert(all[all.len() - 1].0 == e);
            }
        }
    }
}

/// The work is handed out in batches, one for each expert that was chosen, in the order of
/// the experts: a batch starts where the choices of its expert start and takes them all.
pub proof fn law_one_batch_for_each_chosen_expert(
    experts: Seq<u32>,
    k: int,
    num_experts: int,
    d: Dispatch,
    i: int,
)
    requires
        routing::dispatches(experts, k, num_experts, d),
        0 <= num_experts,
        0 <= i < experts.len(),
        experts[i] < num_experts,
    ensures
        forall|b: int|
            0 <= b < d.batches@.len() ==> {
                let batch = #[trigger] d.batches@[b];
                &&& batch.expert < num_experts
                &&& batch.start == d.bucket_offsets@[batch.expert as int]
                &&& batch.start + batch.len == d.bucket_offsets@[batch.expert + 1]
                &&& batch.len > 0
            },
        forall|a: int, b: int|
            0 <= a < b < d.batches@.len() ==> (#[trigger] d.batches@[a]).expert < (
            #[trigger] d.batches@[b]).expert,
        exists|b: int| 0 <= b < d.batches@.len() && (#[trigger] d.batches@[b]).expert == experts[i],
{
    let all = routing::batches_below(experts, num_experts);
    let batches = d.batches@.map_values(|batch: Batch| routing::batch_of(batch));
    assert(batches == all);
    assert(batches.len() == d.batches@.len());
    lemma_batches(experts, num_experts);
    assert forall|b: int| 0 <= b < d.batches@.len() implies {
        let batch = #[trigger] d.batches@[b];
        &&& batch.expert < num_experts
        &&& batch.start == d.bucket_offsets@[batch.expert as int]
        &&& batch.start + batch.len == d.bucket_offsets@[batch.expert + 1]
        &&& batch.len > 0
    } by {
        let batch = d.batches@[b];
        assert(batches[b] == routing::batch_of(batch));
        assert(all[b].0 == batch.expert);
        assert(d.bucket_offsets@[batch.expert as int] == routing::choices_below(
            experts,
            batch.expert as int,
        ).len());
        assert(d.bucket_offsets@[batch.expert + 1] == routing::choices_below(
            experts,
            batch.expert + 1,
        ).len());
    }
    assert forall|a: int, b: int| 0 <= a < b < d.batches@.len() implies (#[trigger] d.batches@[a]).expert
        < (#[trigger] d.batches@[b]).expert by {
        assert(batches[a] == routing::batch_of(d.batches@[a]));
        assert(batches[b] == routing::batch_of(d.batches@[b]));
        assert(all[a].0 < all[b].0);
    }
    let e = experts[i] as int;
    routing::law_choices_of_an_expert(experts, experts.len() as int, e);
    assert(routing::choices_of(experts, experts.len() as int, e).contains(i));
    let b = choose|b: int| 0 <= b < all.len() && (#[trigger] all[b]).0 == e;
    assert(batches[b] == routing::batch_of(d.batches@[b]));
    assert(d.batches@[b].expert == experts[i]);
}

/// What is shown of a token: its id, its bytes and its text, the class it was given and
/// the best of all classes by their names, and as many classes as are asked for, from the
/// best score down.
pub proof fn law_row_of_a_token(
    row: TokenRow,
    info: LabelInfo,
    whole: Seq<char>,
    id: u32,
    bytes: (usize, usize),
    label: usize,
    own: Seq<u32>,
    listed: int,
    c: int,
)
    requires
        inspection::is_row_of(row, info, whole, id, bytes, label, own, listed),
        0 <= listed,
        0 <= c < own.len(),
        forall|i: int| 0 <= i < own.len() ==> (#[trigger] own[i]) % 0x8000_0000 <= 0x7f80_0000,
    ensures
        row.id == id,
        row.byte_start == bytes.0,
        row.byte_end == bytes.1,
        text::piece(whole, bytes.0 as int, bytes.1 as int) matches Some(piece) ==> row.text@
            == piece,
        text::piece(whole, bytes.0 as int, bytes.1 as int) is None ==> row.text@.len() == 0,
        row.label == label,
        row.label_name@ == info.id2label@[label as int]@,
        row.best < own.len(),
        row.best_name@ == info.id2label@[row.best as int]@,
        row.best_score == own[row.best as int],
        !score::exceeds(own[c], row.best_score),
        c < row.best ==> score::exceeds(row.best_score, own[c]),
        row.listed@.len() == (if listed < own.len() {
            listed
        } else {
            own.len() as int
        }),
        row.listed@.len() > 0 ==> row.listed@[0].0@ == row.best_name@ && row.listed@[0].1
            == row.best_score,
        forall|i: int|
            0 <= i < row.listed@.len() ==> exists|place: int|
                0 <= place < own.len() && (#[trigger] row.listed@[i]).0@
                    == #[trigger] info.id2label@[place]@ && row.listed@[i].1 == own[place],
        forall|i: int, j: int|
            0 <= i < j < row.listed@.len() ==> !score::exceeds(
                (#[trigger] row.listed@[j]).1,
                (#[trigger] row.listed@[i]).1,
            ),
{
    let ranked = routing::by_score(own);
    assert forall|i: int| 0 <= i < own.len() implies !score::is_nan(#[trigger] own[i]) by {
        assert(own[i] % 0x8000_0000 <= 0x7f80_0000);
    }
    routing::law_by_score(own);
    let n = own.len() as int;
    assert(routing::top(own, n) == ranked);
    law_greatest_scores(own, n, c);
    let m = choose|i: int| 0 <= i < ranked.len() && (#[trigger] ranked[i]).place == c;
    if !(exists|i: int| 0 <= i < ranked.len() && (#[trigger] ranked[i]).place == c) {
        assert(score::exceeds(ranked[0].score, own[c]) || (!score::exceeds(own[c], ranked[0].score)
            && ranked[0].place < c));
    } else if m > 0 {
        assert(ahead(ranked[0], ranked[m]));
    }
    assert forall|i: int| 0 <= i < row.listed@.len() implies exists|place: int|
        0 <= place < own.len() && (#[trigger] row.listed@[i]).0@ == #[trigger] info.id2label@[place]@
            && row.listed@[i].1 == own[place] by {
        assert(inspection::is_listed(row.listed@[i], info, ranked[i]));
        let place = ranked[i].place;
        assert(row.listed@[i].0@ == info.id2label@[place]@);
    }
    assert forall|i: int, j: int| 0 <= i < j < row.listed@.len() implies !score::exceeds(
        (#[trigger] row.listed@[j]).1,
        (#[trigger] row.listed@[i]).1,
    ) by {
        assert(inspection::is_listed(row.listed@[i], info, ranked[i]));
        assert(inspection::is_listed(row.listed@[j], info, ranked[j]));
        assert(ahead(ranked[i], ranked[j]));
    }
    if row.listed@.len() > 0 {
        assert(inspection::is_listed(row.listed@[0], info, ranked[0]));
    }
}

} // verus!
