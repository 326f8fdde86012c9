//! Which experts a token goes to, and which tokens an expert gets.

use vstd::prelude::*;

use crate::score;
use crate::sorting;

verus! {

/// A score and its place.
#[verifier::ext_equal]
pub struct Placed {
    pub place: int,
    pub score: u32,
}

/// Scores with their places.
pub open spec fn placed(scores: Seq<u32>) -> Seq<Placed> {
    Seq::new(scores.len(), |i: int| Placed { place: i, score: scores[i] })
}

/// The order of scores from the greatest down.
pub open spec fn greater_first(a: Placed, b: Placed) -> bool {
    score::rank(a.score) > score::rank(b.score)
}

/// Scores from the greatest down; equal ones stay in order.
pub open spec fn ranked(scores: Seq<u32>) -> Seq<Placed> {
    sorting::stable_sort(placed(scores), |a: Placed, b: Placed| greater_first(a, b))
}

/// The first `k` of scores from the greatest down, or all where there are fewer.
pub open spec fn top(scores: Seq<u32>, k: int) -> Seq<Placed> {
    if k < scores.len() {
        ranked(scores).take(k)
    } else {
        ranked(scores)
    }
}

/// No score is a NaN.
pub open spec fn all_numbers(scores: Seq<u32>) -> bool {
    forall|i: int| 0 <= i < scores.len() ==> !score::is_nan(#[trigger] scores[i])
}

/// What a place and a score stand for.
pub open spec fn placed_of(pair: (usize, u32)) -> Placed {
    Placed { place: pair.0 as int, score: pair.1 }
}

/// What places and scores stand for.
pub open spec fn all_placed(pairs: Seq<(usize, u32)>) -> Seq<Placed> {
    sorting::modelled(pairs, |pair: (usize, u32)| placed_of(pair))
}

/// Only the head of a sorted sequence decides what the head is with one more item.
proof fn lemma_head_of_inserted<M>(
    sorted: Seq<M>,
    item: M,
    before: spec_fn(M, M) -> bool,
    k: int,
)
    requires
        0 <= k <= sorted.len(),
        sorting::strict_order(before),
        sorting::is_sorted(sorted, before),
    ensures
        sorting::insert_sorted(sorted, item, before).take(k) == sorting::insert_sorted(
            sorted.take(k),
            item,
            before,
        ).take(k),
    decreases sorted.len(),
{
    let whole = sorting::insert_sorted(sorted, item, before);
    lemma_inserted_len(sorted, item, before);
    lemma_inserted_len(sorted.take(k), item, before);
    if k == sorted.len() {
        assert(sorted.take(k) =~= sorted);
    } else {
        let init = sorted.drop_last();
        assert(init.take(k) =~= sorted.take(k));
        assert forall|i: int, j: int| 0 <= i < j < init.len() implies !before(
            #[trigger] init[j],
            #[trigger] init[i],
        ) by {
            assert(!before(sorted[j], sorted[i]));
        }
        if before(item, sorted.last()) {
            lemma_head_of_inserted(init, item, before, k);
            lemma_inserted_len(init, item, before);
            assert(whole.take(k) =~= sorting::insert_sorted(init, item, before).take(k));
        } else {
            assert(whole.take(k) =~= sorted.take(k));
            let head = sorted.take(k);
            if k > 0 {
                if before(item, head.last()) {
                    assert(head.last() == sorted[k - 1]);
                    assert(!before(sorted[sorted.len() - 1], sorted[k - 1]));
                    assert(before(item, sorted[k - 1]));
                    assert(before(item, sorted[sorted.len() - 1]) || before(
                        sorted[sorted.len() - 1],
                        sorted[k - 1],
                    ));
                    assert(false);
                }
                assert(sorting::insert_sorted(head, item, before).take(k) =~= head);
            } else {
                assert(sorting::insert_sorted(head, item, before).take(k) =~= head);
            }
        }
    }
}

proof fn lemma_inserted_len<M>(sorted: Seq<M>, item: M, before: spec_fn(M, M) -> bool)
    ensures
        sorting::insert_sorted(sorted, item, before).len() == sorted.len() + 1,
    decreases sorted.len(),
{
    if sorted.len() > 0 && before(item, sorted.last()) {
        lemma_inserted_len(sorted.drop_last(), item, before);
    }
}

proof fn lemma_greater_first_is_strict()
    ensures
        sorting::strict_order(|a: Placed, b: Placed| greater_first(a, b)),
{
}

/// Where there are `k` scores at most, one more goes to its place and the last one
/// leaves if it is one too many.
fn take_in(kept: &mut Vec<(usize, u32)>, place: usize, value: u32, k: usize)
    requires
        old(kept)@.len() <= k,
        !score::is_nan(value),
        forall|i: int| 0 <= i < old(kept)@.len() ==> !score::is_nan((#[trigger] old(kept)@[i]).1),
    ensures
        ({
            let all = sorting::insert_sorted(
                all_placed(old(kept)@),
                placed_of((place, value)),
                |a: Placed, b: Placed| greater_first(a, b),
            );
            all_placed(final(kept)@) == (if all.len() <= k {
                all
            } else {
                all.take(k as int)
            })
        }),
        forall|i: int| 0 <= i < final(kept)@.len() ==> !score::is_nan((#[trigger] final(kept)@[i]).1),
{
    let ghost before = |a: Placed, b: Placed| greater_first(a, b);
    let ghost had = kept@;
    let ghost item = placed_of((place, value));
    let mut pos: usize = kept.len();
    while pos > 0 && score::greater(value, kept[pos - 1].1)
        invariant
            pos <= kept@.len(),
            kept@ == had,
            !score::is_nan(value),
            item == placed_of((place, value)),
            forall|i: int| 0 <= i < had.len() ==> !score::is_nan((#[trigger] had[i]).1),
            forall|i: int|
                pos <= i < had.len() ==> greater_first(item, placed_of(#[trigger] had[i])),
        ensures
            pos > 0 ==> !greater_first(item, placed_of(had[pos - 1])),
        decreases pos,
    {
        pos = pos - 1;
    }
    proof {
        let model = all_placed(had);
        assert forall|i: int| pos <= i < model.len() implies before(item, #[trigger] model[i]) by {
            assert(model[i] == placed_of(had[i]));
        }
        if pos > 0 {
            assert(model[pos - 1] == placed_of(had[pos - 1]));
        }
        sorting::lemma_insert_at(model, item, before, pos as int);
        lemma_inserted_len(model, item, before);
        assert(all_placed(had.insert(pos as int, (place, value))) =~= model.insert(
            pos as int,
            item,
        ));
    }
    kept.insert(pos, (place, value));
    let ghost longer = kept@;
    if kept.len() > k {
        kept.pop();
        assert(all_placed(kept@) =~= all_placed(longer).take(k as int));
    }
    assert forall|i: int| 0 <= i < kept@.len() implies !score::is_nan((#[trigger] kept@[i]).1) by {
        assert(kept@[i] == longer[i]);
        if i < pos {
            assert(longer[i] == had[i]);
        } else if i > pos {
            assert(longer[i] == had[i - 1]);
        }
    }
}

/// The first `k` of scores from the greatest down, with their places.
fn top_pairs(scores: &[u32], k: usize) -> (kept: Vec<(usize, u32)>)
    requires
        all_numbers(scores@),
    ensures
        all_placed(kept@) == top(scores@, k as int),
{
    let ghost before = |a: Placed, b: Placed| greater_first(a, b);
    let len: usize = scores.len();
    let mut kept: Vec<(usize, u32)> = Vec::new();
    let mut i: usize = 0;
    assert(all_placed(kept@) =~= top(scores@.take(0), k as int)) by {
        sorting::law_stable_sort(placed(scores@.take(0)), before);
    }
    while i < len
        invariant
            i <= len,
            len == scores@.len(),
            all_numbers(scores@),
            before == (|a: Placed, b: Placed| greater_first(a, b)),
            kept@.len() <= k,
            forall|n: int| 0 <= n < kept@.len() ==> !score::is_nan((#[trigger] kept@[n]).1),
            all_placed(kept@) == top(scores@.take(i as int), k as int),
        decreases len - i,
    {
        let ghost part = scores@.take(i as int);
        let ghost more = scores@.take(i + 1);
        let ghost item = placed_of((i, scores@[i as int]));
        let ghost had = kept@;
        proof {
            assert(placed(more).drop_last() =~= placed(part));
            assert(placed(more).last() == item);
            assert(ranked(more) == sorting::insert_sorted(ranked(part), item, before));
            sorting::law_stable_sort(placed(part), before);
            sorting::law_stable_sort(placed(more), before);
            lemma_greater_first_is_strict();
            lemma_inserted_len(all_placed(had), item, before);
            if k <= i {
                lemma_head_of_inserted(ranked(part), item, before, k as int);
                assert(top(part, k as int) =~= ranked(part).take(k as int));
                assert(top(more, k as int) =~= ranked(more).take(k as int));
            } else {
                assert(top(part, k as int) =~= ranked(part));
                assert(top(more, k as int) =~= ranked(more));
            }
        }
        take_in(&mut kept, i, scores[i], k);
        assert(all_placed(kept@).len() == kept@.len());
        i = i + 1;
    }
    assert(scores@.take(len as int) =~= scores@);
    kept
}

/// Splits places and scores.
fn split_pairs(pairs: Vec<(usize, u32)>) -> (r: (Vec<usize>, Vec<u32>))
    ensures
        r.0@.len() == pairs@.len(),
        r.1@.len() == pairs@.len(),
        forall|i: int|
            0 <= i < pairs@.len() ==> #[trigger] r.0@[i] == pairs@[i].0,
        forall|i: int|
            0 <= i < pairs@.len() ==> #[trigger] r.1@[i] == pairs@[i].1,
{
    let mut places: Vec<usize> = Vec::with_capacity(pairs.len());
    let mut values: Vec<u32> = Vec::with_capacity(pairs.len());
    let mut i: usize = 0;
    while i < pairs.len()
        invariant
            i <= pairs@.len(),
            places@.len() == i,
            values@.len() == i,
            forall|k: int| 0 <= k < i ==> #[trigger] places@[k] == pairs@[k].0,
            forall|k: int| 0 <= k < i ==> #[trigger] values@[k] == pairs@[k].1,
        decreases pairs.len() - i,
    {
        places.push(pairs[i].0);
        values.push(pairs[i].1);
        i = i + 1;
    }
    (places, values)
}

/// Places and scores in two lists.
pub open spec fn paired(places: Seq<usize>, values: Seq<u32>) -> Seq<Placed> {
    Seq::new(places.len(), |i: int| Placed { place: places[i] as int, score: values[i] })
}

/// The places and the values of the `k` greatest scores, from the greatest down, or of
/// all where there are fewer. Of equal scores the earlier comes first.
pub fn top_k(values: &[u32], k: usize) -> (r: (Vec<usize>, Vec<u32>))
    requires
        all_numbers(values@),
    ensures
        r.0@.len() == r.1@.len(),
        paired(r.0@, r.1@) == top(values@, k as int),
{
    let pairs = top_pairs(values, k);
    let r = split_pairs(pairs);
    assert(paired(r.0@, r.1@) =~= all_placed(pairs@));
    r
}

/// The order of scores from the greatest down, in which a NaN is neither ahead of nor
/// behind another score.
pub open spec fn exceeding_first(a: Placed, b: Placed) -> bool {
    score::exceeds(a.score, b.score)
}

/// Scores from the greatest down, each behind those before it that it does not exceed.
pub open spec fn by_score(scores: Seq<u32>) -> Seq<Placed> {
    sorting::stable_sort(placed(scores), |a: Placed, b: Placed| exceeding_first(a, b))
}

/// Every score comes out once, with its place; and where no score is a NaN they come
/// from the greatest down.
pub proof fn law_by_score(scores: Seq<u32>)
    ensures
        by_score(scores).len() == scores.len(),
        forall|i: int|
            0 <= i < scores.len() ==> {
                let p = #[trigger] by_score(scores)[i];
                0 <= p.place < scores.len() && p.score == scores[p.place]
            },
        forall|i: int, j: int|
            0 <= i < j < scores.len() ==> (#[trigger] by_score(scores)[i]).place != (
            #[trigger] by_score(scores)[j]).place,
        all_numbers(scores) ==> by_score(scores) == ranked(scores),
{
    broadcast use vstd::seq_lib::group_to_multiset_ensures;

    let before = |a: Placed, b: Placed| exceeding_first(a, b);
    let apart = |a: Placed, b: Placed| a.place != b.place;
    let all = placed(scores);
    let sorted = by_score(scores);
    sorting::law_stable_sort(all, before);
    assert(sorting::pairwise(all, apart));
    sorting::law_sort_keeps_pairwise(all, before, apart);
    assert(sorted.to_multiset().len() == all.to_multiset().len());
    assert forall|i: int| 0 <= i < sorted.len() implies {
        let p = #[trigger] sorted[i];
        0 <= p.place < scores.len() && p.score == scores[p.place]
    } by {
        assert(sorted.to_multiset().contains(sorted[i]));
        assert(all.contains(sorted[i]));
        let m = all.index_of(sorted[i]);
        assert(all[m] == sorted[i]);
    }
    assert forall|i: int, j: int| 0 <= i < j < sorted.len() implies (#[trigger] sorted[i]).place != (
    #[trigger] sorted[j]).place by {
        assert(apart(sorted[i], sorted[j]));
    }
    if all_numbers(scores) {
        sorting::law_orders_that_agree_sort_alike(
            all,
            before,
            |a: Placed, b: Placed| greater_first(a, b),
        );
    }
}

/// The classes of a token and their scores, from the greatest score down.
pub fn rank_classes(scores: &[u32]) -> (r: Vec<(usize, u32)>)
    ensures
        all_placed(r@) == by_score(scores@),
{
    let len: usize = scores.len();
    let mut pairs: Vec<(usize, u32)> = Vec::with_capacity(len);
    let mut i: usize = 0;
    while i < len
        invariant
            i <= len,
            len == scores@.len(),
            pairs@.len() == i,
            forall|k: int| 0 <= k < i ==> placed_of(#[trigger] pairs@[k]) == placed(scores@)[k],
        decreases len - i,
    {
        pairs.push((i, scores[i]));
        i = i + 1;
    }
    assert(all_placed(pairs@) =~= placed(scores@));
    let exceeding = |a: &(usize, u32), b: &(usize, u32)| -> (r: bool)
        ensures
            r == exceeding_first(placed_of(*a), placed_of(*b)),
        { score::greater(a.1, b.1) };
    sorting::sort_by::<_, Placed, _>(
        pairs,
        exceeding,
        Ghost(|pair: (usize, u32)| placed_of(pair)),
        Ghost(|a: Placed, b: Placed| exceeding_first(a, b)),
    )
}

/// Decides whether no score is a NaN.
pub fn are_numbers(scores: &[u32]) -> (r: bool)
    ensures
        r == all_numbers(scores@),
{
    let len: usize = scores.len();
    let mut i: usize = 0;
    while i < len
        invariant
            i <= len,
            len == scores@.len(),
            forall|k: int| 0 <= k < i ==> !score::is_nan(#[trigger] scores@[k]),
        decreases len - i,
    {
        if score::nan(scores[i]) {
            return false;
        }
        i = i + 1;
    }
    true
}

/// The greatest scores are what they are said to be: each stands at its place, no place
/// comes twice, they come from the greatest down, and none that is left out is greater
/// than one that is not.
pub proof fn law_top_is_greatest(scores: Seq<u32>, k: int)
    requires
        0 <= k,
    ensures
        top(scores, k).len() == (if k < scores.len() {
            k
        } else {
            scores.len() as int
        }),
        forall|i: int|
            0 <= i < top(scores, k).len() ==> {
                let p = #[trigger] top(scores, k)[i];
                0 <= p.place < scores.len() && p.score == scores[p.place]
            },
        forall|i: int, j: int|
            0 <= i < j < top(scores, k).len() ==> (#[trigger] top(scores, k)[i]).place != (
            #[trigger] top(scores, k)[j]).place,
        forall|i: int, j: int|
            0 <= i < j < top(scores, k).len() ==> score::rank((#[trigger] top(scores, k)[i]).score)
                >= score::rank((#[trigger] top(scores, k)[j]).score),
        forall|place: int, i: int|
            0 <= place < scores.len() && 0 <= i < top(scores, k).len() && (forall|j: int|
                0 <= j < top(scores, k).len() ==> (#[trigger] top(scores, k)[j]).place != place)
                ==> score::rank(#[trigger] scores[place]) <= score::rank(
                (#[trigger] top(scores, k)[i]).score,
            ),
{
    broadcast use vstd::seq_lib::group_to_multiset_ensures;

    let before = |a: Placed, b: Placed| greater_first(a, b);
    let apart = |a: Placed, b: Placed| a.place != b.place;
    let all = placed(scores);
    let sorted = ranked(scores);
    let head = top(scores, k);
    lemma_greater_first_is_strict();
    sorting::law_stable_sort(all, before);
    assert(sorting::pairwise(all, apart));
    sorting::law_sort_keeps_pairwise(all, before, apart);
    assert forall|i: int| 0 <= i < sorted.len() implies {
        let p = #[trigger] sorted[i];
        0 <= p.place < scores.len() && p.score == scores[p.place]
    } by {
        assert(sorted.to_multiset().contains(sorted[i]));
        assert(all.contains(sorted[i]));
        let m = all.index_of(sorted[i]);
        assert(all[m] == sorted[i]);
    }
    assert forall|i: int| 0 <= i < head.len() implies #[trigger] head[i] == sorted[i] by {}
    assert forall|i: int, j: int| 0 <= i < j < head.len() implies (#[trigger] head[i]).place != (
    #[trigger] head[j]).place by {
        assert(apart(sorted[i], sorted[j]));
    }
    assert forall|i: int, j: int| 0 <= i < j < head.len() implies score::rank(
        (#[trigger] head[i]).score,
    ) >= score::rank((#[trigger] head[j]).score) by {
        assert(!before(sorted[j], sorted[i]));
    }
    assert forall|place: int, i: int|
        0 <= place < scores.len() && 0 <= i < head.len() && (forall|j: int|
            0 <= j < head.len() ==> (#[trigger] head[j]).place != place) implies score::rank(
        #[trigger] scores[place],
    ) <= score::rank((#[trigger] head[i]).score) by {
        assert(all.contains(all[place]));
        assert(all.to_multiset().contains(all[place]));
        assert(sorted.contains(all[place]));
        let m = sorted.index_of(all[place]);
        if m < head.len() {
            assert(head[m].place == place);
        }
        assert(!before(sorted[m], sorted[i]));
    }
}

/// The places, below `n`, at which an expert is chosen, in ascending order.
pub open spec fn choices_of(experts: Seq<u32>, n: int, e: int) -> Seq<int>
    decreases n,
{
    if n <= 0 {
        Seq::empty()
    } else if experts[n - 1] == e {
        choices_of(experts, n - 1, e).push(n - 1)
    } else {
        choices_of(experts, n - 1, e)
    }
}

/// The places at which the experts below `e` are chosen, expert by expert.
pub open spec fn choices_below(experts: Seq<u32>, e: int) -> Seq<int>
    decreases e,
{
    if e <= 0 {
        Seq::empty()
    } else {
        choices_below(experts, e - 1) + choices_of(experts, experts.len() as int, e - 1)
    }
}

/// Every choice is one of the experts.
pub open spec fn choices_valid(experts: Seq<u32>, num_experts: int) -> bool {
    forall|i: int| 0 <= i < experts.len() ==> #[trigger] experts[i] < num_experts
}

/// The work of one expert: where its choices begin, and how many there are.
#[derive(Debug, Clone, Copy, PartialEq, Eq, Structural)]
pub struct Batch {
    pub expert: usize,
    pub start: usize,
    pub len: usize,
}

/// What the work of one expert stands for: the expert, where its choices begin, and how
/// many there are.
pub open spec fn batch_of(batch: Batch) -> (int, int, int) {
    (batch.expert as int, batch.start as int, batch.len as int)
}

/// The work of the experts below `e` that were chosen at all.
pub open spec fn batches_below(experts: Seq<u32>, e: int) -> Seq<(int, int, int)>
    decreases e,
{
    if e <= 0 {
        Seq::empty()
    } else {
        let own = choices_of(experts, experts.len() as int, e - 1);
        if own.len() == 0 {
            batches_below(experts, e - 1)
        } else {
            batches_below(experts, e - 1).push(
                (e - 1, choices_below(experts, e - 1).len() as int, own.len() as int),
            )
        }
    }
}

/// The work of the experts: all choices, expert by expert, the token of each, and where
/// the choices of each expert begin.
#[derive(Debug)]
pub struct Dispatch {
    /// The places of the choices.
    pub order: Vec<usize>,
    /// The tokens that made them.
    pub token_idx: Vec<u32>,
    /// For each expert the number of choices of those before it, and at last the
    /// number of all choices.
    pub bucket_offsets: Vec<usize>,
    /// The work of each expert that was chosen at all.
    pub batches: Vec<Batch>,
}

/// The work of the experts is what the choices make it, where each token makes `k` of
/// them.
pub open spec fn dispatches(experts: Seq<u32>, k: int, num_experts: int, d: Dispatch) -> bool {
    let all = choices_below(experts, num_experts);
    &&& d.order@.map_values(|i: usize| i as int) == all
    &&& d.token_idx@.len() == all.len()
    &&& forall|i: int|
        0 <= i < all.len() ==> #[trigger] d.token_idx@[i] == (all[i] / k) as u32
    &&& d.bucket_offsets@.len() == num_experts + 1
    &&& forall|e: int|
        0 <= e <= num_experts ==> #[trigger] d.bucket_offsets@[e] == choices_below(experts, e).len()
    &&& d.batches@.map_values(|batch: Batch| batch_of(batch)) == batches_below(experts, num_experts)
}

/// The choices of an expert are those places, in order.
pub proof fn law_choices_of_an_expert(experts: Seq<u32>, n: int, e: int)
    requires
        0 <= n <= experts.len(),
    ensures
        forall|i: int| #[trigger]
            choices_of(experts, n, e).contains(i) <==> 0 <= i < n && experts[i] == e,
        forall|a: int, b: int|
            0 <= a < b < choices_of(experts, n, e).len() ==> #[trigger] choices_of(experts, n, e)[a]
                < #[trigger] choices_of(experts, n, e)[b],
    decreases n,
{
    if n > 0 {
        law_choices_of_an_expert(experts, n - 1, e);
        let init = choices_of(experts, n - 1, e);
        let all = choices_of(experts, n, e);
        assert forall|i: int| #[trigger] all.contains(i) <==> 0 <= i < n && experts[i] == e by {
            if experts[n - 1] == e {
                assert(all[init.len() as int] == n - 1);
                if init.contains(i) {
                    assert(all[init.index_of(i)] == i);
                }
                if all.contains(i) && i != n - 1 {
                    assert(init[all.index_of(i)] == i);
                    assert(init.contains(i));
                }
                if 0 <= i < n - 1 && experts[i] == e {
                    assert(init.contains(i));
                }
            } else {
                assert(init.contains(i) <==> 0 <= i < n - 1 && experts[i] == e);
            }
        }
        assert forall|a: int, b: int| 0 <= a < b < all.len() implies #[trigger] all[a]
            < #[trigger] all[b] by {
            if experts[n - 1] == e {
                assert(all[a] == init[a]);
                assert(init.contains(init[a]));
                if b < init.len() {
                    assert(all[b] == init[b]);
                }
            }
        }
    }
}

/// Every choice comes once, expert by expert; and the choices of an expert stand where
/// those of the experts before it end.
pub proof fn law_every_choice_is_dispatched_once(experts: Seq<u32>, e: int)
    requires
        0 <= e,
    ensures
        forall|i: int| #[trigger]
            choices_below(experts, e).contains(i) <==> 0 <= i < experts.len() && experts[i] < e,
        forall|a: int, b: int|
            0 <= a < b < choices_below(experts, e).len() ==> #[trigger] choices_below(
                experts,
                e,
            )[a] != #[trigger] choices_below(experts, e)[b],
        e > 0 ==> choices_below(experts, e).subrange(
            choices_below(experts, e - 1).len() as int,
            choices_below(experts, e).len() as int,
        ) == choices_of(experts, experts.len() as int, e - 1),
    decreases e,
{
    if e > 0 {
        law_every_choice_is_dispatched_once(experts, e - 1);
        law_choices_of_an_expert(experts, experts.len() as int, e - 1);
        let before = choices_below(experts, e - 1);
        let own = choices_of(experts, experts.len() as int, e - 1);
        let all = choices_below(experts, e);
        assert(all.subrange(before.len() as int, all.len() as int) =~= own);
        assert forall|i: int| #[trigger]
            all.contains(i) <==> 0 <= i < experts.len() && experts[i] < e by {
            if before.contains(i) {
                assert(all[before.index_of(i)] == i);
            }
            if own.contains(i) {
                assert(all[before.len() + own.index_of(i)] == i);
            }
            if all.contains(i) {
                let m = all.index_of(i);
                if m < before.len() {
                    assert(before[m] == i);
                    assert(before.contains(i));
                } else {
                    assert(own[m - before.len()] == i);
                    assert(own.contains(i));
                }
            }
        }
        assert forall|a: int, b: int| 0 <= a < b < all.len() implies #[trigger] all[a]
            != #[trigger] all[b] by {
            if b < before.len() {
                assert(before[a] != before[b]);
            } else if a < before.len() {
                assert(before.contains(before[a]));
                assert(own.contains(own[b - before.len()]));
            } else {
                assert(own[a - before.len()] < own[b - before.len()]);
            }
        }
    } else {
        assert(choices_below(experts, e) =~= Seq::empty());
    }
}

/// The batches take up the choices one behind the other, leaving none out, and none of
/// them is empty.
pub proof fn law_batches_take_up_all_choices(experts: Seq<u32>, e: int)
    requires
        0 <= e,
    ensures
        forall|b: int|
            0 <= b < batches_below(experts, e).len() ==> (#[trigger] batches_below(
                experts,
                e,
            )[b]).2 > 0,
        forall|b: int|
            0 < b < batches_below(experts, e).len() ==> (#[trigger] batches_below(experts, e)[b]).1
                == batches_below(experts, e)[b - 1].1 + batches_below(experts, e)[b - 1].2,
        batches_below(experts, e).len() > 0 ==> batches_below(experts, e)[0].1 == 0 && batches_below(
            experts,
            e,
        ).last().1 + batches_below(experts, e).last().2 == choices_below(experts, e).len(),
        batches_below(experts, e).len() == 0 ==> choices_below(experts, e).len() == 0,
    decreases e,
{
    if e > 0 {
        law_batches_take_up_all_choices(experts, e - 1);
    }
}

/// The places in each of the lists of experts.
spec fn bucketed(buckets: Seq<Vec<usize>>, experts: Seq<u32>, n: int) -> bool {
    forall|e: int|
        0 <= e < buckets.len() ==> (#[trigger] buckets[e])@.map_values(|i: usize| i as int)
            == choices_of(experts, n, e)
}

/// Puts each choice with its expert.
fn fill_buckets(experts: &[u32], num_experts: usize) -> (buckets: Vec<Vec<usize>>)
    requires
        choices_valid(experts@, num_experts as int),
    ensures
        buckets@.len() == num_experts,
        bucketed(buckets@, experts@, experts@.len() as int),
{
    let len: usize = experts.len();
    let mut buckets: Vec<Vec<usize>> = Vec::with_capacity(num_experts);
    let mut e: usize = 0;
    while e < num_experts
        invariant
            e <= num_experts,
            buckets@.len() == e,
            forall|x: int| 0 <= x < e ==> (#[trigger] buckets@[x])@ == Seq::<usize>::empty(),
        decreases num_experts - e,
    {
        buckets.push(Vec::new());
        e = e + 1;
    }
    proof {
        assert forall|x: int| 0 <= x < buckets@.len() implies (#[trigger] buckets@[x])@.map_values(
            |i: usize| i as int,
        ) == choices_of(experts@, 0, x) by {
            assert(buckets@[x]@.map_values(|i: usize| i as int) =~= Seq::<int>::empty());
        }
    }
    let mut i: usize = 0;
    while i < len
        invariant
            i <= len,
            len == experts@.len(),
            choices_valid(experts@, num_experts as int),
            buckets@.len() == num_experts,
            bucketed(buckets@, experts@, i as int),
        decreases len - i,
    {
        let ghost had = buckets@;
        let at: usize = experts[i] as usize;
        buckets[at].push(i);
        proof {
            assert forall|x: int| 0 <= x < buckets@.len() implies (
            #[trigger] buckets@[x])@.map_values(|i: usize| i as int) == choices_of(
                experts@,
                i + 1,
                x,
            ) by {
                assert(had[x]@.map_values(|i: usize| i as int) == choices_of(experts@, i as int, x));
                if x == at {
                    assert(buckets@[x]@ == had[x]@.push(i));
                    assert(buckets@[x]@.map_values(|i: usize| i as int) =~= choices_of(
                        experts@,
                        i as int,
                        x,
                    ).push(i as int));
                } else {
                    assert(buckets@[x] == had[x]);
                }
            }
        }
        i = i + 1;
    }
    buckets
}

/// Sorts the choices of experts by expert. Each token makes `k` choices, one behind the
/// other. The choices of an expert stay in order.
pub fn dispatch(experts: &[u32], k: usize, num_experts: usize) -> (r: Dispatch)
    requires
        k > 0,
        num_experts < usize::MAX,
        choices_valid(experts@, num_experts as int),
    ensures
        dispatches(experts@, k as int, num_experts as int, r),
{
    let buckets = fill_buckets(experts, num_experts);
    let len: usize = experts.len();
    let mut order: Vec<usize> = Vec::with_capacity(len);
    let mut token_idx: Vec<u32> = Vec::with_capacity(len);
    let mut bucket_offsets: Vec<usize> = Vec::with_capacity(num_experts + 1);
    bucket_offsets.push(0);
    let mut batches: Vec<Batch> = Vec::new();
    let mut e: usize = 0;
    assert(batches@.map_values(|batch: Batch| batch_of(batch)) =~= batches_below(experts@, 0));
    assert(order@.map_values(|i: usize| i as int) =~= choices_below(experts@, 0));
    while e < num_experts
        invariant
            e <= num_experts,
            k > 0,
            buckets@.len() == num_experts,
            bucketed(buckets@, experts@, experts@.len() as int),
            order@.map_values(|i: usize| i as int) == choices_below(experts@, e as int),
            token_idx@.len() == order@.len(),
            forall|i: int|
                0 <= i < order@.len() ==> #[trigger] token_idx@[i] == (order@[i] as int / k as int) as u32,
            bucket_offsets@.len() == e + 1,
            batches@.map_values(|batch: Batch| batch_of(batch)) == batches_below(experts@, e as int),
            forall|x: int|
                0 <= x <= e ==> #[trigger] bucket_offsets@[x] == choices_below(experts@, x).len(),
        decreases num_experts - e,
    {
        let bucket = &buckets[e];
        let ghost start = order@;
        let ghost had = batches@;
        proof {
            assert(order@.map_values(|i: usize| i as int).len() == order@.len());
            assert(bucket@.map_values(|i: usize| i as int).len() == bucket@.len());
        }
        if bucket.len() > 0 {
            let batch = Batch { expert: e, start: order.len(), len: bucket.len() };
            batches.push(batch);
            assert(batches@.map_values(|batch: Batch| batch_of(batch)) =~= had.map_values(
                |batch: Batch| batch_of(batch),
            ).push(batch_of(batch)));
        }
        let mut j: usize = 0;
        while j < bucket.len()
            invariant
                j <= bucket@.len(),
                k > 0,
                order@ == start + bucket@.take(j as int),
                token_idx@.len() == order@.len(),
                forall|i: int|
                    0 <= i < order@.len() ==> #[trigger] token_idx@[i] == (order@[i] as int / k as int) as u32,
            decreases bucket.len() - j,
        {
            let place: usize = bucket[j];
            order.push(place);
            token_idx.push(#[verifier::truncate] ((place / k) as u32));
            j = j + 1;
            assert(order@ =~= start + bucket@.take(j as int));
        }
        proof {
            assert(bucket@.take(bucket@.len() as int) =~= bucket@);
            assert(order@.map_values(|i: usize| i as int) =~= start.map_values(|i: usize| i as int)
                + bucket@.map_values(|i: usize| i as int));
            assert(order@.map_values(|i: usize| i as int) == choices_below(experts@, e + 1));
            assert(order@.map_values(|i: usize| i as int).len() == order@.len());
        }
        bucket_offsets.push(order.len());
        e = e + 1;
    }
    proof {
        let all = choices_below(experts@, num_experts as int);
        assert(order@.map_values(|i: usize| i as int).len() == order@.len());
        assert forall|i: int| 0 <= i < all.len() implies #[trigger] token_idx@[i] == (all[i]
            / k as int) as u32 by {
            assert(order@.map_values(|i: usize| i as int)[i] == order@[i] as int);
        }
    }
    Dispatch { order, token_idx, bucket_offsets, batches }
}

/// The choices of tokens, one behind the other: for each row of scores its `k`
/// greatest.
pub open spec fn chosen(rows: Seq<Vec<u32>>, k: int) -> Seq<Placed>
    decreases rows.len(),
{
    if rows.len() == 0 {
        Seq::empty()
    } else {
        chosen(rows.drop_last(), k) + top(rows.last()@, k)
    }
}

/// Experts and the scores by which they were chosen.
pub open spec fn choices(experts: Seq<u32>, logits: Seq<u32>) -> Seq<Placed> {
    Seq::new(experts.len(), |i: int| Placed { place: experts[i] as int, score: logits[i] })
}

/// Each row holds one number for every expert.
pub open spec fn rows_valid(rows: Seq<Vec<u32>>, num_experts: int) -> bool {
    forall|t: int|
        0 <= t < rows.len() ==> (#[trigger] rows[t])@.len() == num_experts && all_numbers(rows[t]@)
}

/// Has every token choose the `k` experts with the greatest scores in its row. The
/// choices of a token stand one behind the other, with their scores.
pub fn choose_experts(rows: &Vec<Vec<u32>>, k: usize, num_experts: usize) -> (r: (
    Vec<u32>,
    Vec<u32>,
))
    requires
        k <= num_experts <= u32::MAX,
        rows_valid(rows@, num_experts as int),
    ensures
        r.0@.len() == r.1@.len(),
        r.0@.len() == rows@.len() * k,
        choices(r.0@, r.1@) == chosen(rows@, k as int),
        choices_valid(r.0@, num_experts as int),
{
    let mut experts: Vec<u32> = Vec::new();
    let mut logits: Vec<u32> = Vec::new();
    let mut t: usize = 0;
    assert(choices(experts@, logits@) =~= chosen(rows@.take(0), k as int));
    while t < rows.len()
        invariant
            t <= rows@.len(),
            k <= num_experts <= u32::MAX,
            rows_valid(rows@, num_experts as int),
            experts@.len() == logits@.len(),
            experts@.len() == t * k,
            choices(experts@, logits@) == chosen(rows@.take(t as int), k as int),
            choices_valid(experts@, num_experts as int),
        decreases rows.len() - t,
    {
        let ghost done = choices(experts@, logits@);
        let row = &rows[t];
        let (places, values) = top_k(row.as_slice(), k);
        let ghost own = top(row@, k as int);
        proof {
            law_top_is_greatest(row@, k as int);
            assert(paired(places@, values@) == own);
            assert(places@.len() == own.len());
        }
        let mut j: usize = 0;
        while j < k
            invariant
                j <= k,
                k <= num_experts <= u32::MAX,
                row@.len() == num_experts,
                own == top(row@, k as int),
                own.len() == k,
                forall|i: int|
                    0 <= i < own.len() ==> 0 <= (#[trigger] own[i]).place < row@.len(),
                places@.len() == k,
                values@.len() == k,
                paired(places@, values@) == own,
                experts@.len() == logits@.len(),
                experts@.len() == t * k + j,
                choices(experts@, logits@) == done + own.take(j as int),
                choices_valid(experts@, num_experts as int),
            decreases k - j,
        {
            let ghost had = choices(experts@, logits@);
            proof {
                assert(paired(places@, values@)[j as int] == own[j as int]);
                assert(0 <= own[j as int].place < row@.len());
            }
            experts.push(places[j] as u32);
            logits.push(values[j]);
            proof {
                assert(choices(experts@, logits@) =~= had.push(own[j as int]));
                assert(own.take(j + 1) =~= own.take(j as int).push(own[j as int]));
                assert(done + own.take(j + 1) =~= had.push(own[j as int]));
            }
            j = j + 1;
        }
        proof {
            assert(own.take(k as int) =~= own);
            assert(rows@.take(t + 1).drop_last() =~= rows@.take(t as int));
            assert(rows@.take(t + 1).last() == *row);
            assert((t + 1) * k == t * k + k) by (nonlinear_arith);
        }
        t = t + 1;
    }
    assert(rows@.take(rows@.len() as int) =~= rows@);
    (experts, logits)
}

} // verus!
