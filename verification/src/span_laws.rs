//! What holds of every list of extracted spans.

use vstd::prelude::*;

use crate::labels::{Boundary, LabelInfo};
use crate::sorting;
use crate::spans;
use crate::spans::Range;
use crate::text;
use crate::viterbi;
use crate::viterbi_laws;

verus! {

/// The longest-first order is a strict one.
proof fn lemma_longest_first_is_strict()
    ensures
        sorting::strict_order(|a: Range, b: Range| spans::longest_first(a, b)),
{
}

/// A label that occurs is found, and a label that is found occurs.
pub(crate) proof fn lemma_distinct_labels(all: Seq<Range>)
    ensures
        forall|i: int|
            0 <= i < all.len() ==> spans::distinct_labels(all).contains((#[trigger] all[i]).label),
        spans::distinct_labels(all).no_duplicates(),
    decreases all.len(),
{
    if all.len() > 0 {
        let init = all.drop_last();
        lemma_distinct_labels(init);
        let before = spans::distinct_labels(init);
        let now = spans::distinct_labels(all);
        assert forall|i: int| 0 <= i < all.len() implies now.contains((#[trigger] all[i]).label) by {
            if i < init.len() {
                assert(init[i] == all[i]);
                assert(before.contains(init[i].label));
                let k = before.index_of(init[i].label);
                assert(now[k] == init[i].label);
            } else if !before.contains(all.last().label) {
                assert(now[now.len() - 1] == all.last().label);
            }
        }
    }
}

/// What is kept of one label: ranges of that label that do not overlap, and each
/// range of that label that is left out overlaps a kept one at least as long.
pub(crate) proof fn lemma_kept_of_label(all: Seq<Range>, label: Seq<char>)
    ensures
        ({
            let kept = spans::kept_of_label(all, label);
            &&& forall|i: int| 0 <= i < kept.len() ==> all.contains(#[trigger] kept[i]) && kept[i].label == label
            &&& forall|i: int, j: int|
                0 <= i < j < kept.len() ==> !spans::overlaps(#[trigger] kept[i], #[trigger] kept[j])
            &&& forall|i: int|
                0 <= i < all.len() && (#[trigger] all[i]).label == label ==> kept.contains(all[i])
                    || exists|k: int|
                    0 <= k < kept.len() && spans::overlaps(#[trigger] kept[k], all[i])
                        && !spans::longest_first(all[i], kept[k])
        }),
{
    broadcast use vstd::seq_lib::group_to_multiset_ensures;

    let before = |a: Range, b: Range| spans::longest_first(a, b);
    let pred = |r: Range| r.label == label;
    let bucket = spans::with_label(all, label);
    let sorted = sorting::stable_sort(bucket, before);
    let kept = spans::kept_of_label(all, label);
    lemma_longest_first_is_strict();
    sorting::law_stable_sort(bucket, before);
    spans::law_keep_disjoint(sorted);
    broadcast use vstd::seq_lib::group_filter_ensures;

    assert forall|i: int| 0 <= i < kept.len() implies all.contains(#[trigger] kept[i])
        && kept[i].label == label by {
        assert(sorted.contains(kept[i]));
        assert(sorted.to_multiset().contains(kept[i]));
        assert(bucket.contains(kept[i]));
        let k = bucket.index_of(kept[i]);
        assert(pred(bucket[k]));
        all.lemma_filter_contains_rev(pred, bucket[k]);
    }
    assert forall|i: int| 0 <= i < all.len() && (#[trigger] all[i]).label == label implies kept.contains(
        all[i],
    ) || exists|k: int|
        0 <= k < kept.len() && spans::overlaps(#[trigger] kept[k], all[i]) && !spans::longest_first(
            all[i],
            kept[k],
        ) by {
        assert(pred(all[i]));
        assert(bucket.contains(all[i]));
        assert(bucket.to_multiset().contains(all[i]));
        assert(sorted.contains(all[i]));
        let k = sorted.index_of(all[i]);
        if !kept.contains(sorted[k]) {
            spans::lemma_keep_grows(sorted, k);
            let part = spans::keep_disjoint(sorted.take(k));
            let m = choose|m: int|
                0 <= m < part.len() && spans::overlaps(#[trigger] part[m], sorted[k]);
            assert(kept[m] == part[m]);
            spans::law_keep_disjoint(sorted.take(k));
            assert(sorted.take(k).contains(part[m]));
            let j = sorted.take(k).index_of(part[m]);
            assert(sorted[j] == part[m]);
            assert(!before(sorted[k], sorted[j]));
        }
    }
}

/// What is kept of several labels.
proof fn lemma_kept_of_labels(all: Seq<Range>, labels: Seq<Seq<char>>)
    requires
        labels.no_duplicates(),
    ensures
        ({
            let kept = spans::kept_of_labels(all, labels);
            &&& forall|i: int|
                0 <= i < kept.len() ==> all.contains(#[trigger] kept[i]) && labels.contains(
                    kept[i].label,
                )
            &&& forall|i: int, j: int|
                0 <= i < j < kept.len() && (#[trigger] kept[i]).label == (#[trigger] kept[j]).label
                    ==> !spans::overlaps(kept[i], kept[j])
            &&& forall|i: int|
                0 <= i < all.len() && labels.contains((#[trigger] all[i]).label) ==> kept.contains(
                    all[i],
                ) || exists|k: int|
                    0 <= k < kept.len() && (#[trigger] kept[k]).label == all[i].label
                        && spans::overlaps(kept[k], all[i]) && !spans::longest_first(
                        all[i],
                        kept[k],
                    )
        }),
    decreases labels.len(),
{
    if labels.len() > 0 {
        let init = labels.drop_last();
        let label = labels.last();
        lemma_kept_of_labels(all, init);
        lemma_kept_of_label(all, label);
        let before = spans::kept_of_labels(all, init);
        let added = spans::kept_of_label(all, label);
        let kept = spans::kept_of_labels(all, labels);
        assert forall|i: int| 0 <= i < kept.len() implies all.contains(#[trigger] kept[i])
            && labels.contains(kept[i].label) by {
            if i < before.len() {
                assert(kept[i] == before[i]);
                let k = init.index_of(before[i].label);
                assert(labels[k] == before[i].label);
            } else {
                assert(kept[i] == added[i - before.len()]);
                assert(labels[labels.len() - 1] == label);
            }
        }
        assert forall|i: int, j: int|
            0 <= i < j < kept.len() && (#[trigger] kept[i]).label == (#[trigger] kept[j]).label implies !spans::overlaps(
            kept[i],
            kept[j],
        ) by {
            if j < before.len() {
                assert(kept[i] == before[i] && kept[j] == before[j]);
            } else if i >= before.len() {
                assert(kept[i] == added[i - before.len()] && kept[j] == added[j - before.len()]);
            } else {
                assert(kept[i] == before[i] && kept[j] == added[j - before.len()]);
                let k = init.index_of(before[i].label);
                assert(labels[k] == label);
                assert(labels[labels.len() - 1] == label);
            }
        }
        assert forall|i: int| 0 <= i < all.len() && labels.contains((#[trigger] all[i]).label) implies kept.contains(
            all[i],
        ) || exists|k: int|
            0 <= k < kept.len() && (#[trigger] kept[k]).label == all[i].label && spans::overlaps(
                kept[k],
                all[i],
            ) && !spans::longest_first(all[i], kept[k]) by {
            if all[i].label == label {
                if added.contains(all[i]) {
                    let k = added.index_of(all[i]);
                    assert(kept[before.len() + k] == all[i]);
                } else {
                    let k = choose|k: int|
                        0 <= k < added.len() && spans::overlaps(#[trigger] added[k], all[i])
                            && !spans::longest_first(all[i], added[k]);
                    assert(kept[before.len() + k] == added[k]);
                    assert(kept[before.len() + k].label == label);
                }
            } else {
                let m = labels.index_of(all[i].label);
                assert(init[m] == all[i].label);
                assert(init.contains(all[i].label));
                if before.contains(all[i]) {
                    let k = before.index_of(all[i]);
                    assert(kept[k] == all[i]);
                } else {
                    let k = choose|k: int|
                        0 <= k < before.len() && (#[trigger] before[k]).label == all[i].label
                            && spans::overlaps(before[k], all[i]) && !spans::longest_first(
                            all[i],
                            before[k],
                        );
                    assert(kept[k] == before[k]);
                }
            }
        }
    }
}

/// Within a label the longest is kept: what comes out are given ranges, by their
/// starts, of which no two with one label overlap; and a range that is left out
/// overlaps a kept one of its label over which it had no claim, being neither
/// longer nor, at the same length, earlier.
pub proof fn law_deduped(all: Seq<Range>)
    ensures
        ({
            let kept = spans::deduped(all);
            &&& forall|i: int| 0 <= i < kept.len() ==> all.contains(#[trigger] kept[i])
            &&& forall|i: int, j: int|
                0 <= i < j < kept.len() ==> (#[trigger] kept[i]).start <= (#[trigger] kept[j]).start
            &&& forall|i: int, j: int|
                0 <= i < j < kept.len() && (#[trigger] kept[i]).label == (#[trigger] kept[j]).label
                    ==> !spans::overlaps(kept[i], kept[j])
            &&& forall|i: int|
                0 <= i < all.len() ==> kept.contains(#[trigger] all[i]) || exists|k: int|
                    0 <= k < kept.len() && (#[trigger] kept[k]).label == all[i].label
                        && spans::overlaps(kept[k], all[i]) && !spans::longest_first(
                        all[i],
                        kept[k],
                    )
        }),
{
    broadcast use vstd::seq_lib::group_to_multiset_ensures;

    let labels = spans::distinct_labels(all);
    let loose = spans::kept_of_labels(all, labels);
    let before = |a: Range, b: Range| spans::starts_first(a, b);
    let kept = spans::deduped(all);
    lemma_distinct_labels(all);
    lemma_kept_of_labels(all, labels);
    sorting::law_stable_sort(loose, before);
    let apart = |a: Range, b: Range| a.label == b.label ==> !spans::overlaps(a, b);
    assert(sorting::pairwise(loose, apart));
    sorting::law_sort_keeps_pairwise(loose, before, apart);
    assert forall|i: int, j: int|
        0 <= i < j < kept.len() && (#[trigger] kept[i]).label == (#[trigger] kept[j]).label implies !spans::overlaps(
        kept[i],
        kept[j],
    ) by {
        assert(apart(kept[i], kept[j]));
    }
    assert(sorting::strict_order(before));
    assert forall|i: int| 0 <= i < kept.len() implies all.contains(#[trigger] kept[i]) by {
        assert(kept.to_multiset().contains(kept[i]));
        assert(loose.contains(kept[i]));
        let k = loose.index_of(kept[i]);
        assert(all.contains(loose[k]));
    }
    assert forall|i: int, j: int| 0 <= i < j < kept.len() implies (#[trigger] kept[i]).start <= (
    #[trigger] kept[j]).start by {
        assert(!before(kept[j], kept[i]));
    }
    assert forall|i: int| 0 <= i < all.len() implies kept.contains(#[trigger] all[i]) || exists|k: int|
        0 <= k < kept.len() && (#[trigger] kept[k]).label == all[i].label && spans::overlaps(
            kept[k],
            all[i],
        ) && !spans::longest_first(all[i], kept[k]) by {
        assert(labels.contains(all[i].label));
        if loose.contains(all[i]) {
            assert(loose.to_multiset().contains(all[i]));
            assert(kept.contains(all[i]));
        } else {
            let k = choose|k: int|
                0 <= k < loose.len() && (#[trigger] loose[k]).label == all[i].label
                    && spans::overlaps(loose[k], all[i]) && !spans::longest_first(all[i], loose[k]);
            assert(loose.contains(loose[k]));
            assert(loose.to_multiset().contains(loose[k]));
            assert(kept.contains(loose[k]));
            let m = kept.index_of(loose[k]);
            assert(kept[m] == loose[k]);
        }
    }
}

/// Adding text keeps the ranges that get one, in their order.
proof fn lemma_with_text(ranges: Seq<Range>, text: Seq<char>)
    ensures
        ({
            let f = |range: Range| spans::with_text(text, range);
            let found = ranges.filter_map(f);
            &&& forall|k: int|
                0 <= k < found.len() ==> ranges.contains((#[trigger] found[k]).range)
                    && spans::with_text(text, found[k].range) == Some(found[k])
            &&& spans::in_order(ranges) ==> forall|i: int, j: int|
                0 <= i < j < found.len() ==> (#[trigger] found[i]).range.end <= (
                #[trigger] found[j]).range.start
        }),
    decreases ranges.len(),
{
    let f = |range: Range| spans::with_text(text, range);
    if ranges.len() > 0 {
        let init = ranges.drop_last();
        let last = ranges.last();
        lemma_with_text(init, text);
        let before = init.filter_map(f);
        let found = ranges.filter_map(f);
        assert(ranges[ranges.len() - 1] == last);
        assert forall|k: int| 0 <= k < found.len() implies ranges.contains(
            (#[trigger] found[k]).range,
        ) && spans::with_text(text, found[k].range) == Some(found[k]) by {
            if k < before.len() {
                assert(found[k] == before[k]);
                assert(init.contains(before[k].range));
                let i = init.index_of(before[k].range);
                assert(ranges[i] == before[k].range);
            }
        }
        if spans::in_order(ranges) {
            assert forall|i: int, j: int| 0 <= i < j < init.len() implies (#[trigger] init[i]).end
                <= (#[trigger] init[j]).start by {
                assert(ranges[i].end <= ranges[j].start);
            }
            assert forall|i: int, j: int| 0 <= i < j < found.len() implies (
            #[trigger] found[i]).range.end <= (#[trigger] found[j]).range.start by {
                assert(found[i] == before[i]);
                if j < before.len() {
                    assert(found[j] == before[j]);
                } else {
                    assert(init.contains(before[i].range));
                    let k = init.index_of(before[i].range);
                    assert(ranges[k].end <= ranges[ranges.len() - 1].start);
                }
            }
        }
    }
}

/// A detection comes from a span of tokens with its label: its bytes are those
/// of the span without the whitespace at either end.
pub open spec fn comes_from_tokens(
    labels: Seq<usize>,
    offsets: Seq<(usize, usize)>,
    text: Seq<char>,
    info: LabelInfo,
    range: Range,
) -> bool {
    exists|span: Range, bytes: Range|
        {
            &&& #[trigger] spans::is_run(labels, info, span)
            &&& spans::byte_range(offsets, span) == Some(bytes)
            &&& #[trigger] spans::trimmed(text::bytes_of(text), bytes) == Some(range)
        }
}

/// Every detection holds the text at its bytes, begins and ends with something
/// other than whitespace, and comes from a span of tokens with its label; and
/// detections come in order, none reaching into the next.
pub proof fn law_extracted(
    labels: Seq<usize>,
    offsets: Seq<(usize, usize)>,
    text: Seq<char>,
    info: LabelInfo,
)
    ensures
        ({
            let found = spans::extracted(labels, offsets, text, info);
            let bytes = text::bytes_of(text);
            &&& forall|k: int|
                0 <= k < found.len() ==> {
                    let d = #[trigger] found[k];
                    &&& 0 <= d.range.start < d.range.end <= bytes.len()
                    &&& text::piece(text, d.range.start, d.range.end) == Some(d.text)
                    &&& !spans::is_space(bytes[d.range.start])
                    &&& !spans::is_space(bytes[d.range.end - 1])
                    &&& comes_from_tokens(labels, offsets, text, info, d.range)
                }
            &&& forall|i: int, j: int|
                0 <= i < j < found.len() ==> (#[trigger] found[i]).range.end <= (
                #[trigger] found[j]).range.start
        }),
{
    let bytes = text::bytes_of(text);
    let token_spans = spans::runs(labels, info, labels.len() as int);
    let to_bytes = |span: Range| spans::byte_range(offsets, span);
    let trim = |span: Range| spans::trimmed(bytes, span);
    let raw = spans::raw_ranges(labels, offsets, info);
    let trimmed = raw.filter_map(trim);
    let distinct = spans::deduped(trimmed);
    let chosen = spans::selected(distinct);
    let found = spans::extracted(labels, offsets, text, info);
    spans::law_token_spans_are_greatest_runs(labels, info);
    law_deduped(trimmed);
    spans::law_selected(distinct);
    lemma_with_text(chosen, text);
    assert forall|k: int| 0 <= k < found.len() implies {
        let d = #[trigger] found[k];
        &&& 0 <= d.range.start < d.range.end <= bytes.len()
        &&& text::piece(text, d.range.start, d.range.end) == Some(d.text)
        &&& !spans::is_space(bytes[d.range.start])
        &&& !spans::is_space(bytes[d.range.end - 1])
        &&& comes_from_tokens(labels, offsets, text, info, d.range)
    } by {
        let d = found[k];
        assert(chosen.contains(d.range));
        let i = chosen.index_of(d.range);
        assert(distinct.contains(chosen[i]));
        let j = distinct.index_of(d.range);
        assert(trimmed.contains(distinct[j]));
        raw.lemma_filter_map_contains(trim, d.range);
        let b = choose|b: Range| #[trigger] raw.contains(b) && trim(b) == Some(d.range);
        token_spans.lemma_filter_map_contains(to_bytes, b);
        let t = choose|t: Range| #[trigger] token_spans.contains(t) && to_bytes(t) == Some(b);
        let m = token_spans.index_of(t);
        assert(spans::is_run(labels, info, token_spans[m]));
        spans::law_trimmed(bytes, b);
        assert(spans::trimmed(bytes, b) == Some(d.range));
    }
}

/// In a well-formed label sequence a span that is open is left open by the token before,
/// and no token is passed over in it.
proof fn lemma_open_at_last(labels: Seq<usize>, info: LabelInfo, n: int)
    requires
        info.wf(),
        info.background_idx < info.classes(),
        info.boundary@[info.background_idx as int] == Boundary::Background,
        viterbi_laws::well_formed(info, viterbi::ids(labels)),
        0 <= n <= labels.len(),
        spans::open_label(labels, info, n) is Some,
    ensures
        n > 0,
        spans::token_label(labels, info, n - 1) == spans::open_label(labels, info, n),
        viterbi::stays_open(info.boundary@[labels[n - 1] as int]),
        n < labels.len() ==> !spans::passed_over(labels, info, n),
    decreases n,
{
    let path = viterbi::ids(labels);
    if spans::passed_over(labels, info, n - 1) {
        lemma_open_at_last(labels, info, n - 1);
        assert(false);
    }
    if n < labels.len() {
        assert(path[n - 1] == labels[n - 1] && path[n - 1 + 1] == labels[n]);
        assert(viterbi::may_follow(info, path[n - 1], path[n - 1 + 1]));
    }
}

/// In a well-formed label sequence a token with a span label that does not go on with a
/// span opens one.
proof fn lemma_opens_behind(labels: Seq<usize>, info: LabelInfo, t: int)
    requires
        info.wf(),
        info.background_idx < info.classes(),
        info.boundary@[info.background_idx as int] == Boundary::Background,
        viterbi_laws::well_formed(info, viterbi::ids(labels)),
        0 < t < labels.len(),
        spans::token_label(labels, info, t) is Some,
        !spans::joined(labels, info, t),
    ensures
        viterbi::opens(info.boundary@[labels[t] as int]),
{
    let path = viterbi::ids(labels);
    let prev = labels[t - 1] as int;
    assert(path[t - 1] == prev && path[t - 1 + 1] == labels[t]);
    assert(viterbi::may_follow(info, path[t - 1], path[t - 1 + 1]));
    if viterbi::stays_open(info.boundary@[prev]) {
        assert(spans::open_label(labels, info, t) == spans::token_label(labels, info, t - 1));
        assert(spans::token_label(labels, info, t - 1) == spans::token_label(labels, info, t));
    }
}

/// In a well-formed label sequence every token span opens with a start label and
/// closes with an end label, a single token doing both.
pub proof fn law_well_formed_spans_open_and_close(
    labels: Seq<usize>,
    info: LabelInfo,
    span: Range,
)
    requires
        info.wf(),
        info.background_idx < info.classes(),
        info.boundary@[info.background_idx as int] == Boundary::Background,
        viterbi_laws::well_formed(info, viterbi::ids(labels)),
        spans::is_run(labels, info, span),
    ensures
        viterbi::opens(info.boundary@[labels[span.start] as int]),
        viterbi::closes(info.boundary@[labels[span.end - 1] as int]),
{
    let path = viterbi::ids(labels);
    let first = labels[span.start] as int;
    let last = labels[span.end - 1] as int;
    assert(path[span.start] == first);
    assert(path[span.end - 1] == last);
    assert(spans::token_label(labels, info, span.start) == Some(span.label));
    if span.start < span.end - 1 {
        assert(spans::joined(labels, info, span.end - 1));
        lemma_open_at_last(labels, info, span.end - 1);
    }
    assert(spans::token_label(labels, info, span.end - 1) == Some(span.label));
    if span.start > 0 {
        lemma_opens_behind(labels, info, span.start);
    }
    if span.end < labels.len() {
        assert(path[span.end] == labels[span.end]);
        assert(viterbi::may_follow(info, path[span.end - 1], path[span.end - 1 + 1]));
        assert(!spans::joined(labels, info, span.end));
        assert(!viterbi::stays_open(info.boundary@[last])) by {
            if viterbi::stays_open(info.boundary@[last]) {
                assert(spans::open_label(labels, info, span.end) == Some(span.label));
            }
        }
    }
}

} // verus!
