//! What the removal of overlaps keeps, and what it does not depend on.

use vstd::prelude::*;

use crate::labels::LabelInfo;
use crate::sorting;
use crate::span_laws;
use crate::spans;
use crate::spans::{Detection, Range};
use crate::text;

verus! {

/// Ranges that do not overlap are all kept.
pub proof fn law_disjoint_are_all_kept(candidates: Seq<Range>)
    requires
        forall|i: int, j: int|
            0 <= i < j < candidates.len() ==> !spans::overlaps(
                #[trigger] candidates[i],
                #[trigger] candidates[j],
            ),
    ensures
        spans::keep_disjoint(candidates) == candidates,
    decreases candidates.len(),
{
    if candidates.len() > 0 {
        let init = candidates.drop_last();
        let last = candidates.last();
        assert forall|i: int, j: int| 0 <= i < j < init.len() implies !spans::overlaps(
            #[trigger] init[i],
            #[trigger] init[j],
        ) by {
            assert(!spans::overlaps(candidates[i], candidates[j]));
        }
        law_disjoint_are_all_kept(init);
        assert forall|k: int| 0 <= k < init.len() implies !spans::overlaps(#[trigger] init[k], last) by {
            assert(!spans::overlaps(candidates[k], candidates[candidates.len() - 1]));
        }
        assert(init.push(last) =~= candidates);
    }
}

/// What is kept of sorted candidates is sorted.
proof fn lemma_kept_is_sorted(candidates: Seq<Range>, before: spec_fn(Range, Range) -> bool)
    requires
        sorting::is_sorted(candidates, before),
    ensures
        sorting::is_sorted(spans::keep_disjoint(candidates), before),
    decreases candidates.len(),
{
    if candidates.len() > 0 {
        let init = candidates.drop_last();
        let last = candidates.len() - 1;
        assert forall|i: int, j: int| 0 <= i < j < init.len() implies !before(
            #[trigger] init[j],
            #[trigger] init[i],
        ) by {
            assert(!before(candidates[j], candidates[i]));
        }
        lemma_kept_is_sorted(init, before);
        spans::law_keep_disjoint(init);
        let earlier = spans::keep_disjoint(init);
        let kept = spans::keep_disjoint(candidates);
        assert forall|i: int, j: int| 0 <= i < j < kept.len() implies !before(
            #[trigger] kept[j],
            #[trigger] kept[i],
        ) by {
            if j < earlier.len() {
                assert(!before(earlier[j], earlier[i]));
            } else {
                assert(init.contains(earlier[i]));
                let k = init.index_of(earlier[i]);
                assert(!before(candidates[last], candidates[k]));
            }
        }
    }
}

/// The selection does not depend on the order that the ranges come in.
pub proof fn law_selection_forgets_order(spans: Seq<Range>, others: Seq<Range>)
    requires
        spans.to_multiset() == others.to_multiset(),
    ensures
        spans::selected(spans) == spans::selected(others),
{
    let before = |a: Range, b: Range| spans::left_to_right(a, b);
    spans::lemma_left_to_right_is_strict();
    assert forall|a: Range, b: Range| a != b implies #[trigger] before(a, b) || before(b, a) by {
        text::law_precedes_is_total_order(a.label, b.label, a.label);
    }
    sorting::law_sort_forgets_order(spans, others, before);
}

/// Selecting from a selection changes nothing.
pub proof fn law_selection_is_final(spans: Seq<Range>)
    ensures
        spans::selected(spans::selected(spans)) == spans::selected(spans),
{
    let before = |a: Range, b: Range| spans::left_to_right(a, b);
    let sorted = sorting::stable_sort(spans, before);
    let kept = spans::selected(spans);
    spans::lemma_left_to_right_is_strict();
    sorting::law_stable_sort(spans, before);
    lemma_kept_is_sorted(sorted, before);
    sorting::law_sorted_stays(kept, before);
    spans::law_keep_disjoint(sorted);
    law_disjoint_are_all_kept(kept);
}

/// Ranges that all have a label.
proof fn lemma_all_with_label(ranges: Seq<Range>, label: Seq<char>)
    requires
        forall|i: int| 0 <= i < ranges.len() ==> (#[trigger] ranges[i]).label == label,
    ensures
        spans::with_label(ranges, label) == ranges,
    decreases ranges.len(),
{
    reveal(Seq::filter);
    if ranges.len() > 0 {
        let init = ranges.drop_last();
        assert(ranges[ranges.len() - 1] == ranges.last());
        assert forall|i: int| 0 <= i < init.len() implies (#[trigger] init[i]).label == label by {
            assert(ranges[i].label == label);
        }
        lemma_all_with_label(init, label);
        assert(init.push(ranges.last()) =~= ranges);
    }
}

/// Ranges that all have another label.
proof fn lemma_none_with_label(ranges: Seq<Range>, label: Seq<char>)
    requires
        forall|i: int| 0 <= i < ranges.len() ==> (#[trigger] ranges[i]).label != label,
    ensures
        spans::with_label(ranges, label) == Seq::<Range>::empty(),
    decreases ranges.len(),
{
    reveal(Seq::filter);
    if ranges.len() > 0 {
        let init = ranges.drop_last();
        assert(ranges[ranges.len() - 1] == ranges.last());
        assert forall|i: int| 0 <= i < init.len() implies (#[trigger] init[i]).label != label by {
            assert(ranges[i].label != label);
        }
        lemma_none_with_label(init, label);
    }
}

/// What is kept of several labels, and of one of them.
proof fn lemma_kept_of_one(all: Seq<Range>, labels: Seq<Seq<char>>, label: Seq<char>)
    requires
        labels.no_duplicates(),
    ensures
        spans::with_label(spans::kept_of_labels(all, labels), label) == (if labels.contains(label) {
            spans::kept_of_label(all, label)
        } else {
            Seq::<Range>::empty()
        }),
    decreases labels.len(),
{
    let keep = |r: Range| r.label == label;
    if labels.len() == 0 {
        reveal(Seq::filter);
    } else {
        let init = labels.drop_last();
        let last = labels.last();
        assert(labels[labels.len() - 1] == last);
        assert forall|i: int, j: int| 0 <= i < init.len() && 0 <= j < init.len() && i != j implies init[i]
            != init[j] by {
            assert(labels[i] != labels[j]);
        }
        lemma_kept_of_one(all, init, label);
        let earlier = spans::kept_of_labels(all, init);
        let own = spans::kept_of_label(all, last);
        Seq::filter_distributes_over_add(earlier, own, keep);
        span_laws::lemma_kept_of_label(all, last);
        if init.contains(label) {
            let k = init.index_of(label);
            assert(labels[k] == label);
            assert(labels.contains(label));
        }
        if last == label {
            assert(labels.contains(label));
            lemma_all_with_label(own, label);
            if init.contains(label) {
                let k = init.index_of(label);
                assert(labels[k] != labels[labels.len() - 1]);
            }
            assert(Seq::<Range>::empty() + own =~= own);
        } else {
            lemma_none_with_label(own, label);
            assert(earlier.filter(keep) + Seq::<Range>::empty() =~= earlier.filter(keep));
            if labels.contains(label) {
                let k = labels.index_of(label);
                assert(init[k] == label);
            }
        }
    }
}

/// The labels of ranges that all have one label.
proof fn lemma_one_label(ranges: Seq<Range>, label: Seq<char>)
    requires
        forall|i: int| 0 <= i < ranges.len() ==> (#[trigger] ranges[i]).label == label,
    ensures
        spans::distinct_labels(ranges) == (if ranges.len() == 0 {
            Seq::<Seq<char>>::empty()
        } else {
            seq![label]
        }),
    decreases ranges.len(),
{
    if ranges.len() > 0 {
        let init = ranges.drop_last();
        assert(ranges[ranges.len() - 1] == ranges.last());
        assert forall|i: int| 0 <= i < init.len() implies (#[trigger] init[i]).label == label by {
            assert(ranges[i].label == label);
        }
        lemma_one_label(init, label);
        if init.len() > 0 {
            assert(seq![label][0] == label);
            assert(seq![label].contains(label));
        } else {
            assert(!Seq::<Seq<char>>::empty().contains(label));
            assert(Seq::<Seq<char>>::empty().push(label) =~= seq![label]);
        }
    }
}

/// Ranges of one label never affect which ranges of another are kept: taking the
/// ranges with a label after the overlaps are removed, or before, comes to the same.
pub proof fn law_labels_are_deduped_apart(all: Seq<Range>, label: Seq<char>)
    ensures
        spans::with_label(spans::deduped(all), label) == spans::deduped(
            spans::with_label(all, label),
        ),
{
    let keep = |r: Range| r.label == label;
    let before = |a: Range, b: Range| spans::starts_first(a, b);
    let labels = spans::distinct_labels(all);
    let own = spans::with_label(all, label);
    broadcast use vstd::seq_lib::group_filter_ensures;

    assert forall|i: int| 0 <= i < own.len() implies (#[trigger] own[i]).label == label by {
        assert(keep(own[i]));
    }
    span_laws::lemma_distinct_labels(all);
    lemma_kept_of_one(all, labels, label);
    assert(sorting::strict_order(before));
    sorting::law_filter_sorted(spans::kept_of_labels(all, labels), before, keep);
    lemma_one_label(own, label);
    lemma_all_with_label(own, label);
    let kept = spans::kept_of_label(all, label);
    assert(spans::kept_of_label(own, label) == kept);
    if own.len() == 0 {
        assert(own =~= Seq::<Range>::empty());
        assert(kept =~= Seq::<Range>::empty());
        assert(spans::kept_of_labels(own, Seq::empty()) =~= Seq::<Range>::empty());
    } else {
        assert(own.contains(own[0]));
        all.lemma_filter_contains_rev(keep, own[0]);
        let k = all.index_of(own[0]);
        assert(labels.contains(all[k].label));
        let one = seq![label];
        assert(one.drop_last() =~= Seq::<Seq<char>>::empty());
        assert(one.last() == label);
        assert(spans::kept_of_labels(own, one.drop_last()) =~= Seq::<Range>::empty());
        assert(spans::kept_of_labels(own, one) =~= kept);
    }
}

/// Ranges in order that hold something.
pub open spec fn in_a_row(ranges: Seq<Range>) -> bool {
    &&& spans::in_order(ranges)
    &&& forall|i: int| 0 <= i < ranges.len() ==> (#[trigger] ranges[i]).start < ranges[i].end
}

/// Ranges in order that hold something, and have the same members, are the same.
proof fn lemma_rows_are_equal(a: Seq<Range>, b: Seq<Range>)
    requires
        in_a_row(a),
        forall|i: int, j: int|
            0 <= i < j < b.len() ==> (#[trigger] b[i]).start <= (#[trigger] b[j]).start,
        b.no_duplicates(),
        forall|r: Range| #[trigger] a.contains(r) <==> b.contains(r),
    ensures
        a == b,
    decreases a.len(),
{
    if a.len() == 0 {
        if b.len() > 0 {
            assert(b.contains(b[0]));
            assert(a.contains(b[0]));
        }
        assert(a =~= b);
    } else {
        let x = a.last();
        assert(a[a.len() - 1] == x);
        assert(a.contains(x) && b.contains(x));
        let y = b.last();
        assert(b[b.len() - 1] == y);
        assert(b.contains(y) && a.contains(y));
        let i = a.index_of(y);
        let j = b.index_of(x);
        if i < a.len() - 1 {
            assert(a[i].end <= a[a.len() - 1].start);
            assert(b[j].start <= y.start) by {
                if j < b.len() - 1 {
                    assert(b[j].start <= b[b.len() - 1].start);
                }
            }
            assert(a[i].start < a[i].end);
            assert(false);
        }
        let c = a.drop_last();
        let d = b.drop_last();
        assert forall|i: int, j: int| 0 <= i < j < c.len() implies (#[trigger] c[i]).end <= (
        #[trigger] c[j]).start by {
            assert(a[i].end <= a[j].start);
        }
        assert forall|i: int| 0 <= i < c.len() implies (#[trigger] c[i]).start < c[i].end by {
            assert(a[i].start < a[i].end);
        }
        assert forall|i: int, j: int| 0 <= i < j < d.len() implies (#[trigger] d[i]).start <= (
        #[trigger] d[j]).start by {
            assert(b[i].start <= b[j].start);
        }
        assert forall|r: Range| #[trigger] c.contains(r) <==> d.contains(r) by {
            if c.contains(r) {
                let k = c.index_of(r);
                assert(a[k] == r);
                assert(a.contains(r));
                assert(a[k].end <= a[a.len() - 1].start);
                assert(a[k].start < a[k].end);
                let m = b.index_of(r);
                assert(d[m] == r);
            }
            if d.contains(r) {
                let k = d.index_of(r);
                assert(b[k] == r);
                assert(b.contains(r) && a.contains(r));
                assert(b[k] != b[b.len() - 1]);
                let m = a.index_of(r);
                assert(c[m] == r);
            }
        }
        lemma_rows_are_equal(c, d);
        assert(c.push(x) =~= a);
        assert(d.push(y) =~= b);
    }
}

/// Nothing is removed from ranges in order that hold something.
pub proof fn law_rows_stay(ranges: Seq<Range>)
    requires
        in_a_row(ranges),
    ensures
        spans::deduped(ranges) == ranges,
        spans::selected(ranges) == ranges,
{
    let before = |a: Range, b: Range| spans::left_to_right(a, b);
    assert forall|i: int, j: int| 0 <= i < j < ranges.len() implies !spans::overlaps(
        #[trigger] ranges[i],
        #[trigger] ranges[j],
    ) && !before(ranges[j], ranges[i]) by {
        assert(ranges[i].end <= ranges[j].start);
        assert(ranges[i].start < ranges[i].end);
    }
    sorting::law_sorted_stays(ranges, before);
    law_disjoint_are_all_kept(ranges);
    let kept = spans::deduped(ranges);
    span_laws::law_deduped(ranges);
    assert forall|i: int, j: int| 0 <= i < kept.len() && 0 <= j < kept.len() && i != j implies kept[i]
        != kept[j] by {
        assert(ranges.contains(kept[i]));
        let k = ranges.index_of(kept[i]);
        assert(ranges[k].start < ranges[k].end);
        if i < j {
            assert(kept[i].label == kept[j].label ==> !spans::overlaps(kept[i], kept[j]));
        } else {
            assert(kept[j].label == kept[i].label ==> !spans::overlaps(kept[j], kept[i]));
        }
    }
    assert forall|r: Range| #[trigger] ranges.contains(r) <==> kept.contains(r) by {
        if kept.contains(r) {
            let k = kept.index_of(r);
            assert(ranges.contains(kept[k]));
        }
        if ranges.contains(r) {
            let i = ranges.index_of(r);
            if !kept.contains(ranges[i]) {
                let k = choose|k: int|
                    0 <= k < kept.len() && (#[trigger] kept[k]).label == ranges[i].label
                        && spans::overlaps(kept[k], ranges[i]) && !spans::longest_first(
                        ranges[i],
                        kept[k],
                    );
                assert(ranges.contains(kept[k]));
                let m = ranges.index_of(kept[k]);
                assert(kept.contains(kept[k]));
                if m < i {
                    assert(!spans::overlaps(ranges[m], ranges[i]));
                } else if i < m {
                    assert(!spans::overlaps(ranges[i], ranges[m]));
                }
            }
        }
    }
    lemma_rows_are_equal(ranges, kept);
}

/// Trimming ranges in order leaves ranges in order, each inside the one it came from.
proof fn lemma_trimmed_in_a_row(raw: Seq<Range>, bytes: Seq<u8>)
    requires
        spans::in_order(raw),
        forall|i: int| 0 <= i < raw.len() ==> (#[trigger] raw[i]).start <= raw[i].end,
    ensures
        ({
            let all = raw.filter_map(|span: Range| spans::trimmed(bytes, span));
            &&& in_a_row(all)
            &&& raw.len() > 0 ==> forall|k: int|
                0 <= k < all.len() ==> (#[trigger] all[k]).end <= raw.last().end
        }),
    decreases raw.len(),
{
    let trim = |span: Range| spans::trimmed(bytes, span);
    let all = raw.filter_map(trim);
    if raw.len() > 0 {
        let init = raw.drop_last();
        let last = raw.last();
        assert(raw[raw.len() - 1] == last);
        assert forall|i: int, j: int| 0 <= i < j < init.len() implies (#[trigger] init[i]).end <= (
        #[trigger] init[j]).start by {
            assert(raw[i].end <= raw[j].start);
        }
        assert forall|i: int| 0 <= i < init.len() implies (#[trigger] init[i]).start <= init[i].end by {
            assert(raw[i].start <= raw[i].end);
        }
        lemma_trimmed_in_a_row(init, bytes);
        let part = init.filter_map(trim);
        spans::law_trimmed(bytes, last);
        if init.len() > 0 {
            assert(init[init.len() - 1] == init.last());
            assert(raw[init.len() - 1].end <= raw[raw.len() - 1].start);
        }
        assert forall|k: int| 0 <= k < part.len() implies (#[trigger] part[k]).end <= last.start by {
            assert(part[k].end <= init.last().end);
        }
        assert forall|i: int, j: int| 0 <= i < j < all.len() implies (#[trigger] all[i]).end <= (
        #[trigger] all[j]).start by {
            assert(all[i] == part[i]);
            if j < part.len() {
                assert(all[j] == part[j]);
            }
        }
        assert forall|i: int| 0 <= i < all.len() implies (#[trigger] all[i]).start < all[i].end
            && all[i].end <= last.end by {
            if i < part.len() {
                assert(all[i] == part[i]);
            }
        }
    }
}

/// Nothing is lost where ranges do not overlap: when the byte ranges come in order and
/// none reaches into the next, the final ranges are all of them, trimmed, but for
/// those that hold whitespace only.
pub proof fn law_ranges_in_order_are_all_kept(raw: Seq<Range>, text: Seq<char>)
    requires
        spans::in_order(raw),
        forall|i: int| 0 <= i < raw.len() ==> (#[trigger] raw[i]).start <= raw[i].end,
    ensures
        spans::final_ranges(raw, text) == raw.filter_map(
            |span: Range| spans::trimmed(text::bytes_of(text), span),
        ),
{
    let bytes = text::bytes_of(text);
    lemma_trimmed_in_a_row(raw, bytes);
    law_rows_stay(raw.filter_map(|span: Range| spans::trimmed(bytes, span)));
}

/// Tokens that lie in a text in order, none reaching into the next, each from one place
/// between characters to another.
pub open spec fn tokens_in_order(offsets: Seq<(usize, usize)>, text: Seq<char>) -> bool {
    &&& forall|i: int|
        0 <= i < offsets.len() ==> text::piece(
            text,
            (#[trigger] offsets[i]).0 as int,
            offsets[i].1 as int,
        ) is Some
    &&& forall|i: int, j: int|
        0 <= i < j < offsets.len() ==> (#[trigger] offsets[i]).1 <= (#[trigger] offsets[j]).0
}

/// The byte ranges of token spans in order, where the tokens are in order.
proof fn lemma_bytes_in_order(spans: Seq<Range>, offsets: Seq<(usize, usize)>, text: Seq<char>)
    requires
        tokens_in_order(offsets, text),
        spans::in_order(spans),
    ensures
        ({
            let raw = spans.filter_map(|span: Range| spans::byte_range(offsets, span));
            &&& spans::in_order(raw)
            &&& forall|k: int|
                0 <= k < raw.len() ==> {
                    &&& (#[trigger] raw[k]).start < raw[k].end
                    &&& text::piece(text, raw[k].start, raw[k].end) is Some
                    &&& exists|s: int|
                        0 <= s < spans.len() && spans::byte_range(offsets, #[trigger] spans[s])
                            == Some(raw[k])
                }
        }),
    decreases spans.len(),
{
    let to_bytes = |span: Range| spans::byte_range(offsets, span);
    let raw = spans.filter_map(to_bytes);
    if spans.len() > 0 {
        let init = spans.drop_last();
        let last = spans.last();
        assert(spans[spans.len() - 1] == last);
        assert forall|i: int, j: int| 0 <= i < j < init.len() implies (#[trigger] init[i]).end <= (
        #[trigger] init[j]).start by {
            assert(spans[i].end <= spans[j].start);
        }
        lemma_bytes_in_order(init, offsets, text);
        let part = init.filter_map(to_bytes);
        assert forall|k: int| 0 <= k < raw.len() implies {
            &&& (#[trigger] raw[k]).start < raw[k].end
            &&& text::piece(text, raw[k].start, raw[k].end) is Some
            &&& exists|s: int|
                0 <= s < spans.len() && spans::byte_range(offsets, #[trigger] spans[s]) == Some(
                    raw[k],
                )
        } by {
            if k < part.len() {
                assert(raw[k] == part[k]);
                let s = choose|s: int|
                    0 <= s < init.len() && spans::byte_range(offsets, #[trigger] init[s]) == Some(
                        part[k],
                    );
                assert(spans[s] == init[s]);
            } else {
                assert(spans::byte_range(offsets, spans[spans.len() - 1]) == Some(raw[k]));
                let first = offsets[last.start];
                let final_token = offsets[last.end - 1];
                assert(text::piece(text, first.0 as int, first.1 as int) is Some);
                assert(text::piece(text, final_token.0 as int, final_token.1 as int) is Some);
            }
        }
        assert forall|i: int, j: int| 0 <= i < j < raw.len() implies (#[trigger] raw[i]).end <= (
        #[trigger] raw[j]).start by {
            assert(raw[i] == part[i]);
            if j < part.len() {
                assert(raw[j] == part[j]);
            } else {
                let s = choose|s: int|
                    0 <= s < init.len() && spans::byte_range(offsets, #[trigger] init[s]) == Some(
                        part[i],
                    );
                assert(spans[s] == init[s]);
                assert(spans[s].end <= spans[spans.len() - 1].start);
                assert(offsets[spans[s].end - 1].1 <= offsets[last.start].0);
            }
        }
    }
}

/// A range between characters is between characters once it is trimmed.
proof fn lemma_trimmed_piece(text: Seq<char>, span: Range)
    requires
        text::piece(text, span.start, span.end) is Some,
    ensures
        spans::trimmed(text::bytes_of(text), span) matches Some(r) ==> text::piece(
            text,
            r.start,
            r.end,
        ) is Some,
{
    let bytes = text::bytes_of(text);
    spans::law_trimmed(bytes, span);
    if let Some(r) = spans::trimmed(bytes, span) {
        if span.start < r.start {
            assert(spans::is_space(bytes[r.start - 1]));
            text::law_ascii_stands_alone(text, r.start - 1);
        }
        if r.end < span.end {
            assert(spans::is_space(bytes[r.end]));
            text::law_ascii_stands_alone(text, r.end);
        }
    }
}

/// Mapping where there is something for every item.
proof fn lemma_all_mapped<A, B>(items: Seq<A>, f: spec_fn(A) -> Option<B>, g: spec_fn(A) -> B)
    requires
        forall|i: int| 0 <= i < items.len() ==> f(#[trigger] items[i]) == Some(g(items[i])),
    ensures
        items.filter_map(f) == items.map_values(g),
    decreases items.len(),
{
    if items.len() == 0 {
        assert(items.filter_map(f) =~= items.map_values(g));
    } else {
        let init = items.drop_last();
        assert(items[items.len() - 1] == items.last());
        assert forall|i: int| 0 <= i < init.len() implies f(#[trigger] init[i]) == Some(g(init[i])) by {
            assert(f(items[i]) == Some(g(items[i])));
        }
        lemma_all_mapped(init, f, g);
        assert(items.filter_map(f) =~= items.map_values(g));
    }
}

/// No detection is lost where the tokens lie in the text in order: there is, in order,
/// exactly one detection for each byte range of the token spans that holds more than
/// whitespace, with its label, its bounds once it is trimmed, and the text there.
pub proof fn law_no_detection_is_lost(
    labels: Seq<usize>,
    offsets: Seq<(usize, usize)>,
    text: Seq<char>,
    info: LabelInfo,
)
    requires
        offsets.len() == labels.len(),
        tokens_in_order(offsets, text),
    ensures
        spans::ends_within(
            spans::raw_ranges(labels, offsets, info),
            text::bytes_of(text).len() as int,
        ),
        spans::extracted(labels, offsets, text, info) == spans::raw_ranges(
            labels,
            offsets,
            info,
        ).filter_map(|span: Range| spans::trimmed(text::bytes_of(text), span)).map_values(
            |range: Range|
                Detection { range, text: text::piece(text, range.start, range.end)->0 },
        ),
{
    let bytes = text::bytes_of(text);
    let trim = |span: Range| spans::trimmed(bytes, span);
    let raw = spans::raw_ranges(labels, offsets, info);
    let kept = raw.filter_map(trim);
    spans::law_token_spans_are_greatest_runs(labels, info);
    lemma_bytes_in_order(spans::runs(labels, info, labels.len() as int), offsets, text);
    law_ranges_in_order_are_all_kept(raw, text);
    let attach = |range: Range| spans::with_text(text, range);
    let attached = |range: Range|
        Detection { range, text: text::piece(text, range.start, range.end)->0 };
    assert forall|i: int| 0 <= i < kept.len() implies attach(#[trigger] kept[i]) == Some(
        attached(kept[i]),
    ) by {
        assert(kept.contains(kept[i]));
        raw.lemma_filter_map_contains(trim, kept[i]);
        let b = choose|b: Range| #[trigger] raw.contains(b) && trim(b) == Some(kept[i]);
        let k = raw.index_of(b);
        assert(text::piece(text, raw[k].start, raw[k].end) is Some);
        lemma_trimmed_piece(text, b);
    }
    lemma_all_mapped(kept, attach, attached);
}

} // verus!
