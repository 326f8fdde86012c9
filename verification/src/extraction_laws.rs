//! Which tokens make up a span, and which bytes of the text are found.

use vstd::prelude::*;

use crate::labels::{Boundary, LabelInfo};
use crate::overlap_laws;
use crate::sorting;
use crate::span_laws;
use crate::spans;
use crate::spans::{Detection, Range};
use crate::text;

verus! {

/// A span covers a token, or a byte.
pub open spec fn covers(spans: Seq<Range>, k: int, p: int) -> bool {
    0 <= k < spans.len() && spans[k].start <= p < spans[k].end
}

/// Every token that has a boundary and a span label lies in a span with that label, and a
/// background token lies in none. Spans hold a token each, and come one behind the other.
pub proof fn law_labelled_tokens_lie_in_spans(labels: Seq<usize>, info: LabelInfo, t: int)
    requires
        0 <= t < labels.len(),
    ensures
        ({
            let found = spans::runs(labels, info, labels.len() as int);
            let id = labels[t] as int;
            &&& forall|k: int|
                0 <= k < found.len() ==> 0 <= (#[trigger] found[k]).start < found[k].end
                    <= labels.len()
            &&& forall|i: int, j: int|
                0 <= i < j < found.len() ==> (#[trigger] found[i]).end <= (
                #[trigger] found[j]).start
            &&& info.boundary@[id] == Boundary::Background ==> forall|k: int|
                !#[trigger] covers(found, k, t)
            &&& info.boundary@[id] != Boundary::Background ==> match info.span_label@[id] {
                Some(name) => {
                    &&& exists|k: int| #[trigger] covers(found, k, t)
                    &&& forall|k: int| #[trigger] covers(found, k, t) ==> found[k].label == name@
                },
                None => true,
            }
        }),
{
    let found = spans::runs(labels, info, labels.len() as int);
    spans::law_token_spans_are_greatest_runs(labels, info);
    assert forall|k: int| 0 <= k < found.len() implies 0 <= (#[trigger] found[k]).start
        < found[k].end <= labels.len() by {
        assert(spans::is_run(labels, info, found[k]));
    }
    assert forall|k: int| #[trigger] covers(found, k, t) implies spans::token_label(labels, info, t)
        == Some(found[k].label) || spans::passed_over(labels, info, t) by {
        assert(spans::is_run(labels, info, found[k]));
    }
    if spans::token_label(labels, info, t) is Some {
        let k = choose|k: int|
            0 <= k < found.len() && (#[trigger] found[k]).start <= t < found[k].end;
        assert(covers(found, k, t));
    }
}

/// Two tokens next to each other lie in one span if and only if the first begins a span
/// or goes on with one, the second goes on or ends, and both have the same span label.
pub proof fn law_neighbours_in_one_span(labels: Seq<usize>, info: LabelInfo, t: int)
    requires
        0 <= t < labels.len() - 1,
        info.boundary@[labels[t] as int] != Boundary::Background,
        info.boundary@[labels[t + 1] as int] != Boundary::Background,
        info.span_label@[labels[t] as int] is Some,
        info.span_label@[labels[t + 1] as int] is Some,
    ensures
        ({
            let found = spans::runs(labels, info, labels.len() as int);
            let a = labels[t] as int;
            let b = labels[t + 1] as int;
            (exists|k: int| #[trigger] covers(found, k, t) && covers(found, k, t + 1)) <==> {
                &&& info.boundary@[a] == Boundary::B || info.boundary@[a] == Boundary::I
                &&& info.boundary@[b] == Boundary::I || info.boundary@[b] == Boundary::E
                &&& info.span_label@[a]->0@ == info.span_label@[b]->0@
            }
        }),
{
    let found = spans::runs(labels, info, labels.len() as int);
    spans::law_token_spans_are_greatest_runs(labels, info);
    law_labelled_tokens_lie_in_spans(labels, info, t);
    let together = spans::joined(labels, info, t + 1);
    let k = choose|k: int| #[trigger] covers(found, k, t);
    assert(covers(found, k, t));
    assert(spans::is_run(labels, info, found[k]));
    if together {
        assert(covers(found, k, t + 1));
    }
    if exists|k: int| #[trigger] covers(found, k, t) && covers(found, k, t + 1) {
        let j = choose|k: int| #[trigger] covers(found, k, t) && covers(found, k, t + 1);
        assert(spans::is_run(labels, info, found[j]));
        assert(spans::joined(labels, info, t + 1));
    }
}

/// A token without a span label belongs to the span of the last token before it that has
/// one, if that token leaves its span open; otherwise it lies in no span.
pub proof fn law_tokens_without_span_label(labels: Seq<usize>, info: LabelInfo, u: int, t: int)
    requires
        0 <= u < t < labels.len(),
        info.boundary@[labels[u] as int] == Boundary::Background || info.span_label@[labels[u] as int] is Some,
        forall|v: int|
            u < v <= t ==> info.boundary@[#[trigger] labels[v] as int] != Boundary::Background
                && info.span_label@[labels[v] as int] is None,
    ensures
        ({
            let found = spans::runs(labels, info, labels.len() as int);
            let b = info.boundary@[labels[u] as int];
            &&& b == Boundary::B || b == Boundary::I ==> forall|k: int| #[trigger]
                covers(found, k, u) ==> covers(found, k, t)
            &&& b != Boundary::B && b != Boundary::I ==> forall|k: int|
                !#[trigger] covers(found, k, t)
        }),
    decreases t - u,
{
    let found = spans::runs(labels, info, labels.len() as int);
    spans::law_token_spans_are_greatest_runs(labels, info);
    lemma_left_open(labels, info, u, t);
    if u + 1 < t {
        law_tokens_without_span_label(labels, info, u, t - 1);
    }
    assert(info.boundary@[labels[t] as int] != Boundary::Background);
    assert(spans::passed_over(labels, info, t));
    assert forall|k: int| #[trigger] covers(found, k, t) implies spans::joined(labels, info, t) by {
        assert(spans::is_run(labels, info, found[k]));
    }
    assert forall|k: int|
        #![trigger covers(found, k, u)]
        covers(found, k, u) && spans::open_label(labels, info, t) is Some implies covers(
        found,
        k,
        t,
    ) by {
        assert(spans::is_run(labels, info, found[k]));
        assert(spans::joined(labels, info, t));
        if u + 1 < t {
            assert(covers(found, k, t - 1));
        }
    }
}

proof fn lemma_left_open(labels: Seq<usize>, info: LabelInfo, u: int, t: int)
    requires
        0 <= u < t < labels.len(),
        info.boundary@[labels[u] as int] == Boundary::Background || info.span_label@[labels[u] as int] is Some,
        forall|v: int|
            u < v <= t ==> info.boundary@[#[trigger] labels[v] as int] != Boundary::Background
                && info.span_label@[labels[v] as int] is None,
    ensures
        spans::open_label(labels, info, t) is Some <==> info.boundary@[labels[u] as int]
            == Boundary::B || info.boundary@[labels[u] as int] == Boundary::I,
    decreases t - u,
{
    if u + 1 < t {
        assert(info.boundary@[labels[t - 1] as int] != Boundary::Background);
        lemma_left_open(labels, info, u, t - 1);
    }
}

/// A span of tokens, however many they are, lies in the text from the first byte of its
/// first token to the last byte of its last one, and keeps its label. It has no place
/// there only where it reaches past the tokens or holds no byte.
pub proof fn law_bytes_of_a_token_span(offsets: Seq<(usize, usize)>, span: Range)
    ensures
        match spans::byte_range(offsets, span) {
            Some(bytes) => {
                &&& bytes.label == span.label
                &&& bytes.start == offsets[span.start].0
                &&& bytes.end == offsets[span.end - 1].1
                &&& bytes.start < bytes.end
                &&& 0 <= span.start < span.end <= offsets.len()
            },
            None => span.start < 0 || span.start >= span.end || span.end > offsets.len()
                || offsets[span.end - 1].1 <= offsets[span.start].0,
        },
{
}

/// A byte of whitespace in ASCII.
pub open spec fn blank_byte(b: u8) -> bool {
    b == 32 || b == 9 || b == 10 || b == 12 || b == 13
}

/// Of a range only blanks are taken away, and all of them at either end; a range goes
/// away where it holds nothing else.
pub proof fn law_blanks_are_trimmed(bytes: Seq<u8>, span: Range)
    requires
        span.start <= span.end,
    ensures
        match spans::trimmed(bytes, span) {
            Some(r) => {
                &&& r.label == span.label
                &&& span.start <= r.start < r.end <= span.end
                &&& !blank_byte(bytes[r.start])
                &&& !blank_byte(bytes[r.end - 1])
                &&& forall|p: int| span.start <= p < r.start ==> blank_byte(#[trigger] bytes[p])
                &&& forall|p: int| r.end <= p < span.end ==> blank_byte(#[trigger] bytes[p])
            },
            None => forall|p: int| span.start <= p < span.end ==> blank_byte(#[trigger] bytes[p]),
        },
{
    spans::law_trimmed(bytes, span);
    assert forall|b: u8| #[trigger] spans::is_space(b) == blank_byte(b) by {}
}

/// Of ranges with one label that reach into each other the longest is kept, and of equally
/// long ones the first. What is kept was given, comes in the order of its starts, and
/// ranges with one label stay apart; what is not kept gives way to one with its label that
/// it shares a byte with and that is not shorter, nor as long and further right.
pub proof fn law_longest_of_a_label_is_kept(all: Seq<Range>)
    requires
        forall|i: int| 0 <= i < all.len() ==> (#[trigger] all[i]).start < all[i].end,
    ensures
        ({
            let kept = spans::deduped(all);
            &&& forall|i: int| 0 <= i < kept.len() ==> all.contains(#[trigger] kept[i])
            &&& forall|i: int, j: int|
                0 <= i < j < kept.len() ==> (#[trigger] kept[i]).start <= (#[trigger] kept[j]).start
            &&& forall|i: int, j: int|
                0 <= i < j < kept.len() && (#[trigger] kept[i]).label == (#[trigger] kept[j]).label
                    ==> kept[i].end <= kept[j].start
            &&& forall|i: int|
                0 <= i < all.len() ==> kept.contains(#[trigger] all[i]) || exists|k: int|
                    {
                        &&& 0 <= k < kept.len()
                        &&& (#[trigger] kept[k]).label == all[i].label
                        &&& kept[k].start < all[i].end && all[i].start < kept[k].end
                        &&& kept[k].end - kept[k].start >= all[i].end - all[i].start
                        &&& kept[k].end - kept[k].start == all[i].end - all[i].start
                            ==> kept[k].start <= all[i].start
                    }
        }),
{
    let kept = spans::deduped(all);
    span_laws::law_deduped(all);
    assert forall|i: int| 0 <= i < kept.len() implies (#[trigger] kept[i]).start < kept[i].end by {
        assert(all.contains(kept[i]));
        let m = all.index_of(kept[i]);
        assert(all[m].start < all[m].end);
    }
    assert forall|i: int, j: int|
        0 <= i < j < kept.len() && (#[trigger] kept[i]).label == (#[trigger] kept[j]).label implies kept[i].end
        <= kept[j].start by {
        assert(!spans::overlaps(kept[i], kept[j]));
    }
    assert forall|i: int| 0 <= i < all.len() && !kept.contains(#[trigger] all[i]) implies exists|
        k: int,
    |
        {
            &&& 0 <= k < kept.len()
            &&& (#[trigger] kept[k]).label == all[i].label
            &&& kept[k].start < all[i].end && all[i].start < kept[k].end
            &&& kept[k].end - kept[k].start >= all[i].end - all[i].start
            &&& kept[k].end - kept[k].start == all[i].end - all[i].start ==> kept[k].start
                <= all[i].start
        } by {
        let k = choose|k: int|
            0 <= k < kept.len() && (#[trigger] kept[k]).label == all[i].label && spans::overlaps(
                kept[k],
                all[i],
            ) && !spans::longest_first(all[i], kept[k]);
        assert(kept[k].label == all[i].label);
    }
}

/// Of ranges that reach into each other, whatever their labels, the one further left is
/// kept, of two that start alike the longer, and of two alike the one whose label comes
/// first. What is kept was given, and comes one behind the other.
pub proof fn law_leftmost_is_kept(all: Seq<Range>)
    requires
        forall|i: int| 0 <= i < all.len() ==> (#[trigger] all[i]).start < all[i].end,
    ensures
        ({
            let kept = spans::selected(all);
            &&& forall|i: int| 0 <= i < kept.len() ==> all.contains(#[trigger] kept[i])
            &&& forall|i: int, j: int|
                0 <= i < j < kept.len() ==> (#[trigger] kept[i]).end <= (#[trigger] kept[j]).start
            &&& forall|i: int|
                0 <= i < all.len() ==> kept.contains(#[trigger] all[i]) || exists|k: int|
                    {
                        &&& 0 <= k < kept.len()
                        &&& (#[trigger] kept[k]).start <= all[i].start < kept[k].end
                        &&& kept[k].start == all[i].start ==> kept[k].end >= all[i].end
                        &&& kept[k].start == all[i].start && kept[k].end == all[i].end
                            ==> !text::precedes(all[i].label, kept[k].label)
                    }
        }),
{
    let before = |a: Range, b: Range| spans::left_to_right(a, b);
    let sorted = sorting::stable_sort(all, before);
    let kept = spans::selected(all);
    spans::law_selected(all);
    spans::lemma_left_to_right_is_strict();
    sorting::law_stable_sort(all, before);
    spans::law_keep_disjoint(sorted);
    broadcast use vstd::seq_lib::group_to_multiset_ensures;

    assert forall|i: int| 0 <= i < all.len() && !kept.contains(#[trigger] all[i]) implies exists|
        k: int,
    |
        {
            &&& 0 <= k < kept.len()
            &&& (#[trigger] kept[k]).start <= all[i].start < kept[k].end
            &&& kept[k].start == all[i].start ==> kept[k].end >= all[i].end
            &&& kept[k].start == all[i].start && kept[k].end == all[i].end ==> !text::precedes(
                all[i].label,
                kept[k].label,
            )
        } by {
        assert(all.contains(all[i]));
        assert(sorted.to_multiset().contains(all[i]));
        assert(sorted.contains(all[i]));
        let n = sorted.index_of(all[i]);
        spans::lemma_keep_grows(sorted, n);
        let part = spans::keep_disjoint(sorted.take(n));
        assert(!kept.contains(sorted[n]));
        let m = choose|m: int| 0 <= m < part.len() && spans::overlaps(#[trigger] part[m], sorted[n]);
        assert(kept[m] == part[m]);
        spans::law_keep_disjoint(sorted.take(n));
        assert(sorted.take(n).contains(part[m]));
        let j = sorted.take(n).index_of(part[m]);
        assert(sorted[j] == part[m]);
        assert(!before(sorted[n], sorted[j]));
    }
}

/// What something is mapped to is there.
proof fn lemma_mapped_is_there<A, B>(items: Seq<A>, f: spec_fn(A) -> Option<B>, x: A, y: B)
    requires
        items.contains(x),
        f(x) == Some(y),
    ensures
        items.filter_map(f).contains(y),
    decreases items.len(),
{
    let init = items.drop_last();
    let i = items.index_of(x);
    if i == items.len() - 1 {
        let all = items.filter_map(f);
        assert(all == init.filter_map(f).push(y));
        assert(all[all.len() - 1] == y);
    } else {
        assert(init[i] == x);
        lemma_mapped_is_there(init, f, x, y);
        let part = init.filter_map(f);
        let k = part.index_of(y);
        assert(items.filter_map(f)[k] == y);
    }
}

/// The bytes of a token.
pub open spec fn in_token(offsets: Seq<(usize, usize)>, t: int, p: int) -> bool {
    0 <= t < offsets.len() && offsets[t].0 <= p < offsets[t].1
}

/// A detection holds a byte.
pub open spec fn in_detection(found: Seq<Detection>, k: int, p: int) -> bool {
    0 <= k < found.len() && found[k].range.start <= p < found[k].range.end
}

/// The token span of a token that has a byte other than a blank becomes a detection, with
/// all such bytes of its tokens.
proof fn lemma_span_is_found(
    labels: Seq<usize>,
    offsets: Seq<(usize, usize)>,
    text: Seq<char>,
    info: LabelInfo,
    s: int,
    t: int,
    p: int,
) -> (k: int)
    requires
        offsets.len() == labels.len(),
        overlap_laws::tokens_in_order(offsets, text),
        covers(spans::runs(labels, info, labels.len() as int), s, t),
        in_token(offsets, t, p),
        !blank_byte(text::bytes_of(text)[p]),
    ensures
        ({
            let span = spans::runs(labels, info, labels.len() as int)[s];
            let found = spans::extracted(labels, offsets, text, info);
            &&& in_detection(found, k, p)
            &&& found[k].range.label == span.label
            &&& forall|u: int, q: int|
                span.start <= u < span.end && #[trigger] in_token(offsets, u, q) && !blank_byte(
                    text::bytes_of(text)[q],
                ) ==> in_detection(found, k, q)
        }),
{
    let bytes = text::bytes_of(text);
    let runs = spans::runs(labels, info, labels.len() as int);
    let to_bytes = |span: Range| spans::byte_range(offsets, span);
    let trim = |span: Range| spans::trimmed(bytes, span);
    let raw = spans::raw_ranges(labels, offsets, info);
    let found = spans::extracted(labels, offsets, text, info);
    let span = runs[s];
    spans::law_token_spans_are_greatest_runs(labels, info);
    assert(spans::is_run(labels, info, span));
    overlap_laws::law_no_detection_is_lost(labels, offsets, text, info);
    lemma_token_in_span(offsets, text, span, t);
    let whole = Range {
        label: span.label,
        start: offsets[span.start].0 as int,
        end: offsets[span.end - 1].1 as int,
    };
    assert(whole.start <= p < whole.end);
    assert(to_bytes(span) == Some(whole));
    assert(runs.contains(span));
    lemma_mapped_is_there(runs, to_bytes, span, whole);
    law_blanks_are_trimmed(bytes, whole);
    assert(trim(whole) is Some);
    let r = trim(whole)->0;
    assert(r.start <= p < r.end);
    lemma_mapped_is_there(raw, trim, whole, r);
    let kept = raw.filter_map(trim);
    let k = kept.index_of(r);
    assert(found[k].range == kept[k]);
    assert forall|u: int, q: int|
        span.start <= u < span.end && #[trigger] in_token(offsets, u, q) && !blank_byte(
            bytes[q],
        ) implies in_detection(found, k, q) by {
        lemma_token_in_span(offsets, text, span, u);
        assert(r.start <= q < r.end);
    }
    k
}

/// The bytes of a token of a span lie within those of the span.
proof fn lemma_token_in_span(offsets: Seq<(usize, usize)>, text: Seq<char>, span: Range, t: int)
    requires
        overlap_laws::tokens_in_order(offsets, text),
        0 <= span.start <= t < span.end <= offsets.len(),
    ensures
        offsets[span.start].0 <= offsets[t].0,
        offsets[t].0 <= offsets[t].1,
        offsets[t].1 <= offsets[span.end - 1].1,
{
    let first = span.start;
    let last = span.end - 1;
    assert(text::piece(text, offsets[t].0 as int, offsets[t].1 as int) is Some);
    assert(text::piece(text, offsets[first].0 as int, offsets[first].1 as int) is Some);
    assert(text::piece(text, offsets[last].0 as int, offsets[last].1 as int) is Some);
    if first < t {
        assert(offsets[first].1 <= offsets[t].0);
    }
    if t < last {
        assert(offsets[t].1 <= offsets[last].0);
    }
}

/// No labelled byte is lost: where the tokens lie in the text in order, every byte of a
/// token with a boundary and a span label, other than a blank, lies in a detection with
/// that label, and no byte of a background token does.
pub proof fn law_every_labelled_byte_is_found(
    labels: Seq<usize>,
    offsets: Seq<(usize, usize)>,
    text: Seq<char>,
    info: LabelInfo,
    t: int,
    p: int,
)
    requires
        offsets.len() == labels.len(),
        overlap_laws::tokens_in_order(offsets, text),
        in_token(offsets, t, p),
        text::bytes_of(text)[p] != 32,
        text::bytes_of(text)[p] != 9,
        text::bytes_of(text)[p] != 10,
        text::bytes_of(text)[p] != 12,
        text::bytes_of(text)[p] != 13,
    ensures
        ({
            let found = spans::extracted(labels, offsets, text, info);
            let id = labels[t] as int;
            &&& info.boundary@[id] != Boundary::Background ==> match info.span_label@[id] {
                Some(name) => exists|k: int| #[trigger]
                    in_detection(found, k, p) && found[k].range.label == name@,
                None => true,
            }
            &&& info.boundary@[id] == Boundary::Background ==> forall|k: int|
                !#[trigger] in_detection(found, k, p)
        }),
{
    let runs = spans::runs(labels, info, labels.len() as int);
    let found = spans::extracted(labels, offsets, text, info);
    let id = labels[t] as int;
    law_labelled_tokens_lie_in_spans(labels, info, t);
    if info.boundary@[id] != Boundary::Background && info.span_label@[id] is Some {
        let s = choose|s: int| #[trigger] covers(runs, s, t);
        assert(covers(runs, s, t));
        let k = lemma_span_is_found(labels, offsets, text, info, s, t, p);
        assert(in_detection(found, k, p) && found[k].range.label == info.span_label@[id]->0@);
    }
    assert forall|k: int| #[trigger] in_detection(found, k, p) implies exists|s: int| #[trigger]
        covers(runs, s, t) by {
        let s = lemma_found_in_span(labels, offsets, text, info, k, t, p);
        assert(covers(runs, s, t));
    }
}

/// A byte of a token that a detection holds is one of a token of its span.
proof fn lemma_found_in_span(
    labels: Seq<usize>,
    offsets: Seq<(usize, usize)>,
    text: Seq<char>,
    info: LabelInfo,
    k: int,
    t: int,
    p: int,
) -> (s: int)
    requires
        offsets.len() == labels.len(),
        overlap_laws::tokens_in_order(offsets, text),
        in_token(offsets, t, p),
        in_detection(spans::extracted(labels, offsets, text, info), k, p),
    ensures
        ({
            let runs = spans::runs(labels, info, labels.len() as int);
            let found = spans::extracted(labels, offsets, text, info);
            &&& covers(runs, s, t)
            &&& runs[s].label == found[k].range.label
            &&& offsets[runs[s].start].0 <= found[k].range.start
            &&& found[k].range.end <= offsets[runs[s].end - 1].1
        }),
{
    let runs = spans::runs(labels, info, labels.len() as int);
    let found = spans::extracted(labels, offsets, text, info);
    let s = lemma_detection_has_span(labels, offsets, text, info, k);
    let span = runs[s];
    if t < span.start {
        assert(offsets[t].1 <= offsets[span.start].0);
    }
    if t >= span.end {
        assert(offsets[span.end - 1].1 <= offsets[t].0);
    }
    s
}

/// A detection comes from a token span.
proof fn lemma_detection_has_span(
    labels: Seq<usize>,
    offsets: Seq<(usize, usize)>,
    text: Seq<char>,
    info: LabelInfo,
    k: int,
) -> (s: int)
    requires
        offsets.len() == labels.len(),
        overlap_laws::tokens_in_order(offsets, text),
        0 <= k < spans::extracted(labels, offsets, text, info).len(),
    ensures
        ({
            let runs = spans::runs(labels, info, labels.len() as int);
            let d = spans::extracted(labels, offsets, text, info)[k];
            let bytes = text::bytes_of(text);
            &&& 0 <= s < runs.len()
            &&& 0 <= runs[s].start < runs[s].end <= labels.len()
            &&& runs[s].label == d.range.label
            &&& offsets[runs[s].start].0 <= d.range.start < d.range.end <= offsets[runs[s].end
                - 1].1
            &&& forall|p: int|
                offsets[runs[s].start].0 <= p < d.range.start ==> blank_byte(#[trigger] bytes[p])
            &&& forall|p: int|
                d.range.end <= p < offsets[runs[s].end - 1].1 ==> blank_byte(#[trigger] bytes[p])
            &&& !blank_byte(bytes[d.range.start])
            &&& !blank_byte(bytes[d.range.end - 1])
            &&& text::piece(text, d.range.start, d.range.end) == Some(d.text)
        }),
{
    let bytes = text::bytes_of(text);
    let runs = spans::runs(labels, info, labels.len() as int);
    let to_bytes = |span: Range| spans::byte_range(offsets, span);
    let trim = |span: Range| spans::trimmed(bytes, span);
    let raw = spans::raw_ranges(labels, offsets, info);
    let kept = raw.filter_map(trim);
    let found = spans::extracted(labels, offsets, text, info);
    overlap_laws::law_no_detection_is_lost(labels, offsets, text, info);
    span_laws::law_extracted(labels, offsets, text, info);
    assert(found[k].range == kept[k]);
    assert(kept.contains(kept[k]));
    raw.lemma_filter_map_contains(trim, kept[k]);
    let whole = choose|b: Range| #[trigger] raw.contains(b) && trim(b) == Some(kept[k]);
    runs.lemma_filter_map_contains(to_bytes, whole);
    let span = choose|a: Range| #[trigger] runs.contains(a) && to_bytes(a) == Some(whole);
    let s = runs.index_of(span);
    law_bytes_of_a_token_span(offsets, span);
    law_blanks_are_trimmed(bytes, whole);
    s
}

/// Where the tokens lie in the text in order, a detection is made of tokens that follow
/// each other: it starts and ends with the first and the last byte of theirs that is no
/// blank, it has the text that stands there, every one of them has a boundary, and those
/// that have a span label have the detection's.
pub proof fn law_detection_is_made_of_tokens(
    labels: Seq<usize>,
    offsets: Seq<(usize, usize)>,
    text: Seq<char>,
    info: LabelInfo,
    k: int,
)
    requires
        offsets.len() == labels.len(),
        overlap_laws::tokens_in_order(offsets, text),
        0 <= k < spans::extracted(labels, offsets, text, info).len(),
    ensures
        ({
            let d = spans::extracted(labels, offsets, text, info)[k];
            let bytes = text::bytes_of(text);
            &&& text::piece(text, d.range.start, d.range.end) == Some(d.text)
            &&& !blank_byte(bytes[d.range.start])
            &&& !blank_byte(bytes[d.range.end - 1])
            &&& exists|first: int, last: int|
                #![trigger offsets[first].0, offsets[last].1]
                {
                    &&& 0 <= first <= last < labels.len()
                    &&& offsets[first].0 <= d.range.start < d.range.end <= offsets[last].1
                    &&& forall|p: int|
                        offsets[first].0 <= p < d.range.start || d.range.end <= p < offsets[last].1
                            ==> blank_byte(#[trigger] bytes[p])
                    &&& forall|t: int|
                        first <= t <= last ==> info.boundary@[#[trigger] labels[t] as int]
                            != Boundary::Background && match info.span_label@[labels[t] as int] {
                            Some(name) => name@ == d.range.label,
                            None => true,
                        }
                }
        }),
{
    let runs = spans::runs(labels, info, labels.len() as int);
    let d = spans::extracted(labels, offsets, text, info)[k];
    let s = lemma_detection_has_span(labels, offsets, text, info, k);
    let first = runs[s].start;
    let last = runs[s].end - 1;
    assert forall|t: int| first <= t <= last implies info.boundary@[#[trigger] labels[t] as int]
        != Boundary::Background && match info.span_label@[labels[t] as int] {
        Some(name) => name@ == d.range.label,
        None => true,
    } by {
        law_labelled_tokens_lie_in_spans(labels, info, t);
        assert(covers(runs, s, t));
    }
    assert(offsets[first].0 <= d.range.start < d.range.end <= offsets[last].1);
}

/// Where the tokens lie in the text in order, bytes of two labelled tokens next to each
/// other, neither of them a blank, lie in one detection if and only if the first token
/// begins a span or goes on with one, the second goes on or ends, and both have the same
/// span label.
pub proof fn law_neighbours_in_one_detection(
    labels: Seq<usize>,
    offsets: Seq<(usize, usize)>,
    text: Seq<char>,
    info: LabelInfo,
    t: int,
    p: int,
    q: int,
)
    requires
        offsets.len() == labels.len(),
        overlap_laws::tokens_in_order(offsets, text),
        in_token(offsets, t, p),
        in_token(offsets, t + 1, q),
        !blank_byte(text::bytes_of(text)[p]),
        !blank_byte(text::bytes_of(text)[q]),
        info.boundary@[labels[t] as int] != Boundary::Background,
        info.boundary@[labels[t + 1] as int] != Boundary::Background,
        info.span_label@[labels[t] as int] is Some,
        info.span_label@[labels[t + 1] as int] is Some,
    ensures
        ({
            let found = spans::extracted(labels, offsets, text, info);
            let a = labels[t] as int;
            let b = labels[t + 1] as int;
            (exists|k: int| #[trigger] in_detection(found, k, p) && in_detection(found, k, q)) <==> {
                &&& info.boundary@[a] == Boundary::B || info.boundary@[a] == Boundary::I
                &&& info.boundary@[b] == Boundary::I || info.boundary@[b] == Boundary::E
                &&& info.span_label@[a]->0@ == info.span_label@[b]->0@
            }
        }),
{
    let runs = spans::runs(labels, info, labels.len() as int);
    let found = spans::extracted(labels, offsets, text, info);
    law_neighbours_in_one_span(labels, info, t);
    law_labelled_tokens_lie_in_spans(labels, info, t);
    if exists|s: int| #[trigger] covers(runs, s, t) && covers(runs, s, t + 1) {
        let s = choose|s: int| #[trigger] covers(runs, s, t) && covers(runs, s, t + 1);
        let k = lemma_span_is_found(labels, offsets, text, info, s, t, p);
        assert(in_token(offsets, t + 1, q));
        assert(in_detection(found, k, p) && in_detection(found, k, q));
    }
    if exists|k: int| #[trigger] in_detection(found, k, p) && in_detection(found, k, q) {
        let k = choose|k: int| #[trigger] in_detection(found, k, p) && in_detection(found, k, q);
        let s = lemma_found_in_span(labels, offsets, text, info, k, t, p);
        let r = lemma_detection_has_span(labels, offsets, text, info, k);
        let u = lemma_found_in_span(labels, offsets, text, info, k, t + 1, q);
        if s < u {
            assert(runs[s].end <= runs[u].start);
            assert(offsets[runs[s].end - 1].1 <= offsets[runs[u].start].0);
        }
        if u < s {
            assert(runs[u].end <= runs[s].start);
        }
        assert(covers(runs, s, t) && covers(runs, s, t + 1));
    }
}

/// The ranges of bytes that are left of byte ranges with one label: each is one of them
/// without the blanks at its ends, they come one behind the other, and one that is not
/// left shares a byte with one that is, and is not longer.
pub proof fn law_longest_range_of_one_label_is_left(
    raw: Seq<Range>,
    text: Seq<char>,
    label: Seq<char>,
    i: int,
)
    requires
        forall|j: int|
            0 <= j < raw.len() ==> (#[trigger] raw[j]).label == label && raw[j].start < raw[j].end,
        0 <= i < raw.len(),
    ensures
        ({
            let bytes = text::bytes_of(text);
            let left = spans::final_ranges(raw, text);
            &&& forall|j: int, k: int|
                0 <= j < k < left.len() ==> (#[trigger] left[j]).end <= (#[trigger] left[k]).start
            &&& spans::trimmed(bytes, raw[i]) matches Some(r) ==> left.contains(r) || exists|k: int|
                {
                    &&& 0 <= k < left.len()
                    &&& (#[trigger] left[k]).start < r.end && r.start < left[k].end
                    &&& left[k].end - left[k].start >= r.end - r.start
                }
        }),
{
    let bytes = text::bytes_of(text);
    let trim = |span: Range| spans::trimmed(bytes, span);
    let kept = raw.filter_map(trim);
    let unique = spans::deduped(kept);
    let left = spans::final_ranges(raw, text);
    assert forall|j: int| 0 <= j < kept.len() implies (#[trigger] kept[j]).start < kept[j].end
        && kept[j].label == label by {
        assert(kept.contains(kept[j]));
        raw.lemma_filter_map_contains(trim, kept[j]);
        let b = choose|b: Range| #[trigger] raw.contains(b) && trim(b) == Some(kept[j]);
        let m = raw.index_of(b);
        assert(raw[m].label == label);
        law_blanks_are_trimmed(bytes, b);
    }
    law_longest_of_a_label_is_kept(kept);
    assert forall|j: int| 0 <= j < unique.len() implies (#[trigger] unique[j]).start < unique[j].end
        && unique[j].label == label by {
        assert(kept.contains(unique[j]));
        let m = kept.index_of(unique[j]);
        assert(kept[m].label == label);
    }
    assert forall|j: int, k: int| 0 <= j < k < unique.len() implies (#[trigger] unique[j]).end <= (
    #[trigger] unique[k]).start by {
        assert(unique[j].label == unique[k].label);
    }
    overlap_laws::law_rows_stay(unique);
    assert(left == unique);
    if let Some(r) = trim(raw[i]) {
        assert(raw.contains(raw[i]));
        lemma_mapped_is_there(raw, trim, raw[i], r);
        let m = kept.index_of(r);
        assert(kept[m] == r);
        assert(unique.contains(kept[m]) || exists|k: int|
            0 <= k < unique.len() && (#[trigger] unique[k]).start < kept[m].end && kept[m].start
                < unique[k].end && unique[k].end - unique[k].start >= kept[m].end - kept[m].start);
    }
}

/// A detection is a range that is left, with the text that stands there; and each range
/// that is left becomes one, unless it cuts through a character.
pub proof fn law_ranges_become_detections(
    labels: Seq<usize>,
    offsets: Seq<(usize, usize)>,
    text: Seq<char>,
    info: LabelInfo,
    i: int,
)
    ensures
        ({
            let left = spans::final_ranges(spans::raw_ranges(labels, offsets, info), text);
            let found = spans::extracted(labels, offsets, text, info);
            &&& 0 <= i < found.len() ==> left.contains(found[i].range) && text::piece(
                text,
                found[i].range.start,
                found[i].range.end,
            ) == Some(found[i].text)
            &&& 0 <= i < left.len() ==> match text::piece(text, left[i].start, left[i].end) {
                Some(piece) => found.contains(Detection { range: left[i], text: piece }),
                None => forall|k: int|
                    0 <= k < found.len() ==> (#[trigger] found[k]).range != left[i],
            }
        }),
{
    let left = spans::final_ranges(spans::raw_ranges(labels, offsets, info), text);
    let found = spans::extracted(labels, offsets, text, info);
    let attach = |range: Range| spans::with_text(text, range);
    assert forall|k: int| 0 <= k < found.len() implies left.contains((#[trigger] found[k]).range)
        && text::piece(text, found[k].range.start, found[k].range.end) == Some(found[k].text) by {
        assert(found.contains(found[k]));
        left.lemma_filter_map_contains(attach, found[k]);
        let r = choose|r: Range| #[trigger] left.contains(r) && attach(r) == Some(found[k]);
        assert(found[k].range == r);
    }
    if 0 <= i < left.len() {
        if let Some(piece) = text::piece(text, left[i].start, left[i].end) {
            assert(left.contains(left[i]));
            lemma_mapped_is_there(left, attach, left[i], Detection { range: left[i], text: piece });
        }
    }
}

/// The byte ranges of labels are those of their token spans, of all that have one.
pub proof fn law_token_spans_become_ranges(
    labels: Seq<usize>,
    offsets: Seq<(usize, usize)>,
    info: LabelInfo,
    s: int,
)
    requires
        0 <= s < spans::runs(labels, info, labels.len() as int).len(),
    ensures
        ({
            let span = spans::runs(labels, info, labels.len() as int)[s];
            span.end <= offsets.len() && offsets[span.start].0 < offsets[span.end - 1].1
                ==> spans::raw_ranges(labels, offsets, info).contains(
                Range {
                    label: span.label,
                    start: offsets[span.start].0 as int,
                    end: offsets[span.end - 1].1 as int,
                },
            )
        }),
{
    let runs = spans::runs(labels, info, labels.len() as int);
    let span = runs[s];
    let to_bytes = |span: Range| spans::byte_range(offsets, span);
    spans::law_token_spans_are_greatest_runs(labels, info);
    assert(spans::is_run(labels, info, span));
    if span.end <= offsets.len() && offsets[span.start].0 < offsets[span.end - 1].1 {
        assert(runs.contains(span));
        let whole = Range {
            label: span.label,
            start: offsets[span.start].0 as int,
            end: offsets[span.end - 1].1 as int,
        };
        lemma_mapped_is_there(runs, to_bytes, span, whole);
    }
}

/// What is left of byte ranges, whatever their labels: ranges without the blanks at their
/// ends, one behind the other. One that is not left gives way to another with its label
/// that it shares a byte with and that is no shorter, or to one that is left, starts no
/// later and reaches past its start.
pub proof fn law_what_is_left_of_ranges(raw: Seq<Range>, text: Seq<char>, i: int)
    requires
        forall|j: int| 0 <= j < raw.len() ==> (#[trigger] raw[j]).start < raw[j].end,
    ensures
        ({
            let trim = |span: Range| spans::trimmed(text::bytes_of(text), span);
            let kept = raw.filter_map(trim);
            let left = spans::final_ranges(raw, text);
            &&& forall|j: int, k: int|
                0 <= j < k < left.len() ==> (#[trigger] left[j]).end <= (#[trigger] left[k]).start
            &&& forall|k: int| 0 <= k < left.len() ==> kept.contains(#[trigger] left[k])
            &&& 0 <= i < kept.len() ==> {
                ||| left.contains(kept[i])
                ||| exists|j: int|
                    {
                        &&& 0 <= j < kept.len()
                        &&& (#[trigger] kept[j]).label == kept[i].label && kept[j] != kept[i]
                        &&& kept[j].start < kept[i].end && kept[i].start < kept[j].end
                        &&& kept[j].end - kept[j].start >= kept[i].end - kept[i].start
                    }
                ||| exists|k: int|
                    0 <= k < left.len() && (#[trigger] left[k]).start <= kept[i].start < left[k].end
            }
        }),
{
    let bytes = text::bytes_of(text);
    let trim = |span: Range| spans::trimmed(bytes, span);
    let kept = raw.filter_map(trim);
    let unique = spans::deduped(kept);
    let left = spans::final_ranges(raw, text);
    assert forall|j: int| 0 <= j < kept.len() implies (#[trigger] kept[j]).start < kept[j].end by {
        assert(kept.contains(kept[j]));
        raw.lemma_filter_map_contains(trim, kept[j]);
        let b = choose|b: Range| #[trigger] raw.contains(b) && trim(b) == Some(kept[j]);
        let m = raw.index_of(b);
        assert(raw[m].start < raw[m].end);
        law_blanks_are_trimmed(bytes, b);
    }
    law_longest_of_a_label_is_kept(kept);
    assert forall|j: int| 0 <= j < unique.len() implies (#[trigger] unique[j]).start < unique[j].end by {
        assert(kept.contains(unique[j]));
        let m = kept.index_of(unique[j]);
        assert(kept[m].start < kept[m].end);
    }
    law_leftmost_is_kept(unique);
    assert(left == spans::selected(unique));
    assert forall|k: int| 0 <= k < left.len() implies kept.contains(#[trigger] left[k]) by {
        assert(unique.contains(left[k]));
        let m = unique.index_of(left[k]);
        assert(kept.contains(unique[m]));
    }
    if 0 <= i < kept.len() {
        if unique.contains(kept[i]) {
            let m = unique.index_of(kept[i]);
            assert(unique[m] == kept[i]);
            assert(left.contains(unique[m]) || exists|k: int|
                0 <= k < left.len() && (#[trigger] left[k]).start <= unique[m].start < left[k].end);
        } else {
            let k = choose|k: int|
                {
                    &&& 0 <= k < unique.len()
                    &&& (#[trigger] unique[k]).label == kept[i].label
                    &&& unique[k].start < kept[i].end && kept[i].start < unique[k].end
                    &&& unique[k].end - unique[k].start >= kept[i].end - kept[i].start
                };
            assert(kept.contains(unique[k]));
            let j = kept.index_of(unique[k]);
            assert(unique.contains(unique[k]));
            assert(kept[j] != kept[i]);
            assert(kept[j].label == kept[i].label);
        }
    }
}

} // verus!
