//! From per-token labels to labelled byte ranges of the text.

use vstd::prelude::*;

use crate::labels::{Boundary, LabelInfo};
use crate::sorting;
use crate::text;
use crate::viterbi;

verus! {

/// A range with a label: of tokens or of bytes, its end not included.
#[verifier::ext_equal]
pub struct Range {
    pub label: Seq<char>,
    pub start: int,
    pub end: int,
}

/// The range that a triple of label, start and end stands for.
pub open spec fn range_of(span: (String, usize, usize)) -> Range {
    Range { label: span.0@, start: span.1 as int, end: span.2 as int }
}

/// The ranges of a list of triples.
pub open spec fn ranges(spans: Seq<(String, usize, usize)>) -> Seq<Range> {
    sorting::modelled(spans, |span: (String, usize, usize)| range_of(span))
}

/// Every label id names a class of the label set.
pub open spec fn ids_in_range(labels: Seq<usize>, info: LabelInfo) -> bool {
    forall|t: int|
        0 <= t < labels.len() ==> #[trigger] labels[t] < info.boundary@.len() && labels[t]
            < info.span_label@.len()
}

/// The span label of a token; a background token has none.
pub open spec fn token_label(labels: Seq<usize>, info: LabelInfo, t: int) -> Option<Seq<char>> {
    if info.boundary@[labels[t] as int] == Boundary::Background {
        None
    } else {
        info.span_name(labels[t] as int)
    }
}

/// A token is passed over: it has a boundary, and no span label.
pub open spec fn passed_over(labels: Seq<usize>, info: LabelInfo, t: int) -> bool {
    info.boundary@[labels[t] as int] != Boundary::Background && info.span_name(labels[t] as int) is None
}

/// The span label of the span that the first `n` tokens leave open. A background token
/// closes what is open, and a token that is passed over leaves it as it is.
pub open spec fn open_label(labels: Seq<usize>, info: LabelInfo, n: int) -> Option<Seq<char>>
    decreases n,
{
    if n <= 0 {
        None
    } else if passed_over(labels, info, n - 1) {
        open_label(labels, info, n - 1)
    } else if viterbi::stays_open(info.boundary@[labels[n - 1] as int]) {
        token_label(labels, info, n - 1)
    } else {
        None
    }
}

/// A token goes on with the span that is open before it: it is passed over, or it bears
/// the span label and does not begin a span.
pub open spec fn joined(labels: Seq<usize>, info: LabelInfo, t: int) -> bool {
    &&& open_label(labels, info, t) is Some
    &&& passed_over(labels, info, t) || (token_label(labels, info, t) == open_label(
        labels,
        info,
        t,
    ) && viterbi::goes_on(info.boundary@[labels[t] as int]))
}

/// The runs of joined tokens among the first `n`. A token goes on with the run before
/// it; or it begins one, if it has a span label.
pub open spec fn runs(labels: Seq<usize>, info: LabelInfo, n: int) -> Seq<Range>
    decreases n,
{
    if n <= 0 {
        Seq::empty()
    } else {
        let before = runs(labels, info, n - 1);
        if joined(labels, info, n - 1) {
            before.drop_last().push(Range { end: n, ..before.last() })
        } else {
            match token_label(labels, info, n - 1) {
                None => before,
                Some(label) => before.push(Range { label, start: n - 1, end: n }),
            }
        }
    }
}

/// A greatest run of joined tokens.
pub open spec fn is_run(labels: Seq<usize>, info: LabelInfo, r: Range) -> bool {
    &&& 0 <= r.start < r.end <= labels.len()
    &&& token_label(labels, info, r.start) == Some(r.label)
    &&& forall|t: int|
        r.start <= t < r.end ==> #[trigger] token_label(labels, info, t) == Some(r.label)
            || passed_over(labels, info, t)
    &&& forall|t: int| r.start < t < r.end ==> #[trigger] joined(labels, info, t)
    &&& !joined(labels, info, r.start)
    &&& r.end < labels.len() ==> !joined(labels, info, r.end)
}

/// Ranges in order, none of which reaches into the next.
pub open spec fn in_order(ranges: Seq<Range>) -> bool {
    forall|i: int, j: int|
        0 <= i < j < ranges.len() ==> (#[trigger] ranges[i]).end <= (#[trigger] ranges[j]).start
}

/// What a prefix leaves open is what its tokens leave open in the whole.
proof fn lemma_prefix_leaves_open(labels: Seq<usize>, info: LabelInfo, n: int, k: int)
    requires
        0 <= k <= n <= labels.len(),
    ensures
        open_label(labels.take(n), info, k) == open_label(labels, info, k),
    decreases k,
{
    if k > 0 {
        lemma_prefix_leaves_open(labels, info, n, k - 1);
        assert(labels.take(n)[k - 1] == labels[k - 1]);
    }
}

/// What is said of the tokens of a prefix holds of them in the whole.
proof fn lemma_prefix_agrees(labels: Seq<usize>, info: LabelInfo, n: int)
    requires
        0 <= n <= labels.len(),
    ensures
        forall|t: int|
            0 <= t < n ==> #[trigger] token_label(labels.take(n), info, t) == token_label(
                labels,
                info,
                t,
            ),
        forall|t: int|
            0 <= t < n ==> #[trigger] passed_over(labels.take(n), info, t) == passed_over(
                labels,
                info,
                t,
            ),
        forall|t: int|
            0 <= t < n ==> #[trigger] joined(labels.take(n), info, t) == joined(labels, info, t),
{
    assert forall|t: int| 0 <= t < n implies #[trigger] joined(labels.take(n), info, t) == joined(
        labels,
        info,
        t,
    ) by {
        lemma_prefix_leaves_open(labels, info, n, t);
    }
}

/// A run of a prefix, in the prefix with one more token: it goes on with that token,
/// or stays as it is.
proof fn lemma_run_of_longer_prefix(labels: Seq<usize>, info: LabelInfo, n: int, run: Range)
    requires
        0 < n <= labels.len(),
        is_run(labels.take(n - 1), info, run),
        run.end == n - 1 && joined(labels, info, n - 1) ==> open_label(labels, info, n - 1) == Some(
            run.label,
        ),
    ensures
        run.end == n - 1 && joined(labels, info, n - 1) ==> is_run(
            labels.take(n),
            info,
            Range { end: n, ..run },
        ),
        !(run.end == n - 1 && joined(labels, info, n - 1)) ==> is_run(labels.take(n), info, run),
{
    let shorter = labels.take(n - 1);
    let longer = labels.take(n);
    lemma_prefix_agrees(labels, info, n - 1);
    lemma_prefix_agrees(labels, info, n);
    assert(token_label(shorter, info, run.start) == token_label(longer, info, run.start));
    assert forall|t: int| run.start <= t < run.end implies #[trigger] token_label(longer, info, t)
        == Some(run.label) || passed_over(longer, info, t) by {
        assert(token_label(shorter, info, t) == Some(run.label) || passed_over(shorter, info, t));
        assert(passed_over(shorter, info, t) == passed_over(longer, info, t));
    }
    assert forall|t: int| run.start < t < run.end implies #[trigger] joined(longer, info, t) by {
        assert(joined(shorter, info, t));
    }
    assert(!joined(shorter, info, run.start));
    assert(!joined(longer, info, run.start));
    if run.end < n - 1 {
        assert(!joined(shorter, info, run.end));
        assert(!joined(longer, info, run.end));
    } else if joined(labels, info, n - 1) {
        assert(joined(longer, info, n - 1));
        assert(token_label(longer, info, n - 1) == token_label(labels, info, n - 1));
        assert(passed_over(longer, info, n - 1) == passed_over(labels, info, n - 1));
    }
}

/// The runs of a prefix, of which the last may still grow.
proof fn lemma_runs_of_prefix(labels: Seq<usize>, info: LabelInfo, n: int)
    requires
        0 <= n <= labels.len(),
    ensures
        in_order(runs(labels, info, n)),
        forall|k: int|
            0 <= k < runs(labels, info, n).len() ==> is_run(
                labels.take(n),
                info,
                #[trigger] runs(labels, info, n)[k],
            ),
        forall|t: int|
            0 <= t < n && #[trigger] token_label(labels, info, t) is Some ==> exists|k: int|
                0 <= k < runs(labels, info, n).len() && (#[trigger] runs(labels, info, n)[k]).start
                    <= t < runs(labels, info, n)[k].end,
        n > 0 && token_label(labels, info, n - 1) is Some ==> runs(labels, info, n).len() > 0
            && runs(labels, info, n).last().end == n,
        open_label(labels, info, n) matches Some(label) ==> runs(labels, info, n).len() > 0 && runs(
            labels,
            info,
            n,
        ).last().end == n && runs(labels, info, n).last().label == label,
        forall|k: int|
            0 <= k < runs(labels, info, n).len() ==> 0 <= (#[trigger] runs(labels, info, n)[k]).start
                < runs(labels, info, n)[k].end <= n,
    decreases n,
{
    if n > 0 {
        lemma_runs_of_prefix(labels, info, n - 1);
        let before = runs(labels, info, n - 1);
        let now = runs(labels, info, n);
        assert forall|k: int| 0 <= k < now.len() implies is_run(
            labels.take(n),
            info,
            #[trigger] now[k],
        ) by {
            if k < before.len() {
                assert(is_run(labels.take(n - 1), info, before[k]));
                if k < before.len() - 1 {
                    assert(before[k].end <= before[before.len() - 1].start);
                }
                lemma_run_of_longer_prefix(labels, info, n, before[k]);
            } else {
                lemma_prefix_agrees(labels, info, n);
            }
        }
        assert forall|t: int|
            0 <= t < n && #[trigger] token_label(labels, info, t) is Some implies exists|k: int|
            0 <= k < now.len() && (#[trigger] now[k]).start <= t < now[k].end by {
            if t < n - 1 {
                let k = choose|k: int|
                    0 <= k < before.len() && (#[trigger] before[k]).start <= t < before[k].end;
                assert(now[k].start <= t < now[k].end);
            } else {
                let k = now.len() - 1;
                assert(now[k].start <= t < now[k].end);
            }
        }
    }
}

/// The token spans are the greatest runs of joined tokens: each is one, they
/// come in order, and every token that has a span label lies in one.
pub proof fn law_token_spans_are_greatest_runs(labels: Seq<usize>, info: LabelInfo)
    ensures
        ({
            let spans = runs(labels, info, labels.len() as int);
            &&& in_order(spans)
            &&& forall|k: int| 0 <= k < spans.len() ==> is_run(labels, info, #[trigger] spans[k])
            &&& forall|t: int|
                0 <= t < labels.len() && #[trigger] token_label(labels, info, t) is Some
                    ==> exists|k: int|
                    0 <= k < spans.len() && (#[trigger] spans[k]).start <= t < spans[k].end
        }),
{
    lemma_runs_of_prefix(labels, info, labels.len() as int);
    assert(labels.take(labels.len() as int) =~= labels);
}

/// Makes the last span end behind token `t`.
fn extend_last(spans: &mut Vec<(String, usize, usize)>, end: usize)
    requires
        old(spans)@.len() > 0,
    ensures
        ranges(final(spans)@) == ranges(old(spans)@).drop_last().push(
            Range { end: end as int, ..ranges(old(spans)@).last() },
        ),
{
    let ghost before = spans@;
    let last = spans.pop().unwrap();
    spans.push((last.0, last.1, end));
    assert(ranges(before).last() == range_of(before.last()));
    assert(ranges(spans@) =~= ranges(before).drop_last().push(
        Range { end: end as int, ..ranges(before).last() },
    ));
}

/// Turns per-token label ids into token spans: label, first token, and the token
/// behind the last. A malformed sequence is closed and opened as needed. A background
/// token closes what is open; a token that has a boundary but no span label is passed
/// over, and becomes part of the span that is open, if one is.
pub fn labels_to_token_spans(labels: &[usize], label_info: &LabelInfo) -> (spans: Vec<
    (String, usize, usize),
>)
    requires
        ids_in_range(labels@, *label_info),
    ensures
        ranges(spans@) == runs(labels@, *label_info, labels@.len() as int),
{
    let mut spans: Vec<(String, usize, usize)> = Vec::new();
    let mut open = false;
    let mut t: usize = 0;
    assert(ranges(spans@) =~= runs(labels@, *label_info, 0));
    while t < labels.len()
        invariant
            t <= labels@.len(),
            ids_in_range(labels@, *label_info),
            ranges(spans@) == runs(labels@, *label_info, t as int),
            open == (open_label(labels@, *label_info, t as int) is Some),
        decreases labels.len() - t,
    {
        let id: usize = labels[t];
        let boundary = label_info.boundary[id];
        let ghost before = spans@;
        proof {
            lemma_runs_of_prefix(labels@, *label_info, t as int);
            if open {
                assert(ranges(before).last() == range_of(before.last()));
            }
        }
        if matches!(boundary, Boundary::Background) {
            open = false;
        } else {
            match &label_info.span_label[id] {
                None => {
                    if open {
                        extend_last(&mut spans, t + 1);
                    }
                },
                Some(label) => {
                    let goes_on = matches!(boundary, Boundary::I | Boundary::E);
                    if open && goes_on && spans[spans.len() - 1].0 == *label {
                        extend_last(&mut spans, t + 1);
                    } else {
                        spans.push((label.clone(), t, t + 1));
                        assert(ranges(spans@) =~= ranges(before).push(
                            Range { label: label@, start: t as int, end: t + 1 },
                        ));
                    }
                    open = matches!(boundary, Boundary::B | Boundary::I);
                },
            }
        }
        t = t + 1;
    }
    spans
}

/// The byte range of a token span, given each token's first byte and the byte
/// behind its last. A span that reaches past the tokens, or holds no byte, has
/// none.
pub open spec fn byte_range(offsets: Seq<(usize, usize)>, span: Range) -> Option<Range> {
    if 0 <= span.start < span.end <= offsets.len() && offsets[span.start].0 < offsets[span.end
        - 1].1 {
        Some(
            Range {
                label: span.label,
                start: offsets[span.start].0 as int,
                end: offsets[span.end - 1].1 as int,
            },
        )
    } else {
        None
    }
}

/// Maps token spans to byte ranges of the text. `offsets[i]` holds the first
/// byte of token `i` and the byte behind its last.
pub fn token_spans_to_byte_spans(spans: &[(String, usize, usize)], offsets: &[(usize, usize)]) -> (out:
    Vec<(String, usize, usize)>)
    ensures
        ranges(out@) == ranges(spans@).filter_map(|span: Range| byte_range(offsets@, span)),
{
    let ghost f = |span: Range| byte_range(offsets@, span);
    let mut out: Vec<(String, usize, usize)> = Vec::with_capacity(spans.len());
    let mut i: usize = 0;
    assert(ranges(out@) =~= ranges(spans@.take(0)).filter_map(f));
    while i < spans.len()
        invariant
            i <= spans@.len(),
            f == (|span: Range| byte_range(offsets@, span)),
            ranges(out@) == ranges(spans@.take(i as int)).filter_map(f),
        decreases spans.len() - i,
    {
        let ts: usize = spans[i].1;
        let te: usize = spans[i].2;
        let ghost before = out@;
        proof {
            let now = ranges(spans@.take(i + 1));
            assert(now.drop_last() =~= ranges(spans@.take(i as int)));
            assert(now.last() == range_of(spans@[i as int]));
        }
        if ts < te && te <= offsets.len() {
            let bs: usize = offsets[ts].0;
            let be: usize = offsets[te - 1].1;
            if be > bs {
                out.push((spans[i].0.clone(), bs, be));
                assert(ranges(out@) =~= ranges(before).push(range_of(out@.last())));
            }
        }
        i = i + 1;
    }
    assert(spans@.take(spans@.len() as int) =~= spans@);
    out
}

/// ASCII whitespace: space, tab, line feed, form feed and carriage return.
pub open spec fn is_space(b: u8) -> bool {
    b == 0x20 || b == 0x09 || b == 0x0a || b == 0x0c || b == 0x0d
}

/// The first byte at or behind `start` that is not whitespace, or `end`.
pub open spec fn skip_spaces(bytes: Seq<u8>, start: int, end: int) -> int
    decreases end - start,
{
    if start < end && is_space(bytes[start]) {
        skip_spaces(bytes, start + 1, end)
    } else {
        start
    }
}

/// The byte behind the last one before `end` that is not whitespace, or `start`.
pub open spec fn drop_spaces(bytes: Seq<u8>, start: int, end: int) -> int
    decreases end - start,
{
    if start < end && is_space(bytes[end - 1]) {
        drop_spaces(bytes, start, end - 1)
    } else {
        end
    }
}

/// A range without the whitespace at its ends, if anything else is in it.
pub open spec fn trimmed(bytes: Seq<u8>, span: Range) -> Option<Range> {
    let start = skip_spaces(bytes, span.start, span.end);
    let end = drop_spaces(bytes, start, span.end);
    if start < end {
        Some(Range { label: span.label, start, end })
    } else {
        None
    }
}

/// Where the whitespace at a range's ends stops.
proof fn lemma_skip_spaces(bytes: Seq<u8>, start: int, end: int)
    ensures
        start <= skip_spaces(bytes, start, end),
        start <= end ==> skip_spaces(bytes, start, end) <= end,
        skip_spaces(bytes, start, end) < end ==> !is_space(bytes[skip_spaces(bytes, start, end)]),
        forall|k: int|
            start <= k < skip_spaces(bytes, start, end) ==> is_space(#[trigger] bytes[k]),
    decreases end - start,
{
    if start < end && is_space(bytes[start]) {
        lemma_skip_spaces(bytes, start + 1, end);
    }
}

proof fn lemma_drop_spaces(bytes: Seq<u8>, start: int, end: int)
    ensures
        drop_spaces(bytes, start, end) <= end,
        start <= end ==> start <= drop_spaces(bytes, start, end),
        start < drop_spaces(bytes, start, end) ==> !is_space(
            bytes[drop_spaces(bytes, start, end) - 1],
        ),
        forall|k: int| drop_spaces(bytes, start, end) <= k < end ==> is_space(#[trigger] bytes[k]),
    decreases end - start,
{
    if start < end && is_space(bytes[end - 1]) {
        lemma_drop_spaces(bytes, start, end - 1);
    }
}

/// Trimming takes away whitespace only, all of it at either end, and nothing but
/// ranges of whitespace disappear.
pub proof fn law_trimmed(bytes: Seq<u8>, span: Range)
    requires
        span.start <= span.end,
    ensures
        match trimmed(bytes, span) {
            Some(r) => {
                &&& r.label == span.label
                &&& span.start <= r.start < r.end <= span.end
                &&& !is_space(bytes[r.start])
                &&& !is_space(bytes[r.end - 1])
                &&& forall|k: int|
                    span.start <= k < r.start || r.end <= k < span.end ==> is_space(
                        #[trigger] bytes[k],
                    )
            },
            None => forall|k: int| span.start <= k < span.end ==> is_space(#[trigger] bytes[k]),
        },
{
    lemma_skip_spaces(bytes, span.start, span.end);
    let start = skip_spaces(bytes, span.start, span.end);
    lemma_drop_spaces(bytes, start, span.end);
}

/// Every range that holds a byte ends within `len` bytes.
pub open spec fn ends_within(spans: Seq<Range>, len: int) -> bool {
    forall|k: int|
        0 <= k < spans.len() && (#[trigger] spans[k]).start < spans[k].end ==> spans[k].end <= len
}

/// Decides whether a byte is ASCII whitespace.
fn space(b: u8) -> (r: bool)
    ensures
        r == is_space(b),
{
    matches!(b, 0x20 | 0x09 | 0x0a | 0x0c | 0x0d)
}

/// Trims ASCII whitespace off both ends of each span. Spans that hold nothing
/// else are dropped.
pub fn trim_whitespace(spans: &[(String, usize, usize)], text: &str) -> (out: Vec<
    (String, usize, usize),
>)
    requires
        ends_within(ranges(spans@), text::bytes_of(text@).len() as int),
    ensures
        ranges(out@) == ranges(spans@).filter_map(|span: Range| trimmed(text::bytes_of(text@), span)),
{
    let bytes = text.as_bytes();
    let ghost f = |span: Range| trimmed(bytes@, span);
    let mut out: Vec<(String, usize, usize)> = Vec::with_capacity(spans.len());
    let mut i: usize = 0;
    assert(ranges(out@) =~= ranges(spans@.take(0)).filter_map(f));
    while i < spans.len()
        invariant
            i <= spans@.len(),
            bytes@ == text::bytes_of(text@),
            f == (|span: Range| trimmed(bytes@, span)),
            ends_within(ranges(spans@), bytes@.len() as int),
            ranges(out@) == ranges(spans@.take(i as int)).filter_map(f),
        decreases spans.len() - i,
    {
        let ghost before = out@;
        let start: usize = spans[i].1;
        let end: usize = spans[i].2;
        proof {
            let now = ranges(spans@.take(i + 1));
            assert(now.drop_last() =~= ranges(spans@.take(i as int)));
            assert(now.last() == range_of(spans@[i as int]));
            assert(ranges(spans@)[i as int] == range_of(spans@[i as int]));
        }
        let mut s: usize = start;
        while s < end && space(bytes[s])
            invariant
                start <= s,
                start <= end ==> s <= end,
                start < end ==> end <= bytes@.len(),
                skip_spaces(bytes@, start as int, end as int) == skip_spaces(
                    bytes@,
                    s as int,
                    end as int,
                ),
            ensures
                s == skip_spaces(bytes@, start as int, end as int),
            decreases end - s,
        {
            s = s + 1;
        }
        let mut e: usize = end;
        while e > s && space(bytes[e - 1])
            invariant
                e <= end,
                start < end ==> end <= bytes@.len(),
                start <= s,
                drop_spaces(bytes@, s as int, end as int) == drop_spaces(
                    bytes@,
                    s as int,
                    e as int,
                ),
            ensures
                e == drop_spaces(bytes@, s as int, end as int),
            decreases e,
        {
            e = e - 1;
        }
        if e > s {
            out.push((spans[i].0.clone(), s, e));
            assert(ranges(out@) =~= ranges(before).push(range_of(out@.last())));
        }
        i = i + 1;
    }
    assert(spans@.take(spans@.len() as int) =~= spans@);
    out
}

/// Two ranges of which one starts inside the other.
pub open spec fn overlaps(a: Range, b: Range) -> bool {
    a.start <= b.start < a.end || b.start <= a.start < b.end
}

/// A range overlaps one of several.
pub open spec fn overlaps_any(kept: Seq<Range>, r: Range) -> bool {
    exists|k: int| 0 <= k < kept.len() && overlaps(#[trigger] kept[k], r)
}

/// The ranges that are kept when each, in turn, is kept unless it overlaps one
/// that was kept before.
pub open spec fn keep_disjoint(candidates: Seq<Range>) -> Seq<Range>
    decreases candidates.len(),
{
    if candidates.len() == 0 {
        candidates
    } else {
        let kept = keep_disjoint(candidates.drop_last());
        if overlaps_any(kept, candidates.last()) {
            kept
        } else {
            kept.push(candidates.last())
        }
    }
}

/// What is kept are candidates that do not overlap each other, and a candidate
/// that is not kept overlaps a kept one that came before it.
pub proof fn law_keep_disjoint(candidates: Seq<Range>)
    ensures
        ({
            let kept = keep_disjoint(candidates);
            &&& forall|i: int, j: int|
                0 <= i < j < kept.len() ==> !overlaps(#[trigger] kept[i], #[trigger] kept[j])
            &&& forall|i: int| 0 <= i < kept.len() ==> candidates.contains(#[trigger] kept[i])
            &&& forall|i: int|
                0 <= i < candidates.len() ==> kept.contains(#[trigger] candidates[i])
                    || overlaps_any(keep_disjoint(candidates.take(i)), candidates[i])
            &&& kept.len() <= candidates.len()
        }),
    decreases candidates.len(),
{
    if candidates.len() > 0 {
        let init = candidates.drop_last();
        law_keep_disjoint(init);
        let before = keep_disjoint(init);
        let kept = keep_disjoint(candidates);
        let last = candidates.last();
        assert forall|i: int| 0 <= i < kept.len() implies candidates.contains(#[trigger] kept[i]) by {
            if i < before.len() {
                assert(init.contains(before[i]));
                let k = init.index_of(before[i]);
                assert(candidates[k] == before[i]);
            } else {
                assert(candidates[candidates.len() - 1] == last);
            }
        }
        assert forall|i: int, j: int| 0 <= i < j < kept.len() implies !overlaps(
            #[trigger] kept[i],
            #[trigger] kept[j],
        ) by {
            if j == before.len() {
                assert(!overlaps(before[i], last));
            } else {
                assert(!overlaps(before[i], before[j]));
            }
        }
        assert forall|i: int| 0 <= i < candidates.len() implies kept.contains(
            #[trigger] candidates[i],
        ) || overlaps_any(keep_disjoint(candidates.take(i)), candidates[i]) by {
            if i < init.len() {
                assert(init[i] == candidates[i]);
                assert(init.take(i) =~= candidates.take(i));
                if before.contains(init[i]) {
                    let k = before.index_of(init[i]);
                    assert(kept[k] == init[i]);
                }
            } else {
                assert(candidates.take(i) =~= init);
                if !overlaps_any(before, last) {
                    assert(kept[kept.len() - 1] == last);
                }
            }
        }
    }
}

/// Longer ranges first, and of two equally long ones the one that starts first.
pub open spec fn longest_first(a: Range, b: Range) -> bool {
    ||| a.end - a.start > b.end - b.start
    ||| a.end - a.start == b.end - b.start && a.start < b.start
}

/// The order of starts.
pub open spec fn starts_first(a: Range, b: Range) -> bool {
    a.start < b.start
}

/// The labels that occur, in the order of their first occurrence.
pub open spec fn distinct_labels(spans: Seq<Range>) -> Seq<Seq<char>>
    decreases spans.len(),
{
    if spans.len() == 0 {
        Seq::empty()
    } else {
        let before = distinct_labels(spans.drop_last());
        if before.contains(spans.last().label) {
            before
        } else {
            before.push(spans.last().label)
        }
    }
}

/// The ranges with a label.
pub open spec fn with_label(spans: Seq<Range>, label: Seq<char>) -> Seq<Range> {
    spans.filter(|r: Range| r.label == label)
}

/// What is kept of the ranges with a label.
pub open spec fn kept_of_label(spans: Seq<Range>, label: Seq<char>) -> Seq<Range> {
    keep_disjoint(
        sorting::stable_sort(with_label(spans, label), |a: Range, b: Range| longest_first(a, b)),
    )
}

/// What is kept of the ranges with each of several labels, one label after the
/// other.
pub open spec fn kept_of_labels(spans: Seq<Range>, labels: Seq<Seq<char>>) -> Seq<Range>
    decreases labels.len(),
{
    if labels.len() == 0 {
        Seq::empty()
    } else {
        kept_of_labels(spans, labels.drop_last()) + kept_of_label(spans, labels.last())
    }
}

/// The ranges without those that overlap a longer one of the same label, by
/// their starts.
pub open spec fn deduped(spans: Seq<Range>) -> Seq<Range> {
    sorting::stable_sort(
        kept_of_labels(spans, distinct_labels(spans)),
        |a: Range, b: Range| starts_first(a, b),
    )
}

/// Decides whether one span is to be kept rather than another of its label.
fn longer(a: &(String, usize, usize), b: &(String, usize, usize)) -> (r: bool)
    ensures
        r == longest_first(range_of(*a), range_of(*b)),
{
    let x: u128 = a.2 as u128 + b.1 as u128;
    let y: u128 = b.2 as u128 + a.1 as u128;
    x > y || (x == y && a.1 < b.1)
}

/// Decides whether two spans overlap.
fn overlapping(a: &(String, usize, usize), b: &(String, usize, usize)) -> (r: bool)
    ensures
        r == overlaps(range_of(*a), range_of(*b)),
{
    (a.1 <= b.1 && b.1 < a.2) || (b.1 <= a.1 && a.1 < b.2)
}

/// Copies a span.
fn copy_span(a: &(String, usize, usize)) -> (r: (String, usize, usize))
    ensures
        range_of(r) == range_of(*a),
{
    (a.0.clone(), a.1, a.2)
}

/// Collects the spans with a label.
fn spans_with_label(spans: &Vec<(String, usize, usize)>, label: &String) -> (out: Vec<
    (String, usize, usize),
>)
    ensures
        ranges(out@) == with_label(ranges(spans@), label@),
{
    let ghost f = |r: Range| r.label == label@;
    let mut out: Vec<(String, usize, usize)> = Vec::new();
    let mut i: usize = 0;
    proof {
        reveal(Seq::filter);
        assert(ranges(out@) =~= ranges(spans@.take(0)).filter(f));
    }
    while i < spans.len()
        invariant
            i <= spans@.len(),
            f == (|r: Range| r.label == label@),
            ranges(out@) == ranges(spans@.take(i as int)).filter(f),
        decreases spans.len() - i,
    {
        let ghost before = out@;
        proof {
            reveal(Seq::filter);
            let now = ranges(spans@.take(i + 1));
            assert(now.drop_last() =~= ranges(spans@.take(i as int)));
            assert(now.last() == range_of(spans@[i as int]));
        }
        if spans[i].0 == *label {
            out.push(copy_span(&spans[i]));
            assert(ranges(out@) =~= ranges(before).push(range_of(spans@[i as int])));
        }
        i = i + 1;
    }
    assert(spans@.take(spans@.len() as int) =~= spans@);
    out
}

/// Collects the labels that occur, in the order of their first occurrence.
fn labels_in_order(spans: &Vec<(String, usize, usize)>) -> (labels: Vec<String>)
    ensures
        sorting::modelled(labels@, |s: String| s@) == distinct_labels(ranges(spans@)),
{
    let ghost view = |s: String| s@;
    let mut labels: Vec<String> = Vec::new();
    let mut i: usize = 0;
    assert(sorting::modelled(labels@, view) =~= distinct_labels(ranges(spans@.take(0))));
    while i < spans.len()
        invariant
            i <= spans@.len(),
            view == (|s: String| s@),
            sorting::modelled(labels@, view) == distinct_labels(ranges(spans@.take(i as int))),
        decreases spans.len() - i,
    {
        let ghost before = labels@;
        proof {
            let now = ranges(spans@.take(i + 1));
            assert(now.drop_last() =~= ranges(spans@.take(i as int)));
            assert(now.last() == range_of(spans@[i as int]));
        }
        let mut known = false;
        let mut k: usize = 0;
        while k < labels.len() && !known
            invariant
                i < spans@.len(),
                k <= labels@.len(),
                view == (|s: String| s@),
                labels@ == before,
                known ==> sorting::modelled(before, view).contains(spans@[i as int].0@),
                !known ==> forall|j: int|
                    0 <= j < k ==> (#[trigger] before[j])@ != spans@[i as int].0@,
            decreases labels.len() - k + (if known { 0int } else { 1int }),
        {
            if labels[k] == spans[i].0 {
                assert(sorting::modelled(before, view)[k as int] == spans@[i as int].0@);
                known = true;
            } else {
                k = k + 1;
            }
        }
        if !known {
            assert forall|j: int| 0 <= j < before.len() implies #[trigger] sorting::modelled(
                before,
                view,
            )[j] != spans@[i as int].0@ by {
                assert(before[j]@ != spans@[i as int].0@);
            }
            labels.push(spans[i].0.clone());
            assert(sorting::modelled(labels@, view) =~= sorting::modelled(before, view).push(
                spans@[i as int].0@,
            ));
        }
        i = i + 1;
    }
    assert(spans@.take(spans@.len() as int) =~= spans@);
    labels
}

/// Keeps each span that overlaps none that was kept before it.
fn greedy(candidates: Vec<(String, usize, usize)>) -> (kept: Vec<(String, usize, usize)>)
    ensures
        ranges(kept@) == keep_disjoint(ranges(candidates@)),
{
    let mut kept: Vec<(String, usize, usize)> = Vec::new();
    let ghost all = candidates@;
    assert(ranges(kept@) =~= keep_disjoint(ranges(all.take(0))));
    for candidate in it: candidates
        invariant
            it.seq() == all,
            ranges(kept@) == keep_disjoint(ranges(all.take(it.index() as int))),
    {
        let ghost seen = it.index() as int;
        let ghost before = kept@;
        proof {
            let now = ranges(all.take(seen + 1));
            assert(now.drop_last() =~= ranges(all.take(seen)));
            assert(now.last() == range_of(candidate));
        }
        let mut clear = true;
        let mut k: usize = 0;
        while k < kept.len() && clear
            invariant
                k <= kept@.len(),
                kept@ == before,
                clear ==> forall|j: int|
                    0 <= j < k ==> !overlaps(#[trigger] ranges(before)[j], range_of(candidate)),
                !clear ==> overlaps_any(ranges(before), range_of(candidate)),
            decreases kept.len() - k + (if clear { 1int } else { 0int }),
        {
            assert(ranges(before)[k as int] == range_of(before[k as int]));
            if overlapping(&kept[k], &candidate) {
                clear = false;
            } else {
                k = k + 1;
            }
        }
        if clear {
            kept.push(candidate);
            assert(ranges(kept@) =~= ranges(before).push(range_of(candidate)));
        }
    }
    assert(all.take(all.len() as int) =~= all);
    kept
}

/// Within each label, drops overlapping spans: the longest is kept, and of
/// equally long ones the earliest. The spans come out by their starts.
pub fn discard_overlapping_per_label(spans: Vec<(String, usize, usize)>) -> (kept: Vec<
    (String, usize, usize),
>)
    ensures
        ranges(kept@) == deduped(ranges(spans@)),
{
    let ghost view = |s: String| s@;
    let labels: Vec<String> = labels_in_order(&spans);
    let mut kept: Vec<(String, usize, usize)> = Vec::new();
    let mut i: usize = 0;
    let ghost names = sorting::modelled(labels@, view);
    assert(ranges(kept@) =~= kept_of_labels(ranges(spans@), names.take(0)));
    while i < labels.len()
        invariant
            i <= labels@.len(),
            view == (|s: String| s@),
            names == sorting::modelled(labels@, view),
            ranges(kept@) == kept_of_labels(ranges(spans@), names.take(i as int)),
        decreases labels.len() - i,
    {
        let bucket = spans_with_label(&spans, &labels[i]);
        let by_length = |a: &(String, usize, usize), b: &(String, usize, usize)| -> (r: bool)
            ensures
                r == longest_first(range_of(*a), range_of(*b)),
            { longer(a, b) };
        let sorted = sorting::sort_by::<_, Range, _>(
            bucket,
            by_length,
            Ghost(|span: (String, usize, usize)| range_of(span)),
            Ghost(|a: Range, b: Range| longest_first(a, b)),
        );
        let mut chosen = greedy(sorted);
        let ghost before = kept@;
        let ghost added = chosen@;
        kept.append(&mut chosen);
        proof {
            assert(ranges(kept@) =~= ranges(before) + ranges(added));
            let now = names.take(i + 1);
            assert(now.drop_last() =~= names.take(i as int));
            assert(now.last() == labels@[i as int]@);
        }
        i = i + 1;
    }
    assert(names.take(labels@.len() as int) =~= names);
    let by_start = |a: &(String, usize, usize), b: &(String, usize, usize)| -> (r: bool)
        ensures
            r == starts_first(range_of(*a), range_of(*b)),
        { a.1 < b.1 };
    sorting::sort_by::<_, Range, _>(
        kept,
        by_start,
        Ghost(|span: (String, usize, usize)| range_of(span)),
        Ghost(|a: Range, b: Range| starts_first(a, b)),
    )
}

/// From left to right; of ranges that start together the longer one first, and
/// of equal ranges the one whose label comes first in the alphabet.
pub open spec fn left_to_right(a: Range, b: Range) -> bool {
    ||| a.start < b.start
    ||| a.start == b.start && a.end > b.end
    ||| a.start == b.start && a.end == b.end && text::precedes(a.label, b.label)
}

/// The ranges that are kept from left to right, whatever their labels.
pub open spec fn selected(spans: Seq<Range>) -> Seq<Range> {
    keep_disjoint(sorting::stable_sort(spans, |a: Range, b: Range| left_to_right(a, b)))
}

/// The order from left to right is a strict one.
pub(crate) proof fn lemma_left_to_right_is_strict()
    ensures
        sorting::strict_order(|a: Range, b: Range| left_to_right(a, b)),
{
    let before = |a: Range, b: Range| left_to_right(a, b);
    assert forall|a: Range| !#[trigger] before(a, a) by {
        text::law_precedes_is_total_order(a.label, a.label, a.label);
    }
    assert forall|a: Range, b: Range, c: Range| #[trigger]
        before(a, b) && #[trigger] before(b, c) implies before(a, c) by {
        text::law_precedes_is_total_order(a.label, b.label, c.label);
    }
    assert forall|a: Range, b: Range, c: Range|
        #![trigger before(a, b), before(c, b)]
        #![trigger before(a, c), before(b, c)]
        #![trigger before(a, b), before(a, c)]
        before(a, b) implies before(a, c) || before(c, b) by {
        text::law_precedes_is_total_order(a.label, b.label, c.label);
        text::law_precedes_is_total_order(a.label, c.label, b.label);
        text::law_precedes_is_total_order(c.label, a.label, b.label);
        text::law_precedes_is_total_order(b.label, c.label, a.label);
    }
}

/// A kept range starts no later than a candidate that comes behind all others, and so
/// overlaps it just where it reaches past the candidate's start.
proof fn lemma_kept_before(candidates: Seq<Range>, next: Range, k: int)
    requires
        sorting::is_sorted(candidates.push(next), |a: Range, b: Range| left_to_right(a, b)),
        0 <= k < keep_disjoint(candidates).len(),
    ensures
        keep_disjoint(candidates)[k].start <= next.start,
        overlaps(keep_disjoint(candidates)[k], next) == (next.start < keep_disjoint(
            candidates,
        )[k].end),
{
    let before = |a: Range, b: Range| left_to_right(a, b);
    let all = candidates.push(next);
    let kept = keep_disjoint(candidates);
    law_keep_disjoint(candidates);
    assert(candidates.contains(kept[k]));
    let i = candidates.index_of(kept[k]);
    assert(all[i] == kept[k]);
    assert(all[candidates.len() as int] == next);
    assert(!before(all[candidates.len() as int], all[i]));
}

/// Candidates without the last are from left to right.
proof fn lemma_init_is_sorted(candidates: Seq<Range>, next: Range)
    requires
        candidates.len() > 0,
        sorting::is_sorted(candidates.push(next), |a: Range, b: Range| left_to_right(a, b)),
    ensures
        sorting::is_sorted(
            candidates.drop_last().push(candidates.last()),
            |a: Range, b: Range| left_to_right(a, b),
        ),
{
    let before = |a: Range, b: Range| left_to_right(a, b);
    let all = candidates.push(next);
    assert(candidates.drop_last().push(candidates.last()) =~= candidates);
    assert forall|i: int, j: int| 0 <= i < j < candidates.len() implies !before(
        #[trigger] candidates[j],
        #[trigger] candidates[i],
    ) by {
        assert(!before(all[j], all[i]));
    }
}

/// What is kept of candidates from left to right stays in order, and only the
/// last that was kept can stand in the way of the next candidate.
#[verifier::spinoff_prover]
proof fn lemma_keep_in_order(candidates: Seq<Range>, next: Range)
    requires
        sorting::is_sorted(candidates.push(next), |a: Range, b: Range| left_to_right(a, b)),
    ensures
        in_order(keep_disjoint(candidates)),
        overlaps_any(keep_disjoint(candidates), next) <==> keep_disjoint(candidates).len() > 0
            && next.start < keep_disjoint(candidates).last().end,
    decreases candidates.len(),
{
    let kept = keep_disjoint(candidates);
    if candidates.len() > 0 {
        let init = candidates.drop_last();
        let last = candidates.last();
        let earlier = keep_disjoint(init);
        lemma_init_is_sorted(candidates, next);
        lemma_keep_in_order(init, last);
        if !overlaps_any(earlier, last) {
            assert forall|i: int, j: int| 0 <= i < j < kept.len() implies (#[trigger] kept[i]).end
                <= (#[trigger] kept[j]).start by {
                assert(kept[i] == earlier[i]);
                if j < earlier.len() {
                    assert(kept[j] == earlier[j]);
                } else {
                    lemma_kept_before(init, last, i);
                    assert(!overlaps(earlier[i], last));
                }
            }
        }
    }
    lemma_last_stands_in_the_way(candidates, next);
}

/// Of kept ranges in order only the last can stand in the way of the next candidate.
proof fn lemma_last_stands_in_the_way(candidates: Seq<Range>, next: Range)
    requires
        sorting::is_sorted(candidates.push(next), |a: Range, b: Range| left_to_right(a, b)),
        in_order(keep_disjoint(candidates)),
    ensures
        overlaps_any(keep_disjoint(candidates), next) <==> keep_disjoint(candidates).len() > 0
            && next.start < keep_disjoint(candidates).last().end,
{
    let kept = keep_disjoint(candidates);
    if kept.len() > 0 {
        let top = kept.len() - 1;
        lemma_kept_before(candidates, next, top);
        if overlaps_any(kept, next) {
            let k = choose|k: int| 0 <= k < kept.len() && overlaps(#[trigger] kept[k], next);
            lemma_kept_before(candidates, next, k);
            if k < top {
                assert(kept[k].end <= kept[top].start);
            }
        } else {
            assert(!overlaps(kept[top], next));
        }
    }
}

/// The selection is made of the given ranges, in order and without overlap, and
/// a range that is left out overlaps a selected one.
pub proof fn law_selected(spans: Seq<Range>)
    ensures
        in_order(selected(spans)),
        forall|i: int| 0 <= i < selected(spans).len() ==> spans.contains(#[trigger] selected(spans)[i]),
        forall|i: int|
            0 <= i < spans.len() ==> selected(spans).contains(#[trigger] spans[i]) || overlaps_any(
                selected(spans),
                spans[i],
            ),
{
    let before = |a: Range, b: Range| left_to_right(a, b);
    let sorted = sorting::stable_sort(spans, before);
    let kept = selected(spans);
    lemma_left_to_right_is_strict();
    sorting::law_stable_sort(spans, before);
    law_keep_disjoint(sorted);
    if sorted.len() > 0 {
        let last = sorted.last();
        let far = Range { label: last.label, start: last.start + 1, end: last.end };
        let more = sorted.push(far);
        assert forall|i: int, j: int| 0 <= i < j < more.len() implies !before(
            #[trigger] more[j],
            #[trigger] more[i],
        ) by {
            if j < sorted.len() {
                assert(!before(sorted[j], sorted[i]));
            } else if i < sorted.len() - 1 {
                assert(!before(sorted[sorted.len() - 1], sorted[i]));
            }
        }
        lemma_keep_in_order(sorted, far);
    }
    broadcast use vstd::seq_lib::group_to_multiset_ensures;

    assert forall|i: int| 0 <= i < kept.len() implies spans.contains(#[trigger] kept[i]) by {
        assert(sorted.contains(kept[i]));
        assert(sorted.to_multiset().contains(kept[i]));
    }
    assert forall|i: int| 0 <= i < spans.len() implies kept.contains(#[trigger] spans[i])
        || overlaps_any(kept, spans[i]) by {
        assert(spans.contains(spans[i]));
        assert(sorted.to_multiset().contains(spans[i]));
        assert(sorted.contains(spans[i]));
        let k = sorted.index_of(spans[i]);
        if !kept.contains(sorted[k]) {
            lemma_keep_grows(sorted, k);
            let part = keep_disjoint(sorted.take(k));
            let m = choose|m: int| 0 <= m < part.len() && overlaps(#[trigger] part[m], sorted[k]);
            assert(kept[m] == part[m]);
        }
    }
}

/// What was kept stays kept as more candidates come.
pub proof fn lemma_keep_grows(candidates: Seq<Range>, n: int)
    requires
        0 <= n <= candidates.len(),
    ensures
        keep_disjoint(candidates.take(n)).len() <= keep_disjoint(candidates).len(),
        keep_disjoint(candidates.take(n)) == keep_disjoint(candidates).take(
            keep_disjoint(candidates.take(n)).len() as int,
        ),
    decreases candidates.len(),
{
    if n == candidates.len() {
        assert(candidates.take(n) =~= candidates);
        assert(keep_disjoint(candidates).take(keep_disjoint(candidates).len() as int)
            =~= keep_disjoint(candidates));
    } else {
        let init = candidates.drop_last();
        lemma_keep_grows(init, n);
        assert(init.take(n) =~= candidates.take(n));
        let part = keep_disjoint(candidates.take(n));
        assert(keep_disjoint(candidates).take(part.len() as int) =~= keep_disjoint(init).take(
            part.len() as int,
        ));
    }
}

/// Decides whether a span comes first from left to right.
fn further_left(a: &(String, usize, usize), b: &(String, usize, usize)) -> (r: bool)
    ensures
        r == left_to_right(range_of(*a), range_of(*b)),
{
    if a.1 != b.1 {
        a.1 < b.1
    } else if a.2 != b.2 {
        a.2 > b.2
    } else {
        text::comes_before(a.0.as_str(), b.0.as_str())
    }
}

/// Keeps spans that do not overlap, from left to right and across all labels. Of
/// spans that start together the longer one comes first, and of equal ones the
/// one whose label is first in the alphabet.
pub fn select_non_overlapping(spans: Vec<(String, usize, usize)>) -> (out: Vec<
    (String, usize, usize),
>)
    ensures
        ranges(out@) == selected(ranges(spans@)),
{
    let ghost given = ranges(spans@);
    let by_place = |a: &(String, usize, usize), b: &(String, usize, usize)| -> (r: bool)
        ensures
            r == left_to_right(range_of(*a), range_of(*b)),
        { further_left(a, b) };
    let sorted = sorting::sort_by::<_, Range, _>(
        spans,
        by_place,
        Ghost(|span: (String, usize, usize)| range_of(span)),
        Ghost(|a: Range, b: Range| left_to_right(a, b)),
    );
    let ghost all = sorted@;
    let ghost before = |a: Range, b: Range| left_to_right(a, b);
    proof {
        lemma_left_to_right_is_strict();
        sorting::law_stable_sort(given, before);
    }
    let mut out: Vec<(String, usize, usize)> = Vec::new();
    let mut last_end: usize = 0;
    assert(ranges(out@) =~= keep_disjoint(ranges(all.take(0))));
    for span in it: sorted
        invariant
            it.seq() == all,
            before == (|a: Range, b: Range| left_to_right(a, b)),
            sorting::is_sorted(ranges(all), before),
            ranges(out@) == keep_disjoint(ranges(all.take(it.index() as int))),
            out@.len() > 0 ==> last_end == out@.last().2,
    {
        let ghost seen = it.index() as int;
        let ghost had = out@;
        proof {
            let now = ranges(all.take(seen + 1));
            let init = ranges(all.take(seen));
            assert(now =~= init.push(range_of(span)));
            assert(now.drop_last() =~= init);
            assert forall|i: int, j: int| 0 <= i < j < now.len() implies !before(
                #[trigger] now[j],
                #[trigger] now[i],
            ) by {
                assert(now[j] == ranges(all)[j]);
                assert(now[i] == ranges(all)[i]);
            }
            lemma_keep_in_order(init, range_of(span));
            if had.len() > 0 {
                assert(ranges(had).last() == range_of(had.last()));
            }
        }
        if out.len() == 0 || span.1 >= last_end {
            last_end = span.2;
            out.push(span);
            assert(ranges(out@) =~= ranges(had).push(range_of(span)));
        }
    }
    assert(all.take(all.len() as int) =~= all);
    out
}

/// A detected span: its label, its bytes in the text, and the text there.
#[derive(Debug, Clone)]
pub struct DetectedSpan {
    pub label: String,
    pub byte_start: usize,
    pub byte_end: usize,
    pub text: String,
}

/// What a detected span stands for.
#[verifier::ext_equal]
pub struct Detection {
    pub range: Range,
    pub text: Seq<char>,
}

impl View for DetectedSpan {
    type V = Detection;

    open spec fn view(&self) -> Detection {
        Detection {
            range: Range {
                label: self.label@,
                start: self.byte_start as int,
                end: self.byte_end as int,
            },
            text: self.text@,
        }
    }
}

/// What detected spans stand for.
pub open spec fn detections(spans: Seq<DetectedSpan>) -> Seq<Detection> {
    spans.map_values(|span: DetectedSpan| span@)
}

/// A byte range with the text it covers, if it falls between characters.
pub open spec fn with_text(text: Seq<char>, range: Range) -> Option<Detection> {
    match text::piece(text, range.start, range.end) {
        Some(piece) => Some(Detection { range, text: piece }),
        None => None,
    }
}

/// The byte ranges of a label sequence, before they are trimmed.
pub open spec fn raw_ranges(
    labels: Seq<usize>,
    offsets: Seq<(usize, usize)>,
    info: LabelInfo,
) -> Seq<Range> {
    runs(labels, info, labels.len() as int).filter_map(|span: Range| byte_range(offsets, span))
}

/// The byte ranges of a label sequence, trimmed and without overlap.
pub open spec fn final_ranges(raw: Seq<Range>, text: Seq<char>) -> Seq<Range> {
    selected(deduped(raw.filter_map(|span: Range| trimmed(text::bytes_of(text), span))))
}

/// The detections of a label sequence.
pub open spec fn extracted(
    labels: Seq<usize>,
    offsets: Seq<(usize, usize)>,
    text: Seq<char>,
    info: LabelInfo,
) -> Seq<Detection> {
    final_ranges(raw_ranges(labels, offsets, info), text).filter_map(|range: Range| with_text(text, range))
}

/// Adds to each span the text it covers, and drops spans that cut through a
/// character.
fn attach_text(spans: Vec<(String, usize, usize)>, text: &str) -> (out: Vec<DetectedSpan>)
    ensures
        detections(out@) == ranges(spans@).filter_map(|range: Range| with_text(text@, range)),
{
    let ghost f = |range: Range| with_text(text@, range);
    let ghost all = spans@;
    let mut out: Vec<DetectedSpan> = Vec::new();
    assert(detections(out@) =~= ranges(all.take(0)).filter_map(f));
    for span in it: spans
        invariant
            it.seq() == all,
            f == (|range: Range| with_text(text@, range)),
            detections(out@) == ranges(all.take(it.index() as int)).filter_map(f),
    {
        let ghost seen = it.index() as int;
        let ghost before = out@;
        proof {
            let now = ranges(all.take(seen + 1));
            assert(now.drop_last() =~= ranges(all.take(seen)));
            assert(now.last() == range_of(span));
        }
        if let Some(snippet) = text::slice(text, span.1, span.2) {
            let found = DetectedSpan {
                label: span.0,
                byte_start: span.1,
                byte_end: span.2,
                text: snippet.to_owned(),
            };
            assert(found@ == Detection { range: range_of(span), text: snippet@ });
            out.push(found);
            assert(detections(out@) =~= detections(before).push(out@.last()@));
        }
    }
    assert(all.take(all.len() as int) =~= all);
    out
}

/// Builds the final list of detected spans from byte spans.
fn finish_spans(byte_spans: Vec<(String, usize, usize)>, text: &str) -> (out: Vec<DetectedSpan>)
    requires
        ends_within(ranges(byte_spans@), text::bytes_of(text@).len() as int),
    ensures
        detections(out@) == final_ranges(ranges(byte_spans@), text@).filter_map(|range: Range| with_text(text@, range)),
{
    let trimmed_spans = trim_whitespace(&byte_spans, text);
    let distinct = discard_overlapping_per_label(trimmed_spans);
    let chosen = select_non_overlapping(distinct);
    attach_text(chosen, text)
}

/// Builds the final list of detected spans from per-token label ids, the bytes
/// of each token, and the text.
pub fn extract_spans(
    labels: &[usize],
    offsets: &[(usize, usize)],
    text: &str,
    label_info: &LabelInfo,
) -> (out: Vec<DetectedSpan>)
    requires
        ids_in_range(labels@, *label_info),
        ends_within(
            raw_ranges(labels@, offsets@, *label_info),
            text::bytes_of(text@).len() as int,
        ),
    ensures
        detections(out@) == extracted(labels@, offsets@, text@, *label_info),
{
    let token_spans = labels_to_token_spans(labels, label_info);
    let byte_spans = token_spans_to_byte_spans(&token_spans, offsets);
    finish_spans(byte_spans, text)
}

/// Decides whether every span that holds a byte ends within `len` bytes.
fn all_within(spans: &Vec<(String, usize, usize)>, len: usize) -> (r: bool)
    ensures
        r == ends_within(ranges(spans@), len as int),
{
    let mut i: usize = 0;
    while i < spans.len()
        invariant
            i <= spans@.len(),
            forall|k: int|
                0 <= k < i && (#[trigger] ranges(spans@)[k]).start < ranges(spans@)[k].end
                    ==> ranges(spans@)[k].end <= len,
        decreases spans.len() - i,
    {
        assert(ranges(spans@)[i as int] == range_of(spans@[i as int]));
        if spans[i].1 < spans[i].2 && spans[i].2 > len {
            return false;
        }
        i = i + 1;
    }
    true
}

/// Builds the final list of detected spans, unless one of them would reach past
/// the text.
pub fn try_extract_spans(
    labels: &[usize],
    offsets: &[(usize, usize)],
    text: &str,
    label_info: &LabelInfo,
) -> (out: Option<Vec<DetectedSpan>>)
    requires
        ids_in_range(labels@, *label_info),
    ensures
        out is Some <==> ends_within(
            raw_ranges(labels@, offsets@, *label_info),
            text::bytes_of(text@).len() as int,
        ),
        out matches Some(spans) ==> detections(spans@) == extracted(
            labels@,
            offsets@,
            text@,
            *label_info,
        ),
{
    let token_spans = labels_to_token_spans(labels, label_info);
    let byte_spans = token_spans_to_byte_spans(&token_spans, offsets);
    let len: usize = text.as_bytes().len();
    if !all_within(&byte_spans, len) {
        return None;
    }
    Some(finish_spans(byte_spans, text))
}

} // verus!
