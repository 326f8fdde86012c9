//! Replacing detected spans by placeholders.

use vstd::prelude::*;
use vstd::string::*;

use crate::sorting;
use crate::spans::DetectedSpan;
use crate::spans::Detection;
use crate::text;

verus! {

/// The uppercase form of a text.
pub uninterp spec fn uppercase_of(s: Seq<char>) -> Seq<char>;

/// `str::to_uppercase` gives the Unicode uppercase form of a text, which depends
/// on the text alone.
#[verifier::external_body]
fn to_uppercase(s: &str) -> (r: String)
    ensures
        r@ == uppercase_of(s@),
{
    s.to_uppercase()
}

/// An ASCII letter or digit.
pub open spec fn is_alphanumeric(c: char) -> bool {
    ('a' <= c && c <= 'z') || ('A' <= c && c <= 'Z') || ('0' <= c && c <= '9')
}

/// A text in which every stretch of characters other than ASCII letters and
/// digits is one underscore.
pub open spec fn squeezed(s: Seq<char>) -> Seq<char>
    decreases s.len(),
{
    if s.len() == 0 {
        s
    } else {
        let before = squeezed(s.drop_last());
        if is_alphanumeric(s.last()) {
            before.push(s.last())
        } else if before.len() > 0 && before.last() == '_' {
            before
        } else {
            before.push('_')
        }
    }
}

/// The placeholder of a label whose uppercase form is given: squeezed, without
/// an underscore at its end, between angle brackets.
pub open spec fn placeholder_of(upper: Seq<char>) -> Seq<char> {
    let s = squeezed(upper);
    let name = if s.len() > 0 && s.last() == '_' {
        s.drop_last()
    } else {
        s
    };
    seq!['<'] + name + seq!['>']
}

/// Builds the placeholder of a label from its uppercase form.
pub fn placeholder_from_uppercase(upper: &str) -> (r: String)
    ensures
        r@ == placeholder_of(upper@),
{
    let chars = text::chars_of(upper);
    let mut name: Vec<char> = Vec::new();
    let mut i: usize = 0;
    assert(upper@.take(0) =~= Seq::<char>::empty());
    while i < chars.len()
        invariant
            i <= chars@.len(),
            chars@ == upper@,
            name@ == squeezed(upper@.take(i as int)),
        decreases chars.len() - i,
    {
        let c: char = chars[i];
        assert(upper@.take(i + 1).drop_last() =~= upper@.take(i as int));
        if ('a' <= c && c <= 'z') || ('A' <= c && c <= 'Z') || ('0' <= c && c <= '9') {
            name.push(c);
        } else if name.len() == 0 || name[name.len() - 1] != '_' {
            name.push('_');
        }
        i = i + 1;
    }
    assert(upper@.take(upper@.len() as int) =~= upper@);
    if name.len() > 0 && name[name.len() - 1] == '_' {
        name.pop();
    }
    let mut r = String::new();
    r.push('<');
    let inner = text::text_of_chars(&name, 0, name.len());
    r.append(inner.as_str());
    r.push('>');
    assert(r@ =~= placeholder_of(upper@));
    r
}

/// Builds the placeholder of a label.
pub fn placeholder_for(label: &str) -> (r: String)
    ensures
        r@ == placeholder_of(uppercase_of(label@)),
{
    let upper = to_uppercase(label);
    placeholder_from_uppercase(upper.as_str())
}

/// What stands in for a stretch of bytes.
#[verifier::ext_equal]
pub struct Replacement {
    pub start: int,
    pub end: int,
    pub with: Seq<char>,
}

/// The replacement that a triple of start, end and text stands for.
pub open spec fn replacement_of(mark: (usize, usize, String)) -> Replacement {
    Replacement { start: mark.0 as int, end: mark.1 as int, with: mark.2@ }
}

/// The replacements of a list of triples.
pub open spec fn replacements(marks: Seq<(usize, usize, String)>) -> Seq<Replacement> {
    sorting::modelled(marks, |mark: (usize, usize, String)| replacement_of(mark))
}

/// The order of starts.
pub open spec fn starts_before(a: Replacement, b: Replacement) -> bool {
    a.start < b.start
}

/// Replacements by their starts.
pub open spec fn by_start(marks: Seq<Replacement>) -> Seq<Replacement> {
    sorting::stable_sort(marks, |a: Replacement, b: Replacement| starts_before(a, b))
}

/// The byte up to which a text is dealt with after `k` replacements: as far as
/// the one that reaches furthest.
pub open spec fn cursor_after(sorted: Seq<Replacement>, k: int) -> int
    decreases k,
{
    if k <= 0 {
        0
    } else if sorted[k - 1].end > cursor_after(sorted, k - 1) {
        sorted[k - 1].end
    } else {
        cursor_after(sorted, k - 1)
    }
}

/// The text between two byte offsets, if there is any and it falls between
/// characters.
pub open spec fn gap(text: Seq<char>, start: int, end: int) -> Seq<char> {
    if start < end && text::piece(text, start, end) is Some {
        text::piece(text, start, end)->0
    } else {
        Seq::empty()
    }
}

/// The text up to the end of the first `k` replacements.
pub open spec fn replaced_to(text: Seq<char>, sorted: Seq<Replacement>, k: int) -> Seq<char>
    decreases k,
{
    if k <= 0 {
        Seq::empty()
    } else {
        replaced_to(text, sorted, k - 1) + gap(
            text,
            cursor_after(sorted, k - 1),
            sorted[k - 1].start,
        ) + sorted[k - 1].with
    }
}

/// The text with every replacement made, by their starts.
pub open spec fn replaced(text: Seq<char>, marks: Seq<Replacement>) -> Seq<char> {
    let sorted = by_start(marks);
    let n = sorted.len() as int;
    replaced_to(text, sorted, n) + gap(
        text,
        cursor_after(sorted, n),
        text::bytes_of(text).len() as int,
    )
}

/// No text is looked for past the end: a replacement that starts behind what is
/// dealt with starts within the text.
pub open spec fn starts_within(text: Seq<char>, marks: Seq<Replacement>) -> bool {
    let sorted = by_start(marks);
    forall|k: int|
        0 <= k < sorted.len() && (#[trigger] sorted[k]).start > cursor_after(sorted, k)
            ==> sorted[k].start <= text::bytes_of(text).len()
}

/// Appends the text between two byte offsets.
fn append_gap(out: &mut String, text: &str, start: usize, end: usize)
    ensures
        final(out)@ == old(out)@ + gap(text@, start as int, end as int),
{
    if start < end {
        if let Some(between) = text::slice(text, start, end) {
            out.append(between);
        }
    }
    assert(out@ =~= old(out)@ + gap(text@, start as int, end as int));
}

/// Makes replacements in a text: each triple holds the first byte, the byte
/// behind the last, and what stands in for them.
pub fn replace_ranges(text: &str, marks: Vec<(usize, usize, String)>) -> (out: String)
    ensures
        out@ == replaced(text@, replacements(marks@)),
{
    let earlier = |a: &(usize, usize, String), b: &(usize, usize, String)| -> (r: bool)
        ensures
            r == starts_before(replacement_of(*a), replacement_of(*b)),
        { a.0 < b.0 };
    let sorted = sorting::sort_by::<_, Replacement, _>(
        marks,
        earlier,
        Ghost(|mark: (usize, usize, String)| replacement_of(mark)),
        Ghost(|a: Replacement, b: Replacement| starts_before(a, b)),
    );
    let ghost order = replacements(sorted@);
    let mut out = String::new();
    let mut cursor: usize = 0;
    let mut i: usize = 0;
    while i < sorted.len()
        invariant
            i <= sorted@.len(),
            order == replacements(sorted@),
            cursor == cursor_after(order, i as int),
            out@ == replaced_to(text@, order, i as int),
        decreases sorted.len() - i,
    {
        assert(order[i as int] == replacement_of(sorted@[i as int]));
        append_gap(&mut out, text, cursor, sorted[i].0);
        out.append(sorted[i].2.as_str());
        if sorted[i].1 > cursor {
            cursor = sorted[i].1;
        }
        i = i + 1;
    }
    let len: usize = text.as_bytes().len();
    append_gap(&mut out, text, cursor, len);
    out
}

/// The replacement of a detection by the placeholder of its label.
pub open spec fn masked(d: Detection) -> Replacement {
    Replacement {
        start: d.range.start,
        end: d.range.end,
        with: placeholder_of(uppercase_of(d.range.label)),
    }
}

/// The replacements of detections.
pub open spec fn all_masked(spans: Seq<DetectedSpan>) -> Seq<Replacement> {
    crate::spans::detections(spans).map_values(|d: Detection| masked(d))
}

/// The bytes of a detection.
pub open spec fn blank(d: Detection) -> Replacement {
    Replacement { start: d.range.start, end: d.range.end, with: Seq::empty() }
}

/// Replaces the bytes of each span by the placeholder of its label.
pub fn redact(text: &str, spans: &[DetectedSpan]) -> (out: String)
    requires
        starts_within(
            text@,
            crate::spans::detections(spans@).map_values(|d: Detection| blank(d)),
        ),
    ensures
        out@ == replaced(text@, all_masked(spans@)),
{
    let mut marks: Vec<(usize, usize, String)> = Vec::with_capacity(spans.len());
    let mut i: usize = 0;
    while i < spans.len()
        invariant
            i <= spans@.len(),
            marks@.len() == i,
            forall|k: int|
                0 <= k < i ==> replacement_of(#[trigger] marks@[k]) == masked(spans@[k]@),
        decreases spans.len() - i,
    {
        let placeholder = placeholder_for(spans[i].label.as_str());
        marks.push((spans[i].byte_start, spans[i].byte_end, placeholder));
        i = i + 1;
    }
    assert(replacements(marks@) =~= all_masked(spans@));
    replace_ranges(text, marks)
}

/// Without spans the text stays as it is.
pub proof fn law_nothing_to_redact(text: Seq<char>)
    ensures
        starts_within(text, Seq::empty()),
        replaced(text, Seq::empty()) == text,
{
    let none = Seq::<Replacement>::empty();
    let sorted = by_start(none);
    assert(sorted =~= none);
    text::law_whole_piece(text);
    let len = text::bytes_of(text).len() as int;
    assert(replaced_to(text, sorted, 0) =~= Seq::empty());
    if len == 0 {
        assert(vstd::utf8::decode_utf8(text::bytes_of(text).subrange(0, 0)) =~= Seq::empty());
    }
    assert(replaced(text, none) =~= text);
}

/// Replacements in order, none reaching into the next, each from one place
/// between characters to another.
pub open spec fn fits(text: Seq<char>, marks: Seq<Replacement>) -> bool {
    &&& forall|i: int, j: int|
        0 <= i < j < marks.len() ==> (#[trigger] marks[i]).end <= (#[trigger] marks[j]).start
    &&& forall|i: int|
        0 <= i < marks.len() ==> text::piece(text, (#[trigger] marks[i]).start, marks[i].end) is Some
}

/// Replacements that fit are taken as they come.
proof fn lemma_fitting_marks(text: Seq<char>, marks: Seq<Replacement>)
    requires
        fits(text, marks),
    ensures
        by_start(marks) == marks,
        starts_within(text, marks),
{
    let before = |a: Replacement, b: Replacement| starts_before(a, b);
    assert forall|i: int, j: int| 0 <= i < j < marks.len() implies !before(
        #[trigger] marks[j],
        #[trigger] marks[i],
    ) by {
        assert(marks[i].end <= marks[j].start);
        assert(text::piece(text, marks[i].start, marks[i].end) is Some);
    }
    sorting::law_sorted_stays(marks, before);
    assert forall|k: int|
        0 <= k < marks.len() && (#[trigger] marks[k]).start > cursor_after(marks, k) implies marks[k].start
        <= text::bytes_of(text).len() by {
        assert(text::piece(text, marks[k].start, marks[k].end) is Some);
    }
}

/// Replacements that fit end further and further on.
proof fn lemma_fitting_cursor(text: Seq<char>, marks: Seq<Replacement>, k: int)
    requires
        fits(text, marks),
        0 < k <= marks.len(),
    ensures
        cursor_after(marks, k) == marks[k - 1].end,
    decreases k,
{
    assert(text::piece(text, marks[k - 1].start, marks[k - 1].end) is Some);
    if k > 1 {
        lemma_fitting_cursor(text, marks, k - 1);
        assert(marks[k - 2].end <= marks[k - 1].start);
    } else {
        assert(cursor_after(marks, 0) == 0);
    }
}

/// The text in front of a replacement that fits is there.
proof fn lemma_gap_is_piece(text: Seq<char>, marks: Seq<Replacement>, k: int)
    requires
        fits(text, marks),
        0 <= k <= marks.len(),
    ensures
        ({
            let start = cursor_after(marks, k);
            let end = if k < marks.len() {
                marks[k].start
            } else {
                text::bytes_of(text).len() as int
            };
            &&& start <= end
            &&& text::piece(text, start, end) == Some(gap(text, start, end))
            &&& text::piece(text, 0, start) is Some
        }),
{
    let start = cursor_after(marks, k);
    let bytes = text::bytes_of(text);
    let end = if k < marks.len() {
        marks[k].start
    } else {
        bytes.len() as int
    };
    vstd::utf8::encode_utf8_valid_utf8(text);
    vstd::utf8::is_char_boundary_start_end_of_seq(bytes);
    if k > 0 {
        lemma_fitting_cursor(text, marks, k);
        assert(text::piece(text, marks[k - 1].start, marks[k - 1].end) is Some);
        if k < marks.len() {
            assert(marks[k - 1].end <= marks[k].start);
        }
    }
    if k < marks.len() {
        assert(text::piece(text, marks[k].start, marks[k].end) is Some);
    }
    if start == end {
        assert(bytes.subrange(start, end) =~= Seq::empty());
        assert(vstd::utf8::decode_utf8(bytes.subrange(start, end)) =~= Seq::empty());
    }
}

/// The byte at which the text that is copied behind `k` replacements ends.
pub open spec fn gap_end(text: Seq<char>, sorted: Seq<Replacement>, k: int) -> int {
    if 0 <= k < sorted.len() {
        sorted[k].start
    } else {
        text::bytes_of(text).len() as int
    }
}

/// A byte lies in what a replacement takes out.
pub open spec fn taken_out(marks: Seq<Replacement>, p: int) -> bool {
    exists|i: int| 0 <= i < marks.len() && (#[trigger] marks[i]).start <= p < marks[i].end
}

/// What is dealt with reaches at least as far as each replacement so far, and
/// no further than one of them.
proof fn lemma_cursor(sorted: Seq<Replacement>, k: int)
    requires
        0 <= k <= sorted.len(),
    ensures
        0 <= cursor_after(sorted, k),
        forall|i: int| 0 <= i < k ==> (#[trigger] sorted[i]).end <= cursor_after(sorted, k),
        cursor_after(sorted, k) == 0 || exists|i: int|
            0 <= i < k && (#[trigger] sorted[i]).end == cursor_after(sorted, k),
    decreases k,
{
    if k > 0 {
        lemma_cursor(sorted, k - 1);
        assert(sorted[k - 1].end <= cursor_after(sorted, k));
        if cursor_after(sorted, k - 1) != 0 && cursor_after(sorted, k) == cursor_after(
            sorted,
            k - 1,
        ) {
            let i = choose|i: int|
                0 <= i < k - 1 && (#[trigger] sorted[i]).end == cursor_after(sorted, k - 1);
            assert(sorted[i].end == cursor_after(sorted, k));
        }
    }
}

/// Replacements by their starts are the same replacements.
proof fn lemma_by_start(marks: Seq<Replacement>)
    ensures
        by_start(marks).len() == marks.len(),
        forall|i: int, j: int|
            0 <= i < j < marks.len() ==> (#[trigger] by_start(marks)[i]).start <= (
            #[trigger] by_start(marks)[j]).start,
        forall|m: Replacement| by_start(marks).contains(m) <==> marks.contains(m),
{
    broadcast use vstd::seq_lib::group_to_multiset_ensures;

    let before = |a: Replacement, b: Replacement| starts_before(a, b);
    let sorted = by_start(marks);
    sorting::law_stable_sort(marks, before);
    assert(sorted.to_multiset().len() == marks.to_multiset().len());
    assert forall|i: int, j: int| 0 <= i < j < marks.len() implies (#[trigger] sorted[i]).start <= (
    #[trigger] sorted[j]).start by {
        assert(!before(sorted[j], sorted[i]));
    }
    assert forall|m: Replacement| sorted.contains(m) <==> marks.contains(m) by {
        assert(sorted.contains(m) <==> sorted.to_multiset().count(m) > 0);
        assert(marks.contains(m) <==> marks.to_multiset().count(m) > 0);
    }
}

/// No byte of a replaced stretch stays in the text, whether replacements lie apart,
/// overlap or lie one inside another: the text that is copied behind any number of them
/// ends in front of each stretch, or begins behind it.
pub proof fn law_no_replaced_byte_is_copied(
    text: Seq<char>,
    marks: Seq<Replacement>,
    k: int,
    i: int,
)
    requires
        0 <= k <= marks.len(),
        0 <= i < marks.len(),
    ensures
        gap_end(text, by_start(marks), k) <= marks[i].start || marks[i].end <= cursor_after(
            by_start(marks),
            k,
        ),
{
    let sorted = by_start(marks);
    lemma_by_start(marks);
    lemma_cursor(sorted, k);
    assert(marks.contains(marks[i]));
    assert(sorted.contains(marks[i]));
    let j = choose|j: int| 0 <= j < sorted.len() && #[trigger] sorted[j] == marks[i];
    if j > k {
        assert(sorted[k].start <= sorted[j].start);
    }
}

/// The copied stretches come in the order of the text, and where every
/// replacement goes from one place between characters to another each of them is
/// a piece of the text.
pub proof fn law_copied_text_is_in_order(text: Seq<char>, marks: Seq<Replacement>, k: int, l: int)
    requires
        forall|i: int|
            0 <= i < marks.len() ==> text::piece(text, (#[trigger] marks[i]).start, marks[i].end) is Some,
        0 <= k <= l <= marks.len(),
    ensures
        k < l ==> gap_end(text, by_start(marks), k) <= cursor_after(by_start(marks), l),
        cursor_after(by_start(marks), k) < gap_end(text, by_start(marks), k) ==> text::piece(
            text,
            cursor_after(by_start(marks), k),
            gap_end(text, by_start(marks), k),
        ) == Some(
            gap(text, cursor_after(by_start(marks), k), gap_end(text, by_start(marks), k)),
        ),
{
    let sorted = by_start(marks);
    let bytes = text::bytes_of(text);
    lemma_by_start(marks);
    lemma_cursor(sorted, k);
    lemma_cursor(sorted, l);
    assert forall|j: int| 0 <= j < sorted.len() implies text::piece(
        text,
        (#[trigger] sorted[j]).start,
        sorted[j].end,
    ) is Some by {
        assert(sorted.contains(sorted[j]) && marks.contains(sorted[j]));
        let i = choose|i: int| 0 <= i < marks.len() && #[trigger] marks[i] == sorted[j];
        assert(text::piece(text, marks[i].start, marks[i].end) is Some);
    }
    vstd::utf8::encode_utf8_valid_utf8(text);
    vstd::utf8::is_char_boundary_start_end_of_seq(bytes);
    if k < l {
        assert(text::piece(text, sorted[k].start, sorted[k].end) is Some);
        assert(sorted[k].end <= cursor_after(sorted, l));
    }
}

/// The bytes of a text, up to the `n`-th, that no replacement takes out.
pub open spec fn untouched(text: Seq<char>, marks: Seq<Replacement>, n: int) -> Seq<u8>
    decreases n,
{
    if n <= 0 {
        Seq::empty()
    } else if taken_out(marks, n - 1) {
        untouched(text, marks, n - 1)
    } else {
        untouched(text, marks, n - 1).push(text::bytes_of(text)[n - 1])
    }
}

/// Bytes that are all taken out.
proof fn lemma_nothing_untouched(text: Seq<char>, marks: Seq<Replacement>, a: int, b: int)
    requires
        0 <= a <= b,
        forall|p: int| a <= p < b ==> #[trigger] taken_out(marks, p),
    ensures
        untouched(text, marks, b) == untouched(text, marks, a),
    decreases b - a,
{
    if a < b {
        assert(taken_out(marks, b - 1));
        lemma_nothing_untouched(text, marks, a, b - 1);
    }
}

/// Bytes of which none is taken out.
proof fn lemma_all_untouched(text: Seq<char>, marks: Seq<Replacement>, a: int, b: int)
    requires
        0 <= a <= b <= text::bytes_of(text).len(),
        forall|p: int| a <= p < b ==> !#[trigger] taken_out(marks, p),
    ensures
        untouched(text, marks, b) == untouched(text, marks, a) + text::bytes_of(text).subrange(a, b),
    decreases b - a,
{
    let bytes = text::bytes_of(text);
    if a < b {
        assert(!taken_out(marks, b - 1));
        lemma_all_untouched(text, marks, a, b - 1);
        assert(bytes.subrange(a, b) =~= bytes.subrange(a, b - 1).push(bytes[b - 1]));
        assert(untouched(text, marks, b) =~= untouched(text, marks, a) + bytes.subrange(a, b));
    } else {
        assert(bytes.subrange(a, b) =~= Seq::<u8>::empty());
        assert(untouched(text, marks, a) + Seq::<u8>::empty() =~= untouched(text, marks, a));
    }
}

/// The text that is copied behind `k` replacements.
proof fn lemma_copied_bytes(text: Seq<char>, marks: Seq<Replacement>, k: int)
    requires
        forall|i: int|
            0 <= i < marks.len() ==> text::piece(text, (#[trigger] marks[i]).start, marks[i].end) is Some,
        0 <= k <= marks.len(),
    ensures
        ({
            let start = cursor_after(by_start(marks), k);
            let end = gap_end(text, by_start(marks), k);
            &&& 0 <= start
            &&& end <= text::bytes_of(text).len()
            &&& untouched(text, marks, if start < end {
                end
            } else {
                start
            }) == untouched(text, marks, start) + text::bytes_of(gap(text, start, end))
        }),
{
    let sorted = by_start(marks);
    let start = cursor_after(sorted, k);
    let end = gap_end(text, sorted, k);
    lemma_by_start(marks);
    lemma_cursor(sorted, k);
    law_copied_text_is_in_order(text, marks, k, k);
    if k < sorted.len() {
        assert(sorted.contains(sorted[k]) && marks.contains(sorted[k]));
        let i = choose|i: int| 0 <= i < marks.len() && #[trigger] marks[i] == sorted[k];
        assert(text::piece(text, marks[i].start, marks[i].end) is Some);
    }
    if start < end {
        assert forall|p: int| start <= p < end implies !#[trigger] taken_out(marks, p) by {
            if taken_out(marks, p) {
                let i = choose|i: int|
                    0 <= i < marks.len() && (#[trigger] marks[i]).start <= p < marks[i].end;
                law_no_replaced_byte_is_copied(text, marks, k, i);
            }
        }
        lemma_all_untouched(text, marks, start, end);
        text::law_bytes_of_piece(text, start, end);
    } else {
        assert(untouched(text, marks, start) + Seq::<u8>::empty() =~= untouched(
            text,
            marks,
            start,
        ));
    }
}

/// The text up to the end of `k` replacements by nothing.
proof fn lemma_untouched_to(text: Seq<char>, marks: Seq<Replacement>, k: int)
    requires
        forall|i: int|
            0 <= i < marks.len() ==> text::piece(text, (#[trigger] marks[i]).start, marks[i].end) is Some,
        forall|i: int| 0 <= i < marks.len() ==> (#[trigger] marks[i]).with.len() == 0,
        0 <= k <= marks.len(),
    ensures
        text::bytes_of(replaced_to(text, by_start(marks), k)) == untouched(
            text,
            marks,
            cursor_after(by_start(marks), k),
        ),
    decreases k,
{
    let sorted = by_start(marks);
    lemma_by_start(marks);
    if k > 0 {
        lemma_untouched_to(text, marks, k - 1);
        lemma_copied_bytes(text, marks, k - 1);
        let start = cursor_after(sorted, k - 1);
        let m = sorted[k - 1];
        let had = replaced_to(text, sorted, k - 1);
        let between = gap(text, start, m.start);
        assert(sorted.contains(m) && marks.contains(m));
        let i = choose|i: int| 0 <= i < marks.len() && #[trigger] marks[i] == m;
        assert(marks[i].with.len() == 0);
        assert(text::piece(text, marks[i].start, marks[i].end) is Some);
        assert(replaced_to(text, sorted, k) =~= had + between);
        text::law_bytes_join(had, between);
        let reached = if start < m.start {
            m.start
        } else {
            start
        };
        let cursor = cursor_after(sorted, k);
        assert forall|p: int| reached <= p < cursor implies #[trigger] taken_out(marks, p) by {
            assert(marks[i].start <= p < marks[i].end);
        }
        assert(reached <= cursor);
        lemma_nothing_untouched(text, marks, reached, cursor);
    }
}

/// Replacements of the same stretches by nothing.
pub open spec fn emptied(marks: Seq<Replacement>) -> Seq<Replacement> {
    marks.map_values(|m: Replacement| Replacement { with: Seq::empty(), ..m })
}

/// What stands in for stretches does not decide which bytes they take out.
proof fn lemma_same_untouched(text: Seq<char>, marks: Seq<Replacement>, n: int)
    ensures
        untouched(text, emptied(marks), n) == untouched(text, marks, n),
    decreases n,
{
    if n > 0 {
        lemma_same_untouched(text, marks, n - 1);
        if taken_out(marks, n - 1) {
            let i = choose|i: int|
                0 <= i < marks.len() && (#[trigger] marks[i]).start <= n - 1 < marks[i].end;
            assert(emptied(marks)[i].start <= n - 1 < emptied(marks)[i].end);
        }
        if taken_out(emptied(marks), n - 1) {
            let i = choose|i: int|
                0 <= i < marks.len() && (#[trigger] emptied(marks)[i]).start <= n - 1
                    < emptied(marks)[i].end;
            assert(marks[i].start <= n - 1 < marks[i].end);
        }
    }
}

/// What is left of a text when stretches are replaced by nothing, whether they lie
/// apart, overlap or lie one inside another: exactly the bytes that lie in none of
/// them, in order.
pub proof fn law_redaction_leaves_exactly_the_rest(text: Seq<char>, marks: Seq<Replacement>)
    requires
        forall|i: int|
            0 <= i < marks.len() ==> text::piece(text, (#[trigger] marks[i]).start, marks[i].end) is Some,
    ensures
        text::bytes_of(replaced(text, emptied(marks))) == untouched(
            text,
            marks,
            text::bytes_of(text).len() as int,
        ),
{
    let blanks = emptied(marks);
    let sorted = by_start(blanks);
    let n = blanks.len() as int;
    let len = text::bytes_of(text).len() as int;
    let cursor = cursor_after(sorted, n);
    assert forall|i: int| 0 <= i < blanks.len() implies text::piece(
        text,
        (#[trigger] blanks[i]).start,
        blanks[i].end,
    ) is Some by {
        assert(text::piece(text, marks[i].start, marks[i].end) is Some);
    }
    lemma_by_start(blanks);
    lemma_cursor(sorted, n);
    lemma_untouched_to(text, blanks, n);
    lemma_copied_bytes(text, blanks, n);
    text::law_bytes_join(replaced_to(text, sorted, n), gap(text, cursor, len));
    assert(cursor <= len) by {
        if cursor != 0 {
            let j = choose|j: int| 0 <= j < n && (#[trigger] sorted[j]).end == cursor;
            assert(sorted.contains(sorted[j]) && blanks.contains(sorted[j]));
            let i = choose|i: int| 0 <= i < blanks.len() && #[trigger] blanks[i] == sorted[j];
            assert(text::piece(text, blanks[i].start, blanks[i].end) is Some);
        }
    }
    lemma_same_untouched(text, marks, len);
}

/// What stands in for a stretch changes nothing of the text around it. The text with
/// replacements is the text with the stretches replaced by nothing, but for what stands
/// in for each of them, behind what is copied in front of it.
pub proof fn law_placeholders_stand_between(text: Seq<char>, marks: Seq<Replacement>, k: int)
    requires
        0 <= k <= marks.len(),
    ensures
        by_start(emptied(marks)) == emptied(by_start(marks)),
        k < marks.len() ==> replaced_to(text, by_start(marks), k + 1) == replaced_to(
            text,
            by_start(marks),
            k,
        ) + gap(text, cursor_after(by_start(emptied(marks)), k), by_start(emptied(marks))[k].start)
            + by_start(marks)[k].with,
        k == marks.len() ==> replaced(text, marks) == replaced_to(text, by_start(marks), k) + gap(
            text,
            cursor_after(by_start(emptied(marks)), k),
            text::bytes_of(text).len() as int,
        ),
{
    let empty = |m: Replacement| Replacement { with: Seq::empty(), ..m };
    let before = |a: Replacement, b: Replacement| starts_before(a, b);
    lemma_by_start(marks);
    sorting::law_sort_of_mapped(marks, empty, before);
    lemma_same_cursor(by_start(marks), k);
}

/// What stands in for stretches does not decide how far they reach.
proof fn lemma_same_cursor(sorted: Seq<Replacement>, k: int)
    requires
        0 <= k <= sorted.len(),
    ensures
        cursor_after(emptied(sorted), k) == cursor_after(sorted, k),
    decreases k,
{
    if k > 0 {
        lemma_same_cursor(sorted, k - 1);
    }
}

/// Redaction leaves everything else alone: the text before, between and behind
/// replacements that fit is all there, up to the last character.
pub proof fn law_redaction_keeps_the_rest(text: Seq<char>, marks: Seq<Replacement>, k: int)
    requires
        fits(text, marks),
        0 <= k <= marks.len(),
    ensures
        starts_within(text, marks),
        by_start(marks) == marks,
        ({
            let start = cursor_after(marks, k);
            let end = if k < marks.len() {
                marks[k].start
            } else {
                text::bytes_of(text).len() as int
            };
            text::piece(text, start, end) == Some(gap(text, start, end))
        }),
{
    lemma_fitting_marks(text, marks);
    lemma_gap_is_piece(text, marks, k);
}

/// The text up to the end of a replacement by what was there before.
proof fn lemma_replaced_by_itself(text: Seq<char>, marks: Seq<Replacement>, k: int)
    requires
        fits(text, marks),
        forall|i: int|
            0 <= i < marks.len() ==> text::piece(text, (#[trigger] marks[i]).start, marks[i].end)
                == Some(marks[i].with),
        0 <= k <= marks.len(),
    ensures
        text::piece(text, 0, cursor_after(marks, k)) == Some(replaced_to(text, marks, k)),
    decreases k,
{
    lemma_gap_is_piece(text, marks, k);
    if k > 0 {
        let m = marks[k - 1];
        lemma_replaced_by_itself(text, marks, k - 1);
        lemma_gap_is_piece(text, marks, k - 1);
        lemma_fitting_cursor(text, marks, k);
        let cursor = cursor_after(marks, k - 1);
        assert(text::piece(text, m.start, m.end) == Some(m.with));
        text::law_pieces_join(text, 0, cursor, m.start);
        text::law_pieces_join(text, 0, m.start, m.end);
        assert(replaced_to(text, marks, k) =~= replaced_to(text, marks, k - 1) + gap(
            text,
            cursor,
            m.start,
        ) + m.with);
    } else {
        assert(text::bytes_of(text).subrange(0, 0) =~= Seq::empty());
        assert(vstd::utf8::decode_utf8(text::bytes_of(text).subrange(0, 0)) =~= Seq::empty());
    }
}

/// Putting back what a replacement took away gives the text again.
pub proof fn law_replacing_by_itself_changes_nothing(text: Seq<char>, marks: Seq<Replacement>)
    requires
        fits(text, marks),
        forall|i: int|
            0 <= i < marks.len() ==> text::piece(text, (#[trigger] marks[i]).start, marks[i].end)
                == Some(marks[i].with),
    ensures
        replaced(text, marks) == text,
{
    let n = marks.len() as int;
    lemma_fitting_marks(text, marks);
    lemma_replaced_by_itself(text, marks, n);
    lemma_gap_is_piece(text, marks, n);
    text::law_pieces_join(text, 0, cursor_after(marks, n), text::bytes_of(text).len() as int);
    text::law_whole_piece(text);
}

/// The spans that are extracted from a text fit it, so redacting them takes out
/// their bytes and nothing else.
pub proof fn law_extracted_spans_fit(
    labels: Seq<usize>,
    offsets: Seq<(usize, usize)>,
    text: Seq<char>,
    info: crate::labels::LabelInfo,
)
    ensures
        fits(
            text,
            crate::spans::extracted(labels, offsets, text, info).map_values(
                |d: Detection| masked(d),
            ),
        ),
{
    let found = crate::spans::extracted(labels, offsets, text, info);
    let marks = found.map_values(|d: Detection| masked(d));
    crate::span_laws::law_extracted(labels, offsets, text, info);
    assert forall|i: int, j: int| 0 <= i < j < marks.len() implies (#[trigger] marks[i]).end <= (
    #[trigger] marks[j]).start by {
        assert(found[i].range.end <= found[j].range.start);
    }
    assert forall|i: int| 0 <= i < marks.len() implies text::piece(
        text,
        (#[trigger] marks[i]).start,
        marks[i].end,
    ) is Some by {
        assert(text::piece(text, found[i].range.start, found[i].range.end) == Some(found[i].text));
    }
}

/// The spans that are extracted from a text can be redacted in it.
pub proof fn law_extracted_spans_start_within(
    labels: Seq<usize>,
    offsets: Seq<(usize, usize)>,
    text: Seq<char>,
    info: crate::labels::LabelInfo,
)
    ensures
        starts_within(
            text,
            crate::spans::extracted(labels, offsets, text, info).map_values(
                |d: Detection| blank(d),
            ),
        ),
{
    let found = crate::spans::extracted(labels, offsets, text, info);
    let marks = found.map_values(|d: Detection| blank(d));
    let before = |a: Replacement, b: Replacement| starts_before(a, b);
    crate::span_laws::law_extracted(labels, offsets, text, info);
    assert forall|i: int, j: int| 0 <= i < j < marks.len() implies !before(
        #[trigger] marks[j],
        #[trigger] marks[i],
    ) by {
        assert(found[i].range.end <= found[j].range.start);
    }
    sorting::law_sorted_stays(marks, before);
    assert forall|k: int| 0 <= k < marks.len() implies (#[trigger] marks[k]).start
        <= text::bytes_of(text).len() by {
        assert(found[k].range.end <= text::bytes_of(text).len());
    }
}

/// A placeholder holds ASCII letters, digits and underscores between its
/// brackets, no two underscores in a row, and none at the end.
pub proof fn law_placeholder(upper: Seq<char>)
    ensures
        ({
            let p = placeholder_of(upper);
            &&& p.len() >= 2
            &&& p[0] == '<'
            &&& p.last() == '>'
            &&& p[p.len() - 2] != '_'
            &&& forall|i: int|
                0 < i < p.len() - 1 ==> is_alphanumeric(#[trigger] p[i]) || p[i] == '_'
            &&& forall|i: int|
                0 < i < p.len() - 1 ==> !(#[trigger] p[i] == '_' && p[i - 1] == '_')
        }),
{
    lemma_squeezed(upper);
    let s = squeezed(upper);
    let p = placeholder_of(upper);
    assert forall|i: int| 0 < i < p.len() - 1 implies p[i] == #[trigger] s[i - 1] by {}
    assert forall|i: int| 0 < i < p.len() - 1 implies is_alphanumeric(#[trigger] p[i]) || p[i]
        == '_' by {
        assert(p[i] == s[i - 1]);
    }
    assert forall|i: int| 0 < i < p.len() - 1 implies !(#[trigger] p[i] == '_' && p[i - 1] == '_') by {
        assert(p[i] == s[i - 1]);
        if i > 1 {
            assert(p[i - 1] == s[i - 2]);
        }
    }
    if p.len() > 2 {
        assert(p[p.len() - 2] == s[p.len() - 3]);
        if s.last() == '_' && s.len() >= 2 {
            assert(!(s[s.len() - 1] == '_' && s[s.len() - 2] == '_'));
        }
    }
}

proof fn lemma_squeezed(s: Seq<char>)
    ensures
        forall|i: int|
            0 <= i < squeezed(s).len() ==> is_alphanumeric(#[trigger] squeezed(s)[i]) || squeezed(
                s,
            )[i] == '_',
        forall|i: int|
            0 < i < squeezed(s).len() ==> !(#[trigger] squeezed(s)[i] == '_' && squeezed(s)[i - 1]
                == '_'),
    decreases s.len(),
{
    if s.len() > 0 {
        lemma_squeezed(s.drop_last());
        let before = squeezed(s.drop_last());
        let now = squeezed(s);
        assert forall|i: int| 0 <= i < now.len() implies is_alphanumeric(#[trigger] now[i])
            || now[i] == '_' by {
            if i < before.len() {
                assert(now[i] == before[i]);
            }
        }
        assert forall|i: int| 0 < i < now.len() implies !(#[trigger] now[i] == '_' && now[i - 1]
            == '_') by {
            assert(now[i - 1] == before[i - 1]);
            if i < before.len() {
                assert(now[i] == before[i]);
            }
        }
    }
}

} // verus!
