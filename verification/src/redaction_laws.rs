//! What redacted text looks like: the text between the spans, and a name in angle brackets
//! for each of them.

use vstd::prelude::*;

use crate::redaction;
use crate::redaction::Replacement;
use crate::sorting;
use crate::spans::DetectedSpan;
use crate::text;

verus! {

/// Texts with others in between: the first, a fill, the next, and so on to the last.
pub open spec fn woven(gaps: Seq<Seq<char>>, fills: Seq<Seq<char>>) -> Seq<char>
    decreases fills.len(),
{
    if fills.len() == 0 {
        gaps[0]
    } else {
        woven(gaps.drop_last(), fills.drop_last()) + fills.last() + gaps.last()
    }
}

/// The text up to and with gap `k`.
pub open spec fn woven_to(gaps: Seq<Seq<char>>, fills: Seq<Seq<char>>, k: int) -> Seq<char> {
    woven(gaps.take(k + 1), fills.take(k))
}

/// Ranges of bytes are those of the fills of a text.
pub open spec fn at_fills(
    gaps: Seq<Seq<char>>,
    fills: Seq<Seq<char>>,
    k: int,
    start: int,
    end: int,
) -> bool {
    &&& start == text::bytes_of(woven_to(gaps, fills, k)).len()
    &&& end == start + text::bytes_of(fills[k]).len()
}

/// One more fill and one more gap.
proof fn lemma_woven_more(gaps: Seq<Seq<char>>, fills: Seq<Seq<char>>, k: int)
    requires
        0 < k <= fills.len(),
        gaps.len() == fills.len() + 1,
    ensures
        woven_to(gaps, fills, k) == woven_to(gaps, fills, k - 1) + fills[k - 1] + gaps[k],
        woven_to(gaps, fills, fills.len() as int) == woven(gaps, fills),
{
    assert(gaps.take(k + 1).drop_last() =~= gaps.take(k));
    assert(fills.take(k).drop_last() =~= fills.take(k - 1));
    assert(gaps.take(gaps.len() as int) =~= gaps);
    assert(fills.take(fills.len() as int) =~= fills);
}

/// The text up to a gap is where the whole begins.
proof fn lemma_woven_rest(gaps: Seq<Seq<char>>, fills: Seq<Seq<char>>, k: int) -> (rest: Seq<char>)
    requires
        0 <= k <= fills.len(),
        gaps.len() == fills.len() + 1,
    ensures
        woven(gaps, fills) == woven_to(gaps, fills, k) + rest,
        k < fills.len() ==> exists|more: Seq<char>| rest == fills[k] + more,
    decreases fills.len() - k,
{
    if k == fills.len() {
        assert(gaps.take(gaps.len() as int) =~= gaps);
        assert(fills.take(fills.len() as int) =~= fills);
        assert(woven(gaps, fills) =~= woven(gaps, fills) + Seq::<char>::empty());
        Seq::empty()
    } else {
        let later = lemma_woven_rest(gaps, fills, k + 1);
        lemma_woven_more(gaps, fills, k + 1);
        let more = gaps[k + 1] + later;
        let rest = fills[k] + more;
        assert(woven(gaps, fills) =~= woven_to(gaps, fills, k) + rest);
        rest
    }
}

/// Gap `k` is what stands in the text behind fill `k - 1`.
proof fn lemma_gap(gaps: Seq<Seq<char>>, fills: Seq<Seq<char>>, k: int)
    requires
        0 <= k <= fills.len(),
        gaps.len() == fills.len() + 1,
    ensures
        ({
            let all = woven(gaps, fills);
            let end = text::bytes_of(woven_to(gaps, fills, k)).len() as int;
            let start = end - text::bytes_of(gaps[k]).len();
            redaction::gap(all, start, end) == gaps[k]
        }),
        k > 0 ==> text::bytes_of(woven_to(gaps, fills, k)).len() == text::bytes_of(
            woven_to(gaps, fills, k - 1),
        ).len() + text::bytes_of(fills[k - 1]).len() + text::bytes_of(gaps[k]).len(),
        k == 0 ==> text::bytes_of(woven_to(gaps, fills, k)).len() == text::bytes_of(gaps[0]).len(),
{
    let all = woven(gaps, fills);
    let to = woven_to(gaps, fills, k);
    let rest = lemma_woven_rest(gaps, fills, k);
    let head = if k == 0 {
        Seq::<char>::empty()
    } else {
        woven_to(gaps, fills, k - 1) + fills[k - 1]
    };
    if k == 0 {
        assert(gaps.take(1)[0] == gaps[0]);
        assert(to =~= head + gaps[0]);
    } else {
        lemma_woven_more(gaps, fills, k);
        text::law_bytes_join(woven_to(gaps, fills, k - 1), fills[k - 1]);
    }
    text::law_bytes_join(head, gaps[k]);
    assert(all =~= head + gaps[k] + rest);
    text::law_piece_of_parts(head, gaps[k], rest);
    if text::bytes_of(gaps[k]).len() == 0 {
        text::law_bytes_of_nothing(gaps[k]);
    }
    text::law_bytes_of_nothing(Seq::<char>::empty());
}

/// What is put in place of the fills of a text stands there, and the gaps stay.
proof fn lemma_fills_are_replaced(
    gaps: Seq<Seq<char>>,
    fills: Seq<Seq<char>>,
    marks: Seq<Replacement>,
    k: int,
)
    requires
        gaps.len() == fills.len() + 1,
        marks.len() == fills.len(),
        forall|i: int|
            0 <= i < marks.len() ==> at_fills(
                gaps,
                fills,
                i,
                (#[trigger] marks[i]).start,
                marks[i].end,
            ),
        0 <= k <= marks.len(),
    ensures
        ({
            let withs = marks.map_values(|m: Replacement| m.with);
            let to = text::bytes_of(woven_to(gaps, fills, k)).len() as int;
            let all = woven(gaps, fills);
            &&& redaction::cursor_after(marks, k) == to - text::bytes_of(gaps[k]).len()
            &&& redaction::replaced_to(all, marks, k) + gaps[k] == woven_to(gaps, withs, k)
        }),
    decreases k,
{
    let withs = marks.map_values(|m: Replacement| m.with);
    let all = woven(gaps, fills);
    lemma_gap(gaps, fills, k);
    if k == 0 {
        assert(gaps.take(1)[0] == gaps[0]);
        assert(redaction::replaced_to(all, marks, 0) + gaps[0] =~= gaps[0]);
    } else {
        lemma_fills_are_replaced(gaps, fills, marks, k - 1);
        lemma_gap(gaps, fills, k - 1);
        assert(at_fills(gaps, fills, k - 1, marks[k - 1].start, marks[k - 1].end));
        lemma_woven_more(gaps, withs, k);
        assert(withs[k - 1] == marks[k - 1].with);
        assert(redaction::replaced_to(all, marks, k) + gaps[k] =~= (redaction::replaced_to(
            all,
            marks,
            k - 1,
        ) + gaps[k - 1]) + withs[k - 1] + gaps[k]);
    }
}

/// Putting other texts in place of the fills of a text leaves all else as it is.
pub proof fn law_fills_are_replaced(
    gaps: Seq<Seq<char>>,
    fills: Seq<Seq<char>>,
    marks: Seq<Replacement>,
)
    requires
        gaps.len() == fills.len() + 1,
        marks.len() == fills.len(),
        forall|i: int|
            0 <= i < marks.len() ==> at_fills(
                gaps,
                fills,
                i,
                (#[trigger] marks[i]).start,
                marks[i].end,
            ),
    ensures
        redaction::replaced(woven(gaps, fills), marks) == woven(
            gaps,
            marks.map_values(|m: Replacement| m.with),
        ),
{
    let n = marks.len() as int;
    let withs = marks.map_values(|m: Replacement| m.with);
    let all = woven(gaps, fills);
    let before = |a: Replacement, b: Replacement| redaction::starts_before(a, b);
    assert forall|i: int, j: int| 0 <= i < j < n implies !before(
        #[trigger] marks[j],
        #[trigger] marks[i],
    ) by {
        lemma_starts_ascend(gaps, fills, i, j);
        assert(at_fills(gaps, fills, i, marks[i].start, marks[i].end));
        assert(at_fills(gaps, fills, j, marks[j].start, marks[j].end));
    }
    sorting::law_sorted_stays(marks, before);
    lemma_fills_are_replaced(gaps, fills, marks, n);
    lemma_gap(gaps, fills, n);
    assert(gaps.take(gaps.len() as int) =~= gaps);
    assert(fills.take(fills.len() as int) =~= fills);
    assert(withs.take(withs.len() as int) =~= withs);
}

proof fn lemma_starts_ascend(gaps: Seq<Seq<char>>, fills: Seq<Seq<char>>, i: int, j: int)
    requires
        gaps.len() == fills.len() + 1,
        0 <= i <= j < fills.len(),
    ensures
        text::bytes_of(woven_to(gaps, fills, i)).len() <= text::bytes_of(
            woven_to(gaps, fills, j),
        ).len(),
    decreases j - i,
{
    if i < j {
        lemma_starts_ascend(gaps, fills, i, j - 1);
        lemma_gap(gaps, fills, j);
    }
}

/// Where spans are the fills of a text, the redacted text is the same text with a
/// placeholder for each fill. The placeholder is made of the span's label, whatever the
/// text of the span is.
pub proof fn law_spans_give_way_to_their_labels(
    gaps: Seq<Seq<char>>,
    fills: Seq<Seq<char>>,
    found: Seq<DetectedSpan>,
)
    requires
        gaps.len() == fills.len() + 1,
        found.len() == fills.len(),
        forall|i: int|
            0 <= i < found.len() ==> at_fills(
                gaps,
                fills,
                i,
                (#[trigger] found[i]).byte_start as int,
                found[i].byte_end as int,
            ),
    ensures
        redaction::replaced(woven(gaps, fills), redaction::all_masked(found)) == woven(
            gaps,
            found.map_values(
                |span: DetectedSpan|
                    redaction::placeholder_of(redaction::uppercase_of(span.label@)),
            ),
        ),
{
    let marks = redaction::all_masked(found);
    let names = found.map_values(
        |span: DetectedSpan| redaction::placeholder_of(redaction::uppercase_of(span.label@)),
    );
    assert forall|i: int| 0 <= i < marks.len() implies at_fills(
        gaps,
        fills,
        i,
        (#[trigger] marks[i]).start,
        marks[i].end,
    ) by {
        assert(at_fills(gaps, fills, i, found[i].byte_start as int, found[i].byte_end as int));
    }
    law_fills_are_replaced(gaps, fills, marks);
    assert(marks.map_values(|m: Replacement| m.with) =~= names);
}

/// Redacted text says nothing of what stood in the spans: two texts that differ only
/// there, with spans of the same labels, are redacted to the same text.
pub proof fn law_redacted_text_hides_the_spans(
    gaps: Seq<Seq<char>>,
    fills: Seq<Seq<char>>,
    others: Seq<Seq<char>>,
    found: Seq<DetectedSpan>,
    also: Seq<DetectedSpan>,
)
    requires
        gaps.len() == fills.len() + 1,
        others.len() == fills.len(),
        found.len() == fills.len(),
        also.len() == fills.len(),
        forall|i: int|
            0 <= i < found.len() ==> at_fills(
                gaps,
                fills,
                i,
                (#[trigger] found[i]).byte_start as int,
                found[i].byte_end as int,
            ),
        forall|i: int|
            0 <= i < also.len() ==> at_fills(
                gaps,
                others,
                i,
                (#[trigger] also[i]).byte_start as int,
                also[i].byte_end as int,
            ),
        forall|i: int| 0 <= i < found.len() ==> (#[trigger] found[i]).label@ == also[i].label@,
    ensures
        redaction::replaced(woven(gaps, fills), redaction::all_masked(found))
            == redaction::replaced(woven(gaps, others), redaction::all_masked(also)),
{
    law_spans_give_way_to_their_labels(gaps, fills, found);
    law_spans_give_way_to_their_labels(gaps, others, also);
    assert(found.map_values(
        |span: DetectedSpan| redaction::placeholder_of(redaction::uppercase_of(span.label@)),
    ) =~= also.map_values(
        |span: DetectedSpan| redaction::placeholder_of(redaction::uppercase_of(span.label@)),
    ));
}

/// Spans that lie in a text one behind the other are fills of it, and the rest are gaps.
pub proof fn law_spans_are_fills(text: Seq<char>, found: Seq<DetectedSpan>) -> (r: (
    Seq<Seq<char>>,
    Seq<Seq<char>>,
))
    requires
        forall|i: int|
            0 <= i < found.len() ==> text::piece(
                text,
                (#[trigger] found[i]).byte_start as int,
                found[i].byte_end as int,
            ) == Some(found[i].text@),
        forall|i: int, j: int|
            0 <= i < j < found.len() ==> (#[trigger] found[i]).byte_end <= (
            #[trigger] found[j]).byte_start,
    ensures
        r.0.len() == found.len() + 1,
        r.1 == found.map_values(|span: DetectedSpan| span.text@),
        woven(r.0, r.1) == text,
        forall|i: int|
            0 <= i < found.len() ==> at_fills(
                r.0,
                r.1,
                i,
                (#[trigger] found[i]).byte_start as int,
                found[i].byte_end as int,
            ),
{
    let len = text::bytes_of(text).len() as int;
    let fills = found.map_values(|span: DetectedSpan| span.text@);
    let gaps = Seq::new(
        found.len() + 1,
        |k: int| text::piece(text, gap_start(found, k), gap_stop(found, len, k))->0,
    );
    lemma_gaps_are_pieces(text, found, found.len() as int);
    lemma_woven_so_far(text, found, gaps, found.len() as int);
    assert forall|i: int| 0 <= i < found.len() implies at_fills(
        gaps,
        fills,
        i,
        (#[trigger] found[i]).byte_start as int,
        found[i].byte_end as int,
    ) by {
        lemma_woven_so_far(text, found, gaps, i);
        text::law_bytes_of_piece(text, 0, found[i].byte_start as int);
        text::law_bytes_of_piece(text, found[i].byte_start as int, found[i].byte_end as int);
    }
    assert(gaps.take(gaps.len() as int) =~= gaps);
    assert(fills.take(found.len() as int) =~= fills);
    text::law_whole_piece(text);
    (gaps, fills)
}

/// Where the gap in front of a span starts.
spec fn gap_start(found: Seq<DetectedSpan>, k: int) -> int {
    if k <= 0 {
        0
    } else {
        found[k - 1].byte_end as int
    }
}

/// Where the gap in front of a span, or behind the last one, stops.
spec fn gap_stop(found: Seq<DetectedSpan>, len: int, k: int) -> int {
    if k < found.len() {
        found[k].byte_start as int
    } else {
        len
    }
}

proof fn lemma_gaps_are_pieces(text: Seq<char>, found: Seq<DetectedSpan>, n: int)
    requires
        forall|i: int|
            0 <= i < found.len() ==> text::piece(
                text,
                (#[trigger] found[i]).byte_start as int,
                found[i].byte_end as int,
            ) == Some(found[i].text@),
        forall|i: int, j: int|
            0 <= i < j < found.len() ==> (#[trigger] found[i]).byte_end <= (
            #[trigger] found[j]).byte_start,
    ensures
        forall|k: int|
            0 <= k <= found.len() ==> text::piece(
                text,
                #[trigger] gap_start(found, k),
                gap_stop(found, text::bytes_of(text).len() as int, k),
            ) is Some,
{
    text::law_whole_piece(text);
    assert forall|k: int| 0 <= k <= found.len() implies text::piece(
        text,
        #[trigger] gap_start(found, k),
        gap_stop(found, text::bytes_of(text).len() as int, k),
    ) is Some by {
        if 0 < k {
            assert(text::piece(
                text,
                found[k - 1].byte_start as int,
                found[k - 1].byte_end as int,
            ) is Some);
        }
        if k < found.len() {
            assert(text::piece(text, found[k].byte_start as int, found[k].byte_end as int) is Some);
            if 0 < k {
                assert(found[k - 1].byte_end <= found[k].byte_start);
            }
        }
    }
}

/// The gaps and fills up to gap `k` are the text up to its stop.
proof fn lemma_woven_so_far(
    text: Seq<char>,
    found: Seq<DetectedSpan>,
    gaps: Seq<Seq<char>>,
    k: int,
)
    requires
        forall|i: int|
            0 <= i < found.len() ==> text::piece(
                text,
                (#[trigger] found[i]).byte_start as int,
                found[i].byte_end as int,
            ) == Some(found[i].text@),
        forall|i: int, j: int|
            0 <= i < j < found.len() ==> (#[trigger] found[i]).byte_end <= (
            #[trigger] found[j]).byte_start,
        gaps == Seq::new(
            found.len() + 1,
            |k: int|
                text::piece(
                    text,
                    gap_start(found, k),
                    gap_stop(found, text::bytes_of(text).len() as int, k),
                )->0,
        ),
        0 <= k <= found.len(),
    ensures
        text::piece(text, 0, gap_stop(found, text::bytes_of(text).len() as int, k)) == Some(
            woven_to(gaps, found.map_values(|span: DetectedSpan| span.text@), k),
        ),
    decreases k,
{
    let len = text::bytes_of(text).len() as int;
    let fills = found.map_values(|span: DetectedSpan| span.text@);
    lemma_gaps_are_pieces(text, found, k);
    assert(text::piece(text, gap_start(found, k), gap_stop(found, len, k)) == Some(gaps[k]));
    if k == 0 {
        assert(gaps.take(1)[0] == gaps[0]);
    } else {
        lemma_woven_so_far(text, found, gaps, k - 1);
        lemma_woven_more(gaps, fills, k);
        let a = found[k - 1].byte_start as int;
        let b = found[k - 1].byte_end as int;
        assert(text::piece(text, a, b) == Some(fills[k - 1]));
        text::law_pieces_join(text, 0, a, b);
        text::law_pieces_join(text, 0, b, gap_stop(found, len, k));
    }
}

/// A letter or a digit of ASCII.
pub open spec fn plain_char(c: char) -> bool {
    ('a' <= c && c <= 'z') || ('A' <= c && c <= 'Z') || ('0' <= c && c <= '9')
}

/// Nothing but letters and digits.
pub open spec fn all_plain(s: Seq<char>) -> bool {
    forall|i: int| 0 <= i < s.len() ==> plain_char(#[trigger] s[i])
}

/// No letter and no digit.
pub open spec fn none_plain(s: Seq<char>) -> bool {
    forall|i: int| 0 <= i < s.len() ==> !plain_char(#[trigger] s[i])
}

proof fn lemma_squeeze_plain(s: Seq<char>)
    requires
        all_plain(s),
    ensures
        redaction::squeezed(s) == s,
    decreases s.len(),
{
    if s.len() > 0 {
        let init = s.drop_last();
        assert(s[s.len() - 1] == s.last());
        assert forall|i: int| 0 <= i < init.len() implies plain_char(#[trigger] init[i]) by {
            assert(init[i] == s[i]);
        }
        lemma_squeeze_plain(init);
        assert(init.push(s.last()) =~= s);
    }
}

proof fn lemma_squeeze_nonempty(s: Seq<char>)
    ensures
        s.len() > 0 ==> redaction::squeezed(s).len() > 0,
        s.len() > 0 && plain_char(s.last()) ==> redaction::squeezed(s).last() == s.last(),
{
}

proof fn lemma_squeeze_sep(x: Seq<char>, sep: Seq<char>)
    requires
        x.len() == 0 || plain_char(x.last()),
        sep.len() > 0,
        none_plain(sep),
    ensures
        redaction::squeezed(x + sep) == redaction::squeezed(x).push('_'),
    decreases sep.len(),
{
    let init = sep.drop_last();
    assert(sep[sep.len() - 1] == sep.last());
    assert((x + sep).drop_last() =~= x + init);
    assert((x + sep).last() == sep.last());
    lemma_squeeze_nonempty(x);
    if init.len() == 0 {
        assert(x + init =~= x);
    } else {
        assert forall|i: int| 0 <= i < init.len() implies !plain_char(#[trigger] init[i]) by {
            assert(init[i] == sep[i]);
        }
        lemma_squeeze_sep(x, init);
    }
}

proof fn lemma_squeeze_behind(z: Seq<char>, y: Seq<char>)
    requires
        y.len() > 0,
        plain_char(y[0]),
    ensures
        redaction::squeezed(z + y) == redaction::squeezed(z) + redaction::squeezed(y),
    decreases y.len(),
{
    let init = y.drop_last();
    assert((z + y).drop_last() =~= z + init);
    assert((z + y).last() == y.last());
    if init.len() == 0 {
        assert(z + init =~= z);
        assert(redaction::squeezed(init) =~= Seq::<char>::empty());
        assert(y.last() == y[0]);
        assert(redaction::squeezed(z + y) =~= redaction::squeezed(z) + redaction::squeezed(y));
    } else {
        lemma_squeeze_behind(z, init);
        lemma_squeeze_nonempty(init);
        let a = redaction::squeezed(z);
        let b = redaction::squeezed(init);
        assert((a + b).last() == b.last());
        assert(redaction::squeezed(z + y) =~= a + redaction::squeezed(y));
    }
}

/// What stands between the brackets of a placeholder.
pub open spec fn bracketed(p: Seq<char>) -> Seq<char> {
    p.subrange(1, p.len() - 1)
}

/// A placeholder is a name in angle brackets. The name of letters and digits is just that.
/// Whatever else stands between letters and digits, or in front of them, becomes one
/// underscore; and behind them, nothing.
pub proof fn law_placeholder_spells_the_name(x: Seq<char>, sep: Seq<char>, y: Seq<char>)
    requires
        none_plain(sep),
    ensures
        ({
            let p = redaction::placeholder_of(x);
            p.len() >= 2 && p[0] == '<' && p[p.len() - 1] == '>'
        }),
        all_plain(x) ==> redaction::placeholder_of(x) == seq!['<'] + x + seq!['>'],
        sep.len() > 0 && x.len() > 0 && plain_char(x[x.len() - 1]) ==> redaction::placeholder_of(
            x + sep,
        ) == redaction::placeholder_of(x),
        redaction::placeholder_of(sep) == seq!['<', '>'],
        sep.len() > 0 && (x.len() == 0 || plain_char(x[x.len() - 1])) && y.len() > 0 && plain_char(
            y[0],
        ) ==> bracketed(redaction::placeholder_of(x + sep + y)) == bracketed(
            redaction::placeholder_of(x),
        ) + seq!['_'] + bracketed(redaction::placeholder_of(y)),
{
    let p = redaction::placeholder_of(x);
    lemma_squeeze_nonempty(x);
    if all_plain(x) {
        lemma_squeeze_plain(x);
        if x.len() > 0 {
            assert(plain_char(x[x.len() - 1]));
        }
    }
    let none = Seq::<char>::empty();
    assert(redaction::squeezed(none) =~= none);
    if sep.len() == 0 {
        assert(sep =~= none);
        assert(redaction::placeholder_of(sep) =~= seq!['<', '>']);
    } else {
        lemma_squeeze_sep(none, sep);
        assert(none + sep =~= sep);
        assert(none.push('_').drop_last() =~= none);
        assert(redaction::placeholder_of(sep) =~= seq!['<', '>']);
        if x.len() == 0 || plain_char(x[x.len() - 1]) {
            lemma_squeeze_sep(x, sep);
            assert(redaction::squeezed(x).push('_').drop_last() =~= redaction::squeezed(x));
            if x.len() == 0 {
                assert(x =~= none);
            }
            if y.len() > 0 && plain_char(y[0]) {
                lemma_squeeze_behind(x + sep, y);
                lemma_squeeze_nonempty(y);
                let a = redaction::squeezed(x);
                let b = redaction::squeezed(y);
                let s = redaction::squeezed(x + sep + y);
                assert(s == a.push('_') + b);
                assert(s.last() == b.last());
                let name = if b.last() == '_' {
                    b.drop_last()
                } else {
                    b
                };
                assert(bracketed(redaction::placeholder_of(y)) =~= name);
                assert(bracketed(redaction::placeholder_of(x)) =~= a);
                assert(s.drop_last() =~= a.push('_') + b.drop_last());
                assert(bracketed(redaction::placeholder_of(x + sep + y)) =~= a.push('_') + name);
                assert(a.push('_') + name =~= a + seq!['_'] + name);
            }
        }
    }
}

/// Spans that are the fills of a text can be redacted.
pub proof fn law_fills_can_be_redacted(
    gaps: Seq<Seq<char>>,
    fills: Seq<Seq<char>>,
    found: Seq<DetectedSpan>,
)
    requires
        gaps.len() == fills.len() + 1,
        found.len() == fills.len(),
        forall|i: int|
            0 <= i < found.len() ==> at_fills(
                gaps,
                fills,
                i,
                (#[trigger] found[i]).byte_start as int,
                found[i].byte_end as int,
            ),
    ensures
        redaction::starts_within(
            woven(gaps, fills),
            crate::spans::detections(found).map_values(
                |d: crate::spans::Detection| redaction::blank(d),
            ),
        ),
{
    let all = woven(gaps, fills);
    let marks = crate::spans::detections(found).map_values(
        |d: crate::spans::Detection| redaction::blank(d),
    );
    let before = |a: Replacement, b: Replacement| redaction::starts_before(a, b);
    assert forall|i: int| 0 <= i < marks.len() implies at_fills(
        gaps,
        fills,
        i,
        (#[trigger] marks[i]).start,
        marks[i].end,
    ) by {
        assert(at_fills(gaps, fills, i, found[i].byte_start as int, found[i].byte_end as int));
    }
    assert forall|i: int, j: int| 0 <= i < j < marks.len() implies !before(
        #[trigger] marks[j],
        #[trigger] marks[i],
    ) by {
        lemma_starts_ascend(gaps, fills, i, j);
        assert(at_fills(gaps, fills, i, marks[i].start, marks[i].end));
        assert(at_fills(gaps, fills, j, marks[j].start, marks[j].end));
    }
    sorting::law_sorted_stays(marks, before);
    assert forall|k: int| 0 <= k < marks.len() implies (#[trigger] marks[k]).start
        <= text::bytes_of(all).len() by {
        assert(at_fills(gaps, fills, k, marks[k].start, marks[k].end));
        let rest = lemma_woven_rest(gaps, fills, k);
        text::law_bytes_join(woven_to(gaps, fills, k), rest);
    }
}

} // verus!
