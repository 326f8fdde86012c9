//! What is printed of detections: JSON, lines for a terminal, and numbers.

use vstd::prelude::*;

use crate::engine;
use crate::engine::{DetectionResult, EngineError, Trouble};
use crate::json;
use crate::json::Json;
use crate::report;
use crate::report::{Output, OutputMode};
use crate::redaction;
use crate::spans;
use crate::spans::{DetectedSpan, Detection};
use crate::stream;
use crate::text;

verus! {

/// The members of a JSON object.
pub open spec fn members_of(json: Json) -> Map<Seq<char>, Json> {
    match json {
        Json::Object(all) => all,
        _ => Map::empty(),
    }
}

/// The names under which the answers hold their parts differ.
proof fn lemma_names_differ()
    ensures
        "label"@ != "byte_start"@,
        "label"@ != "byte_end"@,
        "label"@ != "text"@,
        "byte_start"@ != "byte_end"@,
        "byte_start"@ != "text"@,
        "byte_end"@ != "text"@,
        "id"@ != "spans"@,
        "id"@ != "tokens"@,
        "id"@ != "elapsed_us"@,
        "id"@ != "error"@,
        "spans"@ != "tokens"@,
        "spans"@ != "elapsed_us"@,
        "tokens"@ != "elapsed_us"@,
{
    reveal_strlit("label");
    reveal_strlit("byte_start");
    reveal_strlit("byte_end");
    reveal_strlit("text");
    reveal_strlit("id");
    reveal_strlit("spans");
    reveal_strlit("tokens");
    reveal_strlit("elapsed_us");
    reveal_strlit("error");
    assert("label"@[0] == 'l' && "text"@[0] == 't');
    assert("spans"@[0] == 's');
    assert("byte_start"@.len() == 10 && "byte_end"@.len() == 8);
    assert("id"@.len() == 2 && "error"@.len() == 5);
    assert("elapsed_us"@.len() == 10 && "tokens"@.len() == 6);
}

/// The list of spans in JSON has one object for each span, in order. It holds the span's
/// label, the number of its first byte, the number of the byte behind its last and its
/// text, and nothing else.
pub proof fn law_listed_spans(found: Seq<DetectedSpan>, k: int)
    requires
        0 <= k < found.len(),
    ensures
        json::span_array(spans::detections(found)) matches Json::Array(items) && {
            let span = members_of(items[k]);
            &&& items.len() == found.len()
            &&& items[k] is Object
            &&& span.contains_key("label"@) && span["label"@] == Json::Text(found[k].label@)
            &&& span.contains_key("byte_start"@) && span["byte_start"@] == Json::Natural(
                found[k].byte_start as nat,
            )
            &&& span.contains_key("byte_end"@) && span["byte_end"@] == Json::Natural(
                found[k].byte_end as nat,
            )
            &&& span.contains_key("text"@) && span["text"@] == Json::Text(found[k].text@)
            &&& forall|name: Seq<char>| #[trigger]
                span.contains_key(name) ==> name == "label"@ || name == "byte_start"@ || name
                    == "byte_end"@ || name == "text"@
        },
{
    lemma_names_differ();
}

/// The numbers in the JSON of spans point at the text in the JSON: where spans lie in a
/// text, the piece of the text between the two numbers is the text that is given.
pub proof fn law_listed_bytes_hold_the_listed_text(
    whole: Seq<char>,
    found: Seq<DetectedSpan>,
    k: int,
    start: nat,
    end: nat,
    shown: Seq<char>,
)
    requires
        0 <= k < found.len(),
        text::piece(whole, found[k].byte_start as int, found[k].byte_end as int) == Some(
            found[k].text@,
        ),
        json::span_array(spans::detections(found)) matches Json::Array(items) && {
            let span = members_of(items[k]);
            &&& span["byte_start"@] == Json::Natural(start)
            &&& span["byte_end"@] == Json::Natural(end)
            &&& span["text"@] == Json::Text(shown)
        },
    ensures
        text::piece(whole, start as int, end as int) == Some(shown),
{
    law_listed_spans(found, k);
}

/// The answer to a request has the id of the request. Where there is a result, it has the
/// spans, the number of tokens and the time, and no error; where there is none, it has
/// the error's message, and nothing else.
pub proof fn law_answers(
    id: Json,
    r: Result<DetectionResult, EngineError>,
    elapsed_us: u64,
)
    ensures
        ({
            let answer = members_of(stream::answer_of(id, r, elapsed_us));
            &&& stream::answer_of(id, r, elapsed_us) is Object
            &&& answer.contains_key("id"@) && answer["id"@] == id
            &&& match r {
                Ok(result) => {
                    &&& answer.contains_key("spans"@) && answer["spans"@] == json::span_array(
                        spans::detections(result.spans@),
                    )
                    &&& answer.contains_key("tokens"@) && answer["tokens"@] == Json::Natural(
                        result.tokens as nat,
                    )
                    &&& answer.contains_key("elapsed_us"@) && answer["elapsed_us"@]
                        == Json::Natural(elapsed_us as nat)
                    &&& forall|name: Seq<char>| #[trigger]
                        answer.contains_key(name) ==> name == "id"@ || name == "spans"@ || name
                            == "tokens"@ || name == "elapsed_us"@
                },
                Err(error) => {
                    &&& answer.contains_key("error"@) && answer["error"@] == Json::Text(
                        engine::trouble_message(error@),
                    )
                    &&& forall|name: Seq<char>| #[trigger]
                        answer.contains_key(name) ==> name == "id"@ || name == "error"@
                },
            }
        }),
{
    lemma_names_differ();
}

/// What the errors say: that of the tokenizer and that of the model stand in them as they
/// are, and the one on operating points names what was asked for and all there are.
pub proof fn law_error_messages(message: Seq<char>, asked: Seq<char>, known: Seq<Seq<char>>)
    ensures
        engine::trouble_message(Trouble::Encode(message)) == "encode: "@ + message,
        engine::trouble_message(Trouble::Forward(message)) == message,
        engine::trouble_message(Trouble::UnknownOperatingPoint(asked, known))
            == "unknown operating point "@ + text::quoted_of(asked) + " (known: "@ + text::joined(
            known,
            ", "@,
        ) + ")"@,
        engine::trouble_message(Trouble::NoClasses) == "the model has no classes"@,
        engine::trouble_message(Trouble::ScoreCount) == "the scores do not match the tokens"@,
        engine::trouble_message(Trouble::OffsetsPastText) == "a token lies outside the text"@,
        engine::trouble_message(Trouble::OffsetCount) == "the byte ranges do not match the tokens"@,
{
}

/// Texts that are joined stand in order with the separator between them: none is nothing,
/// one is itself, and two lists with texts in them are joined by the separator.
pub proof fn law_joined(a: Seq<Seq<char>>, b: Seq<Seq<char>>, separator: Seq<char>)
    ensures
        text::joined(Seq::empty(), separator) == Seq::<char>::empty(),
        a.len() == 1 ==> text::joined(a, separator) == a[0],
        a.len() > 0 && b.len() > 0 ==> text::joined(a + b, separator) == text::joined(a, separator)
            + separator + text::joined(b, separator),
    decreases b.len(),
{
    if a.len() > 0 && b.len() > 0 {
        let init = b.drop_last();
        assert((a + b).drop_last() =~= a + init);
        assert((a + b).last() == b.last());
        if init.len() == 0 {
            assert(a + init =~= a);
            assert(b[0] == b.last());
        } else {
            law_joined(a, init, separator);
            assert(text::joined(a + b, separator) =~= text::joined(a, separator) + separator
                + text::joined(b, separator));
        }
    }
}

/// Lines and columns are counted from 1. Behind a line feed a line begins; behind any other
/// byte the column is one further. What lies behind the last byte is counted as its end.
pub proof fn law_lines_and_columns(bytes: Seq<u8>, n: int)
    ensures
        report::line_col(bytes, 0) == (1int, 1int),
        0 <= n < bytes.len() ==> report::line_col(bytes, n + 1) == (if bytes[n] == 10 {
            (report::line_col(bytes, n).0 + 1, 1int)
        } else {
            (report::line_col(bytes, n).0, report::line_col(bytes, n).1 + 1)
        }),
        n >= bytes.len() ==> report::line_col(bytes, n) == report::line_col(
            bytes,
            bytes.len() as int,
        ),
{
}

/// The line that shows a span has the line and the column of its first byte, its label,
/// its first byte and the one behind its last, and its text in quotes.
pub proof fn law_line_of_a_span(whole: Seq<char>, d: Detection)
    ensures
        ({
            let place = report::line_col(text::bytes_of(whole), d.range.start);
            report::span_line(whole, d) == text::decimal(place.0 as nat) + seq![':']
                + text::decimal(place.1 as nat) + seq![':', ' '] + d.range.label + seq![' ', '(']
                + text::decimal(d.range.start as nat) + seq!['.', '.'] + text::decimal(
                d.range.end as nat,
            ) + seq![')', ' '] + text::quoted_of(d.text)
        }),
{
    reveal_strlit(":");
    reveal_strlit(": ");
    reveal_strlit(" (");
    reveal_strlit("..");
    reveal_strlit(") ");
    assert(":"@ =~= seq![':']);
    assert(": "@ =~= seq![':', ' ']);
    assert(" ("@ =~= seq![' ', '(']);
    assert(".."@ =~= seq!['.', '.']);
    assert(") "@ =~= seq![')', ' ']);
}

/// The digit of a number below ten.
pub open spec fn numeral(d: nat) -> char {
    if d == 0 {
        '0'
    } else if d == 1 {
        '1'
    } else if d == 2 {
        '2'
    } else if d == 3 {
        '3'
    } else if d == 4 {
        '4'
    } else if d == 5 {
        '5'
    } else if d == 6 {
        '6'
    } else if d == 7 {
        '7'
    } else if d == 8 {
        '8'
    } else {
        '9'
    }
}

/// Decimal numbers: a number below ten is its digit, and ten times a number and a digit is
/// the number with the digit behind it.
pub proof fn law_decimal_digits(n: nat, d: nat)
    requires
        d < 10,
    ensures
        text::decimal(d) == seq![numeral(d)],
        n > 0 ==> text::decimal(n * 10 + d) == text::decimal(n).push(numeral(d)),
{
    assert(text::digit_char(d) == numeral(d));
    if n > 0 {
        assert((n * 10 + d) / 10 == n);
        assert((n * 10 + d) % 10 == d);
    }
}

/// Reading numbers: a digit is its number, and a digit behind a number makes ten times the
/// number and the digit, as long as that is in range. A plus sign in front changes
/// nothing. Nothing, a sign alone and what holds another character are no numbers.
pub proof fn law_parsed_numbers(s: Seq<char>, d: nat)
    requires
        d < 10,
    ensures
        text::parsed_usize(seq![numeral(d)]) == Some(d as usize),
        text::parsed_usize(s) matches Some(n) ==> text::parsed_usize(s.push(numeral(d))) == (if n * 10
            + d <= usize::MAX {
            Some((n * 10 + d) as usize)
        } else {
            None
        }),
        s.len() > 0 && s[0] != '+' ==> text::parsed_usize(seq!['+'] + s) == text::parsed_usize(s),
        text::parsed_usize(Seq::empty()) is None,
        text::parsed_usize(seq!['+']) is None,
        (exists|i: int|
            0 <= i < s.len() && !('0' <= #[trigger] s[i] && s[i] <= '9') && !(i == 0 && s[i]
                == '+')) ==> text::parsed_usize(s) is None,
{
    let one = seq![numeral(d)];
    assert(text::unsigned_part(one) == one);
    assert(one.drop_last() =~= Seq::<char>::empty());
    assert(text::digits_value(one.drop_last()) == 0);
    assert(text::digits_value(one) == d);
    let none = Seq::<char>::empty();
    assert(seq!['+'].skip(1) =~= none);
    if s.len() > 0 && s[0] != '+' {
        assert((seq!['+'] + s).skip(1) =~= s);
    }
    if text::parsed_usize(s) is Some {
        let digits = text::unsigned_part(s);
        let more = s.push(numeral(d));
        let longer = text::unsigned_part(more);
        assert(longer =~= digits.push(numeral(d)));
        assert(longer.drop_last() =~= digits);
        assert(text::is_digit(numeral(d)));
        assert forall|i: int| 0 <= i < longer.len() implies text::is_digit(#[trigger] longer[i]) by {
            if i < digits.len() {
                assert(longer[i] == digits[i]);
            }
        }
    }
    if exists|i: int|
        0 <= i < s.len() && !('0' <= #[trigger] s[i] && s[i] <= '9') && !(i == 0 && s[i] == '+') {
        let i = choose|i: int|
            0 <= i < s.len() && !('0' <= #[trigger] s[i] && s[i] <= '9') && !(i == 0 && s[i] == '+');
        let digits = text::unsigned_part(s);
        if s[0] == '+' {
            assert(digits[i - 1] == s[i]);
        } else {
            assert(digits[i] == s[i]);
        }
    }
}

/// What a run prints. A check shows a line for each span, prints nothing and ends with 1 if
/// there is any; a redaction prints the redacted text alone; a list prints the JSON of the
/// spans and a line feed, and both end with 0.
pub proof fn law_outputs(mode: OutputMode, whole: Seq<char>, found: Seq<DetectedSpan>, out: Output)
    requires
        report::is_output(mode, whole, found, Ok(out)),
    ensures
        mode is Check ==> {
            &&& out.error_lines@.len() == found.len()
            &&& forall|k: int|
                0 <= k < found.len() ==> (#[trigger] out.error_lines@[k])@ == report::span_line(
                    whole,
                    found[k]@,
                )
            &&& out.printed@.len() == 0
            &&& out.code == 0 <==> found.len() == 0
            &&& out.code == 1 <==> found.len() > 0
        },
        mode is Redact ==> {
            &&& out.error_lines@.len() == 0
            &&& out.printed@ == redaction::replaced(whole, redaction::all_masked(found))
            &&& out.code == 0
        },
        mode is List ==> {
            &&& out.error_lines@.len() == 0
            &&& out.printed@.len() > 0 && out.printed@.last() == '\n'
            &&& json::pretty_of(json::span_array(spans::detections(found))) == Ok::<
                Seq<char>,
                Seq<char>,
            >(out.printed@.drop_last())
            &&& out.code == 0
        },
{
    if mode is Check {
        let lines = text::views(out.error_lines@);
        assert(lines.len() == out.error_lines@.len());
        assert forall|k: int| 0 <= k < found.len() implies (#[trigger] out.error_lines@[k])@
            == report::span_line(whole, found[k]@) by {
            assert(lines[k] == out.error_lines@[k]@);
        }
    }
    if mode is List {
        let list = json::pretty_of(json::span_array(spans::detections(found)))->Ok_0;
        assert(list.push('\n').drop_last() =~= list);
    }
}

/// What a span stands for is what its fields hold.
pub proof fn law_spans_stand_for_their_fields(found: Seq<DetectedSpan>, k: int)
    requires
        0 <= k < found.len(),
    ensures
        spans::detections(found).len() == found.len(),
        ({
            let d = spans::detections(found)[k];
            &&& d.range.label == found[k].label@
            &&& d.range.start == found[k].byte_start
            &&& d.range.end == found[k].byte_end
            &&& d.text == found[k].text@
        }),
{
}

/// Texts are ordered by the first character in which they differ, and a text comes in
/// front of those that go on from it.
pub proof fn law_order_of_texts(head: Seq<char>, a: Seq<char>, b: Seq<char>)
    ensures
        !text::precedes(head, head),
        b.len() > 0 ==> text::precedes(head, head + b) && !text::precedes(head + b, head),
        a.len() > 0 && b.len() > 0 && a[0] != b[0] ==> (text::precedes(head + a, head + b)
            <==> (a[0] as u32) < (b[0] as u32)),
    decreases head.len(),
{
    if head.len() == 0 {
        assert(head + a =~= a);
        assert(head + b =~= b);
    } else {
        let rest = head.drop_first();
        law_order_of_texts(rest, a, b);
        assert((head + a).drop_first() =~= rest + a);
        assert((head + b).drop_first() =~= rest + b);
        assert((head + a)[0] == head[0]);
        assert((head + b)[0] == head[0]);
    }
}

/// The operating points that a calibration declares are the names in its object of that
/// name; where there is no such object, there are none.
pub proof fn law_declared_points(calibration: Json, names: Seq<String>, name: Seq<char>)
    requires
        json::names_points(names, calibration),
    ensures
        ({
            let all = members_of(calibration);
            let points = members_of(all["operating_points"@]);
            let listed = exists|k: int| 0 <= k < names.len() && (#[trigger] names[k])@ == name;
            &&& listed <==> all.contains_key("operating_points"@) && points.contains_key(name)
            &&& forall|i: int, j: int|
                0 <= i < j < names.len() ==> (#[trigger] names[i])@ != (#[trigger] names[j])@
        }),
{
    assert(json::points_of(calibration).contains_key(name) <==> json::has_text(names, name));
}

} // verus!
