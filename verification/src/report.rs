//! What is shown of the spans of a text, and the lines of a stream of requests.

use vstd::prelude::*;

use crate::json;
use crate::redaction;
use crate::spans;
use crate::spans::{DetectedSpan, Detection};
use crate::text;

verus! {

/// How many line ends stand among the first `n` bytes.
pub open spec fn line_ends(bytes: Seq<u8>, n: int) -> int
    decreases n,
{
    if n <= 0 {
        0
    } else if bytes[n - 1] == 10u8 {
        line_ends(bytes, n - 1) + 1
    } else {
        line_ends(bytes, n - 1)
    }
}

/// How many of the first `n` bytes stand behind the last line end among them.
pub open spec fn since_line_end(bytes: Seq<u8>, n: int) -> int
    decreases n,
{
    if n <= 0 {
        0
    } else if bytes[n - 1] == 10u8 {
        0
    } else {
        since_line_end(bytes, n - 1) + 1
    }
}

/// The line and the column of a byte, both from 1; those of the end where the text
/// has no such byte.
pub open spec fn line_col(bytes: Seq<u8>, offset: int) -> (int, int) {
    let n = if offset < bytes.len() {
        offset
    } else {
        bytes.len() as int
    };
    (line_ends(bytes, n) + 1, since_line_end(bytes, n) + 1)
}

/// The line and the column of a byte, both from 1. Columns count bytes.
pub fn byte_to_line_col(text: &str, byte_offset: usize) -> (r: (usize, usize))
    requires
        text::bytes_of(text@).len() < usize::MAX,
    ensures
        (r.0 as int, r.1 as int) == line_col(text::bytes_of(text@), byte_offset as int),
{
    let bytes = text.as_bytes();
    let len: usize = bytes.len();
    let mut line: usize = 1;
    let mut col: usize = 1;
    let mut i: usize = 0;
    while i < len && i < byte_offset
        invariant
            bytes@ == text::bytes_of(text@),
            len == bytes@.len(),
            len < usize::MAX,
            i <= len,
            i <= byte_offset,
            line == line_ends(bytes@, i as int) + 1,
            col == since_line_end(bytes@, i as int) + 1,
            line <= i + 1,
            col <= i + 1,
        decreases len - i,
    {
        if bytes[i] == 10u8 {
            line = line + 1;
            col = 1;
        } else {
            col = col + 1;
        }
        i = i + 1;
    }
    (line, col)
}

/// Lines count line ends, and the column of a byte is its distance from the last one
/// before it.
pub proof fn law_line_col(bytes: Seq<u8>, n: int)
    requires
        0 <= n <= bytes.len(),
    ensures
        0 <= line_ends(bytes, n) <= n,
        0 <= since_line_end(bytes, n) <= n,
        forall|i: int| n - since_line_end(bytes, n) <= i < n ==> #[trigger] bytes[i] != 10u8,
        since_line_end(bytes, n) < n ==> bytes[n - since_line_end(bytes, n) - 1] == 10u8,
        line_ends(bytes, n) == 0 <==> since_line_end(bytes, n) == n,
    decreases n,
{
    if n > 0 {
        law_line_col(bytes, n - 1);
    }
}

/// The line that shows a span: where it is, its label, its bytes, and its text in
/// quotes.
pub open spec fn span_line(text: Seq<char>, d: Detection) -> Seq<char> {
    let at = line_col(text::bytes_of(text), d.range.start);
    text::decimal(at.0 as nat) + ":"@ + text::decimal(at.1 as nat) + ": "@ + d.range.label + " ("@
        + text::decimal(d.range.start as nat) + ".."@ + text::decimal(d.range.end as nat) + ") "@
        + text::quoted_of(d.text)
}

/// The line that shows a span.
fn describe(text: &str, span: &DetectedSpan) -> (r: String)
    requires
        text::bytes_of(text@).len() < usize::MAX,
    ensures
        r@ == span_line(text@, span@),
{
    let (line, col) = byte_to_line_col(text, span.byte_start);
    let mut r = text::write_decimal(line);
    r.append(":");
    r.append(text::write_decimal(col).as_str());
    r.append(": ");
    r.append(span.label.as_str());
    r.append(" (");
    r.append(text::write_decimal(span.byte_start).as_str());
    r.append("..");
    r.append(text::write_decimal(span.byte_end).as_str());
    r.append(") ");
    r.append(text::quoted(span.text.as_str()).as_str());
    r
}

/// The lines that show the spans of a text, in order.
pub fn check_report(text: &str, spans: &[DetectedSpan]) -> (lines: Vec<String>)
    requires
        text::bytes_of(text@).len() < usize::MAX,
    ensures
        text::views(lines@) == spans::detections(spans@).map_values(
            |d: Detection| span_line(text@, d),
        ),
{
    let len: usize = spans.len();
    let mut lines: Vec<String> = Vec::with_capacity(len);
    let mut i: usize = 0;
    while i < len
        invariant
            text::bytes_of(text@).len() < usize::MAX,
            i <= len,
            len == spans@.len(),
            lines@.len() == i,
            forall|k: int| 0 <= k < i ==> (#[trigger] lines@[k])@ == span_line(text@, spans@[k]@),
        decreases len - i,
    {
        lines.push(describe(text, &spans[i]));
        i = i + 1;
    }
    assert(text::views(lines@) =~= spans::detections(spans@).map_values(
        |d: Detection| span_line(text@, d),
    ));
    lines
}

/// The exit code of a check: 1 where something was found, and otherwise 0.
pub fn check_exit_code(spans: &[DetectedSpan]) -> (r: u8)
    ensures
        r == (if spans@.len() == 0 {
            0u8
        } else {
            1u8
        }),
{
    if spans.len() == 0 {
        0
    } else {
        1
    }
}

/// A line without the line ends at its end.
pub open spec fn without_line_end(line: Seq<char>) -> Seq<char>
    decreases line.len(),
{
    if line.len() > 0 && (line.last() == '\n' || line.last() == '\r') {
        without_line_end(line.drop_last())
    } else {
        line
    }
}

/// The request on a line of a stream: the line without the line ends at its end, where
/// anything is left.
pub fn stream_request(line: &str) -> (r: Option<String>)
    ensures
        match r {
            Some(request) => request@ == without_line_end(line@) && request@.len() > 0,
            None => without_line_end(line@).len() == 0,
        },
{
    let chars = text::chars_of(line);
    let mut end: usize = chars.len();
    assert(line@.take(end as int) =~= line@);
    while end > 0 && (chars[end - 1] == '\n' || chars[end - 1] == '\r')
        invariant
            end <= chars@.len(),
            chars@ == line@,
            without_line_end(line@) == without_line_end(line@.take(end as int)),
        ensures
            end > 0 ==> line@[end - 1] != '\n' && line@[end - 1] != '\r',
        decreases end,
    {
        assert(line@.take(end as int).drop_last() =~= line@.take(end - 1));
        end = end - 1;
    }
    assert(without_line_end(line@) == line@.take(end as int));
    if end == 0 {
        return None;
    }
    let request = text::text_of_chars(&chars, 0, end);
    assert(request@ =~= line@.take(end as int));
    Some(request)
}

/// A request keeps all of its line but line ends, and does not end in one.
pub proof fn law_request_keeps_the_line(line: Seq<char>)
    ensures
        ({
            let kept = without_line_end(line);
            &&& kept.len() <= line.len()
            &&& kept == line.take(kept.len() as int)
            &&& forall|i: int|
                kept.len() <= i < line.len() ==> #[trigger] line[i] == '\n' || line[i] == '\r'
            &&& kept.len() > 0 ==> kept.last() != '\n' && kept.last() != '\r'
        }),
    decreases line.len(),
{
    if line.len() > 0 && (line.last() == '\n' || line.last() == '\r') {
        let init = line.drop_last();
        law_request_keeps_the_line(init);
        let kept = without_line_end(line);
        assert(init.take(kept.len() as int) =~= line.take(kept.len() as int));
        assert forall|i: int| kept.len() <= i < line.len() implies #[trigger] line[i] == '\n'
            || line[i] == '\r' by {
            if i < init.len() {
                assert(init[i] == line[i]);
            }
        }
    } else {
        assert(line.take(line.len() as int) =~= line);
    }
}

/// How many classes are listed for each token, by the value of the setting: none where
/// it has no value or that is not a number.
pub fn listed_classes(value: Option<&str>) -> (r: usize)
    ensures
        r == (match value {
            Some(v) => match text::parsed_usize(v@) {
                Some(n) => n,
                None => 0,
            },
            None => 0,
        }),
{
    match value {
        Some(v) => match text::parse_usize(v) {
            Some(n) => n,
            None => 0,
        },
        None => 0,
    }
}

/// What is asked of the spans of a text.
#[derive(Debug, Clone, Copy, PartialEq, Eq, Structural)]
pub enum OutputMode {
    /// Lines that show the spans, and whether there are any.
    Check,
    /// The text with placeholders in place of the spans.
    Redact,
    /// The spans as a JSON list.
    List,
}

/// What is printed, and the exit code.
#[derive(Debug)]
pub struct Output {
    pub error_lines: Vec<String>,
    pub printed: String,
    pub code: u8,
}

/// The output that is asked for.
pub open spec fn is_output(
    mode: OutputMode,
    text: Seq<char>,
    spans: Seq<DetectedSpan>,
    r: Result<Output, String>,
) -> bool {
    let found = spans::detections(spans);
    match mode {
        OutputMode::Check => r matches Ok(out) && {
            &&& text::views(out.error_lines@) == found.map_values(
                |d: Detection| span_line(text, d),
            )
            &&& out.printed@ == Seq::<char>::empty()
            &&& out.code == if found.len() == 0 {
                0u8
            } else {
                1u8
            }
        },
        OutputMode::Redact => r matches Ok(out) && {
            &&& out.error_lines@.len() == 0
            &&& out.printed@ == redaction::replaced(text, redaction::all_masked(spans))
            &&& out.code == 0
        },
        OutputMode::List => match json::pretty_of(json::span_array(found)) {
            Ok(list) => r matches Ok(out) && {
                &&& out.error_lines@.len() == 0
                &&& out.printed@ == list.push('\n')
                &&& out.code == 0
            },
            Err(reason) => r matches Err(message) && message@ == reason,
        },
    }
}

/// What is printed of the spans of a text, and the exit code.
pub fn emit(mode: OutputMode, text: &str, spans: &[DetectedSpan]) -> (r: Result<Output, String>)
    requires
        mode is Check ==> text::bytes_of(text@).len() < usize::MAX,
        mode is Redact ==> redaction::starts_within(
            text@,
            spans::detections(spans@).map_values(|d: Detection| redaction::blank(d)),
        ),
    ensures
        is_output(mode, text@, spans@, r),
{
    match mode {
        OutputMode::Check => {
            let error_lines = check_report(text, spans);
            let printed = String::new();
            assert(printed@ =~= Seq::<char>::empty());
            Ok(Output { error_lines, printed, code: check_exit_code(spans) })
        },
        OutputMode::Redact => Ok(
            Output { error_lines: Vec::new(), printed: redaction::redact(text, spans), code: 0 },
        ),
        OutputMode::List => match json::list_report(spans) {
            Ok(list) => {
                let mut printed = list;
                printed.push('\n');
                Ok(Output { error_lines: Vec::new(), printed, code: 0 })
            },
            Err(message) => Err(message),
        },
    }
}

} // verus!
