//! Pieces of UTF-8 text, comparisons of text, and decimal numbers.

use vstd::prelude::*;
use vstd::string::*;
use vstd::utf8::*;

verus! {

/// `String::push` appends one character.
pub assume_specification[ String::push ](s: &mut String, c: char)
    ensures
        final(s)@ == old(s)@.push(c),
;

/// The bytes of a text.
pub open spec fn bytes_of(text: Seq<char>) -> Seq<u8> {
    encode_utf8(text)
}

/// The piece of a text between two byte offsets, where both fall between
/// characters and the first does not lie behind the second.
pub open spec fn piece(text: Seq<char>, start: int, end: int) -> Option<Seq<char>> {
    let bytes = bytes_of(text);
    if 0 <= start <= end <= bytes.len() && is_char_boundary(bytes, start) && is_char_boundary(
        bytes,
        end,
    ) {
        Some(decode_utf8(bytes.subrange(start, end)))
    } else {
        None
    }
}

/// Takes the piece of a text between two byte offsets.
pub fn slice(text: &str, start: usize, end: usize) -> (r: Option<&str>)
    ensures
        match r {
            Some(s) => piece(text@, start as int, end as int) == Some(s@),
            None => piece(text@, start as int, end as int) is None,
        },
{
    let len: usize = text.as_bytes().len();
    if start > end || end > len {
        return None;
    }
    if !text.is_char_boundary(start) || !text.is_char_boundary(end) {
        return None;
    }
    proof {
        encode_utf8_valid_utf8(text@);
    }
    let head = text.split_at(end).0;
    proof {
        lemma_boundary_in_head(text.spec_bytes(), start as int, end as int);
    }
    let tail = head.split_at(start).1;
    proof {
        assert(tail.spec_bytes() =~= text.spec_bytes().subrange(start as int, end as int));
        encode_utf8_decode_utf8(tail@);
    }
    Some(tail)
}

/// An offset between characters of a text is one of each head that holds it.
proof fn lemma_boundary_in_head(bytes: Seq<u8>, start: int, end: int)
    requires
        valid_utf8(bytes),
        0 <= start <= end <= bytes.len(),
        is_char_boundary(bytes, start),
        is_char_boundary(bytes, end),
    ensures
        valid_utf8(bytes.subrange(0, end)),
        is_char_boundary(bytes.subrange(0, end), start),
{
    let head = bytes.subrange(0, end);
    valid_utf8_split(bytes, end);
    if start == end || start == 0 {
        is_char_boundary_start_end_of_seq(head);
    } else {
        is_char_boundary_iff_is_leading_byte(bytes, start);
        is_char_boundary_iff_is_leading_byte(head, start);
        assert(head[start] == bytes[start]);
    }
}

/// Decides whether two texts are the same.
pub fn same_text(a: &str, b: &str) -> (r: bool)
    ensures
        r == (a@ == b@),
{
    let x = a.as_bytes();
    let y = b.as_bytes();
    proof {
        encode_utf8_decode_utf8(a@);
        encode_utf8_decode_utf8(b@);
    }
    if x.len() != y.len() {
        return false;
    }
    let mut i: usize = 0;
    while i < x.len()
        invariant
            i <= x@.len(),
            x@.len() == y@.len(),
            x@ == encode_utf8(a@),
            y@ == encode_utf8(b@),
            x@.take(i as int) =~= y@.take(i as int),
        decreases x.len() - i,
    {
        if x[i] != y[i] {
            assert(x@[i as int] != y@[i as int]);
            return false;
        }
        i = i + 1;
        assert(x@.take(i as int) =~= x@.take(i - 1).push(x@[i - 1]));
        assert(y@.take(i as int) =~= y@.take(i - 1).push(y@[i - 1]));
    }
    assert(x@.take(i as int) =~= x@);
    assert(y@.take(i as int) =~= y@);
    true
}

/// Collects the characters of a text.
pub fn chars_of(s: &str) -> (r: Vec<char>)
    ensures
        r@ == s@,
{
    let mut r: Vec<char> = Vec::new();
    for c in it: s.chars()
        invariant
            it.seq() == s@,
            r@ == s@.take(it.index() as int),
    {
        r.push(c);
        assert(r@ =~= s@.take(it.index() + 1));
    }
    assert(s@.take(s@.len() as int) =~= s@);
    r
}

/// Builds the text of the characters from `start` up to `end`.
pub fn text_of_chars(chars: &Vec<char>, start: usize, end: usize) -> (r: String)
    requires
        start <= end <= chars@.len(),
    ensures
        r@ == chars@.subrange(start as int, end as int),
{
    let mut r = String::new();
    let mut i: usize = start;
    assert(chars@.subrange(start as int, start as int) =~= Seq::<char>::empty());
    while i < end
        invariant
            start <= i <= end <= chars@.len(),
            r@ == chars@.subrange(start as int, i as int),
        decreases end - i,
    {
        r.push(chars[i]);
        assert(chars@.subrange(start as int, i + 1) =~= chars@.subrange(start as int, i as int).push(
            chars@[i as int],
        ));
        i = i + 1;
    }
    r
}

/// The order of texts by their characters, of which the first difference
/// decides; a text comes before one that it begins.
pub open spec fn precedes(a: Seq<char>, b: Seq<char>) -> bool
    decreases b.len(),
{
    if b.len() == 0 {
        false
    } else if a.len() == 0 {
        true
    } else if a[0] == b[0] {
        precedes(a.drop_first(), b.drop_first())
    } else {
        (a[0] as u32) < (b[0] as u32)
    }
}

/// Decides whether a text comes before another.
pub fn comes_before(a: &str, b: &str) -> (r: bool)
    ensures
        r == precedes(a@, b@),
{
    let x = chars_of(a);
    let y = chars_of(b);
    let mut i: usize = 0;
    assert(a@.skip(0) =~= a@);
    assert(b@.skip(0) =~= b@);
    while i < x.len() && i < y.len()
        invariant
            x@ == a@,
            y@ == b@,
            i <= x@.len(),
            i <= y@.len(),
            precedes(a@, b@) == precedes(a@.skip(i as int), b@.skip(i as int)),
        decreases x.len() - i,
    {
        let c: char = x[i];
        let d: char = y[i];
        if c != d {
            return (c as u32) < (d as u32);
        }
        proof {
            assert(a@.skip(i as int).drop_first() =~= a@.skip(i + 1));
            assert(b@.skip(i as int).drop_first() =~= b@.skip(i + 1));
        }
        i = i + 1;
    }
    i < y.len()
}

/// The order of texts is a strict one, and total.
pub proof fn law_precedes_is_total_order(a: Seq<char>, b: Seq<char>, c: Seq<char>)
    ensures
        !precedes(a, a),
        precedes(a, b) && precedes(b, c) ==> precedes(a, c),
        a == b || precedes(a, b) || precedes(b, a),
    decreases a.len() + b.len() + c.len(),
{
    if a.len() > 0 && b.len() > 0 && c.len() > 0 {
        law_precedes_is_total_order(a.drop_first(), b.drop_first(), c.drop_first());
    } else if a.len() > 0 && b.len() > 0 {
        law_precedes_is_total_order(a.drop_first(), b.drop_first(), c);
    } else if a.len() > 0 {
        law_precedes_is_total_order(a.drop_first(), b, c);
    }
    if a.len() > 0 && b.len() > 0 {
        if a[0] == b[0] {
            if a.drop_first() == b.drop_first() {
                assert(a =~= seq![a[0]] + a.drop_first());
                assert(b =~= seq![b[0]] + b.drop_first());
            }
        } else {
            char_u32_cast(a[0], a[0] as u32);
            char_u32_cast(b[0], b[0] as u32);
        }
    }
    if a.len() == 0 && b.len() == 0 {
        assert(a =~= b);
    }
}

/// A head of a text that is text by itself ends between characters.
proof fn lemma_valid_head_ends_at_boundary(bytes: Seq<u8>, n: int)
    requires
        valid_utf8(bytes),
        0 <= n <= bytes.len(),
        valid_utf8(bytes.subrange(0, n)),
    ensures
        is_char_boundary(bytes, n),
    decreases bytes.len(),
{
    let head = bytes.subrange(0, n);
    if n > 0 {
        let width = length_of_first_scalar(bytes);
        assert(head[0] == bytes[0]);
        assert(length_of_first_scalar(head) == width);
        assert(valid_first_scalar(head));
        assert(width <= n);
        let rest = pop_first_scalar(bytes);
        assert(pop_first_scalar(head) =~= rest.subrange(0, n - width));
        lemma_valid_head_ends_at_boundary(rest, n - width);
    }
}

/// A stretch of the bytes of a text is text by itself if and only if it begins
/// and ends between characters.
pub proof fn law_piece_iff_valid(text: Seq<char>, start: int, end: int)
    requires
        0 <= start < end <= bytes_of(text).len(),
    ensures
        piece(text, start, end) is Some <==> valid_utf8(bytes_of(text).subrange(start, end)),
{
    let bytes = bytes_of(text);
    let part = bytes.subrange(start, end);
    encode_utf8_valid_utf8(text);
    if piece(text, start, end) is Some {
        lemma_boundary_in_head(bytes, start, end);
        let head = bytes.subrange(0, end);
        valid_utf8_split(head, start);
        assert(head.subrange(start, end) =~= part);
    }
    if valid_utf8(part) {
        assert(part[0] == bytes[start]);
        is_char_boundary_iff_is_leading_byte(part, 0);
        is_char_boundary_iff_is_leading_byte(bytes, start);
        valid_utf8_split(bytes, start);
        let tail = bytes.subrange(start, bytes.len() as int);
        assert(tail.subrange(0, end - start) =~= part);
        lemma_valid_head_ends_at_boundary(tail, end - start);
        if end < bytes.len() {
            assert(tail[end - start] == bytes[end]);
            is_char_boundary_iff_is_leading_byte(tail, end - start);
            is_char_boundary_iff_is_leading_byte(bytes, end);
        } else {
            is_char_boundary_start_end_of_seq(bytes);
        }
    }
}

/// Pieces that meet make up the piece from the first start to the last end.
pub proof fn law_pieces_join(text: Seq<char>, a: int, b: int, c: int)
    requires
        piece(text, a, b) is Some,
        piece(text, b, c) is Some,
    ensures
        piece(text, a, c) == Some(piece(text, a, b)->0 + piece(text, b, c)->0),
{
    let bytes = bytes_of(text);
    encode_utf8_valid_utf8(text);
    lemma_boundary_in_head(bytes, a, c);
    lemma_boundary_in_head(bytes, b, c);
    let head = bytes.subrange(0, c);
    valid_utf8_split(head, a);
    let part = head.subrange(a, c);
    assert(part =~= bytes.subrange(a, c));
    assert(is_char_boundary(part, b - a)) by {
        if b < c {
            if b > a {
                is_char_boundary_iff_is_leading_byte(head, b);
                is_char_boundary_iff_is_leading_byte(part, b - a);
                assert(part[b - a] == head[b]);
            }
        } else {
            is_char_boundary_start_end_of_seq(part);
        }
    }
    decode_utf8_split(part, b - a);
    assert(part.subrange(0, b - a) =~= bytes.subrange(a, b));
    assert(part.subrange(b - a, c - a) =~= bytes.subrange(b, c));
}

/// The bytes of a text and another behind it are those of the one, and then those of the
/// other.
pub proof fn law_bytes_join(a: Seq<char>, b: Seq<char>)
    ensures
        bytes_of(a + b) == bytes_of(a) + bytes_of(b),
    decreases a.len(),
{
    if a.len() == 0 {
        assert(a + b =~= b);
        assert(bytes_of(a) + bytes_of(b) =~= bytes_of(b));
    } else {
        law_bytes_join(a.drop_first(), b);
        assert((a + b).drop_first() =~= a.drop_first() + b);
        assert((a + b)[0] == a[0]);
        assert(bytes_of(a + b) =~= bytes_of(a) + bytes_of(b));
    }
}

/// A piece of a text holds the bytes between its offsets.
pub proof fn law_bytes_of_piece(text: Seq<char>, start: int, end: int)
    requires
        piece(text, start, end) is Some,
    ensures
        bytes_of(piece(text, start, end)->0) == bytes_of(text).subrange(start, end),
{
    let part = bytes_of(text).subrange(start, end);
    if start < end {
        law_piece_iff_valid(text, start, end);
        decode_utf8_encode_utf8(part);
    } else {
        assert(part =~= Seq::<u8>::empty());
        assert(decode_utf8(part) =~= Seq::<char>::empty());
    }
}

/// An ASCII character begins and ends between characters.
pub proof fn law_ascii_stands_alone(text: Seq<char>, i: int)
    requires
        0 <= i < bytes_of(text).len(),
        bytes_of(text)[i] < 0x80,
    ensures
        piece(text, i, i + 1) is Some,
{
    let bytes = bytes_of(text);
    encode_utf8_valid_utf8(text);
    is_char_boundary_iff_not_is_continuation_byte(bytes, i);
    valid_utf8_split(bytes, i);
    let tail = bytes.subrange(i, bytes.len() as int);
    assert(tail[0] == bytes[i]);
    assert(length_of_first_scalar(tail) == 1);
    reveal_with_fuel(is_char_boundary, 2);
    assert(is_char_boundary(tail, 1));
    if i + 1 < bytes.len() {
        assert(tail[1] == bytes[i + 1]);
        is_char_boundary_iff_is_leading_byte(tail, 1);
        is_char_boundary_iff_is_leading_byte(bytes, i + 1);
    } else {
        is_char_boundary_start_end_of_seq(bytes);
    }
}

/// The piece from the first byte to the last is the text.
pub proof fn law_whole_piece(text: Seq<char>)
    ensures
        piece(text, 0, bytes_of(text).len() as int) == Some(text),
{
    let bytes = bytes_of(text);
    encode_utf8_valid_utf8(text);
    encode_utf8_decode_utf8(text);
    is_char_boundary_start_end_of_seq(bytes);
    assert(bytes.subrange(0, bytes.len() as int) =~= bytes);
}

/// No bytes are those of the empty text, and of no other.
pub proof fn law_bytes_of_nothing(s: Seq<char>)
    ensures
        bytes_of(s).len() == 0 <==> s.len() == 0,
        bytes_of(s).len() == 0 ==> s == Seq::<char>::empty(),
{
    encode_utf8_decode_utf8(s);
    let none = Seq::<char>::empty();
    assert(bytes_of(none) =~= Seq::<u8>::empty());
    if s.len() == 0 {
        assert(s =~= none);
    }
    if bytes_of(s).len() == 0 {
        assert(bytes_of(s) =~= Seq::<u8>::empty());
        assert(decode_utf8(bytes_of(s)) =~= none);
    }
}

/// A text with another in front of it and one behind it is the piece between the bytes of
/// the one and those of the other.
pub proof fn law_piece_of_parts(x: Seq<char>, y: Seq<char>, z: Seq<char>)
    ensures
        ({
            let start = bytes_of(x).len() as int;
            piece(x + y + z, start, start + bytes_of(y).len()) == Some(y)
        }),
{
    let all = x + y + z;
    let bytes = bytes_of(all);
    let start = bytes_of(x).len() as int;
    let end = start + bytes_of(y).len();
    law_bytes_join(x + y, z);
    law_bytes_join(x, y);
    assert(bytes.subrange(start, end) =~= bytes_of(y));
    encode_utf8_valid_utf8(all);
    encode_utf8_valid_utf8(y);
    encode_utf8_valid_utf8(z);
    encode_utf8_decode_utf8(y);
    is_char_boundary_start_end_of_seq(bytes);
    if start < end {
        law_piece_iff_valid(all, start, end);
    } else if end < bytes.len() {
        assert(bytes.subrange(end, bytes.len() as int) =~= bytes_of(z));
        law_piece_iff_valid(all, end, bytes.len() as int);
    }
}

/// A decimal digit.
pub open spec fn is_digit(c: char) -> bool {
    '0' <= c && c <= '9'
}

/// The number that a row of decimal digits stands for.
pub open spec fn digits_value(s: Seq<char>) -> nat
    decreases s.len(),
{
    if s.len() == 0 {
        0
    } else {
        digits_value(s.drop_last()) * 10 + (s.last() as u32 - '0' as u32) as nat
    }
}

/// The digits of a written number, of which a plus sign may stand in front.
pub open spec fn unsigned_part(s: Seq<char>) -> Seq<char> {
    if s.len() > 0 && s[0] == '+' {
        s.skip(1)
    } else {
        s
    }
}

/// The number that a text writes, if it writes one that a `usize` holds: decimal
/// digits, at least one, behind an optional plus sign.
pub open spec fn parsed_usize(s: Seq<char>) -> Option<usize> {
    let digits = unsigned_part(s);
    if digits.len() > 0 && (forall|i: int| 0 <= i < digits.len() ==> is_digit(#[trigger] digits[i]))
        && digits_value(digits) <= usize::MAX {
        Some(digits_value(digits) as usize)
    } else {
        None
    }
}

/// What is wrong with a text that writes no `usize`; nothing where it writes one.
pub uninterp spec fn usize_fault_of(s: Seq<char>) -> Seq<char>;

/// `str::parse` to a `usize` returns an error whose text depends on the parsed text
/// alone. What the error says is not stated.
#[verifier::external_body]
pub(crate) fn usize_fault(s: &str) -> (r: String)
    ensures
        r@ == usize_fault_of(s@),
{
    match s.parse::<usize>() {
        Ok(_) => String::new(),
        Err(e) => e.to_string(),
    }
}

/// More digits never make a smaller number.
proof fn lemma_more_digits(s: Seq<char>, n: int)
    requires
        0 <= n <= s.len(),
    ensures
        digits_value(s.take(n)) <= digits_value(s),
    decreases s.len(),
{
    if n < s.len() {
        lemma_more_digits(s.drop_last(), n);
        assert(s.drop_last().take(n) =~= s.take(n));
    } else {
        assert(s.take(n) =~= s);
    }
}

/// Reads a written number.
pub fn parse_usize(s: &str) -> (r: Option<usize>)
    ensures
        r == parsed_usize(s@),
{
    let chars = chars_of(s);
    let start: usize = if chars.len() > 0 && chars[0] == '+' {
        1
    } else {
        0
    };
    let ghost digits = unsigned_part(s@);
    assert(digits =~= s@.skip(start as int));
    if chars.len() == start {
        return None;
    }
    let mut value: usize = 0;
    let mut i: usize = start;
    assert(digits.take(0) =~= Seq::<char>::empty());
    while i < chars.len()
        invariant
            start <= i <= chars@.len(),
            chars@ == s@,
            digits == s@.skip(start as int),
            digits == unsigned_part(s@),
            value == digits_value(digits.take(i - start)),
            forall|k: int| 0 <= k < i - start ==> is_digit(#[trigger] digits[k]),
        decreases chars.len() - i,
    {
        let c: char = chars[i];
        let ghost at = i - start;
        assert(digits[at] == c);
        if !('0' <= c && c <= '9') {
            return None;
        }
        let d: usize = (c as u32 - '0' as u32) as usize;
        proof {
            assert(digits.take(at + 1).drop_last() =~= digits.take(at));
            assert(digits_value(digits.take(at + 1)) == value * 10 + d);
            lemma_more_digits(digits, at + 1);
        }
        if value > (usize::MAX - d) / 10 {
            assert(value * 10 + d > usize::MAX);
            return None;
        }
        value = value * 10 + d;
        i = i + 1;
    }
    assert(digits.take(digits.len() as int) =~= digits);
    Some(value)
}

/// The character of a decimal digit.
pub open spec fn digit_char(d: nat) -> char {
    ('0' as u32 + d) as char
}

/// A number in decimal digits.
pub open spec fn decimal(n: nat) -> Seq<char>
    decreases n,
{
    if n < 10 {
        seq![digit_char(n)]
    } else {
        decimal(n / 10).push(digit_char(n % 10))
    }
}

/// The character of a decimal digit.
fn digit(d: usize) -> (c: char)
    requires
        d < 10,
    ensures
        c == digit_char(d as nat),
{
    match d {
        0 => '0',
        1 => '1',
        2 => '2',
        3 => '3',
        4 => '4',
        5 => '5',
        6 => '6',
        7 => '7',
        8 => '8',
        _ => '9',
    }
}

/// Writes a number in decimal digits.
pub fn write_decimal(n: usize) -> (r: String)
    ensures
        r@ == decimal(n as nat),
    decreases n,
{
    if n < 10 {
        let mut r = String::new();
        r.push(digit(n));
        assert(r@ =~= decimal(n as nat));
        r
    } else {
        let mut r = write_decimal(n / 10);
        r.push(digit(n % 10));
        r
    }
}

/// A written number reads as itself.
pub proof fn law_decimal_reads_back(n: usize)
    ensures
        parsed_usize(decimal(n as nat)) == Some(n),
{
    lemma_decimal(n as nat);
    let s = decimal(n as nat);
    assert(is_digit(s[0]));
}

proof fn lemma_decimal(n: nat)
    ensures
        decimal(n).len() > 0,
        forall|i: int| 0 <= i < decimal(n).len() ==> is_digit(#[trigger] decimal(n)[i]),
        digits_value(decimal(n)) == n,
    decreases n,
{
    let s = decimal(n);
    if n < 10 {
        assert(s.drop_last() =~= Seq::<char>::empty());
        assert(is_digit(digit_char(n)));
        assert(digit_char(n) as u32 == '0' as u32 + n);
        assert(digits_value(s.drop_last()) == 0);
        assert(s.last() == digit_char(n));
    } else {
        lemma_decimal(n / 10);
        assert(s.drop_last() =~= decimal(n / 10));
        assert(is_digit(digit_char(n % 10)));
        assert(digit_char(n % 10) as u32 == '0' as u32 + n % 10);
        assert forall|i: int| 0 <= i < s.len() implies is_digit(#[trigger] s[i]) by {
            if i < s.len() - 1 {
                assert(s[i] == decimal(n / 10)[i]);
            }
        }
    }
}

/// How the `Debug` format of `str` writes a text: in quotes, with escapes.
pub uninterp spec fn quoted_of(s: Seq<char>) -> Seq<char>;

/// The `Debug` format of `str`, through `format`, writes a text in quotes, from
/// the text alone.
#[verifier::external_body]
pub(crate) fn quoted(s: &str) -> (r: String)
    ensures
        r@ == quoted_of(s@),
{
    format!("{:?}", s)
}

/// Texts one behind the other, with a separator between.
pub open spec fn joined(parts: Seq<Seq<char>>, separator: Seq<char>) -> Seq<char>
    decreases parts.len(),
{
    if parts.len() == 0 {
        Seq::empty()
    } else if parts.len() == 1 {
        parts[0]
    } else {
        joined(parts.drop_last(), separator) + separator + parts.last()
    }
}

/// What texts hold.
pub open spec fn views(parts: Seq<String>) -> Seq<Seq<char>> {
    parts.map_values(|part: String| part@)
}

/// Puts texts one behind the other, with a separator between.
pub fn join(parts: &Vec<String>, separator: &str) -> (r: String)
    ensures
        r@ == joined(views(parts@), separator@),
{
    let mut r = String::new();
    let mut i: usize = 0;
    let ghost all = views(parts@);
    assert(r@ =~= joined(all.take(0), separator@));
    while i < parts.len()
        invariant
            i <= parts@.len(),
            all == views(parts@),
            r@ == joined(all.take(i as int), separator@),
        decreases parts.len() - i,
    {
        proof {
            assert(all.take(i + 1).drop_last() =~= all.take(i as int));
            assert(all.take(i + 1).last() == parts@[i as int]@);
        }
        if i > 0 {
            r.append(separator);
        }
        r.append(parts[i].as_str());
        assert(r@ =~= joined(all.take(i + 1), separator@));
        i = i + 1;
    }
    assert(all.take(all.len() as int) =~= all);
    r
}

/// Texts in ascending order, each once.
pub open spec fn ascending(names: Seq<Seq<char>>) -> bool {
    forall|i: int, j: int|
        0 <= i < j < names.len() ==> precedes(#[trigger] names[i], #[trigger] names[j])
}

/// Two ascending lists of the same texts are the same list.
pub proof fn law_ascending_lists_are_equal(a: Seq<Seq<char>>, b: Seq<Seq<char>>)
    requires
        ascending(a),
        ascending(b),
        forall|name: Seq<char>| a.contains(name) <==> b.contains(name),
    ensures
        a == b,
    decreases a.len(),
{
    if a.len() == 0 {
        if b.len() > 0 {
            assert(b.contains(b[0]));
            assert(a.contains(b[0]));
        }
        assert(a =~= b);
    } else {
        assert(a.contains(a.last()));
        assert(b.contains(a.last()));
        let i = b.index_of(a.last());
        assert(b.contains(b.last()));
        assert(a.contains(b.last()));
        let j = a.index_of(b.last());
        law_precedes_is_total_order(a.last(), b.last(), a.last());
        if i < b.len() - 1 && j < a.len() - 1 {
            assert(precedes(b[i], b[b.len() - 1]));
            assert(precedes(a[j], a[a.len() - 1]));
            assert(false);
        }
        assert(a.last() == b.last());
        let a0 = a.drop_last();
        let b0 = b.drop_last();
        assert forall|name: Seq<char>| a0.contains(name) <==> b0.contains(name) by {
            if a0.contains(name) {
                let k = a0.index_of(name);
                assert(a[k] == name);
                assert(a.contains(name));
                assert(b.contains(name));
                let m = b.index_of(name);
                law_precedes_is_total_order(name, a.last(), name);
                assert(precedes(a[k], a[a.len() - 1]));
                assert(b0[m] == name);
            }
            if b0.contains(name) {
                let k = b0.index_of(name);
                assert(b[k] == name);
                assert(b.contains(name));
                assert(a.contains(name));
                let m = a.index_of(name);
                law_precedes_is_total_order(name, b.last(), name);
                assert(precedes(b[k], b[b.len() - 1]));
                assert(a0[m] == name);
            }
        }
        assert forall|i: int, j: int| 0 <= i < j < a0.len() implies precedes(
            #[trigger] a0[i],
            #[trigger] a0[j],
        ) by {
            assert(precedes(a[i], a[j]));
        }
        assert forall|i: int, j: int| 0 <= i < j < b0.len() implies precedes(
            #[trigger] b0[i],
            #[trigger] b0[j],
        ) by {
            assert(precedes(b[i], b[j]));
        }
        law_ascending_lists_are_equal(a0, b0);
        assert(a =~= a0.push(a.last()));
        assert(b =~= b0.push(b.last()));
    }
}

} // verus!
