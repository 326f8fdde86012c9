//! What the file of a tokenizer says, and whether a tokenizer that is built from it can
//! work on every text.

use serde_json::Value;
use tokenizers::Tokenizer;
use vstd::prelude::*;

use crate::json;
use crate::json::{json_of, jsons, Json};
use crate::text;

verus! {

/// A tokenizer.
#[verifier::external_type_specification]
#[verifier::external_body]
pub struct ExTokenizer(tokenizers::Tokenizer);

/// Building a tokenizer from JSON may come to this: a tokenizer, or an error that says
/// this.
pub uninterp spec fn may_build(
    json: Json,
    outcome: Result<tokenizers::Tokenizer, Seq<char>>,
) -> bool;

/// `serde_json::from_value` builds a `Tokenizer` from JSON, or returns an error. What
/// comes of it is stated as something that is possible for the JSON, as an error may
/// name any one of the fields that are missing. Building panics on a table of a
/// `Precompiled` normalizer that cannot be read, on a merge that is shorter than the
/// prefix of continued words, where the ids of added tokens run out, and where the
/// normalizer cannot work on an added token.
#[verifier::external_body]
fn build(value: Value) -> (r: Result<Tokenizer, String>)
    requires
        works_soundly(json_of(value)),
    ensures
        match r {
            Ok(tokenizer) => may_build(json_of(value), Ok(tokenizer)),
            Err(message) => may_build(json_of(value), Err(message@)),
        },
{
    serde_json::from_value(value).map_err(|e: serde_json::Error| e.to_string())
}

/// The member of an object with a name.
pub open spec fn field(json: Json, name: Seq<char>) -> Option<Json> {
    match json {
        Json::Object(all) => if all.contains_key(name) {
            Some(all[name])
        } else {
            None
        },
        _ => None,
    }
}

/// The text that the member of an object holds.
pub open spec fn text_field(json: Json, name: Seq<char>) -> Option<Seq<char>> {
    match field(json, name) {
        Some(Json::Text(text)) => Some(text),
        _ => None,
    }
}

/// The items that the member of an object holds.
pub open spec fn items_field(json: Json, name: Seq<char>) -> Option<Seq<Json>> {
    match field(json, name) {
        Some(Json::Array(items)) => Some(items),
        _ => None,
    }
}

/// The member of an object with a name, unless it is null.
pub open spec fn part(json: Json, name: Seq<char>) -> Option<Json> {
    match field(json, name) {
        Some(Json::Null) => None,
        found => found,
    }
}

/// Hands out a member that is not null.
fn part_of<'a>(value: &'a Value, name: &str) -> (r: Option<&'a Value>)
    ensures
        match r {
            Some(found) => part(json_of(*value), name@) == Some(json_of(*found)),
            None => part(json_of(*value), name@) is None,
        },
{
    match json::member(value, name) {
        Some(found) => if json::is_null(found) {
            None
        } else {
            Some(found)
        },
        None => None,
    }
}

/// Hands out the text of a member.
fn text_of<'a>(value: &'a Value, name: &str) -> (r: Option<&'a str>)
    ensures
        match r {
            Some(text) => text_field(json_of(*value), name@) == Some(text@),
            None => text_field(json_of(*value), name@) is None,
        },
{
    match json::member(value, name) {
        Some(found) => json::text_in(found),
        None => None,
    }
}

/// Hands out the items of a member.
fn items_of<'a>(value: &'a Value, name: &str) -> (r: Option<&'a Vec<Value>>)
    ensures
        match r {
            Some(items) => items_field(json_of(*value), name@) == Some(jsons(items@)),
            None => items_field(json_of(*value), name@) is None,
        },
{
    match json::member(value, name) {
        Some(found) => json::items_in(found),
        None => None,
    }
}

/// A character that may stand behind a backslash: the name of a class or of a control
/// character, or a sign that then stands for itself.
pub open spec fn plain_escape(c: char) -> bool {
    ||| c == 's' || c == 'S' || c == 'd' || c == 'D' || c == 'w' || c == 'W'
    ||| c == 'p' || c == 'P' || c == 'n' || c == 'r' || c == 't'
    ||| ('!' <= c && c <= '/') || (':' <= c && c <= '@' && c != '<' && c != '>')
    ||| ('[' <= c && c <= '`') || ('{' <= c && c <= '~')
}

/// The character at a place, if there is one.
pub open spec fn char_at(s: Seq<char>, i: int) -> Option<char> {
    if 0 <= i < s.len() {
        Some(s[i])
    } else {
        None
    }
}

/// A group may begin with a question mark and these two characters: one that captures
/// nothing, looks ahead or behind, is not gone back into, or has no regard to case.
pub open spec fn plain_group(first: Option<char>, second: Option<char>) -> bool {
    ||| first == Some(':') || first == Some('=') || first == Some('!') || first == Some('>')
    ||| first == Some('<') && (second == Some('=') || second == Some('!'))
    ||| first == Some('i') && (second == Some(':') || second == Some(')'))
}

/// Nothing at a place of a regular expression goes beyond plain escapes, plain groups
/// and small counts of single characters.
pub open spec fn plain_at(regex: Seq<char>, i: int) -> bool {
    &&& regex[i] == '\\' ==> (char_at(regex, i + 1) matches Some(c) && plain_escape(c))
    &&& regex[i] == '(' && char_at(regex, i + 1) == Some('?') ==> plain_group(
        char_at(regex, i + 2),
        char_at(regex, i + 3),
    )
    &&& regex[i] == '{' ==> char_at(regex, i - 1) != Some(')')
    &&& !(text::is_digit(regex[i]) && (char_at(regex, i + 1) matches Some(b) && text::is_digit(b))
        && (char_at(regex, i + 2) matches Some(c) && text::is_digit(c)) && (char_at(regex, i + 3)
        matches Some(d) && text::is_digit(d)))
}

/// A regular expression is plain: it does not move the bounds of what it matches, refers
/// to nothing that it matched before, and counts nothing beyond 999.
pub open spec fn plain_regex(regex: Seq<char>) -> bool {
    forall|i: int| 0 <= i < regex.len() ==> plain_at(regex, i)
}

/// Hands out the character at a place, if there is one.
fn char_in(chars: &Vec<char>, i: usize) -> (r: Option<char>)
    ensures
        r == char_at(chars@, i as int),
{
    if i < chars.len() {
        Some(chars[i])
    } else {
        None
    }
}

/// Decides whether a character is a decimal digit.
fn digit_in(c: Option<char>) -> (r: bool)
    ensures
        r == (c matches Some(d) && text::is_digit(d)),
{
    match c {
        Some(d) => '0' <= d && d <= '9',
        None => false,
    }
}

/// Decides whether a character may stand behind a backslash.
fn escapes(c: Option<char>) -> (r: bool)
    ensures
        r == (c matches Some(e) && plain_escape(e)),
{
    match c {
        Some(e) => e == 's' || e == 'S' || e == 'd' || e == 'D' || e == 'w' || e == 'W' || e == 'p'
            || e == 'P' || e == 'n' || e == 'r' || e == 't' || ('!' <= e && e <= '/') || (':' <= e
            && e <= '@' && e != '<' && e != '>') || ('[' <= e && e <= '`') || ('{' <= e && e
            <= '~'),
        None => false,
    }
}

/// Decides whether a group may begin with a question mark and these two characters.
fn groups(first: Option<char>, second: Option<char>) -> (r: bool)
    ensures
        r == plain_group(first, second),
{
    match first {
        Some(c) => if c == ':' || c == '=' || c == '!' || c == '>' {
            true
        } else {
            match second {
                Some(d) => (c == '<' && (d == '=' || d == '!')) || (c == 'i' && (d == ':' || d
                    == ')')),
                None => false,
            }
        },
        None => false,
    }
}

/// Decides whether a regular expression is plain.
fn is_plain(regex: &str) -> (r: bool)
    ensures
        r == plain_regex(regex@),
{
    let chars = text::chars_of(regex);
    let len: usize = chars.len();
    let mut i: usize = 0;
    while i < len
        invariant
            i <= len,
            len == chars@.len(),
            chars@ == regex@,
            forall|k: int| 0 <= k < i ==> plain_at(regex@, k),
        decreases len - i,
    {
        let c: char = chars[i];
        let left: usize = len - i;
        let next: Option<char> = if left > 1 {
            char_in(&chars, i + 1)
        } else {
            None
        };
        let second: Option<char> = if left > 2 {
            char_in(&chars, i + 2)
        } else {
            None
        };
        let third: Option<char> = if left > 3 {
            char_in(&chars, i + 3)
        } else {
            None
        };
        let closed = i > 0 && chars[i - 1] == ')';
        let asks = match next {
            Some(n) => n == '?',
            None => false,
        };
        let long = digit_in(Some(c)) && digit_in(next) && digit_in(second) && digit_in(third);
        if (c == '\\' && !escapes(next)) || (c == '(' && asks && !groups(second, third)) || (c == '{'
            && closed) || long {
            assert(!plain_at(regex@, i as int));
            return false;
        }
        i = i + 1;
    }
    true
}

/// A sign by which a part of a regular expression may match nothing.
pub open spec fn may_match_nothing(c: char) -> bool {
    c == '(' || c == ')' || c == '|' || c == '*' || c == '?' || c == '^' || c == '$'
}

/// A regular expression is a row of characters and classes of characters, each of which
/// comes at least once, so that it never matches the empty text.
pub open spec fn matches_something(regex: Seq<char>) -> bool {
    &&& regex.len() > 0
    &&& forall|i: int| 0 <= i < regex.len() ==> comes_once(regex, i)
}

/// A character of a regular expression stands for itself, for a class or for at least
/// one repetition.
pub open spec fn comes_once(regex: Seq<char>, i: int) -> bool {
    let next = if i + 1 < regex.len() {
        Some(regex[i + 1])
    } else {
        None
    };
    &&& !may_match_nothing(regex[i])
    &&& regex[i] == '\\' ==> (next matches Some(c) && (c == 's' || c == 'S' || c == 'd' || c == 'D'
        || c == 'w' || c == 'W'))
    &&& regex[i] == '{' ==> (next matches Some(c) && '1' <= c && c <= '9')
}

/// Decides whether a regular expression never matches the empty text, as far as its
/// signs show it.
fn needs_something(regex: &str) -> (r: bool)
    ensures
        r == matches_something(regex@),
{
    let chars = text::chars_of(regex);
    let mut i: usize = 0;
    while i < chars.len()
        invariant
            i <= chars@.len(),
            chars@ == regex@,
            forall|k: int| 0 <= k < i ==> comes_once(regex@, k),
        decreases chars.len() - i,
    {
        let c: char = chars[i];
        let next: Option<char> = if i + 1 < chars.len() {
            Some(chars[i + 1])
        } else {
            None
        };
        let optional = c == '(' || c == ')' || c == '|' || c == '*' || c == '?' || c == '^' || c
            == '$';
        let escaped = match next {
            Some(n) => n == 's' || n == 'S' || n == 'd' || n == 'D' || n == 'w' || n == 'W',
            None => false,
        };
        let counted = match next {
            Some(n) => '1' <= n && n <= '9',
            None => false,
        };
        if optional || (c == '\\' && !escaped) || (c == '{' && !counted) {
            assert(!comes_once(regex@, i as int));
            return false;
        }
        i = i + 1;
    }
    chars.len() > 0
}

/// A normalizer never takes away the alignment of a text's first character: a
/// replacement that puts in characters replaces some.
pub open spec fn replaces_soundly(json: Json) -> bool {
    match (field(json, "pattern"@), text_field(json, "content"@)) {
        (Some(pattern), Some(content)) => {
            ||| text_field(pattern, "String"@) matches Some(wanted) && (wanted.len() > 0
                || content.len() == 0)
            ||| text_field(pattern, "Regex"@) matches Some(regex) && plain_regex(regex) && (
            matches_something(regex) || content.len() == 0)
        },
        _ => false,
    }
}

/// Decides whether a replacement is sound.
fn can_replace(value: &Value) -> (r: bool)
    ensures
        r == replaces_soundly(json_of(*value)),
{
    match (json::member(value, "pattern"), text_of(value, "content")) {
        (Some(pattern), Some(content)) => {
            let empty = text::chars_of(content).len() == 0;
            if let Some(wanted) = text_of(pattern, "String") {
                if empty || text::chars_of(wanted).len() > 0 {
                    return true;
                }
            }
            if let Some(regex) = text_of(pattern, "Regex") {
                if is_plain(regex) && (empty || needs_something(regex)) {
                    return true;
                }
            }
            false
        },
        _ => false,
    }
}

/// A kind of normalizer that works on every text, whatever its settings are.
pub open spec fn plain_normalizer(kind: Seq<char>) -> bool {
    ||| kind == "Strip"@
    ||| kind == "StripAccents"@
    ||| kind == "NFC"@
    ||| kind == "NFD"@
    ||| kind == "NFKC"@
    ||| kind == "NFKD"@
    ||| kind == "Lowercase"@
    ||| kind == "Nmt"@
    ||| kind == "ByteLevel"@
}

/// A member holds a truth value.
pub open spec fn has_truth(json: Json, name: Seq<char>) -> bool {
    field(json, name) matches Some(Json::Bool(_))
}

/// All that the normalizer of BERT is told.
pub open spec fn is_bert(json: Json) -> bool {
    &&& has_truth(json, "clean_text"@)
    &&& has_truth(json, "handle_chinese_chars"@)
    &&& has_truth(json, "lowercase"@)
    &&& part(json, "strip_accents"@) is None || has_truth(json, "strip_accents"@)
}

/// Decides whether a member holds a truth value.
fn holds_truth(value: &Value, name: &str) -> (r: bool)
    ensures
        r == has_truth(json_of(*value), name@),
{
    match json::member(value, name) {
        Some(found) => json::truth_in(found).is_some(),
        None => false,
    }
}

/// A normalizer works on every text.
pub open spec fn normalizes_soundly(json: Json) -> bool
    decreases json,
{
    match text_field(json, "type"@) {
        Some(kind) => if kind == "Sequence"@ {
            items_field(json, "normalizers"@) matches Some(items) && forall|i: int|
                0 <= i < items.len() ==> normalizes_soundly(#[trigger] items[i])
        } else if kind == "Prepend"@ {
            text_field(json, "prepend"@) matches Some(head) && head.len() > 0
        } else if kind == "Replace"@ {
            replaces_soundly(json)
        } else if kind == "BertNormalizer"@ {
            is_bert(json)
        } else {
            plain_normalizer(kind)
        },
        None => false,
    }
}

/// Decides whether a normalizer works on every text.
fn can_normalize(value: &Value) -> (r: bool)
    ensures
        r == normalizes_soundly(json_of(*value)),
    decreases json_of(*value),
{
    let kind = match text_of(value, "type") {
        Some(kind) => kind,
        None => return false,
    };
    if text::same_text(kind, "Sequence") {
        let items = match items_of(value, "normalizers") {
            Some(items) => items,
            None => return false,
        };
        let mut i: usize = 0;
        while i < items.len()
            invariant
                i <= items@.len(),
                text_field(json_of(*value), "type"@) == Some("Sequence"@),
                items_field(json_of(*value), "normalizers"@) == Some(jsons(items@)),
                forall|k: int| 0 <= k < i ==> normalizes_soundly(#[trigger] jsons(items@)[k]),
            decreases items.len() - i,
        {
            assert(jsons(items@)[i as int] == json_of(items@[i as int]));
            if !can_normalize(&items[i]) {
                proof {
                    if normalizes_soundly(json_of(*value)) {
                        lemma_normalizes_soundly(json_of(*value), jsons(items@), i as int);
                    }
                }
                return false;
            }
            i = i + 1;
        }
        true
    } else if text::same_text(kind, "Prepend") {
        match text_of(value, "prepend") {
            Some(head) => text::chars_of(head).len() > 0,
            None => false,
        }
    } else if text::same_text(kind, "Replace") {
        can_replace(value)
    } else if text::same_text(kind, "BertNormalizer") {
        holds_truth(value, "clean_text") && holds_truth(value, "handle_chinese_chars")
            && holds_truth(value, "lowercase") && (part_of(value, "strip_accents").is_none()
            || holds_truth(value, "strip_accents"))
    } else {
        text::same_text(kind, "Strip") || text::same_text(kind, "StripAccents") || text::same_text(kind, "NFC")
            || text::same_text(kind, "NFD") || text::same_text(kind, "NFKC")
            || text::same_text(kind, "NFKD") || text::same_text(kind, "Lowercase")
            || text::same_text(kind, "Nmt") || text::same_text(kind, "ByteLevel")
    }
}

/// A row of normalizers is no better than each of them.
proof fn lemma_normalizes_soundly(json: Json, items: Seq<Json>, i: int)
    requires
        text_field(json, "type"@) == Some("Sequence"@),
        items_field(json, "normalizers"@) == Some(items),
        0 <= i < items.len(),
        normalizes_soundly(json),
    ensures
        normalizes_soundly(items[i]),
{
    assert(items_field(json, "normalizers"@)->0 == items);
}

/// A normalizer turns no visible ASCII character into nothing or into whitespace.
pub open spec fn keeps_visible(json: Json) -> bool
    decreases json,
{
    match text_field(json, "type"@) {
        Some(kind) => if kind == "Sequence"@ {
            items_field(json, "normalizers"@) matches Some(items) && forall|i: int|
                0 <= i < items.len() ==> keeps_visible(#[trigger] items[i])
        } else {
            kind != "Replace"@
        },
        None => false,
    }
}

/// A row of normalizers keeps no more than each of them.
proof fn lemma_keeps_visible(json: Json, items: Seq<Json>, i: int)
    requires
        text_field(json, "type"@) == Some("Sequence"@),
        items_field(json, "normalizers"@) == Some(items),
        0 <= i < items.len(),
        keeps_visible(json),
    ensures
        keeps_visible(items[i]),
{
    assert(items_field(json, "normalizers"@)->0 == items);
}

/// Decides whether a normalizer turns no visible ASCII character into nothing or into
/// whitespace.
fn will_show(value: &Value) -> (r: bool)
    ensures
        r == keeps_visible(json_of(*value)),
    decreases json_of(*value),
{
    let kind = match text_of(value, "type") {
        Some(kind) => kind,
        None => return false,
    };
    if text::same_text(kind, "Sequence") {
        let items = match items_of(value, "normalizers") {
            Some(items) => items,
            None => return false,
        };
        let mut i: usize = 0;
        while i < items.len()
            invariant
                i <= items@.len(),
                text_field(json_of(*value), "type"@) == Some("Sequence"@),
                items_field(json_of(*value), "normalizers"@) == Some(jsons(items@)),
                forall|k: int| 0 <= k < i ==> keeps_visible(#[trigger] jsons(items@)[k]),
            decreases items.len() - i,
        {
            assert(jsons(items@)[i as int] == json_of(items@[i as int]));
            if !will_show(&items[i]) {
                proof {
                    if keeps_visible(json_of(*value)) {
                        lemma_keeps_visible(json_of(*value), jsons(items@), i as int);
                    }
                }
                return false;
            }
            i = i + 1;
        }
        true
    } else {
        !text::same_text(kind, "Replace")
    }
}

/// A normalizer leaves nothing of no text but the empty one.
pub open spec fn leaves_something(json: Json) -> bool
    decreases json,
{
    match text_field(json, "type"@) {
        Some(kind) => if kind == "Sequence"@ {
            items_field(json, "normalizers"@) matches Some(items) && forall|i: int|
                0 <= i < items.len() ==> leaves_something(#[trigger] items[i])
        } else if kind == "Replace"@ {
            text_field(json, "content"@) matches Some(content) && content.len() > 0
        } else {
            ||| kind == "NFC"@
            ||| kind == "NFD"@
            ||| kind == "NFKC"@
            ||| kind == "NFKD"@
            ||| kind == "Lowercase"@
            ||| kind == "ByteLevel"@
            ||| kind == "Prepend"@
        },
        None => false,
    }
}

/// A row of normalizers leaves no more than each of them.
proof fn lemma_leaves_something(json: Json, items: Seq<Json>, i: int)
    requires
        text_field(json, "type"@) == Some("Sequence"@),
        items_field(json, "normalizers"@) == Some(items),
        0 <= i < items.len(),
        leaves_something(json),
    ensures
        leaves_something(items[i]),
{
    assert(items_field(json, "normalizers"@)->0 == items);
}

/// Decides whether a normalizer leaves nothing of no text but the empty one.
fn will_leave(value: &Value) -> (r: bool)
    ensures
        r == leaves_something(json_of(*value)),
    decreases json_of(*value),
{
    let kind = match text_of(value, "type") {
        Some(kind) => kind,
        None => return false,
    };
    if text::same_text(kind, "Sequence") {
        let items = match items_of(value, "normalizers") {
            Some(items) => items,
            None => return false,
        };
        let mut i: usize = 0;
        while i < items.len()
            invariant
                i <= items@.len(),
                text_field(json_of(*value), "type"@) == Some("Sequence"@),
                items_field(json_of(*value), "normalizers"@) == Some(jsons(items@)),
                forall|k: int| 0 <= k < i ==> leaves_something(#[trigger] jsons(items@)[k]),
            decreases items.len() - i,
        {
            assert(jsons(items@)[i as int] == json_of(items@[i as int]));
            if !will_leave(&items[i]) {
                proof {
                    if leaves_something(json_of(*value)) {
                        lemma_leaves_something(json_of(*value), jsons(items@), i as int);
                    }
                }
                return false;
            }
            i = i + 1;
        }
        true
    } else if text::same_text(kind, "Replace") {
        match text_of(value, "content") {
            Some(content) => text::chars_of(content).len() > 0,
            None => false,
        }
    } else {
        text::same_text(kind, "NFC") || text::same_text(kind, "NFD") || text::same_text(
            kind,
            "NFKC",
        ) || text::same_text(kind, "NFKD") || text::same_text(kind, "Lowercase")
            || text::same_text(kind, "ByteLevel") || text::same_text(kind, "Prepend")
    }
}

/// A kind of pre-tokenizer that works on every text, whatever its settings are.
pub open spec fn plain_pre_tokenizer(kind: Seq<char>) -> bool {
    ||| kind == "BertPreTokenizer"@
    ||| kind == "ByteLevel"@
    ||| kind == "CharDelimiterSplit"@
    ||| kind == "Metaspace"@
    ||| kind == "Whitespace"@
    ||| kind == "WhitespaceSplit"@
    ||| kind == "Punctuation"@
    ||| kind == "Digits"@
    ||| kind == "UnicodeScripts"@
}

/// A pattern finds stretches of a text.
pub open spec fn searches_soundly(pattern: Json) -> bool {
    ||| text_field(pattern, "String"@) is Some
    ||| text_field(pattern, "Regex"@) matches Some(regex) && plain_regex(regex)
}

/// A pre-tokenizer works on every text.
pub open spec fn splits_soundly(json: Json) -> bool
    decreases json,
{
    match text_field(json, "type"@) {
        Some(kind) => if kind == "Sequence"@ {
            items_field(json, "pretokenizers"@) matches Some(items) && forall|i: int|
                0 <= i < items.len() ==> splits_soundly(#[trigger] items[i])
        } else if kind == "FixedLength"@ {
            field(json, "length"@) matches Some(length) ==> (length matches Json::Natural(n) && n > 0)
        } else if kind == "Split"@ {
            field(json, "pattern"@) matches Some(pattern) && searches_soundly(pattern)
        } else {
            plain_pre_tokenizer(kind)
        },
        None => false,
    }
}

/// Decides whether a pattern finds stretches of a text.
fn can_search(pattern: &Value) -> (r: bool)
    ensures
        r == searches_soundly(json_of(*pattern)),
{
    if text_of(pattern, "String").is_some() {
        return true;
    }
    match text_of(pattern, "Regex") {
        Some(regex) => is_plain(regex),
        None => false,
    }
}

/// Decides whether a pre-tokenizer works on every text.
fn can_split(value: &Value) -> (r: bool)
    ensures
        r == splits_soundly(json_of(*value)),
    decreases json_of(*value),
{
    let kind = match text_of(value, "type") {
        Some(kind) => kind,
        None => return false,
    };
    if text::same_text(kind, "Sequence") {
        let items = match items_of(value, "pretokenizers") {
            Some(items) => items,
            None => return false,
        };
        let mut i: usize = 0;
        while i < items.len()
            invariant
                i <= items@.len(),
                text_field(json_of(*value), "type"@) == Some("Sequence"@),
                items_field(json_of(*value), "pretokenizers"@) == Some(jsons(items@)),
                forall|k: int| 0 <= k < i ==> splits_soundly(#[trigger] jsons(items@)[k]),
            decreases items.len() - i,
        {
            assert(jsons(items@)[i as int] == json_of(items@[i as int]));
            if !can_split(&items[i]) {
                proof {
                    if splits_soundly(json_of(*value)) {
                        lemma_splits_soundly(json_of(*value), jsons(items@), i as int);
                    }
                }
                return false;
            }
            i = i + 1;
        }
        true
    } else if text::same_text(kind, "FixedLength") {
        match json::member(value, "length") {
            Some(length) => match json::natural_in(length) {
                Some(n) => n > 0,
                None => false,
            },
            None => true,
        }
    } else if text::same_text(kind, "Split") {
        match json::member(value, "pattern") {
            Some(pattern) => can_search(pattern),
            None => false,
        }
    } else {
        text::same_text(kind, "BertPreTokenizer") || text::same_text(kind, "ByteLevel")
            || text::same_text(kind, "CharDelimiterSplit") || text::same_text(kind, "Metaspace")
            || text::same_text(kind, "Whitespace") || text::same_text(kind, "WhitespaceSplit")
            || text::same_text(kind, "Punctuation") || text::same_text(kind, "Digits")
            || text::same_text(kind, "UnicodeScripts")
    }
}

/// A row of pre-tokenizers is no better than each of them.
proof fn lemma_splits_soundly(json: Json, items: Seq<Json>, i: int)
    requires
        text_field(json, "type"@) == Some("Sequence"@),
        items_field(json, "pretokenizers"@) == Some(items),
        0 <= i < items.len(),
        splits_soundly(json),
    ensures
        splits_soundly(items[i]),
{
    assert(items_field(json, "pretokenizers"@)->0 == items);
}

/// How many of the first `n` pieces of a template stand for a sequence.
pub open spec fn sequences(pieces: Seq<Json>, n: int) -> nat
    decreases n,
{
    if n <= 0 {
        0
    } else if field(pieces[n - 1], "Sequence"@) is Some {
        sequences(pieces, n - 1) + 1
    } else {
        sequences(pieces, n - 1)
    }
}

/// A piece of a template stands for one of the sequences of a pair, the first of them
/// where there is no second, or for a special token.
pub open spec fn is_piece(piece: Json, second: bool) -> bool {
    match field(piece, "Sequence"@) {
        Some(sequence) => text_field(sequence, "id"@) == Some("A"@) || (second && text_field(
            sequence,
            "id"@,
        ) == Some("B"@)),
        None => field(piece, "SpecialToken"@) is Some,
    }
}

/// Pieces of a template, of which none stands for a second sequence where there is none.
pub open spec fn are_pieces(pieces: Seq<Json>, second: bool) -> bool {
    forall|i: int| 0 <= i < pieces.len() ==> is_piece(#[trigger] pieces[i], second)
}

/// How many sequences a template makes of one or two; none where it cannot be
/// filled in. Special tokens are left out.
pub open spec fn filled_in(json: Json, count: nat) -> Option<nat> {
    let name = if count == 1 {
        "single"@
    } else {
        "pair"@
    };
    match items_field(json, name) {
        Some(pieces) => if (count == 1 || count == 2) && are_pieces(pieces, count == 2) {
            Some(sequences(pieces, pieces.len() as int))
        } else {
            None
        },
        None => None,
    }
}

/// How many sequences a post-processor makes of so many; none where it cannot work
/// on them.
pub open spec fn left_after(json: Json, count: nat) -> Option<nat>
    decreases json, 0int,
{
    match text_field(json, "type"@) {
        Some(kind) => if kind == "TemplateProcessing"@ {
            if field(json, "sep"@) is None {
                filled_in(json, count)
            } else {
                None
            }
        } else if field(json, "single"@) is Some {
            None
        } else if kind == "Sequence"@ {
            match items_field(json, "processors"@) {
                Some(items) => if field(json, "sep"@) is None {
                    left_after_first(items, items.len() as int, count)
                } else {
                    None
                },
                None => None,
            }
        } else if kind == "BertProcessing"@ || kind == "RobertaProcessing"@ || kind
            == "ByteLevel"@ {
            Some(count)
        } else {
            None
        },
        None => None,
    }
}

/// How many sequences the first `n` post-processors make of so many, one after the
/// other; none where one of them cannot work on what it is handed.
pub open spec fn left_after_first(items: Seq<Json>, n: int, count: nat) -> Option<nat>
    decreases items, n,
{
    if n <= 0 || n > items.len() {
        Some(count)
    } else {
        match left_after_first(items, n - 1, count) {
            Some(left) => left_after(items[n - 1], left),
            None => None,
        }
    }
}

/// Decides whether a piece of a template stands for a sequence that is there, or for a
/// special token.
fn fits_in(piece: &Value, second: bool) -> (r: bool)
    ensures
        r == is_piece(json_of(*piece), second),
{
    match json::member(piece, "Sequence") {
        Some(sequence) => match text_of(sequence, "id") {
            Some(id) => text::same_text(id, "A") || (second && text::same_text(id, "B")),
            None => false,
        },
        None => json::member(piece, "SpecialToken").is_some(),
    }
}

/// Counts the sequences that a template makes of one or two.
fn fill_in(value: &Value, count: usize) -> (r: Option<usize>)
    ensures
        match r {
            Some(n) => filled_in(json_of(*value), count as nat) == Some(n as nat),
            None => filled_in(json_of(*value), count as nat) is None,
        },
{
    if count != 1 && count != 2 {
        return None;
    }
    let name = if count == 1 {
        "single"
    } else {
        "pair"
    };
    let pieces = match items_of(value, name) {
        Some(pieces) => pieces,
        None => return None,
    };
    let mut n: usize = 0;
    let mut i: usize = 0;
    while i < pieces.len()
        invariant
            n <= i <= pieces@.len(),
            count == 1 || count == 2,
            name@ == (if count == 1 {
                "single"@
            } else {
                "pair"@
            }),
            items_field(json_of(*value), name@) == Some(jsons(pieces@)),
            n == sequences(jsons(pieces@), i as int),
            forall|k: int|
                0 <= k < i ==> is_piece(#[trigger] jsons(pieces@)[k], count == 2),
        decreases pieces.len() - i,
    {
        assert(jsons(pieces@)[i as int] == json_of(pieces@[i as int]));
        if !fits_in(&pieces[i], count == 2) {
            assert(!is_piece(jsons(pieces@)[i as int], count == 2));
            return None;
        }
        if json::member(&pieces[i], "Sequence").is_some() {
            n = n + 1;
        }
        i = i + 1;
    }
    Some(n)
}

/// Counts the sequences that a post-processor makes of so many.
fn count_left(value: &Value, count: usize) -> (r: Option<usize>)
    ensures
        match r {
            Some(n) => left_after(json_of(*value), count as nat) == Some(n as nat),
            None => left_after(json_of(*value), count as nat) is None,
        },
    decreases json_of(*value),
{
    let kind = match text_of(value, "type") {
        Some(kind) => kind,
        None => return None,
    };
    let separates = json::member(value, "sep").is_some();
    if text::same_text(kind, "TemplateProcessing") {
        if separates {
            None
        } else {
            fill_in(value, count)
        }
    } else if json::member(value, "single").is_some() {
        None
    } else if text::same_text(kind, "Sequence") {
        let items = match items_of(value, "processors") {
            Some(items) => items,
            None => return None,
        };
        if separates {
            return None;
        }
        let mut left: usize = count;
        let mut i: usize = 0;
        while i < items.len()
            invariant
                i <= items@.len(),
                text_field(json_of(*value), "type"@) == Some("Sequence"@),
                "Sequence"@ != "TemplateProcessing"@,
                field(json_of(*value), "sep"@) is None,
                field(json_of(*value), "single"@) is None,
                items_field(json_of(*value), "processors"@) == Some(jsons(items@)),
                left_after_first(jsons(items@), i as int, count as nat) == Some(left as nat),
            decreases items.len() - i,
        {
            assert(jsons(items@)[i as int] == json_of(items@[i as int]));
            match count_left(&items[i], left) {
                Some(n) => left = n,
                None => {
                    proof {
                        lemma_stuck(jsons(items@), i + 1, items@.len() as int, count as nat);
                    }
                    return None;
                },
            }
            i = i + 1;
        }
        Some(left)
    } else if text::same_text(kind, "BertProcessing") || text::same_text(kind, "RobertaProcessing")
        || text::same_text(kind, "ByteLevel") {
        Some(count)
    } else {
        None
    }
}

/// Where one post-processor cannot work, those behind it are not reached.
proof fn lemma_stuck(items: Seq<Json>, n: int, m: int, count: nat)
    requires
        0 <= n <= m <= items.len(),
        left_after_first(items, n, count) is None,
    ensures
        left_after_first(items, m, count) is None,
    decreases m,
{
    if n < m {
        lemma_stuck(items, n, m - 1, count);
    }
}

/// Twice so many tokens can be listed, as far as there is memory: none of their lists
/// takes more than 32 bytes for a token, and half of what `usize` counts is the most that
/// a list may take.
pub open spec fn can_be_held(tokens: nat) -> bool {
    tokens <= usize::MAX / 128
}

/// Decides whether twice so many tokens can be listed.
fn is_held(tokens: u64) -> (r: bool)
    ensures
        r == can_be_held(tokens as nat),
{
    tokens as u128 <= (usize::MAX / 128) as u128
}

/// A padding stays within bounds.
pub open spec fn pads_soundly(json: Json) -> bool {
    &&& match field(json, "strategy"@) {
        Some(Json::Text(strategy)) => strategy == "BatchLongest"@,
        Some(strategy) => field(strategy, "Fixed"@) matches Some(Json::Natural(length)) && can_be_held(
            length,
        ),
        None => false,
    }
    &&& match field(json, "pad_to_multiple_of"@) {
        Some(Json::Null) => true,
        Some(Json::Natural(multiple)) => can_be_held(multiple),
        _ => false,
    }
}

/// Decides whether a padding stays within bounds.
fn can_pad(value: &Value) -> (r: bool)
    ensures
        r == pads_soundly(json_of(*value)),
{
    let strategy = match json::member(value, "strategy") {
        Some(strategy) => strategy,
        None => return false,
    };
    let multiple = match json::member(value, "pad_to_multiple_of") {
        Some(multiple) => multiple,
        None => return false,
    };
    let bounded = match json::text_in(strategy) {
        Some(name) => text::same_text(name, "BatchLongest"),
        None => match json::member(strategy, "Fixed") {
            Some(length) => match json::natural_in(length) {
                Some(n) => is_held(n),
                None => false,
            },
            None => false,
        },
    };
    bounded && (json::is_null(multiple) || match json::natural_in(multiple) {
        Some(n) => is_held(n),
        None => false,
    })
}

/// One of the added tokens has a flag set.
pub open spec fn any_has(tokens: Seq<Json>, flag: Seq<char>) -> bool {
    exists|i: int|
        0 <= i < tokens.len() && field(#[trigger] tokens[i], flag) == Some(Json::Bool(true))
}

/// Decides whether one of the added tokens has a flag set.
fn has_flag(tokens: &Vec<Value>, flag: &str) -> (r: bool)
    ensures
        r == any_has(jsons(tokens@), flag@),
{
    let mut i: usize = 0;
    while i < tokens.len()
        invariant
            i <= tokens@.len(),
            forall|k: int|
                0 <= k < i ==> field(#[trigger] jsons(tokens@)[k], flag@) != Some(Json::Bool(true)),
        decreases tokens.len() - i,
    {
        assert(jsons(tokens@)[i as int] == json_of(tokens@[i as int]));
        if let Some(set) = json::member(&tokens[i], flag) {
            if let Some(b) = json::truth_in(set) {
                if b {
                    assert(field(jsons(tokens@)[i as int], flag@) == Some(Json::Bool(true)));
                    return true;
                }
            }
        }
        i = i + 1;
    }
    false
}

/// A text holds a visible ASCII character.
pub open spec fn shows_something(text: Seq<char>) -> bool {
    exists|i: int| 0 <= i < text.len() && '!' <= #[trigger] text[i] && text[i] <= '~'
}

/// Decides whether a text holds a visible ASCII character.
fn is_visible(s: &str) -> (r: bool)
    ensures
        r == shows_something(s@),
{
    let chars = text::chars_of(s);
    let mut i: usize = 0;
    while i < chars.len()
        invariant
            i <= chars@.len(),
            chars@ == s@,
            forall|k: int| 0 <= k < i ==> !('!' <= #[trigger] s@[k] && s@[k] <= '~'),
        decreases chars.len() - i,
    {
        if '!' <= chars[i] && chars[i] <= '~' {
            assert('!' <= s@[i as int] && s@[i as int] <= '~');
            return true;
        }
        i = i + 1;
    }
    false
}

/// What an added token consists of, and whether it is looked for in its normalized form.
pub open spec fn is_token(token: Json) -> bool {
    &&& text_field(token, "content"@) is Some
    &&& has_truth(token, "lstrip"@)
    &&& has_truth(token, "rstrip"@)
    &&& has_truth(token, "normalized"@)
}

/// An added token is visible.
pub open spec fn is_shown(token: Json) -> bool {
    text_field(token, "content"@) matches Some(content) && shows_something(content)
}

/// An added token that is looked for in its normalized form is visible.
pub open spec fn is_shown_if_normalized(token: Json) -> bool {
    field(token, "normalized"@) == Some(Json::Bool(true)) ==> is_shown(token)
}

/// The id that the model has for an added token leaves room for those of others.
pub open spec fn has_room(vocab: Option<Json>, token: Json) -> bool {
    match (vocab, text_field(token, "content"@)) {
        (Some(all), Some(content)) => match field(all, content) {
            Some(Json::Natural(id)) => id <= 0xffff_0000,
            Some(_) => false,
            None => true,
        },
        _ => true,
    }
}

/// Decides whether an added token is visible.
fn will_be_shown(token: &Value) -> (r: bool)
    ensures
        r == is_shown(json_of(*token)),
{
    match text_of(token, "content") {
        Some(content) => is_visible(content),
        None => false,
    }
}

/// Decides whether a flag of an added token is set.
fn is_set(token: &Value, flag: &str) -> (r: bool)
    ensures
        r == (field(json_of(*token), flag@) == Some(Json::Bool(true))),
{
    match json::member(token, flag) {
        Some(set) => match json::truth_in(set) {
            Some(b) => b,
            None => false,
        },
        None => false,
    }
}

/// Decides whether there is room behind the id that the model has for an added token.
fn leaves_room(vocab: Option<&Value>, token: &Value) -> (r: bool)
    ensures
        r == has_room(
            match vocab {
                Some(all) => Some(json_of(*all)),
                None => None,
            },
            json_of(*token),
        ),
{
    match (vocab, text_of(token, "content")) {
        (Some(all), Some(content)) => match json::member(all, content) {
            Some(id) => match json::natural_in(id) {
                Some(n) => n <= 0xffff_0000,
                None => false,
            },
            None => true,
        },
        _ => true,
    }
}

/// Added tokens are given ids, and can be found in every text: none of them lies in
/// spaces that another took to its right while it takes spaces to its left, and none is
/// looked for in a form that the normalizer left empty. As tokens may come to share an
/// id, and with it what they take, they are all held to what one of them takes.
pub open spec fn matches_soundly(
    tokens: Seq<Json>,
    normalizer: Option<Json>,
    vocab: Option<Json>,
) -> bool {
    let normalized = any_has(tokens, "normalized"@) && normalizer is Some;
    &&& tokens.len() <= 0xffff
    &&& forall|i: int|
        0 <= i < tokens.len() ==> is_token(#[trigger] tokens[i]) && has_room(vocab, tokens[i])
    &&& any_has(tokens, "lstrip"@) && any_has(tokens, "rstrip"@) ==> (forall|i: int|
        0 <= i < tokens.len() ==> is_shown(#[trigger] tokens[i])) && (normalized ==> keeps_visible(
        normalizer->0,
    ))
    &&& normalized ==> leaves_something(normalizer->0) || (keeps_visible(normalizer->0) && forall|
        i: int,
    |
        0 <= i < tokens.len() ==> is_shown_if_normalized(#[trigger] tokens[i]))
}

/// Decides whether added tokens are given ids and can be found in every text.
fn can_match(tokens: &Vec<Value>, normalizer: Option<&Value>, vocab: Option<&Value>) -> (r: bool)
    ensures
        r == matches_soundly(
            jsons(tokens@),
            match normalizer {
                Some(n) => Some(json_of(*n)),
                None => None,
            },
            match vocab {
                Some(all) => Some(json_of(*all)),
                None => None,
            },
        ),
{
    let ghost all = jsons(tokens@);
    let ghost words: Option<Json> = match vocab {
        Some(all) => Some(json_of(*all)),
        None => None,
    };
    if tokens.len() > 0xffff {
        return false;
    }
    let mut shown = true;
    let mut shown_if_normalized = true;
    let mut i: usize = 0;
    while i < tokens.len()
        invariant
            i <= tokens@.len(),
            all == jsons(tokens@),
            words == (match vocab {
                Some(all) => Some(json_of(*all)),
                None => None,
            }),
            forall|k: int|
                0 <= k < i ==> is_token(#[trigger] all[k]) && has_room(words, all[k]),
            shown == (forall|k: int| 0 <= k < i ==> is_shown(#[trigger] all[k])),
            shown_if_normalized == (forall|k: int|
                0 <= k < i ==> is_shown_if_normalized(#[trigger] all[k])),
        decreases tokens.len() - i,
    {
        assert(all[i as int] == json_of(tokens@[i as int]));
        let token = &tokens[i];
        if text_of(token, "content").is_none() || !holds_truth(token, "lstrip") || !holds_truth(
            token,
            "rstrip",
        ) || !holds_truth(token, "normalized") || !leaves_room(vocab, token) {
            assert(!(is_token(all[i as int]) && has_room(words, all[i as int])));
            return false;
        }
        let visible = will_be_shown(token);
        if !visible {
            assert(!is_shown(all[i as int]));
            shown = false;
            if is_set(token, "normalized") {
                assert(!is_shown_if_normalized(all[i as int]));
                shown_if_normalized = false;
            }
        }
        i = i + 1;
    }
    let strips = has_flag(tokens, "lstrip") && has_flag(tokens, "rstrip");
    if strips && !shown {
        return false;
    }
    match normalizer {
        Some(n) => if has_flag(tokens, "normalized") {
            let visible = will_show(n);
            (!strips || visible) && (will_leave(n) || (visible && shown_if_normalized))
        } else {
            true
        },
        None => true,
    }
}

/// A truncation leaves room for its overlap.
pub open spec fn truncates_soundly(json: Json) -> bool {
    match (field(json, "max_length"@), field(json, "stride"@)) {
        (Some(Json::Natural(max_length)), Some(Json::Natural(stride))) => max_length == 0 || stride
            < max_length,
        _ => false,
    }
}

/// Decides whether a truncation leaves room for its overlap.
fn can_truncate(value: &Value) -> (r: bool)
    ensures
        r == truncates_soundly(json_of(*value)),
{
    match (json::member(value, "max_length"), json::member(value, "stride")) {
        (Some(max_length), Some(stride)) => match (
            json::natural_in(max_length),
            json::natural_in(stride),
        ) {
            (Some(n), Some(overlap)) => n == 0 || overlap < n,
            _ => false,
        },
        _ => false,
    }
}

/// A kind of decoder that can be built, whatever its settings are.
pub open spec fn plain_decoder(kind: Seq<char>) -> bool {
    ||| kind == "BPEDecoder"@
    ||| kind == "ByteLevel"@
    ||| kind == "WordPiece"@
    ||| kind == "Metaspace"@
    ||| kind == "CTC"@
    ||| kind == "Fuse"@
    ||| kind == "Strip"@
    ||| kind == "ByteFallback"@
}

/// A decoder can be built.
pub open spec fn decodes_plainly(json: Json) -> bool
    decreases json,
{
    match text_field(json, "type"@) {
        Some(kind) => if kind == "Sequence"@ {
            items_field(json, "decoders"@) matches Some(items) && forall|i: int|
                0 <= i < items.len() ==> decodes_plainly(#[trigger] items[i])
        } else if kind == "Replace"@ {
            field(json, "pattern"@) matches Some(pattern) && searches_soundly(pattern)
        } else {
            plain_decoder(kind)
        },
        None => false,
    }
}

/// A row of decoders is no better than each of them.
proof fn lemma_decodes_plainly(json: Json, items: Seq<Json>, i: int)
    requires
        text_field(json, "type"@) == Some("Sequence"@),
        items_field(json, "decoders"@) == Some(items),
        0 <= i < items.len(),
        decodes_plainly(json),
    ensures
        decodes_plainly(items[i]),
{
    assert(items_field(json, "decoders"@)->0 == items);
}

/// Decides whether a decoder can be built.
fn can_decode(value: &Value) -> (r: bool)
    ensures
        r == decodes_plainly(json_of(*value)),
    decreases json_of(*value),
{
    let kind = match text_of(value, "type") {
        Some(kind) => kind,
        None => return false,
    };
    if text::same_text(kind, "Sequence") {
        let items = match items_of(value, "decoders") {
            Some(items) => items,
            None => return false,
        };
        let mut i: usize = 0;
        while i < items.len()
            invariant
                i <= items@.len(),
                text_field(json_of(*value), "type"@) == Some("Sequence"@),
                items_field(json_of(*value), "decoders"@) == Some(jsons(items@)),
                forall|k: int| 0 <= k < i ==> decodes_plainly(#[trigger] jsons(items@)[k]),
            decreases items.len() - i,
        {
            assert(jsons(items@)[i as int] == json_of(items@[i as int]));
            if !can_decode(&items[i]) {
                proof {
                    if decodes_plainly(json_of(*value)) {
                        lemma_decodes_plainly(json_of(*value), jsons(items@), i as int);
                    }
                }
                return false;
            }
            i = i + 1;
        }
        true
    } else if text::same_text(kind, "Replace") {
        match json::member(value, "pattern") {
            Some(pattern) => can_search(pattern),
            None => false,
        }
    } else {
        text::same_text(kind, "BPEDecoder") || text::same_text(kind, "ByteLevel")
            || text::same_text(kind, "WordPiece") || text::same_text(kind, "Metaspace")
            || text::same_text(kind, "CTC") || text::same_text(kind, "Fuse") || text::same_text(
            kind,
            "Strip",
        ) || text::same_text(kind, "ByteFallback")
    }
}

/// A model can be built: it names its kind, and merges none of its words behind a prefix.
pub open spec fn models_soundly(json: Json) -> bool {
    match text_field(json, "type"@) {
        Some(kind) => if kind == "BPE"@ {
            match part(json, "continuing_subword_prefix"@) {
                Some(Json::Text(prefix)) => prefix.len() == 0,
                Some(_) => false,
                None => true,
            }
        } else {
            kind == "WordPiece"@ || kind == "WordLevel"@ || kind == "Unigram"@
        },
        None => false,
    }
}

/// Decides whether a model can be built.
fn can_model(value: &Value) -> (r: bool)
    ensures
        r == models_soundly(json_of(*value)),
{
    let kind = match text_of(value, "type") {
        Some(kind) => kind,
        None => return false,
    };
    if text::same_text(kind, "BPE") {
        match part_of(value, "continuing_subword_prefix") {
            Some(found) => match json::text_in(found) {
                Some(prefix) => text::chars_of(prefix).len() == 0,
                None => false,
            },
            None => true,
        }
    } else {
        text::same_text(kind, "WordPiece") || text::same_text(kind, "WordLevel")
            || text::same_text(kind, "Unigram")
    }
}

/// A tokenizer chooses nothing by chance: its model drops no merges.
pub open spec fn never_drops(json: Json) -> bool {
    field(json, "model"@) matches Some(model) && part(model, "dropout"@) is None
}

/// A tokenizer can be built from JSON, or an error is returned; and every part of it works
/// on every text.
pub open spec fn works_soundly(json: Json) -> bool {
    &&& field(json, "model"@) matches Some(model) && {
        &&& models_soundly(model)
        &&& match part(json, "added_tokens"@) {
            Some(Json::Array(tokens)) => matches_soundly(
                tokens,
                part(json, "normalizer"@),
                field(model, "vocab"@),
            ),
            Some(_) => false,
            None => true,
        }
    }
    &&& part(json, "normalizer"@) matches Some(normalizer) ==> normalizes_soundly(normalizer)
    &&& part(json, "pre_tokenizer"@) matches Some(splitter) ==> splits_soundly(splitter)
    &&& part(json, "post_processor"@) matches Some(processor) ==> left_after(processor, 1) is Some
    &&& part(json, "truncation"@) matches Some(truncation) ==> truncates_soundly(truncation)
    &&& part(json, "padding"@) matches Some(padding) ==> pads_soundly(padding)
    &&& part(json, "decoder"@) matches Some(decoder) ==> decodes_plainly(decoder)
}

/// A tokenizer was built from JSON and works on every text.
pub open spec fn encodes_soundly(tokenizer: Tokenizer) -> bool {
    exists|json: Json| #[trigger] may_build(json, Ok(tokenizer)) && works_soundly(json)
}

/// Decides whether a tokenizer can be built from JSON, and works on every text.
fn can_work(value: &Value) -> (r: bool)
    ensures
        r == works_soundly(json_of(*value)),
{
    let model = match json::member(value, "model") {
        Some(model) => model,
        None => return false,
    };
    if !can_model(model) {
        return false;
    }
    let normalizer = part_of(value, "normalizer");
    if let Some(added) = part_of(value, "added_tokens") {
        match json::items_in(added) {
            Some(tokens) => if !can_match(tokens, normalizer, json::member(model, "vocab")) {
                return false;
            },
            None => return false,
        }
    }
    if let Some(normalizer) = normalizer {
        if !can_normalize(normalizer) {
            return false;
        }
    }
    if let Some(splitter) = part_of(value, "pre_tokenizer") {
        if !can_split(splitter) {
            return false;
        }
    }
    if let Some(processor) = part_of(value, "post_processor") {
        if count_left(processor, 1).is_none() {
            return false;
        }
    }
    if let Some(truncation) = part_of(value, "truncation") {
        if !can_truncate(truncation) {
            return false;
        }
    }
    if let Some(padding) = part_of(value, "padding") {
        if !can_pad(padding) {
            return false;
        }
    }
    match part_of(value, "decoder") {
        Some(decoder) => can_decode(decoder),
        None => true,
    }
}

/// Why a tokenizer cannot be had.
#[derive(Debug)]
pub enum TokenizerFault {
    /// Its file is no JSON, or holds no tokenizer.
    Unreadable(String),
    /// A part of it may fail on some text.
    Unsound,
}

/// What an error stands for.
pub enum Fault {
    Unreadable(Seq<char>),
    Unsound,
}

impl View for TokenizerFault {
    type V = Fault;

    open spec fn view(&self) -> Fault {
        match *self {
            TokenizerFault::Unreadable(message) => Fault::Unreadable(message@),
            TokenizerFault::Unsound => Fault::Unsound,
        }
    }
}

/// What an error says.
pub open spec fn fault_message(fault: Fault) -> Seq<char> {
    match fault {
        Fault::Unreadable(message) => "load tokenizer: "@ + message,
        Fault::Unsound => "load tokenizer: a part of it may fail on some text"@,
    }
}

impl TokenizerFault {
    /// What the error says.
    pub fn message(&self) -> (r: String)
        ensures
            r@ == fault_message(self@),
    {
        match self {
            TokenizerFault::Unreadable(message) => "load tokenizer: ".to_owned().concat(
                message.as_str(),
            ),
            TokenizerFault::Unsound => {
                "load tokenizer: a part of it may fail on some text".to_owned()
            },
        }
    }
}

/// What reading a tokenizer comes to, whatever is built of its JSON: the tokenizer and
/// the JSON that it was built from, or what went wrong.
pub open spec fn reads(raw: Seq<char>, r: Result<(Tokenizer, Json), Fault>) -> bool {
    match json::json_read(raw) {
        Err(reason) => r == Err::<(Tokenizer, Json), Fault>(Fault::Unreadable(reason)),
        Ok(json) => if !works_soundly(json) {
            r == Err::<(Tokenizer, Json), Fault>(Fault::Unsound)
        } else {
            match r {
                Ok((tokenizer, file)) => file == json && may_build(json, Ok(tokenizer)),
                Err(Fault::Unreadable(message)) => may_build(json, Err(message)),
                Err(Fault::Unsound) => false,
            }
        },
    }
}

/// A tokenizer that was read from its file, and works on every text.
pub struct TextTokenizer {
    tokenizer: Tokenizer,
    file: Ghost<Json>,
}

impl TextTokenizer {
    /// The tokenizer that was built.
    pub closed spec fn built(&self) -> Tokenizer {
        self.tokenizer
    }

    /// What its file says.
    pub closed spec fn file(&self) -> Json {
        self.file@
    }

    /// The tokenizer was built from its file, and works on every text.
    #[verifier::type_invariant]
    closed spec fn inv(self) -> bool {
        &&& may_build(self.file@, Ok(self.tokenizer))
        &&& works_soundly(self.file@)
    }

    /// Reads a tokenizer from the text of its file.
    pub fn read(raw: &str) -> (r: Result<Self, TokenizerFault>)
        ensures
            reads(
                raw@,
                match r {
                    Ok(read) => Ok((read.built(), read.file())),
                    Err(fault) => Err(fault@),
                },
            ),
    {
        let value = match json::read_value(raw) {
            Ok(value) => value,
            Err(message) => return Err(TokenizerFault::Unreadable(message)),
        };
        if !can_work(&value) {
            return Err(TokenizerFault::Unsound);
        }
        let ghost file = json_of(value);
        match build(value) {
            Ok(tokenizer) => Ok(TextTokenizer { tokenizer, file: Ghost(file) }),
            Err(message) => Err(TokenizerFault::Unreadable(message)),
        }
    }

    /// Hands out the tokenizer.
    pub fn get(&self) -> (r: &Tokenizer)
        ensures
            *r == self.built(),
            encodes_soundly(*r),
            may_build(self.file(), Ok(*r)),
    {
        proof {
            use_type_invariant(self);
        }
        &self.tokenizer
    }
}

} // verus!
