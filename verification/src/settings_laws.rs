//! Which tokenizers are read: what each part of one may be, and what it may not.

use tokenizers::Tokenizer;
use vstd::prelude::*;

use crate::json;
use crate::json::Json;
use crate::settings;
use crate::settings::Fault;

verus! {

/// What an object holds under a name.
pub open spec fn held(json: Json, name: Seq<char>) -> Option<Json> {
    match json {
        Json::Object(all) => if all.contains_key(name) {
            Some(all[name])
        } else {
            None
        },
        _ => None,
    }
}

/// An object says of which kind it is.
pub open spec fn is_kind(json: Json, kind: Seq<char>) -> bool {
    held(json, "type"@) == Some(Json::Text(kind))
}

/// Nothing is held under a name, or null.
pub open spec fn lacks(json: Json, name: Seq<char>) -> bool {
    held(json, name) is None || held(json, name) == Some(Json::Null)
}

/// The members of JSON are found by their names.
pub proof fn law_members(json: Json, name: Seq<char>)
    ensures
        settings::field(json, name) == held(json, name),
        settings::text_field(json, name) matches Some(text) ==> held(json, name) == Some(
            Json::Text(text),
        ),
        settings::text_field(json, name) is None ==> !(held(json, name) matches Some(Json::Text(_))),
        settings::items_field(json, name) matches Some(items) ==> held(json, name) == Some(
            Json::Array(items),
        ),
        settings::items_field(json, name) is None ==> !(held(json, name) matches Some(
            Json::Array(_),
        )),
        settings::part(json, name) is None <==> lacks(json, name),
        settings::part(json, name) matches Some(found) ==> held(json, name) == Some(found),
{
}

/// A character that a backslash may stand in front of.
pub open spec fn may_be_escaped(c: char) -> bool {
    ||| c == 's' || c == 'S' || c == 'd' || c == 'D' || c == 'w' || c == 'W' || c == 'p' || c == 'P'
    ||| c == 'n' || c == 'r' || c == 't'
    ||| '!' <= c && c <= '~' && c != '<' && c != '>' && !('0' <= c && c <= '9') && !('a' <= c && c
        <= 'z') && !('A' <= c && c <= 'Z')
}

/// Regular expressions are taken where a backslash stands only in front of a class, a line
/// feed, a carriage return, a tab or a sign; where a group with a question mark captures
/// nothing, looks ahead or behind, is not gone back into or has no regard to case; and
/// where no group is counted and no number has four digits.
pub proof fn law_regular_expressions(s: Seq<char>)
    ensures
        settings::plain_regex(s) <==> {
            &&& forall|i: int|
                0 <= i < s.len() && #[trigger] s[i] == '\\' ==> i + 1 < s.len() && may_be_escaped(
                    s[i + 1],
                )
            &&& forall|i: int|
                0 <= i < s.len() - 1 && #[trigger] s[i] == '(' && s[i + 1] == '?' ==> {
                    ||| i + 2 < s.len() && (s[i + 2] == ':' || s[i + 2] == '=' || s[i + 2] == '!'
                        || s[i + 2] == '>')
                    ||| i + 3 < s.len() && s[i + 2] == '<' && (s[i + 3] == '=' || s[i + 3] == '!')
                    ||| i + 3 < s.len() && s[i + 2] == 'i' && (s[i + 3] == ':' || s[i + 3] == ')')
                }
            &&& forall|i: int| 0 < i < s.len() && #[trigger] s[i] == '{' ==> s[i - 1] != ')'
            &&& forall|i: int|
                0 <= i < s.len() - 3 && '0' <= #[trigger] s[i] && s[i] <= '9' && '0' <= s[i + 1]
                    && s[i + 1] <= '9' && '0' <= s[i + 2] && s[i + 2] <= '9' ==> !('0' <= s[i + 3]
                    && s[i + 3] <= '9')
        },
{
    assert forall|c: char| #[trigger] settings::plain_escape(c) == may_be_escaped(c) by {}
    if settings::plain_regex(s) {
        assert forall|i: int| 0 <= i < s.len() implies settings::plain_at(s, i) by {}
        assert forall|i: int| 0 <= i < s.len() && #[trigger] s[i] == '\\' implies i + 1 < s.len()
            && may_be_escaped(s[i + 1]) by {
            assert(settings::plain_at(s, i));
        }
        assert forall|i: int|
            0 <= i < s.len() - 1 && #[trigger] s[i] == '(' && s[i + 1] == '?' implies {
            ||| i + 2 < s.len() && (s[i + 2] == ':' || s[i + 2] == '=' || s[i + 2] == '!' || s[i + 2]
                == '>')
            ||| i + 3 < s.len() && s[i + 2] == '<' && (s[i + 3] == '=' || s[i + 3] == '!')
            ||| i + 3 < s.len() && s[i + 2] == 'i' && (s[i + 3] == ':' || s[i + 3] == ')')
        } by {
            assert(settings::plain_at(s, i));
        }
        assert forall|i: int| 0 < i < s.len() && #[trigger] s[i] == '{' implies s[i - 1] != ')' by {
            assert(settings::plain_at(s, i));
        }
        assert forall|i: int|
            0 <= i < s.len() - 3 && '0' <= #[trigger] s[i] && s[i] <= '9' && '0' <= s[i + 1] && s[i
                + 1] <= '9' && '0' <= s[i + 2] && s[i + 2] <= '9' implies !('0' <= s[i + 3] && s[i
            + 3] <= '9') by {
            assert(settings::plain_at(s, i));
        }
    }
}

/// Normalizers are taken by their kind. A row of them is taken if each is; a text that is
/// put in front must not be empty; a replacement must not put in characters where it
/// replaces none; the one of BERT must say what it does.
pub proof fn law_normalizers(json: Json, items: Seq<Json>)
    ensures
        is_kind(json, "Strip"@) || is_kind(json, "StripAccents"@) || is_kind(json, "NFC"@)
            || is_kind(json, "NFD"@) || is_kind(json, "NFKC"@) || is_kind(json, "NFKD"@) || is_kind(
            json,
            "Lowercase"@,
        ) || is_kind(json, "Nmt"@) || is_kind(json, "ByteLevel"@) ==> settings::normalizes_soundly(
            json,
        ),
        is_kind(json, "Sequence"@) && held(json, "normalizers"@) == Some(Json::Array(items)) ==> (
        settings::normalizes_soundly(json) <==> forall|i: int|
            0 <= i < items.len() ==> settings::normalizes_soundly(#[trigger] items[i])),
        is_kind(json, "Prepend"@) ==> (settings::normalizes_soundly(json) <==> (held(
            json,
            "prepend"@,
        ) matches Some(Json::Text(head)) && head.len() > 0)),
        is_kind(json, "Replace"@) ==> (settings::normalizes_soundly(json)
            <==> settings::replaces_soundly(json)),
        is_kind(json, "BertNormalizer"@) ==> (settings::normalizes_soundly(json) <==> (held(
            json,
            "clean_text"@,
        ) matches Some(Json::Bool(_))) && (held(json, "handle_chinese_chars"@) matches Some(
            Json::Bool(_),
        )) && (held(json, "lowercase"@) matches Some(Json::Bool(_))) && (lacks(
            json,
            "strip_accents"@,
        ) || (held(json, "strip_accents"@) matches Some(Json::Bool(_))))),
        is_kind(json, "Precompiled"@) || !(held(json, "type"@) matches Some(Json::Text(_)))
            ==> !settings::normalizes_soundly(json),
{
    lemma_kinds();
    if is_kind(json, "Sequence"@) && held(json, "normalizers"@) == Some(Json::Array(items)) {
        assert(settings::items_field(json, "normalizers"@)->0 == items);
    }
}

/// The kinds that are told apart differ.
proof fn lemma_kinds()
    ensures
        "Sequence"@.len() == 8,
        "Prepend"@.len() == 7,
        "Replace"@.len() == 7,
        "Prepend"@ != "Replace"@,
        "BertNormalizer"@.len() == 14,
        "Strip"@.len() == 5,
        "StripAccents"@.len() == 12,
        "NFC"@.len() == 3,
        "NFD"@.len() == 3,
        "NFKC"@.len() == 4,
        "NFKD"@.len() == 4,
        "Lowercase"@.len() == 9,
        "Nmt"@.len() == 3,
        "ByteLevel"@.len() == 9,
        "Precompiled"@.len() == 11,
        "FixedLength"@.len() == 11,
        "Split"@.len() == 5,
        "BertPreTokenizer"@.len() == 16,
        "CharDelimiterSplit"@.len() == 18,
        "Metaspace"@.len() == 9,
        "Whitespace"@.len() == 10,
        "WhitespaceSplit"@.len() == 15,
        "Punctuation"@.len() == 11,
        "Digits"@.len() == 6,
        "UnicodeScripts"@.len() == 14,
        "Punctuation"@ != "FixedLength"@,
        "TemplateProcessing"@.len() == 18,
        "BertProcessing"@.len() == 14,
        "RobertaProcessing"@.len() == 17,
        "BPE"@.len() == 3,
        "WordPiece"@.len() == 9,
        "WordLevel"@.len() == 9,
        "Unigram"@.len() == 7,
{
    reveal_strlit("Sequence");
    reveal_strlit("Prepend");
    reveal_strlit("Replace");
    reveal_strlit("BertNormalizer");
    reveal_strlit("Strip");
    reveal_strlit("StripAccents");
    reveal_strlit("NFC");
    reveal_strlit("NFD");
    reveal_strlit("NFKC");
    reveal_strlit("NFKD");
    reveal_strlit("Lowercase");
    reveal_strlit("Nmt");
    reveal_strlit("ByteLevel");
    reveal_strlit("Precompiled");
    reveal_strlit("FixedLength");
    reveal_strlit("Split");
    reveal_strlit("BertPreTokenizer");
    reveal_strlit("CharDelimiterSplit");
    reveal_strlit("Metaspace");
    reveal_strlit("Whitespace");
    reveal_strlit("WhitespaceSplit");
    reveal_strlit("Punctuation");
    reveal_strlit("Digits");
    reveal_strlit("UnicodeScripts");
    reveal_strlit("TemplateProcessing");
    reveal_strlit("BertProcessing");
    reveal_strlit("RobertaProcessing");
    reveal_strlit("BPE");
    reveal_strlit("WordPiece");
    reveal_strlit("WordLevel");
    reveal_strlit("Unigram");
    assert("Prepend"@[0] == 'P' && "Replace"@[0] == 'R');
    assert("Punctuation"@[0] == 'P' && "FixedLength"@[0] == 'F');
}

/// Pre-tokenizers are taken by their kind. A row of them is taken if each is; a fixed
/// length must not be zero; a split goes by a text, or by a regular expression that is
/// taken.
pub proof fn law_pre_tokenizers(json: Json, items: Seq<Json>, pattern: Json)
    ensures
        is_kind(json, "BertPreTokenizer"@) || is_kind(json, "ByteLevel"@) || is_kind(
            json,
            "CharDelimiterSplit"@,
        ) || is_kind(json, "Metaspace"@) || is_kind(json, "Whitespace"@) || is_kind(
            json,
            "WhitespaceSplit"@,
        ) || is_kind(json, "Punctuation"@) || is_kind(json, "Digits"@) || is_kind(
            json,
            "UnicodeScripts"@,
        ) ==> settings::splits_soundly(json),
        is_kind(json, "Sequence"@) && held(json, "pretokenizers"@) == Some(Json::Array(items)) ==> (
        settings::splits_soundly(json) <==> forall|i: int|
            0 <= i < items.len() ==> settings::splits_soundly(#[trigger] items[i])),
        is_kind(json, "FixedLength"@) ==> (settings::splits_soundly(json) <==> held(
            json,
            "length"@,
        ) is None || (held(json, "length"@) matches Some(Json::Natural(n)) && n > 0)),
        is_kind(json, "Split"@) && held(json, "pattern"@) == Some(pattern) ==> (
        settings::splits_soundly(json) <==> (held(pattern, "String"@) matches Some(Json::Text(_))) || (
        held(pattern, "Regex"@) matches Some(Json::Text(regex)) && settings::plain_regex(regex))),
        !(held(json, "type"@) matches Some(Json::Text(_))) ==> !settings::splits_soundly(json),
{
    lemma_kinds();
    if is_kind(json, "Sequence"@) && held(json, "pretokenizers"@) == Some(Json::Array(items)) {
        assert(settings::items_field(json, "pretokenizers"@)->0 == items);
    }
}

/// A template is taken where it is made of the one sequence there is and of special
/// tokens. Those of BERT and RoBERTa, and that of bytes, leave what they are handed as it
/// is, and a row of post-processors hands on what each of them makes.
pub proof fn law_post_processors(json: Json, pieces: Seq<Json>, items: Seq<Json>, count: nat)
    ensures
        is_kind(json, "TemplateProcessing"@) && held(json, "sep"@) is None && held(json, "single"@)
            == Some(Json::Array(pieces)) ==> (settings::left_after(json, 1) is Some <==> forall|
            i: int,
        |
            0 <= i < pieces.len() ==> {
                let piece = #[trigger] pieces[i];
                match held(piece, "Sequence"@) {
                    Some(sequence) => held(sequence, "id"@) == Some(Json::Text("A"@)),
                    None => held(piece, "SpecialToken"@) is Some,
                }
            }),
        (is_kind(json, "BertProcessing"@) || is_kind(json, "RobertaProcessing"@) || is_kind(
            json,
            "ByteLevel"@,
        )) && held(json, "single"@) is None ==> settings::left_after(json, count) == Some(count),
        is_kind(json, "Sequence"@) && held(json, "single"@) is None && held(json, "sep"@) is None
            && held(json, "processors"@) == Some(Json::Array(items)) ==> {
            &&& items.len() == 0 ==> settings::left_after(json, count) == Some(count)
            &&& items.len() == 1 ==> settings::left_after(json, count) == settings::left_after(
                items[0],
                count,
            )
            &&& items.len() == 2 ==> settings::left_after(json, count) == (
            match settings::left_after(items[0], count) {
                Some(left) => settings::left_after(items[1], left),
                None => None,
            })
        },
{
    lemma_kinds();
    if is_kind(json, "TemplateProcessing"@) && held(json, "sep"@) is None && held(json, "single"@)
        == Some(Json::Array(pieces)) {
        assert(settings::items_field(json, "single"@)->0 == pieces);
        let every = forall|i: int|
            0 <= i < pieces.len() ==> {
                let piece = #[trigger] pieces[i];
                match held(piece, "Sequence"@) {
                    Some(sequence) => held(sequence, "id"@) == Some(Json::Text("A"@)),
                    None => held(piece, "SpecialToken"@) is Some,
                }
            };
        assert forall|i: int| 0 <= i < pieces.len() implies settings::is_piece(
            #[trigger] pieces[i],
            false,
        ) == (match held(pieces[i], "Sequence"@) {
            Some(sequence) => held(sequence, "id"@) == Some(Json::Text("A"@)),
            None => held(pieces[i], "SpecialToken"@) is Some,
        }) by {
            if let Some(sequence) = held(pieces[i], "Sequence"@) {
                law_members(sequence, "id"@);
            }
        }
        assert(settings::are_pieces(pieces, false) == every);
    }
    if is_kind(json, "Sequence"@) && held(json, "single"@) is None && held(json, "sep"@) is None
        && held(json, "processors"@) == Some(Json::Array(items)) {
        assert(settings::items_field(json, "processors"@)->0 == items);
        assert("Sequence"@ != "TemplateProcessing"@);
        lemma_in_turn(items, count);
        assert(settings::left_after(json, count) == settings::left_after_first(
            items,
            items.len() as int,
            count,
        )) by {
            reveal_with_fuel(settings::left_after, 2);
        }
    }
}

/// Post-processors hand on what they make.
proof fn lemma_in_turn(items: Seq<Json>, count: nat)
    ensures
        settings::left_after_first(items, 0, count) == Some(count),
        items.len() > 0 ==> settings::left_after_first(items, 1, count) == settings::left_after(
            items[0],
            count,
        ),
        items.len() > 1 ==> settings::left_after_first(items, 2, count) == (
        match settings::left_after(items[0], count) {
            Some(left) => settings::left_after(items[1], left),
            None => None,
        }),
{
    assert(settings::left_after_first(items, 0, count) == Some(count));
    if items.len() > 0 {
        assert(settings::left_after_first(items, 1, count) == settings::left_after(
            items[0],
            count,
        ));
    }
}

/// A truncation leaves room for its overlap or cuts everything, and a padding is to the
/// longest or to a length that can be held.
pub proof fn law_truncation_and_padding(json: Json, strategy: Json, n: nat, m: nat)
    ensures
        held(json, "max_length"@) == Some(Json::Natural(n)) && held(json, "stride"@) == Some(
            Json::Natural(m),
        ) ==> (settings::truncates_soundly(json) <==> n == 0 || m < n),
        held(json, "strategy"@) == Some(Json::Text("BatchLongest"@)) && held(
            json,
            "pad_to_multiple_of"@,
        ) == Some(Json::Null) ==> settings::pads_soundly(json),
        held(json, "strategy"@) == Some(strategy) && held(strategy, "Fixed"@) == Some(
            Json::Natural(n),
        ) && held(json, "pad_to_multiple_of"@) == Some(Json::Null) ==> (settings::pads_soundly(json)
            <==> 128 * n <= usize::MAX),
        held(json, "strategy"@) == Some(Json::Text("BatchLongest"@)) && held(
            json,
            "pad_to_multiple_of"@,
        ) == Some(Json::Natural(m)) ==> (settings::pads_soundly(json) <==> 128 * m <= usize::MAX),
{
}

/// A model is taken by its kind; one that merges must have no prefix for what goes on.
pub proof fn law_models(json: Json)
    ensures
        is_kind(json, "WordPiece"@) || is_kind(json, "WordLevel"@) || is_kind(json, "Unigram"@)
            ==> settings::models_soundly(json),
        is_kind(json, "BPE"@) ==> (settings::models_soundly(json) <==> lacks(
            json,
            "continuing_subword_prefix"@,
        ) || (held(json, "continuing_subword_prefix"@) matches Some(Json::Text(prefix))
            && prefix.len() == 0)),
        !(held(json, "type"@) matches Some(Json::Text(_))) ==> !settings::models_soundly(json),
{
    lemma_kinds();
}

/// A tokenizer is taken where its model is and every other part that it has; parts that it
/// lacks stand in nobody's way. Added tokens that take no spaces and are looked for as they
/// stand are taken, whatever they hold.
pub proof fn law_tokenizers_that_are_taken(json: Json, model: Json, tokens: Seq<Json>)
    requires
        held(json, "model"@) == Some(model),
        settings::models_soundly(model),
        lacks(json, "added_tokens"@) || (held(json, "added_tokens"@) == Some(Json::Array(tokens))
            && tokens.len() <= 65535 && forall|i: int|
            0 <= i < tokens.len() ==> {
                let token = #[trigger] tokens[i];
                &&& held(token, "content"@) matches Some(Json::Text(content)) && (held(
                    model,
                    "vocab"@,
                ) matches Some(vocab) ==> (held(vocab, content) matches Some(id) ==> (
                id matches Json::Natural(n) && n <= 0xffff_0000)))
                &&& held(token, "lstrip"@) == Some(Json::Bool(false))
                &&& held(token, "rstrip"@) == Some(Json::Bool(false))
                &&& held(token, "normalized"@) == Some(Json::Bool(false))
            }),
        lacks(json, "normalizer"@) || settings::normalizes_soundly(held(json, "normalizer"@)->0),
        lacks(json, "pre_tokenizer"@) || settings::splits_soundly(held(json, "pre_tokenizer"@)->0),
        lacks(json, "post_processor"@) || settings::left_after(
            held(json, "post_processor"@)->0,
            1,
        ) is Some,
        lacks(json, "truncation"@) || settings::truncates_soundly(held(json, "truncation"@)->0),
        lacks(json, "padding"@) || settings::pads_soundly(held(json, "padding"@)->0),
        lacks(json, "decoder"@) || settings::decodes_plainly(held(json, "decoder"@)->0),
    ensures
        settings::works_soundly(json),
{
    if !lacks(json, "added_tokens"@) {
        assert forall|i: int| 0 <= i < tokens.len() implies settings::is_token(#[trigger] tokens[i])
            && settings::has_room(settings::field(model, "vocab"@), tokens[i])
            && settings::field(tokens[i], "lstrip"@) != Some(Json::Bool(true))
            && settings::field(tokens[i], "normalized"@) != Some(Json::Bool(true)) by {
            law_members(tokens[i], "content"@);
            if let Some(vocab) = held(model, "vocab"@) {
                let content = settings::text_field(tokens[i], "content"@)->0;
                assert(settings::field(vocab, content) == held(vocab, content));
            }
        }
        assert(!settings::any_has(tokens, "lstrip"@));
        assert(!settings::any_has(tokens, "normalized"@));
    }
}

/// A tokenizer is not taken where a part that it has is not.
pub proof fn law_tokenizers_that_are_not_taken(json: Json, part: Json)
    ensures
        held(json, "model"@) is None ==> !settings::works_soundly(json),
        held(json, "model"@) == Some(part) && !settings::models_soundly(part)
            ==> !settings::works_soundly(json),
        held(json, "normalizer"@) == Some(part) && part != Json::Null
            && !settings::normalizes_soundly(part) ==> !settings::works_soundly(json),
        held(json, "pre_tokenizer"@) == Some(part) && part != Json::Null
            && !settings::splits_soundly(part) ==> !settings::works_soundly(json),
        held(json, "post_processor"@) == Some(part) && part != Json::Null && settings::left_after(
            part,
            1,
        ) is None ==> !settings::works_soundly(json),
        held(json, "truncation"@) == Some(part) && part != Json::Null
            && !settings::truncates_soundly(part) ==> !settings::works_soundly(json),
        held(json, "padding"@) == Some(part) && part != Json::Null && !settings::pads_soundly(part)
            ==> !settings::works_soundly(json),
{
}

/// Reading a tokenizer fails with what the reader of JSON says where its file is none, and
/// as unsound exactly where it is not taken; otherwise it is what is built of the file.
pub proof fn law_reading_a_tokenizer(raw: Seq<char>, r: Result<(Tokenizer, Json), Fault>)
    requires
        settings::reads(raw, r),
    ensures
        match json::json_read(raw) {
            Err(reason) => r matches Err(Fault::Unreadable(message)) && message == reason,
            Ok(file) => {
                &&& (r matches Err(Fault::Unsound)) <==> !settings::works_soundly(file)
                &&& r matches Ok((tokenizer, kept)) ==> kept == file && settings::may_build(
                    file,
                    Ok(tokenizer),
                )
                &&& r matches Err(Fault::Unreadable(message)) ==> settings::may_build(
                    file,
                    Err(message),
                )
            },
        },
{
}

/// Nothing is left to chance where the model drops no merges.
pub proof fn law_what_is_left_to_chance(json: Json, model: Json)
    requires
        held(json, "model"@) == Some(model),
    ensures
        settings::never_drops(json) <==> lacks(model, "dropout"@),
{
}

/// A replacement is taken where it replaces some text, or puts in none. A regular
/// expression replaces some text where it is a row of characters and classes, none of
/// which may be left out.
pub proof fn law_replacements(json: Json, pattern: Json, content: Seq<char>, s: Seq<char>)
    ensures
        held(json, "pattern"@) == Some(pattern) && held(json, "content"@) == Some(
            Json::Text(content),
        ) ==> {
            &&& held(pattern, "String"@) == Some(Json::Text(s)) && (s.len() > 0 || content.len()
                == 0) ==> settings::replaces_soundly(json)
            &&& held(pattern, "String"@) is None && held(pattern, "Regex"@) == Some(Json::Text(s))
                ==> (settings::replaces_soundly(json) <==> settings::plain_regex(s) && (
            content.len() == 0 || settings::matches_something(s)))
        },
        held(json, "pattern"@) is None || held(json, "content"@) is None
            ==> !settings::replaces_soundly(json),
        settings::matches_something(s) <==> s.len() > 0 && forall|i: int|
            0 <= i < s.len() ==> {
                let c = #[trigger] s[i];
                &&& c != '(' && c != ')' && c != '|' && c != '*' && c != '?' && c != '^' && c != '$'
                &&& c == '\\' ==> i + 1 < s.len() && (s[i + 1] == 's' || s[i + 1] == 'S' || s[i + 1]
                    == 'd' || s[i + 1] == 'D' || s[i + 1] == 'w' || s[i + 1] == 'W')
                &&& c == '{' ==> i + 1 < s.len() && '1' <= s[i + 1] && s[i + 1] <= '9'
            },
{
    if settings::matches_something(s) {
        assert forall|i: int| 0 <= i < s.len() implies {
            let c = #[trigger] s[i];
            &&& c != '(' && c != ')' && c != '|' && c != '*' && c != '?' && c != '^' && c != '$'
            &&& c == '\\' ==> i + 1 < s.len() && (s[i + 1] == 's' || s[i + 1] == 'S' || s[i + 1]
                == 'd' || s[i + 1] == 'D' || s[i + 1] == 'w' || s[i + 1] == 'W')
            &&& c == '{' ==> i + 1 < s.len() && '1' <= s[i + 1] && s[i + 1] <= '9'
        } by {
            assert(settings::comes_once(s, i));
        }
    }
}

/// Which normalizers keep what can be seen: all but replacements, and rows without one.
/// Which leave something of every text: those that only change characters, put some in
/// front or replace by some, and rows of these.
pub proof fn law_what_normalizers_leave(json: Json, kind: Seq<char>, items: Seq<Json>)
    requires
        is_kind(json, kind),
    ensures
        kind == "Sequence"@ && held(json, "normalizers"@) == Some(Json::Array(items)) ==> {
            &&& settings::keeps_visible(json) <==> forall|i: int|
                0 <= i < items.len() ==> settings::keeps_visible(#[trigger] items[i])
            &&& settings::leaves_something(json) <==> forall|i: int|
                0 <= i < items.len() ==> settings::leaves_something(#[trigger] items[i])
        },
        kind != "Sequence"@ ==> (settings::keeps_visible(json) <==> kind != "Replace"@),
        kind == "NFC"@ || kind == "NFD"@ || kind == "NFKC"@ || kind == "NFKD"@ || kind
            == "Lowercase"@ || kind == "ByteLevel"@ || kind == "Prepend"@
            ==> settings::leaves_something(json),
        kind == "Strip"@ || kind == "StripAccents"@ || kind == "Nmt"@ || kind == "BertNormalizer"@
            ==> !settings::leaves_something(json),
        kind == "Replace"@ ==> (settings::leaves_something(json) <==> (held(
            json,
            "content"@,
        ) matches Some(Json::Text(content)) && content.len() > 0)),
{
    lemma_kinds();
    reveal_strlit("NFC");
    reveal_strlit("NFD");
    reveal_strlit("Nmt");
    assert("NFC"@[1] == 'F' && "NFD"@[1] == 'F' && "Nmt"@[1] == 'm');
    if kind == "Sequence"@ && held(json, "normalizers"@) == Some(Json::Array(items)) {
        assert(settings::items_field(json, "normalizers"@)->0 == items);
    }
}

/// An added token can be seen: it has a character of ASCII that is neither a space nor a
/// control character.
pub open spec fn can_be_seen(token: Json) -> bool {
    held(token, "content"@) matches Some(Json::Text(content)) && exists|i: int|
        0 <= i < content.len() && '!' <= #[trigger] content[i] && content[i] <= '~'
}

/// A flag of one of the added tokens is set.
pub open spec fn one_has(tokens: Seq<Json>, flag: Seq<char>) -> bool {
    exists|i: int|
        0 <= i < tokens.len() && held(#[trigger] tokens[i], flag) == Some(Json::Bool(true))
}

/// Where some added tokens take spaces to the left and some to the right, all of them can
/// be seen, also in their normalized form; and those that are looked for in their
/// normalized form are not empty there.
pub proof fn law_added_tokens(tokens: Seq<Json>, normalizer: Json)
    requires
        tokens.len() <= 65535,
        forall|i: int| 0 <= i < tokens.len() ==> settings::is_token(#[trigger] tokens[i]),
    ensures
        settings::matches_soundly(tokens, None, None) <==> (one_has(tokens, "lstrip"@) && one_has(
            tokens,
            "rstrip"@,
        ) ==> forall|i: int| 0 <= i < tokens.len() ==> can_be_seen(#[trigger] tokens[i])),
        settings::matches_soundly(tokens, Some(normalizer), None) <==> {
            &&& one_has(tokens, "lstrip"@) && one_has(tokens, "rstrip"@) ==> (forall|i: int|
                0 <= i < tokens.len() ==> can_be_seen(#[trigger] tokens[i])) && (one_has(
                tokens,
                "normalized"@,
            ) ==> settings::keeps_visible(normalizer))
            &&& one_has(tokens, "normalized"@) ==> settings::leaves_something(normalizer) || (
            settings::keeps_visible(normalizer) && forall|i: int|
                0 <= i < tokens.len() && held(#[trigger] tokens[i], "normalized"@) == Some(
                    Json::Bool(true),
                ) ==> can_be_seen(tokens[i]))
        },
{
    assert forall|token: Json| #[trigger] settings::is_shown(token) == can_be_seen(token) by {
        law_members(token, "content"@);
    }
    assert(settings::any_has(tokens, "lstrip"@) == one_has(tokens, "lstrip"@));
    assert(settings::any_has(tokens, "rstrip"@) == one_has(tokens, "rstrip"@));
    assert(settings::any_has(tokens, "normalized"@) == one_has(tokens, "normalized"@));
    assert((forall|i: int| 0 <= i < tokens.len() ==> settings::is_shown(#[trigger] tokens[i])) == (
    forall|i: int| 0 <= i < tokens.len() ==> can_be_seen(#[trigger] tokens[i])));
    assert((forall|i: int|
        0 <= i < tokens.len() ==> settings::is_shown_if_normalized(#[trigger] tokens[i])) == (forall|
        i: int,
    |
        0 <= i < tokens.len() && held(#[trigger] tokens[i], "normalized"@) == Some(Json::Bool(true))
            ==> can_be_seen(tokens[i])));
}

} // verus!
