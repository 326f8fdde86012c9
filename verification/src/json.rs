//! JSON values and the answers that are made of them.

use serde_json::Value;
use vstd::prelude::*;

use crate::engine::DetectionResult;
use crate::spans;
use crate::spans::{DetectedSpan, Detection};

verus! {

/// A JSON value.
#[verifier::external_type_specification]
#[verifier::external_body]
pub struct ExValue(serde_json::Value);

/// What a JSON value holds. A number that is not written as a natural number below
/// 2^64 stands as it is written.
pub enum Json {
    Null,
    Bool(bool),
    Natural(nat),
    Number(Seq<char>),
    Text(Seq<char>),
    Array(Seq<Json>),
    Object(Map<Seq<char>, Json>),
}

/// What a `serde_json::Value` holds.
pub uninterp spec fn json_of(value: serde_json::Value) -> Json;

/// What values hold.
pub open spec fn jsons(values: Seq<Value>) -> Seq<Json> {
    values.map_values(|value: Value| json_of(value))
}

/// A name is one of those of an object in the making.
pub open spec fn has_name(entries: Seq<(String, Value)>, name: Seq<char>) -> bool {
    exists|i: int| 0 <= i < entries.len() && (#[trigger] entries[i]).0@ == name
}

/// No two members have the same name.
pub open spec fn names_differ(entries: Seq<(String, Value)>) -> bool {
    forall|i: int, j: int|
        0 <= i < j < entries.len() ==> (#[trigger] entries[i]).0@ != (#[trigger] entries[j]).0@
}

/// The members of an object.
pub open spec fn members(entries: Seq<(String, Value)>) -> Map<Seq<char>, Json>
    decreases entries.len(),
{
    if entries.len() == 0 {
        Map::empty()
    } else {
        members(entries.drop_last()).insert(entries.last().0@, json_of(entries.last().1))
    }
}

/// `serde_json::Value::Null` is the null value.
#[verifier::external_body]
fn null_value() -> (r: Value)
    ensures
        json_of(r) == Json::Null,
{
    Value::Null
}

/// `serde_json::Value::String` holds its text.
#[verifier::external_body]
fn text_value(text: String) -> (r: Value)
    ensures
        json_of(r) == Json::Text(text@),
{
    Value::String(text)
}

/// `serde_json::Value::from` on a `u64` is that number.
#[verifier::external_body]
fn natural_value(n: u64) -> (r: Value)
    ensures
        json_of(r) == Json::Natural(n as nat),
{
    Value::from(n)
}

/// `serde_json::Value::Array` holds its items in order.
#[verifier::external_body]
fn array_value(items: Vec<Value>) -> (r: Value)
    ensures
        json_of(r) == Json::Array(jsons(items@)),
{
    Value::Array(items)
}

/// `serde_json::Map::from_iter` makes an object of names, each of which comes once,
/// and values.
#[verifier::external_body]
fn object_value(entries: Vec<(String, Value)>) -> (r: Value)
    requires
        names_differ(entries@),
    ensures
        json_of(r) == Json::Object(members(entries@)),
{
    Value::Object(serde_json::Map::from_iter(entries))
}

/// What `serde_json::from_str` reads a text as: a value, or what its error says.
pub uninterp spec fn json_read(text: Seq<char>) -> Result<Json, Seq<char>>;

/// `serde_json::from_str` reads a text as a value or returns an error, from the
/// text alone.
#[verifier::external_body]
pub(crate) fn read_value(text: &str) -> (r: Result<Value, String>)
    ensures
        match r {
            Ok(value) => json_read(text@) == Ok::<Json, Seq<char>>(json_of(value)),
            Err(message) => json_read(text@) == Err::<Json, Seq<char>>(message@),
        },
{
    serde_json::from_str(text).map_err(|e: serde_json::Error| e.to_string())
}

/// How `serde_json::to_string_pretty` writes a value, or what its error says.
pub uninterp spec fn pretty_of(json: Json) -> Result<Seq<char>, Seq<char>>;

/// `serde_json::to_string_pretty` writes a value with indentation, from what the
/// value holds alone.
#[verifier::external_body]
fn pretty(value: &Value) -> (r: Result<String, String>)
    ensures
        match r {
            Ok(text) => pretty_of(json_of(*value)) == Ok::<Seq<char>, Seq<char>>(text@),
            Err(message) => pretty_of(json_of(*value)) == Err::<Seq<char>, Seq<char>>(message@),
        },
{
    serde_json::to_string_pretty(value).map_err(|e: serde_json::Error| e.to_string())
}

/// `serde_json::Value::get` hands out the member of an object with a name. There is
/// none where the value is no object or has no such member.
#[verifier::external_body]
pub(crate) fn member<'a>(value: &'a Value, name: &str) -> (r: Option<&'a Value>)
    ensures
        match r {
            Some(found) => json_of(*value) matches Json::Object(all) && all.contains_key(name@)
                && all[name@] == json_of(*found),
            None => json_of(*value) matches Json::Object(all) ==> !all.contains_key(name@),
        },
{
    value.get(name)
}

/// `serde_json::Value::is_null` tells the null value from the others.
#[verifier::external_body]
pub(crate) fn is_null(value: &Value) -> (r: bool)
    ensures
        r == (json_of(*value) is Null),
{
    value.is_null()
}

/// `serde_json::Value::as_bool` hands out a truth value.
#[verifier::external_body]
pub(crate) fn truth_in(value: &Value) -> (r: Option<bool>)
    ensures
        match r {
            Some(b) => json_of(*value) == Json::Bool(b),
            None => !(json_of(*value) is Bool),
        },
{
    value.as_bool()
}

/// `serde_json::Value::as_u64` hands out a natural number below 2^64.
#[verifier::external_body]
pub(crate) fn natural_in(value: &Value) -> (r: Option<u64>)
    ensures
        match r {
            Some(n) => json_of(*value) == Json::Natural(n as nat),
            None => !(json_of(*value) is Natural),
        },
{
    value.as_u64()
}

/// `serde_json::Value::as_str` hands out a text.
#[verifier::external_body]
pub(crate) fn text_in(value: &Value) -> (r: Option<&str>)
    ensures
        match r {
            Some(text) => json_of(*value) == Json::Text(text@),
            None => !(json_of(*value) is Text),
        },
{
    value.as_str()
}

/// `serde_json::Value::as_array` hands out the items of an array in order.
#[verifier::external_body]
pub(crate) fn items_in(value: &Value) -> (r: Option<&Vec<Value>>)
    ensures
        match r {
            Some(items) => json_of(*value) == Json::Array(jsons(items@)),
            None => !(json_of(*value) is Array),
        },
{
    value.as_array()
}

/// Every text of a list stands in it once.
pub open spec fn all_distinct(names: Seq<String>) -> bool {
    forall|i: int, j: int|
        0 <= i < j < names.len() ==> (#[trigger] names[i])@ != (#[trigger] names[j])@
}

/// A text is in a list.
pub open spec fn has_text(names: Seq<String>, name: Seq<char>) -> bool {
    exists|i: int| 0 <= i < names.len() && (#[trigger] names[i])@ == name
}

/// `serde_json::Value::as_object` and `serde_json::Map::keys` hand out the names of
/// an object's members, each once. Their order is not stated.
#[verifier::external_body]
fn member_names(value: &Value) -> (r: Option<Vec<String>>)
    ensures
        match r {
            Some(names) => json_of(*value) matches Json::Object(all) && all_distinct(names@)
                && forall|name: Seq<char>| #[trigger]
                all.contains_key(name) <==> has_text(names@, name),
            None => !(json_of(*value) is Object),
        },
{
    value.as_object().map(|members| members.keys().cloned().collect())
}

/// A found span as JSON.
pub open spec fn span_object(d: Detection) -> Json {
    Json::Object(
        map![
            "label"@ => Json::Text(d.range.label),
            "byte_start"@ => Json::Natural(d.range.start as nat),
            "byte_end"@ => Json::Natural(d.range.end as nat),
            "text"@ => Json::Text(d.text),
        ],
    )
}

/// Found spans as JSON.
pub open spec fn span_array(found: Seq<Detection>) -> Json {
    Json::Array(found.map_values(|d: Detection| span_object(d)))
}

/// The answer to a request whose text was searched.
pub open spec fn answer_object(id: Json, found: Seq<Detection>, tokens: nat, elapsed_us: nat) -> Json {
    Json::Object(
        map![
            "id"@ => id,
            "spans"@ => span_array(found),
            "tokens"@ => Json::Natural(tokens),
            "elapsed_us"@ => Json::Natural(elapsed_us),
        ],
    )
}

/// The answer to a request that failed.
pub open spec fn error_object(id: Json, message: Seq<char>) -> Json {
    Json::Object(map!["id"@ => id, "error"@ => Json::Text(message)])
}

/// Adds a member to an object in the making.
fn put(entries: &mut Vec<(String, Value)>, name: &str, value: Value)
    requires
        names_differ(old(entries)@),
        !has_name(old(entries)@, name@),
    ensures
        members(final(entries)@) == members(old(entries)@).insert(name@, json_of(value)),
        names_differ(final(entries)@),
        forall|other: Seq<char>| #[trigger]
            has_name(final(entries)@, other) <==> has_name(old(entries)@, other) || other == name@,
{
    let ghost before = entries@;
    entries.push((name.to_owned(), value));
    assert(entries@.drop_last() =~= before);
    assert forall|other: Seq<char>| #[trigger]
        has_name(entries@, other) <==> has_name(before, other) || other == name@ by {
        if has_name(before, other) {
            let i = choose|i: int| 0 <= i < before.len() && (#[trigger] before[i]).0@ == other;
            assert(entries@[i].0@ == other);
        }
        if other == name@ {
            assert(entries@[before.len() as int].0@ == other);
        }
        if has_name(entries@, other) {
            let i = choose|i: int| 0 <= i < entries@.len() && (#[trigger] entries@[i]).0@ == other;
            if i < before.len() {
                assert(before[i].0@ == other);
            }
        }
    }
}

/// A found span as JSON.
fn span_json(span: &DetectedSpan) -> (r: Value)
    ensures
        json_of(r) == span_object(span@),
{
    let mut entries: Vec<(String, Value)> = Vec::new();
    proof {
        reveal_strlit("label");
        reveal_strlit("byte_start");
        reveal_strlit("byte_end");
        reveal_strlit("text");
        assert("label"@.len() == 5 && "byte_start"@.len() == 10);
        assert("byte_end"@.len() == 8 && "text"@.len() == 4);
    }
    put(&mut entries, "label", text_value(span.label.clone()));
    put(&mut entries, "byte_start", natural_value(span.byte_start as u64));
    put(&mut entries, "byte_end", natural_value(span.byte_end as u64));
    put(&mut entries, "text", text_value(span.text.clone()));
    object_value(entries)
}

/// Found spans as JSON, in order.
pub fn spans_json(spans: &[DetectedSpan]) -> (r: Value)
    ensures
        json_of(r) == span_array(spans::detections(spans@)),
{
    let len: usize = spans.len();
    let mut items: Vec<Value> = Vec::with_capacity(len);
    let mut i: usize = 0;
    while i < len
        invariant
            i <= len,
            len == spans@.len(),
            items@.len() == i,
            forall|k: int| 0 <= k < i ==> json_of(#[trigger] items@[k]) == span_object(spans@[k]@),
        decreases len - i,
    {
        items.push(span_json(&spans[i]));
        i = i + 1;
    }
    assert(jsons(items@) =~= spans::detections(spans@).map_values(|d: Detection| span_object(d)));
    array_value(items)
}

/// The answer to a request whose text was searched.
pub fn detection_json(id: Value, result: &DetectionResult, elapsed_us: u64) -> (r: Value)
    ensures
        json_of(r) == answer_object(
            json_of(id),
            result.found(),
            result.tokens as nat,
            elapsed_us as nat,
        ),
{
    let mut entries: Vec<(String, Value)> = Vec::new();
    proof {
        reveal_strlit("id");
        reveal_strlit("spans");
        reveal_strlit("tokens");
        reveal_strlit("elapsed_us");
        assert("id"@.len() == 2 && "spans"@.len() == 5);
        assert("tokens"@.len() == 6 && "elapsed_us"@.len() == 10);
    }
    put(&mut entries, "id", id);
    put(&mut entries, "spans", spans_json(result.spans.as_slice()));
    put(&mut entries, "tokens", natural_value(result.tokens as u64));
    put(&mut entries, "elapsed_us", natural_value(elapsed_us));
    object_value(entries)
}

/// The answer to a request that failed.
pub fn detection_error_json(id: Value, message: String) -> (r: Value)
    ensures
        json_of(r) == error_object(json_of(id), message@),
{
    let mut entries: Vec<(String, Value)> = Vec::new();
    proof {
        reveal_strlit("id");
        reveal_strlit("error");
        assert("id"@.len() == 2 && "error"@.len() == 5);
    }
    put(&mut entries, "id", id);
    put(&mut entries, "error", text_value(message));
    object_value(entries)
}

/// The answer to a line that is not a request.
pub fn refused_line_json(reason: &str) -> (r: Value)
    ensures
        json_of(r) == error_object(Json::Null, "invalid input json: "@ + reason@),
{
    detection_error_json(null_value(), "invalid input json: ".to_owned().concat(reason))
}

/// Writes found spans as an indented JSON list.
pub fn list_report(spans: &[DetectedSpan]) -> (r: Result<String, String>)
    ensures
        match r {
            Ok(text) => pretty_of(span_array(spans::detections(spans@))) == Ok::<
                Seq<char>,
                Seq<char>,
            >(text@),
            Err(message) => pretty_of(span_array(spans::detections(spans@))) == Err::<
                Seq<char>,
                Seq<char>,
            >(message@),
        },
{
    pretty(&spans_json(spans))
}

/// The operating points of a calibration: the members of its `operating_points`,
/// or none where that is no object.
pub open spec fn points_of(calibration: Json) -> Map<Seq<char>, Json> {
    match calibration {
        Json::Object(all) => if all.contains_key("operating_points"@) {
            match all["operating_points"@] {
                Json::Object(points) => points,
                _ => Map::empty(),
            }
        } else {
            Map::empty()
        },
        _ => Map::empty(),
    }
}

/// A list holds the names of a calibration's operating points, each once.
pub open spec fn names_points(names: Seq<String>, calibration: Json) -> bool {
    &&& all_distinct(names)
    &&& forall|name: Seq<char>| #[trigger]
        points_of(calibration).contains_key(name) <==> has_text(names, name)
}

/// The names of the operating points that a calibration declares.
pub fn declared_points(calibration: &Value) -> (names: Vec<String>)
    ensures
        names_points(names@, json_of(*calibration)),
{
    if let Some(points) = member(calibration, "operating_points") {
        if let Some(names) = member_names(points) {
            return names;
        }
    }
    Vec::new()
}

/// The names of the operating points that the text of a calibration declares, or
/// what is wrong with the text.
pub fn operating_point_names(raw: &str) -> (r: Result<Vec<String>, String>)
    ensures
        match (json_read(raw@), r) {
            (Ok(calibration), Ok(names)) => names_points(names@, calibration),
            (Err(reason), Err(message)) => message@ == reason,
            _ => false,
        },
{
    match read_value(raw) {
        Ok(calibration) => Ok(declared_points(&calibration)),
        Err(message) => Err(message),
    }
}

} // verus!
