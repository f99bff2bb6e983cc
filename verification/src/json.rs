//! The little JSON that stored indexes carry.

use serde_json::Value;
use vstd::prelude::*;
use vstd::utf8::encode_utf8;

verus! {

/// The unsigned number under a field of the JSON object that bytes hold: what
/// `serde_json::from_slice`, indexing by the field and `Value::as_u64` give, one
/// after the other, or nothing where one of them gives nothing.
pub uninterp spec fn json_number(bytes: Seq<u8>, field: Seq<char>) -> Option<u64>;

/// The members of the JSON object under a field of the JSON object that bytes
/// hold, each with its text if it is one: what `serde_json::from_slice`, indexing
/// by the field and `Value::as_object` give, or nothing.
pub uninterp spec fn json_members(bytes: Seq<u8>, field: Seq<char>) -> Option<
    Map<Seq<char>, Option<Seq<char>>>,
>;

/// The characters of an optional text.
pub open spec fn optional_text(text: Option<String>) -> Option<Seq<char>> {
    match text {
        Some(t) => Some(t@),
        None => None,
    }
}

/// Whether a list holds exactly the members of a map, each once.
pub open spec fn lists_members(
    list: Seq<(String, Option<String>)>,
    members: Map<Seq<char>, Option<Seq<char>>>,
) -> bool {
    &&& forall|i: int|
        0 <= i < list.len() ==> members.contains_key((#[trigger] list[i]).0@)
            && members[list[i].0@] == optional_text(list[i].1)
    &&& forall|key: Seq<char>| #[trigger]
        members.contains_key(key) ==> exists|i: int|
            0 <= i < list.len() && (#[trigger] list[i]).0@ == key
    &&& forall|i: int, j: int|
        #![trigger list[i], list[j]]
        0 <= i < j < list.len() ==> list[i].0@ != list[j].0@
}

/// `serde_json::from_slice` to a value, and the unsigned number under a field.
#[verifier::external_body]
pub(crate) fn read_number(bytes: &Vec<u8>, field: &str) -> (r: Option<u64>)
    ensures
        r == json_number(bytes@, field@),
{
    serde_json::from_slice::<Value>(bytes).ok().and_then(|value| value[field].as_u64())
}

/// `serde_json::from_slice` to a value, and the members of the object under a
/// field, in the order in which the object holds them.
#[verifier::external_body]
pub(crate) fn read_members(bytes: &Vec<u8>, field: &str) -> (r: Option<Vec<(String, Option<String>)>>)
    ensures
        r is Some <==> json_members(bytes@, field@) is Some,
        r matches Some(list) ==> lists_members(list@, json_members(bytes@, field@).unwrap()),
{
    let value = serde_json::from_slice::<Value>(bytes).ok()?;
    let object = value[field].as_object()?;
    let member = |(key, text): (&String, &Value)| (key.clone(), text.as_str().map(|t| t.to_string()));
    Some(object.iter().map(member).collect())
}

/// Whether no two pairs have the same first part.
pub open spec fn distinct_fields<V>(pairs: Seq<(String, V)>) -> bool {
    forall|i: int, j: int|
        #![trigger pairs[i], pairs[j]]
        0 <= i < j < pairs.len() ==> pairs[i].0@ != pairs[j].0@
}

/// Whether `members` are these texts by their keys.
pub open spec fn holds_texts(
    members: Map<Seq<char>, Option<Seq<char>>>,
    texts: Seq<(String, String)>,
) -> bool {
    &&& forall|i: int|
        0 <= i < texts.len() ==> members.contains_key((#[trigger] texts[i]).0@)
            && members[texts[i].0@] == Some(texts[i].1@)
    &&& forall|key: Seq<char>| #[trigger]
        members.contains_key(key) ==> exists|i: int|
            0 <= i < texts.len() && (#[trigger] texts[i]).0@ == key
}

/// Whether JSON bytes hold these texts under a field.
pub open spec fn gives_texts(bytes: Seq<u8>, field: Seq<char>, texts: Seq<(String, String)>) -> bool {
    json_members(bytes, field) matches Some(members) && holds_texts(members, texts)
}

/// `Value::to_string` on an object of numbers and, under one more field, an
/// object of texts: reading the JSON text gives each of them back.
#[verifier::external_body]
pub(crate) fn write_object(
    numbers: Vec<(String, u64)>,
    field: &str,
    texts: Vec<(String, String)>,
) -> (json: String)
    requires
        distinct_fields(numbers@),
        distinct_fields(texts@),
        forall|i: int| 0 <= i < numbers@.len() ==> (#[trigger] numbers@[i]).0@ != field@,
    ensures
        forall|i: int|
            0 <= i < numbers@.len() ==> json_number(
                encode_utf8(json@),
                (#[trigger] numbers@[i]).0@,
            ) == Some(numbers@[i].1),
        gives_texts(encode_utf8(json@), field@, texts@),
{
    let members = texts.into_iter().map(|(key, text)| (key, Value::String(text))).collect();
    let mut object: serde_json::Map<String, Value> =
        numbers.into_iter().map(|(key, number)| (key, Value::from(number))).collect();
    object.insert(field.to_string(), Value::Object(members));
    Value::Object(object).to_string()
}

} // verus!
