//! The JSON documents the application reads: `serde_json` parses them and
//! reads single members out of them.

use vstd::prelude::*;

verus! {

/// A parsed JSON document.
#[verifier::external_type_specification]
#[verifier::external_body]
pub struct ExJsonValue(serde_json::Value);

/// What `serde_json::from_str::<Value>` reports on a text: nothing when it
/// accepts the text as a JSON document, else its error's message. It is a
/// function of the text alone.
pub uninterp spec fn json_parse_error(text: Seq<char>) -> Option<Seq<char>>;

/// Whether `serde_json::from_str::<Value>` accepts the text.
pub open spec fn json_accepts(text: Seq<char>) -> bool {
    json_parse_error(text) is None
}

/// `serde_json::from_str::<Value>`: parses a JSON document, or reports the
/// error's message (its `Display` text). The parsed value is opaque here.
#[verifier::external_body]
pub(crate) fn json_from_str(text: &str) -> (r: Result<serde_json::Value, String>)
    ensures
        match r {
            Ok(_) => json_parse_error(text@) is None,
            Err(m) => json_parse_error(text@) == Some(m@),
        },
{
    serde_json::from_str(text).map_err(|e: serde_json::Error| e.to_string())
}

/// The unsigned integer at `document[group][key]`, when the text is a JSON
/// document that has one there.
pub uninterp spec fn json_u64_at(text: Seq<char>, group: Seq<char>, key: Seq<char>) -> Option<u64>;

/// The boolean at `document[key]`, when the text is a JSON document that has
/// one there.
pub uninterp spec fn json_bool_at(text: Seq<char>, key: Seq<char>) -> Option<bool>;

/// The string at `document[key]`, when the text is a JSON document that has
/// one there.
pub uninterp spec fn json_str_at(text: Seq<char>, key: Seq<char>) -> Option<Seq<char>>;

/// `serde_json::from_str::<Value>`, then `Value::get(group)`,
/// `Value::get(key)` and `Value::as_u64`: the unsigned integer member `key`
/// of the object member `group`. It is a function of the three texts alone,
/// and absent when the text is not a JSON document.
#[verifier::external_body]
pub(crate) fn json_u64_member(text: &str, group: &str, key: &str) -> (r: Option<u64>)
    ensures
        r == json_u64_at(text@, group@, key@),
        !json_accepts(text@) ==> r is None,
{
    serde_json::from_str::<serde_json::Value>(text).ok().and_then(
        |v| v.get(group).and_then(|g| g.get(key)).and_then(serde_json::Value::as_u64),
    )
}

/// `serde_json::from_str::<Value>`, then `Value::get(key)` and
/// `Value::as_bool`: the boolean member `key`. It is a function of the two
/// texts alone, and absent when the text is not a JSON document.
#[verifier::external_body]
pub(crate) fn json_bool_member(text: &str, key: &str) -> (r: Option<bool>)
    ensures
        r == json_bool_at(text@, key@),
        !json_accepts(text@) ==> r is None,
{
    serde_json::from_str::<serde_json::Value>(text).ok().and_then(
        |v| v.get(key).and_then(serde_json::Value::as_bool),
    )
}

/// `serde_json::from_str::<Value>`, then `Value::get(key)` and
/// `Value::as_str`: the string member `key`. It is a function of the two
/// texts alone, and absent when the text is not a JSON document.
#[verifier::external_body]
pub(crate) fn json_str_member(text: &str, key: &str) -> (r: Option<String>)
    ensures
        match r {
            Some(s) => json_str_at(text@, key@) == Some(s@),
            None => json_str_at(text@, key@) is None,
        },
        !json_accepts(text@) ==> r is None,
{
    serde_json::from_str::<serde_json::Value>(text).ok().and_then(
        |v| v.get(key).and_then(serde_json::Value::as_str).map(String::from),
    )
}

/// A string member's text, or the empty text when there is none.
pub open spec fn str_or_empty(member: Option<Seq<char>>) -> Seq<char> {
    match member {
        Some(s) => s,
        None => Seq::empty(),
    }
}

/// The string member `key` of a JSON text, or the empty text when there is
/// no such string member.
pub fn string_member(text: &str, key: &str) -> (r: String)
    ensures
        r@ == str_or_empty(json_str_at(text@, key@)),
{
    match json_str_member(text, key) {
        Some(s) => s,
        None => String::new(),
    }
}

} // verus!
