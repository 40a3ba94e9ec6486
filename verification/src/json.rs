//! The structured text of the search tool's output, as a tree of plain values,
//! and the calls that read it.

use vstd::prelude::*;
use vstd::string::*;
use vstd::utf8::*;

verus! {

/// A JSON document. Of a number it keeps the whole number from 0 to
/// `u64::MAX` that it is, and the whole number from `i64::MIN` to `i64::MAX`
/// that it is; a number that is neither has `None` in both places.
#[derive(Debug, PartialEq, Eq)]
pub enum Json {
    Null,
    Bool(bool),
    Number { unsigned: Option<u64>, signed: Option<i64> },
    Text(String),
    Array(Vec<Json>),
    Object(Vec<(String, Json)>),
}

/// A `Json` as a mathematical value.
pub enum JsonView {
    Null,
    Bool(bool),
    Number { unsigned: Option<u64>, signed: Option<i64> },
    Text(Seq<char>),
    Array(Seq<JsonView>),
    Object(Seq<(Seq<char>, JsonView)>),
}

/// The document as a mathematical value.
pub open spec fn json_view(json: Json) -> JsonView
    decreases json,
{
    match json {
        Json::Null => JsonView::Null,
        Json::Bool(b) => JsonView::Bool(b),
        Json::Number { unsigned, signed } => JsonView::Number { unsigned, signed },
        Json::Text(s) => JsonView::Text(s@),
        Json::Array(items) => JsonView::Array(
            Seq::new(
                items@.len(),
                |i: int|
                    if 0 <= i < items@.len() {
                        json_view(items@[i])
                    } else {
                        JsonView::Null
                    },
            ),
        ),
        Json::Object(members) => JsonView::Object(
            Seq::new(
                members@.len(),
                |i: int|
                    if 0 <= i < members@.len() {
                        (members@[i].0@, json_view(members@[i].1))
                    } else {
                        (Seq::empty(), JsonView::Null)
                    },
            ),
        ),
    }
}

impl View for Json {
    type V = JsonView;

    open spec fn view(&self) -> JsonView {
        json_view(*self)
    }
}

/// `serde_json::Value`, which is only handed from the reader to the
/// conversion below: nothing is known of what it holds.
#[verifier::external_type_specification]
#[verifier::external_body]
pub struct ExJsonValue(serde_json::Value);

/// The document that `serde_json::from_str` reads from a text, `None` where
/// it reports an error.
pub uninterp spec fn json_reading(text: Seq<char>) -> Option<JsonView>;

/// The bytes that `base64::decode` reads from a text, `None` where it
/// reports an error.
pub uninterp spec fn base64_decoding(text: Seq<char>) -> Option<Seq<u8>>;

/// Moves a `serde_json::Value` into a `Json`, variant by variant; a number
/// goes through `serde_json::Number::as_u64` and `as_i64`. Nothing is claimed
/// of the result.
#[verifier::external_body]
fn json_of_value(value: serde_json::Value) -> Json {
    match value {
        serde_json::Value::Null => Json::Null,
        serde_json::Value::Bool(b) => Json::Bool(b),
        serde_json::Value::Number(n) => Json::Number { unsigned: n.as_u64(), signed: n.as_i64() },
        serde_json::Value::String(s) => Json::Text(s),
        serde_json::Value::Array(items) => Json::Array(
            items.into_iter().map(json_of_value).collect(),
        ),
        serde_json::Value::Object(members) => Json::Object(
            members.into_iter().map(|(k, v)| (k, json_of_value(v))).collect(),
        ),
    }
}

/// `serde_json::from_str` at the type `serde_json::Value`: the same text
/// always reads as the same document, or always fails.
#[verifier::external_body]
pub(crate) fn read_json(text: &str) -> (document: Option<Json>)
    ensures
        match document {
            Some(json) => json_reading(text@) == Some(json@),
            None => json_reading(text@) is None,
        },
{
    match serde_json::from_str::<serde_json::Value>(text) {
        Ok(value) => Some(json_of_value(value)),
        Err(_) => None,
    }
}

/// `base64::decode`: the same text always decodes to the same bytes, or
/// always fails.
#[verifier::external_body]
pub(crate) fn decode_base64(text: &str) -> (bytes: Option<Vec<u8>>)
    ensures
        match bytes {
            Some(b) => base64_decoding(text@) == Some(b@),
            None => base64_decoding(text@) is None,
        },
{
    match base64::decode(text) {
        Ok(bytes) => Some(bytes),
        Err(_) => None,
    }
}

/// `std::str::from_utf8`: succeeds exactly on well-formed UTF-8, and the
/// string it gives has the very bytes it was given.
#[verifier::external_body]
pub(crate) fn text_of_utf8(bytes: &[u8]) -> (text: Option<&str>)
    ensures
        text is Some <==> valid_utf8(bytes@),
        text matches Some(s) ==> s.spec_bytes() == bytes@,
{
    match std::str::from_utf8(bytes) {
        Ok(text) => Some(text),
        Err(_) => None,
    }
}

/// The value of the first member at or after `from` whose key is `key`.
pub open spec fn member_from(members: Seq<(Seq<char>, JsonView)>, key: Seq<char>, from: int) -> Option<
    JsonView,
>
    decreases members.len() - from,
{
    if from < 0 || from >= members.len() {
        None
    } else if members[from].0 == key {
        Some(members[from].1)
    } else {
        member_from(members, key, from + 1)
    }
}

/// The value under `key` where `value` is an object that has such a member.
pub open spec fn field(value: JsonView, key: Seq<char>) -> Option<JsonView> {
    match value {
        JsonView::Object(members) => member_from(members, key, 0),
        _ => None,
    }
}

/// The whole number under `key`.
pub open spec fn number_field(value: JsonView, key: Seq<char>) -> Option<u64> {
    match field(value, key) {
        Some(JsonView::Number { unsigned: Some(n), .. }) => Some(n),
        _ => None,
    }
}

/// The whole number under `key`, which may be negative.
pub open spec fn signed_field(value: JsonView, key: Seq<char>) -> Option<i64> {
    match field(value, key) {
        Some(JsonView::Number { signed: Some(n), .. }) => Some(n),
        _ => None,
    }
}

/// The string under `key`.
pub open spec fn text_field(value: JsonView, key: Seq<char>) -> Option<Seq<char>> {
    match field(value, key) {
        Some(JsonView::Text(s)) => Some(s),
        _ => None,
    }
}

/// Whether two string slices hold the same characters.
pub fn same_text(a: &str, b: &str) -> (same: bool)
    ensures
        same == (a@ == b@),
{
    let x = a.to_owned();
    let y = b.to_owned();
    x == y
}

/// Looks up the member of an object by its key.
pub fn get_field<'a>(value: &'a Json, key: &str) -> (found: Option<&'a Json>)
    ensures
        match found {
            Some(v) => field(value@, key@) == Some(v@),
            None => field(value@, key@) is None,
        },
{
    match value {
        Json::Object(members) => {
            let ghost entries = value@->Object_0;
            let mut i: usize = 0;
            proof {
                assert(value@ is Object);
                assert(entries.len() == members@.len());
            }
            while i < members.len()
                invariant
                    i <= members.len(),
                    entries.len() == members.len(),
                    forall|k: int|
                        0 <= k < members.len() ==> #[trigger] entries[k] == (
                            members[k].0@,
                            members[k].1@,
                        ),
                    field(value@, key@) == member_from(entries, key@, i as int),
                decreases members.len() - i,
            {
                if same_text(members[i].0.as_str(), key) {
                    return Some(&members[i].1);
                }
                i += 1;
            }
            None
        },
        _ => None,
    }
}

/// Looks up a whole number by its key.
pub fn get_number(value: &Json, key: &str) -> (found: Option<u64>)
    ensures
        found == number_field(value@, key@),
{
    match get_field(value, key) {
        Some(Json::Number { unsigned: Some(n), .. }) => Some(*n),
        _ => None,
    }
}

/// Looks up a whole number, which may be negative, by its key.
pub fn get_signed(value: &Json, key: &str) -> (found: Option<i64>)
    ensures
        found == signed_field(value@, key@),
{
    match get_field(value, key) {
        Some(Json::Number { signed: Some(n), .. }) => Some(*n),
        _ => None,
    }
}

/// Looks up a string by its key.
pub fn get_text<'a>(value: &'a Json, key: &str) -> (found: Option<&'a String>)
    ensures
        match found {
            Some(s) => text_field(value@, key@) == Some(s@),
            None => text_field(value@, key@) is None,
        },
{
    match get_field(value, key) {
        Some(Json::Text(s)) => Some(s),
        _ => None,
    }
}

} // verus!
