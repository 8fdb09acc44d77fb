//! The trusted boundary: every item here is believed, not proved.
//!
//! The library parses JSON text through `serde_json`; the parsed value and
//! what it holds are named here so that verified code can speak of them.

use vstd::prelude::*;
use crate::json::{JVal, Json};

verus! {

/// `serde_json::Value`, declared so that it can stand in signatures.
#[verifier::external_type_specification]
#[verifier::external_body]
pub struct ExValue(serde_json::Value);

/// The JSON document that a `serde_json::Value` holds, as this library
/// models it: the same value always holds the same document.
pub uninterp spec fn value_model(v: serde_json::Value) -> JVal;

/// What parsing a text as JSON yields: `None` where the text is not a
/// well-formed JSON document, else the document it spells.
pub uninterp spec fn json_of_text(s: Seq<char>) -> Option<JVal>;

/// Relies on `serde_json::from_str::<serde_json::Value>`: it parses the
/// text by the JSON grammar, and its result is a function of the text
/// alone.
#[verifier::external_body]
pub(crate) fn parse_json_value(s: &str) -> (r: Option<serde_json::Value>)
    ensures
        match r {
            Option::Some(v) => json_of_text(s@) == Option::Some(value_model(v)),
            Option::None => json_of_text(s@) is None,
        },
{
    serde_json::from_str(s).ok()
}

/// Relies on the shape of `serde_json::Value`: each variant is carried to
/// the library's value of the same shape, member by member, so the result
/// holds the document that `v` holds.
#[verifier::external_body]
pub(crate) fn json_from_value(v: serde_json::Value) -> (r: Json)
    ensures
        r@ == value_model(v),
{
    match v {
        serde_json::Value::Null => Json::Null,
        serde_json::Value::Bool(b) => Json::Bool(b),
        serde_json::Value::Number(n) => match n.as_i64() {
            Some(i) => Json::Int(i),
            None => Json::Num(n.to_string()),
        },
        serde_json::Value::String(s) => Json::Str(s),
        serde_json::Value::Array(a) => Json::Arr(a.into_iter().map(json_from_value).collect()),
        serde_json::Value::Object(m) => Json::Obj(
            m.into_iter().map(|(k, x)| (k, json_from_value(x))).collect(),
        ),
    }
}

/// Relies on `String::push`: it appends exactly the one character.
#[verifier::external_body]
pub(crate) fn push_char(s: &mut String, c: char)
    ensures
        final(s)@ == old(s)@.push(c),
{
    s.push(c);
}

} // verus!
