//! JSON values, as far as requests are read.

use serde_json::Value;
use vstd::prelude::*;

verus! {

/// The mathematical form of a JSON value.
pub enum Json {
    Null,
    Bool(bool),
    /// A number, as an unsigned integer if it is one that fits.
    Number(Option<u64>),
    Text(Seq<char>),
    Array,
    Object(Map<Seq<char>, Json>),
}

/// A member of an object.
pub open spec fn member(j: Option<Json>, key: Seq<char>) -> Option<Json> {
    match j {
        Some(Json::Object(m)) => if m.contains_key(key) {
            Some(m[key])
        } else {
            None
        },
        _ => None,
    }
}

/// A value that is a string.
pub open spec fn text_in(j: Option<Json>) -> Option<Seq<char>> {
    match j {
        Some(Json::Text(s)) => Some(s),
        _ => None,
    }
}

/// A value that is a boolean.
pub open spec fn flag_in(j: Option<Json>) -> Option<bool> {
    match j {
        Some(Json::Bool(b)) => Some(b),
        _ => None,
    }
}

/// A value that is an unsigned integer.
pub open spec fn count_in(j: Option<Json>) -> Option<u64> {
    match j {
        Some(Json::Number(n)) => n,
        _ => None,
    }
}

/// A JSON value of serde_json.
#[verifier::external_type_specification]
#[verifier::external_body]
pub struct ExValue(serde_json::Value);

/// What a value holds.
pub uninterp spec fn json_in(v: Value) -> Json;

/// What a text says in JSON, if it is JSON.
pub uninterp spec fn json_of(text: Seq<char>) -> Option<Json>;

/// What an optional value holds.
pub open spec fn json_at(v: Option<&Value>) -> Option<Json> {
    match v {
        Some(v) => Some(json_in(*v)),
        None => None,
    }
}

/// `serde_json::from_str`: the value that a text says. Only that it is a
/// function of the text is claimed.
#[verifier::external_body]
pub(crate) fn parse_json(text: &str) -> (r: Option<Value>)
    ensures
        json_of(text@) == match r {
            Some(v) => Some(json_in(v)),
            None => None,
        },
{
    serde_json::from_str(text).ok()
}

/// `Value::get` with a key: the member of an object, none of anything else.
#[verifier::external_body]
fn get<'a>(v: &'a Value, key: &str) -> (r: Option<&'a Value>)
    ensures
        json_at(r) == member(Some(json_in(*v)), key@),
{
    v.get(key)
}

/// `Value::clone` holds the same.
#[verifier::external_body]
pub(crate) fn copy_json(v: &Value) -> (r: Value)
    ensures
        json_in(r) == json_in(*v),
{
    v.clone()
}

/// `Value::as_str`: the string, if the value is one.
#[verifier::external_body]
fn as_text(v: &Value) -> (r: Option<&str>)
    ensures
        text_in(Some(json_in(*v))) == match r {
            Some(s) => Some(s@),
            None => None,
        },
{
    v.as_str()
}

/// `Value::as_bool`: the boolean, if the value is one.
pub assume_specification[ serde_json::Value::as_bool ](v: &serde_json::Value) -> (r: Option<bool>)
    ensures
        r == flag_in(Some(json_in(*v))),
;

/// `Value::as_u64`: the number, if the value is one that fits.
pub assume_specification[ serde_json::Value::as_u64 ](v: &serde_json::Value) -> (r: Option<u64>)
    ensures
        r == count_in(Some(json_in(*v))),
;

/// A member of an object.
pub fn member_of<'a>(v: Option<&'a Value>, key: &str) -> (r: Option<&'a Value>)
    ensures
        json_at(r) == member(json_at(v), key@),
{
    match v {
        Some(v) => get(v, key),
        None => None,
    }
}

/// A member that is a string.
pub fn text_member(v: Option<&Value>, key: &str) -> (r: Option<String>)
    ensures
        text_in(member(json_at(v), key@)) == match r {
            Some(s) => Some(s@),
            None => None,
        },
{
    match member_of(v, key) {
        Some(m) => match as_text(m) {
            Some(s) => Some(s.to_owned()),
            None => None,
        },
        None => None,
    }
}

/// A member that is a boolean.
pub fn flag_member(v: Option<&Value>, key: &str) -> (r: Option<bool>)
    ensures
        r == flag_in(member(json_at(v), key@)),
{
    match member_of(v, key) {
        Some(m) => m.as_bool(),
        None => None,
    }
}

/// A member that is an unsigned integer.
pub fn count_member(v: Option<&Value>, key: &str) -> (r: Option<u64>)
    ensures
        r == count_in(member(json_at(v), key@)),
{
    match member_of(v, key) {
        Some(m) => m.as_u64(),
        None => None,
    }
}

} // verus!
