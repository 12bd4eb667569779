//! JSON documents as plain values.
//!
//! Lockfiles such as `composer.lock`, `package-lock.json`, `bun.lock`,
//! `packages.lock.json` and `Pipfile.lock` are JSON. A [`JsonValue`] holds a
//! parsed document: numbers keep their text, and objects keep their members
//! in the parser's order, each key once. A text that does not parse is
//! handed over as [`JsonValue::Null`], on which every lookup fails.

use vstd::prelude::*;
use crate::text::{ob, sb, str_eq};

verus! {

/// A parsed JSON value.
#[derive(Debug)]
pub enum JsonValue {
    Null,
    Bool(bool),
    /// A number, as the parser writes it back.
    Number(String),
    Str(String),
    Array(Vec<JsonValue>),
    /// The members of an object, in the parser's order, each key once.
    Object(Vec<JsonMember>),
}

/// A member of a JSON object: a key and its value.
#[derive(Debug)]
pub struct JsonMember {
    pub key: String,
    pub value: JsonValue,
}

/// Index of the first member of `es`, at or after `i`, whose key is `key`.
pub open spec fn member_index(es: Seq<JsonMember>, key: Seq<u8>, i: int) -> Option<int>
    decreases es.len() - i,
{
    if i < 0 || i >= es.len() {
        None
    } else if ob(&es[i].key) == key {
        Some(i)
    } else {
        member_index(es, key, i + 1)
    }
}

/// The member `key` of an object (`serde_json::Value::get` with a string key).
pub open spec fn json_get(v: JsonValue, key: Seq<u8>) -> Option<JsonValue> {
    match v {
        JsonValue::Object(es) => match member_index(es@, key, 0) {
            Some(i) => Some(es@[i].value),
            None => None,
        },
        _ => None,
    }
}

/// The text of a string value.
pub open spec fn json_str(v: Option<JsonValue>) -> Option<Seq<u8>> {
    match v {
        Some(JsonValue::Str(s)) => Some(ob(&s)),
        _ => None,
    }
}

/// The elements of an array value.
pub open spec fn json_array(v: Option<JsonValue>) -> Option<Seq<JsonValue>> {
    match v {
        Some(JsonValue::Array(a)) => Some(a@),
        _ => None,
    }
}

/// The members of an object value.
pub open spec fn json_object(v: Option<JsonValue>) -> Option<Seq<JsonMember>> {
    match v {
        Some(JsonValue::Object(es)) => Some(es@),
        _ => None,
    }
}

/// The text of the string member `key` of `v`.
pub open spec fn json_field_str(v: JsonValue, key: Seq<u8>) -> Option<Seq<u8>> {
    json_str(json_get(v, key))
}

/// The keys of some members, as UTF-8 bytes.
pub open spec fn member_keys(es: Seq<JsonMember>) -> Seq<Seq<u8>> {
    es.map_values(|e: JsonMember| ob(&e.key))
}

impl JsonValue {
    /// The member `key` of an object; `None` for a missing key or a value
    /// that is not an object.
    pub fn get(&self, key: &str) -> (r: Option<&JsonValue>)
        ensures
            match r {
                Some(x) => json_get(*self, sb(key)) == Some(*x),
                None => json_get(*self, sb(key)) is None,
            },
    {
        match self {
            JsonValue::Object(es) => {
                let mut i: usize = 0;
                while i < es.len()
                    invariant
                        *self == JsonValue::Object(*es),
                        i <= es@.len(),
                        member_index(es@, sb(key), 0) == member_index(es@, sb(key), i as int),
                    decreases es@.len() - i,
                {
                    if str_eq(es[i].key.as_str(), key) {
                        return Some(&es[i].value);
                    }
                    i = i + 1;
                }
                None
            },
            _ => None,
        }
    }

    /// The text of a string value.
    pub fn as_str(&self) -> (r: Option<&str>)
        ensures
            match r {
                Some(s) => json_str(Some(*self)) == Some(sb(s)),
                None => json_str(Some(*self)) is None,
            },
    {
        match self {
            JsonValue::Str(s) => Some(s.as_str()),
            _ => None,
        }
    }

    /// The elements of an array value.
    pub fn as_array(&self) -> (r: Option<&Vec<JsonValue>>)
        ensures
            match r {
                Some(a) => json_array(Some(*self)) == Some(a@),
                None => json_array(Some(*self)) is None,
            },
    {
        match self {
            JsonValue::Array(a) => Some(a),
            _ => None,
        }
    }

    /// The members of an object value.
    pub fn as_object(&self) -> (r: Option<&Vec<JsonMember>>)
        ensures
            match r {
                Some(es) => json_object(Some(*self)) == Some(es@),
                None => json_object(Some(*self)) is None,
            },
    {
        match self {
            JsonValue::Object(es) => Some(es),
            _ => None,
        }
    }
}

/// The member `key` of `v`, when `v` is present.
pub fn get_opt<'a>(v: Option<&'a JsonValue>, key: &str) -> (r: Option<&'a JsonValue>)
    ensures
        match v {
            Some(x) => match r {
                Some(y) => json_get(*x, sb(key)) == Some(*y),
                None => json_get(*x, sb(key)) is None,
            },
            None => r is None,
        },
{
    match v {
        Some(x) => x.get(key),
        None => None,
    }
}

/// The text of the string member `key` of `v`.
pub fn field_str<'a>(v: &'a JsonValue, key: &str) -> (r: Option<&'a str>)
    ensures
        match r {
            Some(s) => json_field_str(*v, sb(key)) == Some(sb(s)),
            None => json_field_str(*v, sb(key)) is None,
        },
{
    match v.get(key) {
        Some(x) => x.as_str(),
        None => None,
    }
}

/// The elements of the array member `key` of `v`.
pub fn field_array<'a>(v: &'a JsonValue, key: &str) -> (r: Option<&'a Vec<JsonValue>>)
    ensures
        match r {
            Some(a) => json_array(json_get(*v, sb(key))) == Some(a@),
            None => json_array(json_get(*v, sb(key))) is None,
        },
{
    match v.get(key) {
        Some(x) => x.as_array(),
        None => None,
    }
}

/// The members of the object member `key` of `v`.
pub fn field_object<'a>(v: &'a JsonValue, key: &str) -> (r: Option<&'a Vec<JsonMember>>)
    ensures
        match r {
            Some(es) => json_object(json_get(*v, sb(key))) == Some(es@),
            None => json_object(json_get(*v, sb(key))) is None,
        },
{
    match v.get(key) {
        Some(x) => x.as_object(),
        None => None,
    }
}

/// The elements of the array member `key` of `v`, or none when it is not an array.
pub open spec fn json_section(v: JsonValue, key: Seq<u8>) -> Seq<JsonValue> {
    match json_array(json_get(v, key)) {
        Some(a) => a,
        None => Seq::empty(),
    }
}

/// The members of the object member `key` of `v`, or none when it is not an object.
pub open spec fn json_members(v: JsonValue, key: Seq<u8>) -> Seq<JsonMember> {
    match json_object(json_get(v, key)) {
        Some(es) => es,
        None => Seq::empty(),
    }
}

/// `serde_json::Value`, the document type of `serde_json`.
#[verifier::external_type_specification]
#[verifier::external_body]
pub struct ExSerdeJsonValue(serde_json::Value);

/// The document that `serde_json` reads from the UTF-8 text `content`, as a
/// [`JsonValue`]; `null` where it does not parse.
pub uninterp spec fn json_value_of(content: Seq<u8>) -> JsonValue;

/// The [`JsonValue`] of a `serde_json::Value`, variant for variant (a number
/// by the text `serde_json` writes for it, an object's members in the map's
/// order).
#[verifier::external_body]
fn from_serde_json(v: serde_json::Value) -> JsonValue {
    match v {
        serde_json::Value::Null => JsonValue::Null,
        serde_json::Value::Bool(b) => JsonValue::Bool(b),
        serde_json::Value::Number(n) => JsonValue::Number(n.to_string()),
        serde_json::Value::String(s) => JsonValue::Str(s),
        serde_json::Value::Array(a) => JsonValue::Array(a.into_iter().map(from_serde_json).collect()),
        serde_json::Value::Object(m) => JsonValue::Object(
            m.into_iter().map(|(key, value)| JsonMember { key, value: from_serde_json(value) }).collect(),
        ),
    }
}

/// `serde_json::from_str::<serde_json::Value>`, converted.
///
/// Trusted: the result is what `serde_json` reads from `content`, a function
/// of the text alone, named [`json_value_of`]; what that is, JSON's grammar,
/// is not stated here.
#[verifier::external_body]
pub fn json_doc(content: &str) -> (r: JsonValue)
    ensures
        r == json_value_of(sb(content)),
{
    serde_json::from_str::<serde_json::Value>(content).map(from_serde_json).unwrap_or(JsonValue::Null)
}

} // verus!
