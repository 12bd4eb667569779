//! JSON documents with source positions, for the manifest parsers.
//!
//! A [`JsonNode`] holds what `json-spanned-value` gives for a manifest:
//! every value with the byte bounds of its text, and object members in the
//! parser's order, each key with the bounds of its string (quotes included).

use vstd::prelude::*;
use crate::text::{ob, sb, str_eq};
use json_spanned_value::spanned::Spanned;
use json_spanned_value::Value as SpannedJson;

verus! {

/// A JSON value with the byte bounds `[start, end)` of its text.
#[derive(Debug)]
pub struct JsonNode {
    pub start: usize,
    pub end: usize,
    pub value: JsonNodeValue,
}

/// The value of a [`JsonNode`].
#[derive(Debug)]
pub enum JsonNodeValue {
    Null,
    Bool(bool),
    /// A number, as the parser writes it back.
    Number(String),
    Str(String),
    Array(Vec<JsonNode>),
    Object(Vec<JsonNodeMember>),
}

/// A member of a JSON object: its key, the bounds of the key's string, and
/// its value.
#[derive(Debug)]
pub struct JsonNodeMember {
    pub key: String,
    pub key_start: usize,
    pub key_end: usize,
    pub value: JsonNode,
}

/// Index of the first member of `es`, at or after `i`, whose key is `key`.
pub open spec fn node_member_index(es: Seq<JsonNodeMember>, key: Seq<u8>, i: int) -> Option<int>
    decreases es.len() - i,
{
    if i < 0 || i >= es.len() {
        None
    } else if ob(&es[i].key) == key {
        Some(i)
    } else {
        node_member_index(es, key, i + 1)
    }
}

/// The members of an object node.
pub open spec fn node_members(n: JsonNode) -> Option<Seq<JsonNodeMember>> {
    match n.value {
        JsonNodeValue::Object(es) => Some(es@),
        _ => None,
    }
}

/// The member `key` of an object node.
pub open spec fn member_get(n: JsonNode, key: Seq<u8>) -> Option<JsonNode> {
    match n.value {
        JsonNodeValue::Object(es) => match node_member_index(es@, key, 0) {
            Some(i) => Some(es@[i].value),
            None => None,
        },
        _ => None,
    }
}

impl JsonNode {
    /// The member `key` of an object node; `None` for a missing key or a
    /// node that is not an object.
    pub fn get(&self, key: &str) -> (r: Option<&JsonNode>)
        ensures
            match r {
                Some(x) => member_get(*self, sb(key)) == Some(*x),
                None => member_get(*self, sb(key)) is None,
            },
    {
        match &self.value {
            JsonNodeValue::Object(es) => {
                let mut i: usize = 0;
                while i < es.len()
                    invariant
                        self.value == JsonNodeValue::Object(*es),
                        i <= es@.len(),
                        node_member_index(es@, sb(key), 0) == node_member_index(es@, sb(key), i as int),
                    decreases es@.len() - i,
                {
                    if str_eq(es[i].key.as_str(), key) {
                        return Some(&es[i].value);
                    }
                    i = i + 1;
                }
                None
            },
            _ => None,
        }
    }

    /// The members of an object node.
    pub fn as_object(&self) -> (r: Option<&Vec<JsonNodeMember>>)
        ensures
            match r {
                Some(es) => node_members(*self) == Some(es@),
                None => node_members(*self) is None,
            },
    {
        match &self.value {
            JsonNodeValue::Object(es) => Some(es),
            _ => None,
        }
    }
}

/// `json_spanned_value::Value`, the value type of `json-spanned-value`.
#[verifier::external_type_specification]
#[verifier::external_body]
pub struct ExSpannedJson(SpannedJson);

/// `json_spanned_value::spanned::Spanned`, a value with its byte range.
#[verifier::external_type_specification]
#[verifier::external_body]
#[verifier::reject_recursive_types(V)]
pub struct ExSpanned<V>(Spanned<V>);

/// The spanned tree that `json-spanned-value` reads from the UTF-8 text
/// `content`, as a [`JsonNode`]; `null` at `0..0` where it does not parse.
pub uninterp spec fn json_tree_of(content: Seq<u8>) -> JsonNode;

/// The [`JsonNode`] of a spanned value, variant for variant, with every
/// range as `json-spanned-value` gives it (a number by the text `serde_json`
/// writes for it, an object's members in the map's order).
#[verifier::external_body]
fn from_spanned(v: &Spanned<SpannedJson>) -> JsonNode {
    let value = match v.get_ref() {
        SpannedJson::Null => JsonNodeValue::Null,
        SpannedJson::Bool(b) => JsonNodeValue::Bool(*b),
        SpannedJson::Number(n) => JsonNodeValue::Number(n.to_string()),
        SpannedJson::String(s) => JsonNodeValue::Str(s.clone()),
        SpannedJson::Array(a) => JsonNodeValue::Array(a.iter().map(from_spanned).collect()),
        SpannedJson::Object(o) => JsonNodeValue::Object(o.iter().map(|(k, x)| JsonNodeMember {
            key: k.get_ref().clone(), key_start: k.start(), key_end: k.end(), value: from_spanned(x),
        }).collect()),
    };
    JsonNode { start: v.start(), end: v.end(), value }
}

/// `json_spanned_value::from_str::<json_spanned_value::spanned::Value>`,
/// converted.
///
/// Trusted: the result is the tree that `json-spanned-value` reads from
/// `content`, a function of the text alone, named [`json_tree_of`]; what that
/// is, JSON's grammar and the reader's ranges, is not stated here.
#[verifier::external_body]
pub fn json_tree(content: &str) -> (r: JsonNode)
    ensures
        r == json_tree_of(sb(content)),
{
    match json_spanned_value::from_str::<json_spanned_value::spanned::Value>(content) {
        Ok(v) => from_spanned(&v),
        Err(_) => JsonNode { start: 0, end: 0, value: JsonNodeValue::Null },
    }
}

} // verus!
