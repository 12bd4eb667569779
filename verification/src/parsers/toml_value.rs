//! TOML documents as plain values.
//!
//! Lockfiles such as `Cargo.lock`, `poetry.lock`, `uv.lock` and `pdm.lock`
//! are TOML. A [`TomlValue`] holds a parsed document: floats and date-times
//! keep their text, and tables keep their entries in the parser's order, each
//! key once. A text that does not parse is handed over as an empty table, on
//! which every lookup fails.

use vstd::prelude::*;
use crate::text::{ob, sb, str_eq};

verus! {

/// A parsed TOML value.
#[derive(Debug)]
pub enum TomlValue {
    String(String),
    Integer(i64),
    /// A float, as the parser writes it back.
    Float(String),
    Boolean(bool),
    /// A date-time, as the parser writes it back.
    Datetime(String),
    Array(Vec<TomlValue>),
    /// The entries of a table, in the parser's order, each key once.
    Table(Vec<TomlEntry>),
}

/// An entry of a TOML table: a key and its value.
#[derive(Debug)]
pub struct TomlEntry {
    pub key: String,
    pub value: TomlValue,
}

/// Index of the first entry of `es`, at or after `i`, whose key is `key`.
pub open spec fn entry_index(es: Seq<TomlEntry>, key: Seq<u8>, i: int) -> Option<int>
    decreases es.len() - i,
{
    if i < 0 || i >= es.len() {
        None
    } else if ob(&es[i].key) == key {
        Some(i)
    } else {
        entry_index(es, key, i + 1)
    }
}

/// The entry `key` of a table (`toml::Value::get` with a string key).
pub open spec fn toml_get(v: TomlValue, key: Seq<u8>) -> Option<TomlValue> {
    match v {
        TomlValue::Table(es) => match entry_index(es@, key, 0) {
            Some(i) => Some(es@[i].value),
            None => None,
        },
        _ => None,
    }
}

/// The text of a string value.
pub open spec fn toml_str(v: Option<TomlValue>) -> Option<Seq<u8>> {
    match v {
        Some(TomlValue::String(s)) => Some(ob(&s)),
        _ => None,
    }
}

/// The elements of an array value.
pub open spec fn toml_array(v: Option<TomlValue>) -> Option<Seq<TomlValue>> {
    match v {
        Some(TomlValue::Array(a)) => Some(a@),
        _ => None,
    }
}

/// The entries of a table value.
pub open spec fn toml_table(v: Option<TomlValue>) -> Option<Seq<TomlEntry>> {
    match v {
        Some(TomlValue::Table(es)) => Some(es@),
        _ => None,
    }
}

/// The text of the string entry `key` of `v`.
pub open spec fn toml_field_str(v: TomlValue, key: Seq<u8>) -> Option<Seq<u8>> {
    toml_str(toml_get(v, key))
}

/// The keys of some entries, as UTF-8 bytes.
pub open spec fn entry_keys(es: Seq<TomlEntry>) -> Seq<Seq<u8>> {
    es.map_values(|e: TomlEntry| ob(&e.key))
}

impl TomlValue {
    /// The entry `key` of a table; `None` for a missing key or a value that
    /// is not a table.
    pub fn get(&self, key: &str) -> (r: Option<&TomlValue>)
        ensures
            match r {
                Some(x) => toml_get(*self, sb(key)) == Some(*x),
                None => toml_get(*self, sb(key)) is None,
            },
    {
        match self {
            TomlValue::Table(es) => {
                let mut i: usize = 0;
                while i < es.len()
                    invariant
                        *self == TomlValue::Table(*es),
                        i <= es@.len(),
                        entry_index(es@, sb(key), 0) == entry_index(es@, sb(key), i as int),
                    decreases es@.len() - i,
                {
                    if str_eq(es[i].key.as_str(), key) {
                        return Some(&es[i].value);
                    }
                    i = i + 1;
                }
                None
            },
            _ => None,
        }
    }

    /// The text of a string value.
    pub fn as_str(&self) -> (r: Option<&str>)
        ensures
            match r {
                Some(s) => toml_str(Some(*self)) == Some(sb(s)),
                None => toml_str(Some(*self)) is None,
            },
    {
        match self {
            TomlValue::String(s) => Some(s.as_str()),
            _ => None,
        }
    }

    /// The elements of an array value.
    pub fn as_array(&self) -> (r: Option<&Vec<TomlValue>>)
        ensures
            match r {
                Some(a) => toml_array(Some(*self)) == Some(a@),
                None => toml_array(Some(*self)) is None,
            },
    {
        match self {
            TomlValue::Array(a) => Some(a),
            _ => None,
        }
    }

    /// The entries of a table value.
    pub fn as_table(&self) -> (r: Option<&Vec<TomlEntry>>)
        ensures
            match r {
                Some(es) => toml_table(Some(*self)) == Some(es@),
                None => toml_table(Some(*self)) is None,
            },
    {
        match self {
            TomlValue::Table(es) => Some(es),
            _ => None,
        }
    }
}

/// The entry `key` of `v`, when `v` is present.
pub fn get_opt<'a>(v: Option<&'a TomlValue>, key: &str) -> (r: Option<&'a TomlValue>)
    ensures
        match v {
            Some(x) => match r {
                Some(y) => toml_get(*x, sb(key)) == Some(*y),
                None => toml_get(*x, sb(key)) is None,
            },
            None => r is None,
        },
{
    match v {
        Some(x) => x.get(key),
        None => None,
    }
}

/// The text of the string entry `key` of `v`.
pub fn field_str<'a>(v: &'a TomlValue, key: &str) -> (r: Option<&'a str>)
    ensures
        match r {
            Some(s) => toml_field_str(*v, sb(key)) == Some(sb(s)),
            None => toml_field_str(*v, sb(key)) is None,
        },
{
    match v.get(key) {
        Some(x) => x.as_str(),
        None => None,
    }
}

/// The elements of the array entry `key` of `v`.
pub fn field_array<'a>(v: &'a TomlValue, key: &str) -> (r: Option<&'a Vec<TomlValue>>)
    ensures
        match r {
            Some(a) => toml_array(toml_get(*v, sb(key))) == Some(a@),
            None => toml_array(toml_get(*v, sb(key))) is None,
        },
{
    match v.get(key) {
        Some(x) => x.as_array(),
        None => None,
    }
}

/// The entries of the table entry `key` of `v`.
pub fn field_table<'a>(v: &'a TomlValue, key: &str) -> (r: Option<&'a Vec<TomlEntry>>)
    ensures
        match r {
            Some(es) => toml_table(toml_get(*v, sb(key))) == Some(es@),
            None => toml_table(toml_get(*v, sb(key))) is None,
        },
{
    match v.get(key) {
        Some(x) => x.as_table(),
        None => None,
    }
}

/// The elements of the array entry `key` of `v`, or none when it is not an array.
pub open spec fn toml_section(v: TomlValue, key: Seq<u8>) -> Seq<TomlValue> {
    match toml_array(toml_get(v, key)) {
        Some(a) => a,
        None => Seq::empty(),
    }
}

/// The entries of the table entry `key` of `v`, or none when it is not a table.
pub open spec fn toml_entries(v: TomlValue, key: Seq<u8>) -> Seq<TomlEntry> {
    match toml_table(toml_get(v, key)) {
        Some(es) => es,
        None => Seq::empty(),
    }
}

/// `toml::Value`, the document type of `toml`.
#[verifier::external_type_specification]
#[verifier::external_body]
pub struct ExTomlValue(toml::Value);

/// The document that `toml` reads from the UTF-8 text `content`, as a
/// [`TomlValue`]; an empty table where it does not parse.
pub uninterp spec fn toml_value_of(content: Seq<u8>) -> TomlValue;

/// The [`TomlValue`] of a `toml::Value`, variant for variant (a float or a
/// date-time by the text `toml` writes for it, a table's entries in the
/// map's order).
#[verifier::external_body]
fn from_toml(v: toml::Value) -> TomlValue {
    match v {
        toml::Value::String(s) => TomlValue::String(s),
        toml::Value::Integer(i) => TomlValue::Integer(i),
        toml::Value::Float(f) => TomlValue::Float(f.to_string()),
        toml::Value::Boolean(b) => TomlValue::Boolean(b),
        toml::Value::Datetime(d) => TomlValue::Datetime(d.to_string()),
        toml::Value::Array(a) => TomlValue::Array(a.into_iter().map(from_toml).collect()),
        toml::Value::Table(t) => TomlValue::Table(
            t.into_iter().map(|(key, value)| TomlEntry { key, value: from_toml(value) }).collect(),
        ),
    }
}

/// `toml::from_str::<toml::Value>`, converted.
///
/// Trusted: the result is what `toml` reads from `content`, a function of
/// the text alone, named [`toml_value_of`]; what that is, TOML's grammar, is
/// not stated here.
#[verifier::external_body]
pub fn toml_doc(content: &str) -> (r: TomlValue)
    ensures
        r == toml_value_of(sb(content)),
{
    toml::from_str::<toml::Value>(content).map(from_toml).unwrap_or(TomlValue::Table(Vec::new()))
}

} // verus!
