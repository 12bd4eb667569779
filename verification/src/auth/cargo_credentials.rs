//! Cargo credentials files (`~/.cargo/credentials.toml` or
//! `$CARGO_HOME/credentials.toml`): the tokens of alternative registries.
//!
//! The file is read as a TOML document; a `[registries.NAME]` table with a
//! `token` string gives the token of registry `NAME`. A document that does
//! not have this shape (a registry entry that is not a table, or a token
//! that is not a string) gives no tokens at all.

use vstd::prelude::*;
use crate::parsers::lock_map::{lock_map_entries, LockMap};
use crate::parsers::toml_value::{toml_doc, toml_get, toml_value_of, TomlEntry, TomlValue};
use crate::text::{ob, sb, to_owned_string};

verus! {

/// The token of one registry entry: `Some(None)` for a table without a
/// token, `None` for an entry that is not a table or a token that is not a
/// string.
pub open spec fn registry_token(v: TomlValue) -> Option<Option<Seq<u8>>> {
    match v {
        TomlValue::Table(_) => match toml_get(v, sb("token")) {
            None => Some(None),
            Some(TomlValue::String(s)) => Some(Some(ob(&s))),
            Some(_) => None,
        },
        _ => None,
    }
}

/// The tokens of the registry entries `es` (name to token), or `None` when
/// one of them is malformed.
pub open spec fn registry_tokens(es: Seq<TomlEntry>) -> Option<Map<Seq<u8>, Seq<u8>>>
    decreases es.len(),
{
    if es.len() == 0 {
        Some(Map::empty())
    } else {
        match registry_tokens(es.drop_last()) {
            None => None,
            Some(m) => match registry_token(es.last().value) {
                None => None,
                Some(None) => Some(m),
                Some(Some(t)) => Some(m.insert(ob(&es.last().key), t)),
            },
        }
    }
}

/// The registry tokens of a credentials document: none without a
/// `registries` table, and none at all when the document is malformed.
pub open spec fn credentials_of(doc: TomlValue) -> Map<Seq<u8>, Seq<u8>> {
    match toml_get(doc, sb("registries")) {
        None => Map::empty(),
        Some(TomlValue::Table(es)) => match registry_tokens(es@) {
            Some(m) => m,
            None => Map::empty(),
        },
        Some(_) => Map::empty(),
    }
}

proof fn lemma_tokens_none_extends(es: Seq<TomlEntry>, i: int)
    requires
        0 <= i <= es.len(),
        registry_tokens(es.take(i)) is None,
    ensures
        registry_tokens(es) is None,
    decreases es.len() - i,
{
    if i < es.len() {
        assert(es.take(i + 1).drop_last() =~= es.take(i));
        lemma_tokens_none_extends(es, i + 1);
    } else {
        assert(es.take(i) =~= es);
    }
}

fn empty_map() -> (r: LockMap)
    ensures
        lock_map_entries(r) == Map::<Seq<u8>, Seq<u8>>::empty(),
{
    let r = LockMap::new();
    proof {
        assert(lock_map_entries(r) =~= Map::<Seq<u8>, Seq<u8>>::empty());
    }
    r
}

/// The registry tokens (name to token) of a parsed credentials file; an
/// unparsable file is read as an empty document.
pub fn parse_credentials_doc(doc: &TomlValue) -> (r: LockMap)
    ensures
        lock_map_entries(r) == credentials_of(*doc),
{
    let es = match doc.get("registries") {
        None => return empty_map(),
        Some(TomlValue::Table(es)) => es,
        Some(_) => return empty_map(),
    };
    let mut out = empty_map();
    let mut i: usize = 0;
    while i < es.len()
        invariant
            toml_get(*doc, sb("registries")) == Some(TomlValue::Table(*es)),
            i <= es@.len(),
            registry_tokens(es@.take(i as int)) == Some(lock_map_entries(out)),
        decreases es@.len() - i,
    {
        proof {
            assert(es@.take(i + 1).drop_last() =~= es@.take(i as int));
            assert(es@.take(i + 1).last() == es@[i as int]);
        }
        let e = &es[i];
        match &e.value {
            TomlValue::Table(_) => {
                match e.value.get("token") {
                    None => {},
                    Some(TomlValue::String(t)) => {
                        out.insert(to_owned_string(e.key.as_str()), to_owned_string(t.as_str()));
                    },
                    Some(_) => {
                        proof {
                            lemma_tokens_none_extends(es@, i + 1);
                        }
                        return empty_map();
                    },
                }
            },
            _ => {
                proof {
                    lemma_tokens_none_extends(es@, i + 1);
                }
                return empty_map();
            },
        }
        i = i + 1;
    }
    proof {
        assert(es@.take(es@.len() as int) =~= es@);
    }
    out
}

/// The registry tokens (name to token) of the text of a credentials file,
/// read with `toml` (see [`parse_credentials_doc`]).
pub fn parse_credentials_content(content: &str) -> (r: LockMap)
    ensures
        lock_map_entries(r) == credentials_of(toml_value_of(sb(content))),
{
    let doc = toml_doc(content);
    parse_credentials_doc(&doc)
}

} // verus!
