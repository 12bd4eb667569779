//! Parser for `pubspec.lock` files: the exact versions locked for Dart (pub)
//! dependencies.
//!
//! `pubspec.lock` is YAML with a top-level `packages:` section. Each package
//! name stands at two spaces of indentation followed by `:`, and its version
//! at four spaces: `    version: "X.Y.Z"`. Quotes around versions are
//! stripped; Dart names are case-sensitive and kept as written; the first
//! entry for a name wins.

use vstd::prelude::*;
use vstd::utf8::valid_utf8;
use crate::parsers::lock_map::{
    flat_packages, insert_first, lists_pairs, lock_map_entries, pair_pkgs, LockMap,
};
use crate::parsers::lockfile_graph::{pkgs_view, LockfileGraph};
use crate::text::{
    at_boundary, bytes, lemma_ascii_prefix_boundary, lemma_skip_byte, lines, lines_from,
    next_line, ob, sb, skip_byte, slice, starts_with, starts_with_b, to_owned_string, trim,
    trim_b, trim_byte, trim_byte_b, trim_start_byte,
};

verus! {

broadcast use vstd::utf8::encode_utf8_valid_utf8, vstd::utf8::encode_utf8_decode_utf8;

/// Where the `pubspec.lock` walker stands after some lines.
pub ghost struct PubState {
    /// Inside the top-level `packages:` section.
    pub in_packages: bool,
    /// The package whose fields are being read.
    pub current: Option<Seq<u8>>,
    /// Name → version recorded so far.
    pub map: Map<Seq<u8>, Seq<u8>>,
}

/// The version a `    version: ...` line gives, quotes stripped, if it is one.
pub open spec fn pub_version(l: Seq<u8>) -> Option<Seq<u8>> {
    let t = trim_b(l);
    if starts_with_b(t, sb("version:")) {
        Some(trim_byte_b(trim_b(t.subrange(sb("version:").len() as int, t.len() as int)), 0x22))
    } else {
        None
    }
}

/// One line of `pubspec.lock`.
pub open spec fn pub_step(st: PubState, l: Seq<u8>) -> PubState {
    let ind = skip_byte(l, 0, 0x20);
    if ind == 0 {
        PubState { in_packages: starts_with_b(l, sb("packages:")), current: None, map: st.map }
    } else if !st.in_packages {
        st
    } else if ind == 2 {
        let t = trim_b(l);
        if t.len() > 0 && t[t.len() - 1] == 0x3A {
            PubState { current: Some(t.subrange(0, t.len() - 1)), ..st }
        } else {
            st
        }
    } else if ind == 4 {
        match (st.current, pub_version(l)) {
            (Some(pkg), Some(v)) => if v.len() > 0 {
                PubState { map: insert_first(st.map, pkg, v), ..st }
            } else {
                st
            },
            _ => st,
        }
    } else {
        st
    }
}

/// The walker's state after the lines `ls`.
pub open spec fn pub_run(ls: Seq<Seq<u8>>) -> PubState
    decreases ls.len(),
{
    if ls.len() == 0 {
        PubState { in_packages: false, current: None, map: Map::empty() }
    } else {
        pub_step(pub_run(ls.drop_last()), ls.last())
    }
}

/// The name → version map of `pubspec.lock` content.
pub open spec fn pubspec_lock_map(content: Seq<u8>) -> Map<Seq<u8>, Seq<u8>> {
    pub_run(lines(content)).map
}

proof fn lit_version_key()
    ensures
        sb("version:") == seq![118u8, 101, 114, 115, 105, 111, 110, 58],
{
    reveal_strlit("version:");
    assert(vstd::string::is_ascii("version:"));
    assert(sb("version:") =~= seq![118u8, 101, 114, 115, 105, 111, 110, 58]);
}


/// The version a line gives, computed.
fn pub_version_exec(line: &str) -> (r: Option<&str>)
    ensures
        match r {
            Some(v) => pub_version(sb(line)) == Some(sb(v)),
            None => pub_version(sb(line)) is None,
        },
{
    let t = trim(line);
    let tb = bytes(t);
    if starts_with(tb, bytes("version:")) {
        proof {
            lit_version_key();
            lemma_ascii_prefix_boundary(tb@, sb("version:"));
        }
        let pl = bytes("version:").len();
        Some(trim_byte(trim(slice(t, pl, tb.len())), 0x22))
    } else {
        None
    }
}

/// Parse a `pubspec.lock` file into a map of package name → resolved version.
///
/// Only the `packages:` section is read. A name is `  name:` at exactly two
/// spaces; its version is `    version: ...` at exactly four. Quotes around
/// versions are stripped, empty versions skipped, names kept as written, and
/// the first version recorded for a name wins.
pub fn parse_pubspec_lock(content: &str) -> (r: LockMap)
    ensures
        lock_map_entries(r) == pubspec_lock_map(sb(content)),
{
    let b = bytes(content);
    let n = b.len();
    let ghost ls = lines(b@);
    let mut map = LockMap::new();
    let mut in_packages = false;
    let mut current: Option<&str> = None;
    let mut p: usize = 0;
    let mut i: usize = 0;
    proof {
        assert(lock_map_entries(map) =~= Map::<Seq<u8>, Seq<u8>>::empty());
    }
    while p < n
        invariant
            n == b@.len(),
            b@ == sb(content),
            valid_utf8(b@),
            ls == lines(b@),
            p <= n,
            at_boundary(b@, p as int),
            i <= ls.len(),
            i <= p,
            lines_from(b@, p as int) == ls.skip(i as int),
            pub_run(ls.take(i as int)) == (PubState {
                in_packages,
                current: match current {
                    Some(c) => Some(sb(c)),
                    None => None,
                },
                map: lock_map_entries(map),
            }),
        decreases n - p,
    {
        let (ce, next) = next_line(b, p);
        let line = slice(content, p, ce);
        let ghost st = pub_run(ls.take(i as int));
        proof {
            assert(ls.skip(i as int).len() >= 1);
            assert(ls.skip(i as int)[0] == sb(line));
            assert(ls.skip(i + 1) =~= ls.skip(i as int).skip(1));
            assert(lines_from(b@, next as int) =~= ls.skip(i as int).skip(1));
            assert(ls.take(i + 1).drop_last() =~= ls.take(i as int));
            assert(ls.take(i + 1).last() == sb(line));
            lemma_skip_byte(sb(line), 0, 0x20);
        }
        let lb = bytes(line);
        let ind = lb.len() - bytes(trim_start_byte(line, 0x20)).len();
        if ind == 0 {
            in_packages = starts_with(lb, bytes("packages:"));
            current = None;
        } else if !in_packages {
        } else if ind == 2 {
            let t = trim(line);
            let tb = bytes(t);
            if tb.len() > 0 && tb[tb.len() - 1] == 0x3A {
                current = Some(slice(t, 0, tb.len() - 1));
            }
        } else if ind == 4 {
            match current {
                Some(pkg) => match pub_version_exec(line) {
                    Some(v) => {
                        if bytes(v).len() > 0 {
                            map.insert_first_ref(pkg, to_owned_string(v));
                        }
                    },
                    None => {},
                },
                None => {},
            }
        }
        proof {
            assert(pub_step(st, sb(line)) == (PubState {
                in_packages,
                current: match current {
                    Some(c) => Some(sb(c)),
                    None => None,
                },
                map: lock_map_entries(map),
            }));
        }
        p = next;
        i = i + 1;
    }
    proof {
        assert(ls.skip(i as int).len() == 0);
        assert(ls.take(i as int) =~= ls);
    }
    map
}

/// Resolves versions from `pubspec.lock` for Dart projects.
///
/// Package names are case-sensitive and used as written. There is no graph
/// parser for Dart: the graph is flat, one package per locked name, without
/// edges or roots.
pub struct DartResolver;

impl DartResolver {
    /// The flat graph of `pubspec.lock` content: one package per locked name,
    /// in the order the map hands them out, which is not fixed.
    pub fn parse_graph(&self, lock_content: &str) -> (graph: LockfileGraph)
        ensures
            exists|e: Seq<(Seq<u8>, Seq<u8>)>|
                lists_pairs(e, pubspec_lock_map(sb(lock_content))) && pkgs_view(graph.packages@)
                    == pair_pkgs(e),
    {
        let lock_versions = parse_pubspec_lock(lock_content);
        let pairs = lock_versions.into_pairs();
        let packages = flat_packages(pairs);
        LockfileGraph { packages }
    }
}

} // verus!
