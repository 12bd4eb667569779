//! Node.js lockfiles: `yarn.lock` and `pnpm-lock.yaml` read line by line,
//! `package-lock.json` and `bun.lock` read from their JSON documents, and the
//! string helpers that these formats share.

use vstd::prelude::*;
use vstd::utf8::valid_utf8;
use crate::text::{append_str, at_boundary, before_byte, bytes, contains, contains_b, ends_with,
    ends_with_b, find_b, find_byte, lemma_after_ascii, lemma_ascii_prefix_boundary, lemma_find_b,
    lemma_rfind_b, lines, lines_from, next_line, ob, rfind_b, rfind_byte, sb, slice, starts_with,
    starts_with_b, str_eq, sub_string, first_token, first_word, find_seq, find_s, split_from,
    lemma_find_s, is_blank, to_owned_string, trim, trim_b, trim_byte, trim_byte_b,
    trim_end, trim_end_b, trim_end_byte, trim_end_byte_b, trim_start, trim_start_b, until_byte};
use crate::parsers::lock_map::{
    flat_packages, insert_first, lists_pairs, lock_map_entries, pair_pkgs, LockMap,
};
use crate::parsers::json_value::{
    field_object, field_str, json_array, json_field_str, json_get, json_members, json_object,
    json_doc, json_str, json_value_of, member_keys, JsonMember, JsonValue,
};
use crate::parsers::lockfile_graph::{names_view, pkgs_view, strings_view, LockfileGraph, LockfilePackage,
    PkgModel};

verus! {

broadcast use vstd::utf8::encode_utf8_valid_utf8;

/// Type of Node.js lockfile detected.
#[derive(Debug, Clone, Copy, PartialEq, Eq, Structural)]
pub enum NpmLockfileType {
    /// npm's `package-lock.json`
    PackageLock,
    /// Yarn's `yarn.lock` (Classic v1 or Berry v2+)
    YarnLock,
    /// pnpm's `pnpm-lock.yaml`
    PnpmLock,
    /// Bun's `bun.lock` (text JSONC format)
    BunLock,
}

proof fn lit_node_modules()
    ensures
        sb("node_modules/") == seq![110u8, 111, 100, 101, 95, 109, 111, 100, 117, 108, 101, 115, 47],
{
    reveal_strlit("node_modules/");
    assert(vstd::string::is_ascii("node_modules/"));
    assert(sb("node_modules/") =~= seq![110u8, 111, 100, 101, 95, 109, 111, 100, 117, 108, 101, 115, 47]);
}

proof fn lit_newline()
    ensures
        sb("\n") == seq![10u8],
{
    reveal_strlit("\n");
    assert(vstd::string::is_ascii("\n"));
    assert(sb("\n") =~= seq![10u8]);
}

// ---------------------------------------------------------------------------
// `name@version` specs
// ---------------------------------------------------------------------------

/// Index of the `@` that separates name and version; a leading `@` opens a scope.
pub open spec fn at_separator(b: Seq<u8>) -> Option<int> {
    if b.len() > 0 && b[0] == 0x40 {
        find_b(b, 1, 0x40)
    } else {
        find_b(b, 0, 0x40)
    }
}

/// A `name@version` spec split into its two non-empty halves.
pub open spec fn split_nv(b: Seq<u8>) -> Option<(Seq<u8>, Seq<u8>)> {
    match at_separator(b) {
        None => None,
        Some(at) => {
            let name = b.subrange(0, at);
            let version = b.subrange(at + 1, b.len() as int);
            if name.len() == 0 || version.len() == 0 {
                None
            } else {
                Some((name, version))
            }
        },
    }
}

/// Split a `name@version` spec into `(name, version)`, handling scoped packages.
///
/// - `express@4.18.2` → `Some(("express", "4.18.2"))`
/// - `@types/node@20.11.5` → `Some(("@types/node", "20.11.5"))`
/// - `express@npm:^4.18.0` → `Some(("express", "npm:^4.18.0"))`
pub fn split_name_version(spec: &str) -> (r: Option<(&str, &str)>)
    ensures
        match split_nv(sb(spec)) {
            None => r is None,
            Some((n, v)) => r matches Some((a, c)) && sb(a) == n && sb(c) == v,
        },
{
    let b = bytes(spec);
    let n = b.len();
    let start: usize = if n > 0 && b[0] == 0x40 {
        1
    } else {
        0
    };
    let at = match find_byte(b, start, 0x40) {
        Some(i) => i,
        None => {
            return None;
        },
    };
    proof {
        lemma_find_b(b@, start as int, 0x40);
        lemma_after_ascii(b@, at as int);
    }
    if at == 0 || at + 1 == n {
        return None;
    }
    let name = slice(spec, 0, at);
    let version = slice(spec, at + 1, n);
    Some((name, version))
}

/// The package name of a top-level `node_modules/` key of `package-lock.json`.
pub open spec fn node_modules_name(b: Seq<u8>) -> Option<Seq<u8>> {
    if starts_with_b(b, sb("node_modules/")) {
        let s = b.subrange(13, b.len() as int);
        if contains_b(s, sb("node_modules/")) || s.len() == 0 {
            None
        } else {
            Some(s)
        }
    } else {
        None
    }
}

/// Extract package name from a `node_modules/` path key.
///
/// - `node_modules/express` → `Some("express")`
/// - `node_modules/@scope/name` → `Some("@scope/name")`
/// - `node_modules/a/node_modules/b` → `None` (nested transitive dep, skip)
/// - `""` (root package) → `None`
pub fn extract_name_from_node_modules_path(path: &str) -> (r: Option<&str>)
    ensures
        match node_modules_name(sb(path)) {
            None => r is None,
            Some(s) => r matches Some(x) && sb(x) == s,
        },
{
    let b = bytes(path);
    let pre = "node_modules/".as_bytes();
    if !starts_with(b, pre) {
        return None;
    }
    proof {
        lit_node_modules();
        lemma_ascii_prefix_boundary(b@, pre@);
    }
    let stripped = slice(path, 13, b.len());
    let sbytes = bytes(stripped);
    if contains(sbytes, pre) || sbytes.len() == 0 {
        return None;
    }
    Some(stripped)
}

/// A pnpm `name@version(peers)` key without its peer suffix.
pub open spec fn pnpm_nv(b: Seq<u8>) -> Option<(Seq<u8>, Seq<u8>)> {
    match split_nv(b) {
        None => None,
        Some((n, v)) => {
            let v2 = before_byte(v, 0x28);
            if v2.len() == 0 {
                None
            } else {
                Some((n, v2))
            }
        },
    }
}

/// Split a pnpm package key into (name, version), stripping peer dep info.
///
/// - `express@4.18.2` → `("express", "4.18.2")`
/// - `@types/node@20.11.5` → `("@types/node", "20.11.5")`
/// - `pkg@1.0.0(peer@2.0.0)` → `("pkg", "1.0.0")`
pub fn split_pnpm_name_version(key: &str) -> (r: Option<(&str, &str)>)
    ensures
        match pnpm_nv(sb(key)) {
            None => r is None,
            Some((n, v)) => r matches Some((a, c)) && sb(a) == n && sb(c) == v,
        },
{
    let (name, version) = match split_name_version(key) {
        Some(p) => p,
        None => {
            return None;
        },
    };
    let version = until_byte(version, 0x28);
    if bytes(version).len() == 0 {
        return None;
    }
    Some((name, version))
}

/// A pnpm graph key split at its last `@`, after dropping any `(peer)` suffix.
pub open spec fn pnpm_key(b: Seq<u8>) -> Option<(Seq<u8>, Seq<u8>)> {
    let base = before_byte(b, 0x28);
    match rfind_b(base, base.len() as int, 0x40) {
        None => None,
        Some(at) => if at == 0 {
            None
        } else {
            Some((base.subrange(0, at), base.subrange(at + 1, base.len() as int)))
        },
    }
}

/// Split a pnpm key like "react@18.2.0" or "@babel/core@7.0.0" into (name, version).
///
/// Strips peer-dep suffix before splitting: "react-dom@18.2.0(react@18.2.0)" → ("react-dom", "18.2.0").
pub fn split_pnpm_key(key: &str) -> (r: Option<(String, String)>)
    ensures
        match pnpm_key(sb(key)) {
            None => r is None,
            Some((n, v)) => r matches Some((a, c)) && ob(&a) == n && ob(&c) == v,
        },
{
    let base = until_byte(key, 0x28);
    let bb = bytes(base);
    let at = match rfind_byte(bb, 0x40) {
        Some(i) => i,
        None => {
            return None;
        },
    };
    if at == 0 {
        return None;
    }
    proof {
        lemma_rfind_b(bb@, bb@.len() as int, 0x40);
        lemma_after_ascii(bb@, at as int);
    }
    let blen = bb.len();
    Some((sub_string(base, 0, at), sub_string(base, at + 1, blen)))
}

// ---------------------------------------------------------------------------
// JSONC (`bun.lock`)
// ---------------------------------------------------------------------------

/// The whitespace of `char::is_ascii_whitespace`.
pub open spec fn is_ascii_ws(x: u8) -> bool {
    x == 0x20 || x == 0x09 || x == 0x0A || x == 0x0C || x == 0x0D
}

/// First position at or after `j` that is neither ASCII whitespace nor part
/// of a `//` line comment.
pub open spec fn skip_ws_comments(b: Seq<u8>, j: int) -> int
    decreases b.len() - j,
    via skip_ws_comments_decreases
{
    if 0 <= j < b.len() && is_ascii_ws(b[j]) {
        skip_ws_comments(b, j + 1)
    } else if 0 <= j && j + 1 < b.len() && b[j] == 0x2F && b[j + 1] == 0x2F {
        match find_b(b, j + 1, 0x0A) {
            Some(nl) => skip_ws_comments(b, nl + 1),
            None => b.len() as int,
        }
    } else {
        j
    }
}

#[via_fn]
proof fn skip_ws_comments_decreases(b: Seq<u8>, j: int) {
    if 0 <= j && j + 1 < b.len() {
        lemma_find_b(b, j + 1, 0x0A);
    }
}

/// The comma at `i` is followed, past whitespace and `//` comments, by `]` or `}`.
pub open spec fn trailing_comma(b: Seq<u8>, i: int) -> bool {
    let k = skip_ws_comments(b, i + 1);
    0 <= k < b.len() && (b[k] == 0x5D || b[k] == 0x7D)
}

/// What the JSONC cleaner emits for `b[i..]`, starting inside a string or
/// not, and right after a backslash in a string or not.
pub open spec fn jsonc_from(b: Seq<u8>, i: int, in_string: bool, escape: bool) -> Seq<u8>
    decreases b.len() - i,
    via jsonc_from_decreases
{
    if i < 0 || i >= b.len() {
        Seq::empty()
    } else {
        let c = b[i];
        if escape {
            seq![c] + jsonc_from(b, i + 1, in_string, false)
        } else if in_string {
            seq![c] + jsonc_from(b, i + 1, c != 0x22, c == 0x5C)
        } else if c == 0x22 {
            seq![c] + jsonc_from(b, i + 1, true, false)
        } else if c == 0x2F && i + 1 < b.len() && b[i + 1] == 0x2F {
            match find_b(b, i + 1, 0x0A) {
                Some(nl) => seq![0x0Au8] + jsonc_from(b, nl + 1, false, false),
                None => Seq::empty(),
            }
        } else if c == 0x2C && trailing_comma(b, i) {
            jsonc_from(b, i + 1, false, false)
        } else {
            seq![c] + jsonc_from(b, i + 1, false, false)
        }
    }
}

#[via_fn]
proof fn jsonc_from_decreases(b: Seq<u8>, i: int, in_string: bool, escape: bool) {
    if 0 <= i < b.len() {
        lemma_find_b(b, i + 1, 0x0A);
    }
}

/// First position at or after `j` that is neither ASCII whitespace nor part
/// of a `//` line comment.
fn skip_ws_comments_from(b: &[u8], j: usize) -> (r: usize)
    requires
        j <= b@.len(),
    ensures
        r as int == skip_ws_comments(b@, j as int),
{
    let n = b.len();
    let mut k = j;
    while k < n
        invariant
            n == b@.len(),
            j <= k <= n,
            skip_ws_comments(b@, j as int) == skip_ws_comments(b@, k as int),
        decreases n - k,
    {
        let c = b[k];
        if c == 0x20 || c == 0x09 || c == 0x0A || c == 0x0C || c == 0x0D {
            k = k + 1;
        } else if c == 0x2F && k + 1 < n && b[k + 1] == 0x2F {
            proof {
                lemma_find_b(b@, k + 1, 0x0A);
            }
            match find_byte(b, k + 1, 0x0A) {
                Some(nl) => {
                    k = nl + 1;
                },
                None => {
                    return n;
                },
            }
        } else {
            return k;
        }
    }
    k
}

/// Clean JSONC content: strip `//` line comments and trailing commas.
///
/// Handles both features in a single pass, respecting JSON string boundaries.
/// A comment runs to the end of its line; the line break itself is kept. A
/// comma is trailing when the next token after whitespace and comments closes
/// an array or an object.
pub fn clean_jsonc(content: &str) -> (r: String)
    ensures
        ob(&r) == jsonc_from(sb(content), 0, false, false),
{
    let b = bytes(content);
    let n = b.len();
    let ghost target = jsonc_from(b@, 0, false, false);
    let mut result = String::new();
    let mut start: usize = 0;
    let mut i: usize = 0;
    let mut in_string = false;
    let mut escape_next = false;
    proof {
        assert(ob(&result) =~= Seq::<u8>::empty());
        assert(ob(&result) + b@.subrange(0, 0) + jsonc_from(b@, 0, false, false) =~= target);
    }
    while i < n
        invariant
            n == b@.len(),
            b@ == sb(content),
            valid_utf8(b@),
            target == jsonc_from(b@, 0, false, false),
            start <= i <= n,
            at_boundary(b@, start as int),
            ob(&result) + b@.subrange(start as int, i as int) + jsonc_from(
                b@,
                i as int,
                in_string,
                escape_next,
            ) == target,
        decreases n - i,
    {
        let c = b[i];
        let ghost r0 = ob(&result);
        let ghost pend = b@.subrange(start as int, i as int);
        if escape_next || in_string || c == 0x22 || !((c == 0x2F && i + 1 < n && b[i + 1] == 0x2F)
            || c == 0x2C) {
            // copied through unchanged
            let ghost st = (in_string, escape_next);
            if escape_next {
                escape_next = false;
            } else if in_string {
                if c == 0x5C {
                    escape_next = true;
                } else if c == 0x22 {
                    in_string = false;
                }
            } else if c == 0x22 {
                in_string = true;
            }
            proof {
                let rest = jsonc_from(b@, i + 1, in_string, escape_next);
                assert(jsonc_from(b@, i as int, st.0, st.1) == seq![c] + rest);
                assert(b@.subrange(start as int, i + 1) =~= pend + seq![c]);
                assert(r0 + pend + (seq![c] + rest) =~= r0 + (pend + seq![c]) + rest);
            }
            i = i + 1;
        } else if c == 0x2F {
            append_str(&mut result, slice(content, start, i));
            proof {
                lemma_find_b(b@, i + 1, 0x0A);
            }
            match find_byte(b, i + 1, 0x0A) {
                Some(nl) => {
                    proof {
                        lit_newline();
                        lemma_after_ascii(b@, nl as int);
                    }
                    append_str(&mut result, "\n");
                    i = nl + 1;
                    start = i;
                    proof {
                        assert(ob(&result) + b@.subrange(start as int, i as int) + jsonc_from(
                            b@,
                            i as int,
                            false,
                            false,
                        ) =~= r0 + pend + (seq![0x0Au8] + jsonc_from(b@, i as int, false, false)));
                    }
                },
                None => {
                    i = n;
                    start = n;
                    proof {
                        assert(ob(&result) + b@.subrange(start as int, i as int) + jsonc_from(
                            b@,
                            i as int,
                            false,
                            false,
                        ) =~= r0 + pend);
                        assert(r0 + pend + Seq::<u8>::empty() =~= r0 + pend);
                    }
                },
            }
        } else {
            let k = skip_ws_comments_from(b, i + 1);
            if k < n && (b[k] == 0x5D || b[k] == 0x7D) {
                append_str(&mut result, slice(content, start, i));
                proof {
                    lemma_after_ascii(b@, i as int);
                }
                i = i + 1;
                start = i;
                proof {
                    assert(b@.subrange(start as int, i as int) =~= Seq::<u8>::empty());
                    assert(ob(&result) + b@.subrange(start as int, i as int) =~= r0 + pend);
                }
            } else {
                proof {
                    let rest = jsonc_from(b@, i + 1, false, false);
                    assert(b@.subrange(start as int, i + 1) =~= pend + seq![c]);
                    assert(r0 + pend + (seq![c] + rest) =~= r0 + (pend + seq![c]) + rest);
                }
                i = i + 1;
            }
        }
    }
    append_str(&mut result, slice(content, start, n));
    proof {
        assert(ob(&result) =~= ob(&result) + Seq::<u8>::empty());
    }
    result
}

proof fn lit_two_sp_slash()
    ensures
        sb("  /") == seq![32u8, 32, 47],
{
    reveal_strlit("  /");
    assert(vstd::string::is_ascii("  /"));
    assert(sb("  /") =~= seq![32u8, 32, 47]);
}

proof fn lit_two_sp()
    ensures
        sb("  ") == seq![32u8, 32],
{
    reveal_strlit("  ");
    assert(vstd::string::is_ascii("  "));
    assert(sb("  ") =~= seq![32u8, 32]);
}

proof fn lit_three_sp()
    ensures
        sb("   ") == seq![32u8, 32, 32],
{
    reveal_strlit("   ");
    assert(vstd::string::is_ascii("   "));
    assert(sb("   ") =~= seq![32u8, 32, 32]);
}

proof fn lit_four_sp()
    ensures
        sb("    ") == seq![32u8, 32, 32, 32],
{
    reveal_strlit("    ");
    assert(vstd::string::is_ascii("    "));
    assert(sb("    ") =~= seq![32u8, 32, 32, 32]);
}

proof fn lit_six_sp()
    ensures
        sb("      ") == seq![32u8, 32, 32, 32, 32, 32],
{
    reveal_strlit("      ");
    assert(vstd::string::is_ascii("      "));
    assert(sb("      ") =~= seq![32u8, 32, 32, 32, 32, 32]);
}

proof fn lit_packages()
    ensures
        sb("packages:") == seq![112u8, 97, 99, 107, 97, 103, 101, 115, 58],
{
    reveal_strlit("packages:");
    assert(vstd::string::is_ascii("packages:"));
    assert(sb("packages:") =~= seq![112u8, 97, 99, 107, 97, 103, 101, 115, 58]);
}

proof fn lit_dependencies()
    ensures
        sb("dependencies:") == seq![100u8, 101, 112, 101, 110, 100, 101, 110, 99, 105, 101, 115, 58],
{
    reveal_strlit("dependencies:");
    assert(vstd::string::is_ascii("dependencies:"));
    assert(sb("dependencies:") =~= seq![100u8, 101, 112, 101, 110, 100, 101, 110, 99, 105, 101, 115, 58]);
}

proof fn lit_version_sp()
    ensures
        sb("version ") == seq![118u8, 101, 114, 115, 105, 111, 110, 32],
{
    reveal_strlit("version ");
    assert(vstd::string::is_ascii("version "));
    assert(sb("version ") =~= seq![118u8, 101, 114, 115, 105, 111, 110, 32]);
}

// ---------------------------------------------------------------------------
// Graph extraction shared helpers
// ---------------------------------------------------------------------------

/// A lockfile package with no dependencies recorded yet.
pub open spec fn new_pkg(name: Seq<u8>, version: Seq<u8>) -> PkgModel {
    PkgModel { name, version, dependencies: Seq::empty(), is_root: false }
}

/// The package being read, if any, appended to those already finished.
pub open spec fn flush(cur: Option<PkgModel>, pkgs: Seq<PkgModel>) -> Seq<PkgModel> {
    match cur {
        Some(p) => pkgs.push(p),
        None => pkgs,
    }
}

/// The abstract value of an optional package.
pub open spec fn opt_pkg(o: Option<LockfilePackage>) -> Option<PkgModel> {
    match o {
        Some(p) => Some(p@),
        None => None,
    }
}

/// `p` with one more dependency name.
pub open spec fn with_dep(p: PkgModel, d: Seq<u8>) -> PkgModel {
    PkgModel { dependencies: p.dependencies.push(d), ..p }
}

/// `s` without surrounding single quotes, then without surrounding double quotes.
pub open spec fn unquote_b(s: Seq<u8>) -> Seq<u8> {
    trim_byte_b(trim_byte_b(s, 0x27), 0x22)
}

fn unquote(s: &str) -> (r: &str)
    ensures
        sb(r) == unquote_b(sb(s)),
{
    trim_byte(trim_byte(s, 0x27), 0x22)
}

pub(crate) fn finish(current: Option<LockfilePackage>, packages: &mut Vec<LockfilePackage>)
    ensures
        pkgs_view(final(packages)@) == flush(opt_pkg(current), pkgs_view(old(packages)@)),
{
    match current {
        Some(p) => {
            packages.push(p);
            proof {
                assert(pkgs_view(packages@) =~= pkgs_view(old(packages)@).push(p@));
            }
        },
        None => {},
    }
}

// ---------------------------------------------------------------------------
// pnpm-lock.yaml graph
// ---------------------------------------------------------------------------

/// Where the line walker of `pnpm-lock.yaml` stands after some lines.
pub ghost struct PnpmState {
    pub in_packages: bool,
    pub current: Option<PkgModel>,
    pub in_deps: bool,
    pub pkgs: Seq<PkgModel>,
}

/// The rest of a `packages:` entry line after its indentation and any `/`.
pub open spec fn pnpm_entry_rest_b(l: Seq<u8>) -> Option<Seq<u8>> {
    if starts_with_b(l, sb("  /")) {
        Some(l.subrange(3, l.len() as int))
    } else if starts_with_b(l, sb("  ")) && !starts_with_b(l, sb("   ")) && contains_b(
        trim_b(l),
        seq![0x40u8],
    ) && ends_with_b(trim_end_b(l), seq![0x3Au8]) {
        Some(l.subrange(2, l.len() as int))
    } else {
        None
    }
}

/// The `name@version` key of an entry, without its colon and quotes.
pub open spec fn pnpm_entry_key_b(rest: Seq<u8>) -> Seq<u8> {
    unquote_b(trim_b(trim_end_byte_b(rest, 0x3A)))
}

/// The name of a dependency line under `dependencies:`.
pub open spec fn pnpm_dep_name_b(l: Seq<u8>) -> Seq<u8> {
    let t = trim_start_b(l);
    let raw = match find_b(t, 0, 0x3A) {
        Some(i) => trim_b(t.subrange(0, i)),
        None => trim_b(t),
    };
    unquote_b(raw)
}

/// One line of `pnpm-lock.yaml`.
pub open spec fn pnpm_step(st: PnpmState, l: Seq<u8>) -> PnpmState {
    if st.in_packages && l.len() > 0 && l[0] != 0x20 && l[0] != 0x09 && l != sb("packages:") {
        PnpmState { in_packages: false, current: None, pkgs: flush(st.current, st.pkgs), ..st }
    } else if l == sb("packages:") {
        PnpmState { in_packages: true, ..st }
    } else if !st.in_packages {
        st
    } else {
        match pnpm_entry_rest_b(l) {
            Some(rest) => PnpmState {
                in_packages: true,
                current: match pnpm_key(pnpm_entry_key_b(rest)) {
                    Some((n, v)) => Some(new_pkg(n, v)),
                    None => None,
                },
                in_deps: false,
                pkgs: flush(st.current, st.pkgs),
            },
            None => if trim_b(l) == sb("dependencies:") {
                PnpmState { in_deps: true, ..st }
            } else if st.in_deps && starts_with_b(l, sb("      ")) {
                let d = pnpm_dep_name_b(l);
                match st.current {
                    Some(p) => if d.len() > 0 {
                        PnpmState { current: Some(with_dep(p, d)), ..st }
                    } else {
                        st
                    },
                    None => st,
                }
            } else if !starts_with_b(l, sb("      ")) {
                PnpmState { in_deps: false, ..st }
            } else {
                st
            },
        }
    }
}

/// The walker's state after the lines `ls`.
pub open spec fn pnpm_run(ls: Seq<Seq<u8>>) -> PnpmState
    decreases ls.len(),
{
    if ls.len() == 0 {
        PnpmState { in_packages: false, current: None, in_deps: false, pkgs: Seq::empty() }
    } else {
        pnpm_step(pnpm_run(ls.drop_last()), ls.last())
    }
}

/// The packages that `pnpm-lock.yaml` content lists under `packages:`.
pub open spec fn pnpm_graph(content: Seq<u8>) -> Seq<PkgModel> {
    let st = pnpm_run(lines(content));
    flush(st.current, st.pkgs)
}

fn pnpm_entry_rest(line: &str) -> (r: Option<&str>)
    ensures
        match pnpm_entry_rest_b(sb(line)) {
            None => r is None,
            Some(x) => r matches Some(y) && sb(y) == x,
        },
{
    let b = bytes(line);
    proof {
        lit_two_sp_slash();
        lit_two_sp();
        lit_three_sp();
    }
    if starts_with(b, "  /".as_bytes()) {
        proof {
            lemma_ascii_prefix_boundary(b@, sb("  /"));
        }
        return Some(slice(line, 3, b.len()));
    }
    let t = bytes(trim(line));
    let te = bytes(trim_end(line));
    let at_sign: [u8; 1] = [0x40];
    let colon: [u8; 1] = [0x3A];
    proof {
        assert(at_sign@ =~= seq![0x40u8]);
        assert(colon@ =~= seq![0x3Au8]);
    }
    if starts_with(b, "  ".as_bytes()) && !starts_with(b, "   ".as_bytes()) && contains(
        t,
        at_sign.as_slice(),
    ) && ends_with(te, colon.as_slice()) {
        proof {
            lemma_ascii_prefix_boundary(b@, sb("  "));
        }
        return Some(slice(line, 2, b.len()));
    }
    None
}

fn pnpm_entry_key(rest: &str) -> (r: &str)
    ensures
        sb(r) == pnpm_entry_key_b(sb(rest)),
{
    unquote(trim(trim_end_byte(rest, 0x3A)))
}

fn pnpm_dep_name(line: &str) -> (r: &str)
    ensures
        sb(r) == pnpm_dep_name_b(sb(line)),
{
    let t = trim_start(line);
    let tb = bytes(t);
    let raw = match find_byte(tb, 0, 0x3A) {
        Some(i) => {
            proof {
                lemma_find_b(tb@, 0, 0x3A);
            }
            trim(slice(t, 0, i))
        },
        None => trim(t),
    };
    unquote(raw)
}

/// Parse a `pnpm-lock.yaml` into a [`LockfileGraph`].
///
/// Uses a minimal line-based walker (no YAML parser dependency). Handles both
/// v6 (`/name@ver:`) and v9 (`name@ver:`) key formats, including quoted scoped
/// package names.
pub fn parse_pnpm_lock_graph(content: &str) -> (graph: LockfileGraph)
    ensures
        pkgs_view(graph.packages@) == pnpm_graph(sb(content)),
{
    let b = bytes(content);
    let n = b.len();
    let ghost ls = lines(b@);
    let mut packages: Vec<LockfilePackage> = Vec::new();
    let mut in_packages = false;
    let mut current: Option<LockfilePackage> = None;
    let mut in_deps = false;
    let mut p: usize = 0;
    let mut i: usize = 0;
    proof {
        lit_packages();
        lit_dependencies();
        lit_six_sp();
        assert(pkgs_view(packages@) =~= Seq::<PkgModel>::empty());
    }
    while p < n
        invariant
            n == b@.len(),
            b@ == sb(content),
            valid_utf8(b@),
            ls == lines(b@),
            p <= n,
            at_boundary(b@, p as int),
            i <= ls.len(),
            i <= p,
            lines_from(b@, p as int) == ls.skip(i as int),
            sb("packages:") == seq![112u8, 97, 99, 107, 97, 103, 101, 115, 58],
            pnpm_run(ls.take(i as int)) == (PnpmState {
                in_packages,
                current: opt_pkg(current),
                in_deps,
                pkgs: pkgs_view(packages@),
            }),
        decreases n - p,
    {
        let (ce, next) = next_line(b, p);
        let line = slice(content, p, ce);
        let ghost st = pnpm_run(ls.take(i as int));
        proof {
            assert(ls.skip(i as int).len() >= 1);
            assert(ls.skip(i as int)[0] == sb(line));
            assert(ls.skip(i + 1) =~= ls.skip(i as int).skip(1));
            assert(lines_from(b@, next as int) =~= ls.skip(i as int).skip(1));
            assert(ls.take(i + 1).drop_last() =~= ls.take(i as int));
            assert(ls.take(i + 1).last() == sb(line));
        }
        let lb = bytes(line);
        let is_header = str_eq(line, "packages:");
        if in_packages && lb.len() > 0 && lb[0] != 0x20 && lb[0] != 0x09 && !is_header {
            in_packages = false;
            let cur = current.take();
            finish(cur, &mut packages);
        } else if is_header {
            in_packages = true;
        } else if !in_packages {
        } else {
            match pnpm_entry_rest(line) {
                Some(rest) => {
                    let cur = current.take();
                    finish(cur, &mut packages);
                    let key = pnpm_entry_key(rest);
                    current = match split_pnpm_key(key) {
                        Some((name, version)) => {
                            let pkg = LockfilePackage {
                                name,
                                version,
                                dependencies: Vec::new(),
                                is_root: false,
                            };
                            proof {
                                assert(pkg@.dependencies =~= Seq::<Seq<u8>>::empty());
                            }
                            Some(pkg)
                        },
                        None => None,
                    };
                    in_deps = false;
                },
                None => {
                    if str_eq(trim(line), "dependencies:") {
                        in_deps = true;
                    } else if in_deps && starts_with(lb, "      ".as_bytes()) {
                        let d = pnpm_dep_name(line);
                        if bytes(d).len() > 0 {
                            match current.take() {
                                Some(mut cur) => {
                                    let ghost before = cur@;
                                    cur.dependencies.push(to_owned_string(d));
                                    proof {
                                        assert(strings_view(cur.dependencies@) =~= before.dependencies.push(sb(d)));
                                        assert(cur@ == with_dep(before, sb(d)));
                                    }
                                    current = Some(cur);
                                },
                                None => {},
                            }
                        }
                    } else if !starts_with(lb, "      ".as_bytes()) {
                        in_deps = false;
                    }
                },
            }
        }
        proof {
            assert(pnpm_step(st, sb(line)) == (PnpmState {
                in_packages,
                current: opt_pkg(current),
                in_deps,
                pkgs: pkgs_view(packages@),
            }));
        }
        p = next;
        i = i + 1;
    }
    proof {
        assert(ls.skip(i as int).len() == 0);
        assert(ls.take(i as int) =~= ls);
    }
    finish(current, &mut packages);
    LockfileGraph { packages }
}

// ---------------------------------------------------------------------------
// yarn.lock graph (Yarn Classic v1)
// ---------------------------------------------------------------------------

/// Where the line walker of `yarn.lock` stands after some lines.
pub ghost struct YarnState {
    pub current: Option<PkgModel>,
    pub in_deps: bool,
    pub pkgs: Seq<PkgModel>,
}

/// An unindented, uncommented line that contains `@` and ends with `:`.
pub open spec fn yarn_is_header(l: Seq<u8>) -> bool {
    &&& !(l.len() > 0 && l[0] == 0x20)
    &&& contains_b(l, seq![0x40u8])
    &&& ends_with_b(l, seq![0x3Au8])
    &&& !(l.len() > 0 && l[0] == 0x23)
}

/// The first key of a block header, without quotes.
pub open spec fn yarn_first_key(l: Seq<u8>) -> Seq<u8> {
    let header = trim_b(trim_end_byte_b(l, 0x3A));
    trim_byte_b(trim_b(before_byte(header, 0x2C)), 0x22)
}

/// The package a block header opens: the first key's name, before its last `@`.
pub open spec fn yarn_header_pkg(l: Seq<u8>) -> Option<PkgModel> {
    let k = yarn_first_key(l);
    match rfind_b(k, k.len() as int, 0x40) {
        Some(at) => if at != 0 {
            Some(new_pkg(k.subrange(0, at), Seq::empty()))
        } else {
            None
        },
        None => None,
    }
}

/// The name of a dependency line: its first word, without quotes.
pub open spec fn yarn_dep_name_b(t: Seq<u8>) -> Seq<u8> {
    trim_byte_b(
        match first_token(t) {
            Some(w) => w,
            None => Seq::empty(),
        },
        0x22,
    )
}

/// One line of `yarn.lock`.
pub open spec fn yarn_step(st: YarnState, l: Seq<u8>) -> YarnState {
    let t = trim_start_b(l);
    if yarn_is_header(l) {
        YarnState { current: yarn_header_pkg(l), in_deps: false, pkgs: flush(st.current, st.pkgs) }
    } else {
        match st.current {
            None => st,
            Some(cur) => if starts_with_b(t, sb("version ")) {
                let v = trim_byte_b(trim_b(t.subrange(8, t.len() as int)), 0x22);
                YarnState { current: Some(PkgModel { version: v, ..cur }), in_deps: false, ..st }
            } else if t == sb("dependencies:") {
                YarnState { in_deps: true, ..st }
            } else if st.in_deps && starts_with_b(l, sb("    ")) {
                let d = yarn_dep_name_b(t);
                if d.len() > 0 {
                    YarnState { current: Some(with_dep(cur, d)), ..st }
                } else {
                    st
                }
            } else if !starts_with_b(l, sb("  ")) {
                YarnState { in_deps: false, ..st }
            } else {
                st
            },
        }
    }
}

/// The walker's state after the lines `ls`.
pub open spec fn yarn_run(ls: Seq<Seq<u8>>) -> YarnState
    decreases ls.len(),
{
    if ls.len() == 0 {
        YarnState { current: None, in_deps: false, pkgs: Seq::empty() }
    } else {
        yarn_step(yarn_run(ls.drop_last()), ls.last())
    }
}

/// The packages of a Yarn Classic `yarn.lock`, one per block.
pub open spec fn yarn_graph(content: Seq<u8>) -> Seq<PkgModel> {
    let st = yarn_run(lines(content));
    flush(st.current, st.pkgs)
}

fn yarn_header_pkg_exec(line: &str) -> (r: Option<LockfilePackage>)
    ensures
        opt_pkg(r) == yarn_header_pkg(sb(line)),
{
    let header = trim(trim_end_byte(line, 0x3A));
    let key = trim_byte(trim(until_byte(header, 0x2C)), 0x22);
    let kb = bytes(key);
    match rfind_byte(kb, 0x40) {
        Some(at) => {
            if at == 0 {
                return None;
            }
            proof {
                lemma_rfind_b(kb@, kb@.len() as int, 0x40);
            }
            let pkg = LockfilePackage {
                name: sub_string(key, 0, at),
                version: String::new(),
                dependencies: Vec::new(),
                is_root: false,
            };
            proof {
                assert(pkg@.dependencies =~= Seq::<Seq<u8>>::empty());
                assert(pkg@.version =~= Seq::<u8>::empty());
            }
            Some(pkg)
        },
        None => None,
    }
}

/// Parse a `yarn.lock` (Yarn Classic v1 format) into a [`LockfileGraph`].
///
/// Yarn Berry v2+ uses a different YAML-based format and is not handled by
/// this entry point.
pub fn parse_yarn_lock_graph(content: &str) -> (graph: LockfileGraph)
    ensures
        pkgs_view(graph.packages@) == yarn_graph(sb(content)),
{
    let b = bytes(content);
    let n = b.len();
    let ghost ls = lines(b@);
    let mut packages: Vec<LockfilePackage> = Vec::new();
    let mut current: Option<LockfilePackage> = None;
    let mut in_deps = false;
    let mut p: usize = 0;
    let mut i: usize = 0;
    let at_sign: [u8; 1] = [0x40];
    let colon: [u8; 1] = [0x3A];
    proof {
        lit_dependencies();
        lit_version_sp();
        lit_four_sp();
        lit_two_sp();
        assert(at_sign@ =~= seq![0x40u8]);
        assert(colon@ =~= seq![0x3Au8]);
        assert(pkgs_view(packages@) =~= Seq::<PkgModel>::empty());
    }
    while p < n
        invariant
            n == b@.len(),
            b@ == sb(content),
            valid_utf8(b@),
            ls == lines(b@),
            p <= n,
            at_boundary(b@, p as int),
            i <= ls.len(),
            i <= p,
            lines_from(b@, p as int) == ls.skip(i as int),
            at_sign@ == seq![0x40u8],
            colon@ == seq![0x3Au8],
            sb("version ") == seq![118u8, 101, 114, 115, 105, 111, 110, 32],
            yarn_run(ls.take(i as int)) == (YarnState {
                current: opt_pkg(current),
                in_deps,
                pkgs: pkgs_view(packages@),
            }),
        decreases n - p,
    {
        let (ce, next) = next_line(b, p);
        let line = slice(content, p, ce);
        let ghost st = yarn_run(ls.take(i as int));
        proof {
            assert(ls.skip(i as int).len() >= 1);
            assert(ls.skip(i as int)[0] == sb(line));
            assert(ls.skip(i + 1) =~= ls.skip(i as int).skip(1));
            assert(lines_from(b@, next as int) =~= ls.skip(i as int).skip(1));
            assert(ls.take(i + 1).drop_last() =~= ls.take(i as int));
            assert(ls.take(i + 1).last() == sb(line));
        }
        let lb = bytes(line);
        let trimmed = trim_start(line);
        let tb = bytes(trimmed);
        if !(lb.len() > 0 && lb[0] == 0x20) && contains(lb, at_sign.as_slice()) && ends_with(
            lb,
            colon.as_slice(),
        ) && !(lb.len() > 0 && lb[0] == 0x23) {
            let cur = current.take();
            finish(cur, &mut packages);
            current = yarn_header_pkg_exec(line);
            in_deps = false;
        } else {
            match current.take() {
                None => {},
                Some(mut cur) => {
                    let ghost before = cur@;
                    if starts_with(tb, "version ".as_bytes()) {
                        proof {
                            lemma_ascii_prefix_boundary(tb@, sb("version "));
                        }
                        let v = trim_byte(trim(slice(trimmed, 8, tb.len())), 0x22);
                        cur.version = to_owned_string(v);
                        in_deps = false;
                    } else if str_eq(trimmed, "dependencies:") {
                        in_deps = true;
                    } else if in_deps && starts_with(lb, "    ".as_bytes()) {
                        let w = match first_word(trimmed) {
                            Some(w) => w,
                            None => "",
                        };
                        proof {
                            reveal_strlit("");
                            assert(sb("") =~= Seq::<u8>::empty());
                        }
                        let d = trim_byte(w, 0x22);
                        if bytes(d).len() > 0 {
                            cur.dependencies.push(to_owned_string(d));
                            proof {
                                assert(strings_view(cur.dependencies@) =~= before.dependencies.push(
                                    sb(d),
                                ));
                                assert(cur@ == with_dep(before, sb(d)));
                            }
                        }
                    } else if !starts_with(lb, "  ".as_bytes()) {
                        in_deps = false;
                    }
                    current = Some(cur);
                },
            }
        }
        proof {
            assert(yarn_step(st, sb(line)) == (YarnState {
                current: opt_pkg(current),
                in_deps,
                pkgs: pkgs_view(packages@),
            }));
        }
        p = next;
        i = i + 1;
    }
    proof {
        assert(ls.skip(i as int).len() == 0);
        assert(ls.take(i as int) =~= ls);
    }
    finish(current, &mut packages);
    LockfileGraph { packages }
}

proof fn lit_comma_sp()
    ensures
        sb(", ") == seq![44u8, 32],
{
    reveal_strlit(", ");
    assert(vstd::string::is_ascii(", "));
    assert(sb(", ") =~= seq![44u8, 32]);
}

proof fn lit_version_q()
    ensures
        sb("version \"") == seq![118u8, 101, 114, 115, 105, 111, 110, 32, 34],
{
    reveal_strlit("version \"");
    assert(vstd::string::is_ascii("version \""));
    assert(sb("version \"") =~= seq![118u8, 101, 114, 115, 105, 111, 110, 32, 34]);
}

proof fn lit_version_colon()
    ensures
        sb("version: ") == seq![118u8, 101, 114, 115, 105, 111, 110, 58, 32],
{
    reveal_strlit("version: ");
    assert(vstd::string::is_ascii("version: "));
    assert(sb("version: ") =~= seq![118u8, 101, 114, 115, 105, 111, 110, 58, 32]);
}

// ---------------------------------------------------------------------------
// yarn.lock → name/version map (Yarn Classic v1 and Yarn Berry v2+)
// ---------------------------------------------------------------------------

/// The names of header specs `segs`, appended to `acc` when not yet there.
pub open spec fn yarn_names_from(segs: Seq<Seq<u8>>, acc: Seq<Seq<u8>>) -> Seq<Seq<u8>>
    decreases segs.len(),
{
    if segs.len() == 0 {
        acc
    } else {
        yarn_names_from(segs.drop_first(), yarn_name_step(acc, segs[0]))
    }
}

/// `acc` with the name of the header spec `seg` appended, unless already there.
pub open spec fn yarn_name_step(acc: Seq<Seq<u8>>, seg: Seq<u8>) -> Seq<Seq<u8>> {
    match split_nv(trim_byte_b(trim_b(seg), 0x22)) {
        Some(nv) => if acc.contains(nv.0) {
            acc
        } else {
            acc.push(nv.0)
        },
        None => acc,
    }
}

/// The package names a block header line lists, appended to `acc`.
pub open spec fn yarn_header_names(line: Seq<u8>, acc: Seq<Seq<u8>>) -> Seq<Seq<u8>> {
    yarn_names_from(split_from(trim_end_byte_b(line, 0x3A), 0, sb(", ")), acc)
}

fn contains_name(names: &Vec<&str>, name: &str) -> (r: bool)
    ensures
        r == names_view(names@).contains(sb(name)),
{
    let mut k: usize = 0;
    while k < names.len()
        invariant
            k <= names@.len(),
            forall|j: int| 0 <= j < k ==> names_view(names@)[j] != sb(name),
        decreases names@.len() - k,
    {
        if str_eq(names[k], name) {
            proof {
                assert(names_view(names@)[k as int] == sb(name));
            }
            return true;
        }
        k = k + 1;
    }
    false
}

fn add_yarn_name<'a>(spec: &'a str, names: &mut Vec<&'a str>)
    ensures
        names_view(final(names)@) == yarn_name_step(names_view(old(names)@), sb(spec)),
{
    let sp = trim_byte(trim(spec), 0x22);
    match split_name_version(sp) {
        Some((name, _)) => {
            if !contains_name(names, name) {
                let ghost before = names_view(names@);
                names.push(name);
                proof {
                    assert(names_view(names@) =~= before.push(sb(name)));
                }
            }
        },
        None => {},
    }
}

/// Extract package names from a yarn.lock block header line.
///
/// Handles `express@^4.18.0:`, `"@types/node@^20.0.0":`,
/// `express@^4.17.0, express@^4.18.0:` and `"express@npm:^4.18.0":` (Berry);
/// a name already listed is not added again.
pub fn extract_yarn_package_names<'a>(line: &'a str, names: &mut Vec<&'a str>)
    ensures
        names_view(final(names)@) == yarn_header_names(sb(line), names_view(old(names)@)),
{
    let spec_line = trim_end_byte(line, 0x3A);
    let b = bytes(spec_line);
    let n = b.len();
    let sep = ", ".as_bytes();
    proof {
        lit_comma_sp();
    }
    let mut p: usize = 0;
    let mut done = false;
    while !done
        invariant
            n == b@.len(),
            b@ == sb(spec_line),
            valid_utf8(b@),
            sep@ == sb(", "),
            sb(", ") == seq![44u8, 32],
            p <= n,
            at_boundary(b@, p as int),
            !done ==> yarn_header_names(sb(line), names_view(old(names)@)) == yarn_names_from(
                split_from(b@, p as int, sep@),
                names_view(names@),
            ),
            done ==> yarn_header_names(sb(line), names_view(old(names)@)) == names_view(names@),
        decreases n - p + if done {
            0int
        } else {
            1int
        },
    {
        let ghost acc = names_view(names@);
        match find_seq(b, p, sep) {
            Some(i) => {
                proof {
                    lemma_find_s(b@, p as int, sep@);
                    assert(b@[i as int] == b@.subrange(i as int, i + 2)[0]);
                    assert(b@[i + 1] == b@.subrange(i as int, i + 2)[1]);
                    lemma_after_ascii(b@, i + 1);
                }
                let seg = slice(spec_line, p, i);
                add_yarn_name(seg, names);
                proof {
                    let segs = split_from(b@, p as int, sep@);
                    assert(segs[0] == sb(seg));
                    assert(segs.drop_first() =~= split_from(b@, i + 2, sep@));
                }
                p = i + 2;
            },
            None => {
                let seg = slice(spec_line, p, n);
                add_yarn_name(seg, names);
                proof {
                    let segs = split_from(b@, p as int, sep@);
                    assert(segs =~= seq![sb(seg)]);
                    assert(segs.drop_first() =~= Seq::<Seq<u8>>::empty());
                    assert(yarn_names_from(segs, acc) == yarn_names_from(
                        segs.drop_first(),
                        yarn_name_step(acc, sb(seg)),
                    ));
                    assert(yarn_names_from(Seq::<Seq<u8>>::empty(), names_view(names@))
                        == names_view(names@));
                }
                done = true;
            },
        }
    }
}

/// The resolved version a yarn.lock version line gives.
pub open spec fn yarn_version_b(t: Seq<u8>) -> Option<Seq<u8>> {
    if starts_with_b(t, sb("version \"")) {
        let rest = t.subrange(9, t.len() as int);
        if rest.len() > 0 && rest[rest.len() - 1] == 0x22 {
            Some(rest.subrange(0, rest.len() - 1))
        } else {
            None
        }
    } else if starts_with_b(t, sb("version: ")) {
        Some(trim_byte_b(trim_b(t.subrange(9, t.len() as int)), 0x22))
    } else {
        None
    }
}

/// Extract resolved version from a yarn.lock version line.
///
/// - Yarn v1: `version "4.18.2"`
/// - Yarn Berry: `version: 4.18.2` or `version: "4.18.2"`
pub fn extract_yarn_version(trimmed: &str) -> (r: Option<String>)
    ensures
        match yarn_version_b(sb(trimmed)) {
            None => r is None,
            Some(v) => r matches Some(x) && ob(&x) == v,
        },
{
    let b = bytes(trimmed);
    let n = b.len();
    proof {
        lit_version_q();
        lit_version_colon();
    }
    if starts_with(b, "version \"".as_bytes()) {
        proof {
            lemma_ascii_prefix_boundary(b@, sb("version \""));
        }
        if n > 9 && b[n - 1] == 0x22 {
            return Some(sub_string(trimmed, 9, n - 1));
        }
        return None;
    }
    if starts_with(b, "version: ".as_bytes()) {
        proof {
            lemma_ascii_prefix_boundary(b@, sb("version: "));
        }
        return Some(to_owned_string(trim_byte(trim(slice(trimmed, 9, n)), 0x22)));
    }
    None
}

/// Where the `yarn.lock` map walker stands after some lines.
pub ghost struct YarnMapState {
    pub names: Seq<Seq<u8>>,
    pub map: Map<Seq<u8>, Seq<u8>>,
}

/// `m` with `v` recorded for each of `names` that has no value yet.
pub open spec fn insert_all(m: Map<Seq<u8>, Seq<u8>>, names: Seq<Seq<u8>>, v: Seq<u8>) -> Map<
    Seq<u8>,
    Seq<u8>,
>
    decreases names.len(),
{
    if names.len() == 0 {
        m
    } else {
        insert_all(insert_first(m, names[0], v), names.drop_first(), v)
    }
}

/// One line of `yarn.lock`.
pub open spec fn yarn_map_step(st: YarnMapState, l: Seq<u8>) -> YarnMapState {
    let t = trim_b(l);
    let indented = l.len() > 0 && is_blank(l[0]);
    if t.len() == 0 || t[0] == 0x23 {
        st
    } else if !indented && ends_with_b(t, seq![0x3Au8]) {
        YarnMapState { names: yarn_header_names(t, Seq::empty()), ..st }
    } else if st.names.len() > 0 && indented && yarn_version_b(t) is Some {
        YarnMapState {
            names: Seq::empty(),
            map: insert_all(st.map, st.names, yarn_version_b(t)->0),
        }
    } else {
        st
    }
}

/// The walker's state after the lines `ls`.
pub open spec fn yarn_map_run(ls: Seq<Seq<u8>>) -> YarnMapState
    decreases ls.len(),
{
    if ls.len() == 0 {
        YarnMapState { names: Seq::empty(), map: Map::empty() }
    } else {
        yarn_map_step(yarn_map_run(ls.drop_last()), ls.last())
    }
}

fn insert_names(map: &mut LockMap, names: &Vec<&str>, version: &String)
    ensures
        lock_map_entries(*final(map)) == insert_all(lock_map_entries(*old(map)), names_view(names@), ob(version)),
{
    let mut k: usize = 0;
    proof {
        assert(names_view(names@).skip(0) =~= names_view(names@));
    }
    while k < names.len()
        invariant
            k <= names@.len(),
            insert_all(lock_map_entries(*old(map)), names_view(names@), ob(version)) == insert_all(
                lock_map_entries(*map),
                names_view(names@).skip(k as int),
                ob(version),
            ),
        decreases names@.len() - k,
    {
        proof {
            assert(names_view(names@).skip(k as int).drop_first() =~= names_view(names@).skip(k + 1));
            assert(names_view(names@).skip(k as int)[0] == sb(names[k as int]));
        }
        map.insert_first_ref(names[k], version.clone());
        k = k + 1;
    }
    proof {
        assert(names_view(names@).skip(k as int) =~= Seq::<Seq<u8>>::empty());
    }
}

/// Parse Yarn's `yarn.lock` file into a map of package name → resolved version.
///
/// Handles both Classic v1 format (`version "X.Y.Z"`) and Berry v2+ format
/// (`version: X.Y.Z`); the first version recorded for a name wins.
pub fn parse_yarn_lock(content: &str) -> (r: LockMap)
    ensures
        lock_map_entries(r) == yarn_map_run(lines(sb(content))).map,
{
    let b = bytes(content);
    let n = b.len();
    let ghost ls = lines(b@);
    let mut map = LockMap::new();
    let mut current_names: Vec<&str> = Vec::new();
    let mut p: usize = 0;
    let mut i: usize = 0;
    let colon: [u8; 1] = [0x3A];
    proof {
        assert(colon@ =~= seq![0x3Au8]);
        assert(lock_map_entries(map) =~= Map::<Seq<u8>, Seq<u8>>::empty());
        assert(names_view(current_names@) =~= Seq::<Seq<u8>>::empty());
    }
    while p < n
        invariant
            n == b@.len(),
            b@ == sb(content),
            valid_utf8(b@),
            ls == lines(b@),
            p <= n,
            at_boundary(b@, p as int),
            i <= ls.len(),
            i <= p,
            lines_from(b@, p as int) == ls.skip(i as int),
            colon@ == seq![0x3Au8],
            yarn_map_run(ls.take(i as int)) == (YarnMapState {
                names: names_view(current_names@),
                map: lock_map_entries(map),
            }),
        decreases n - p,
    {
        let (ce, next) = next_line(b, p);
        let line = slice(content, p, ce);
        let ghost st = yarn_map_run(ls.take(i as int));
        proof {
            assert(ls.skip(i as int).len() >= 1);
            assert(ls.skip(i as int)[0] == sb(line));
            assert(ls.skip(i + 1) =~= ls.skip(i as int).skip(1));
            assert(lines_from(b@, next as int) =~= ls.skip(i as int).skip(1));
            assert(ls.take(i + 1).drop_last() =~= ls.take(i as int));
            assert(ls.take(i + 1).last() == sb(line));
        }
        let lb = bytes(line);
        let trimmed = trim(line);
        let tb = bytes(trimmed);
        let indented = lb.len() > 0 && (lb[0] == 0x20 || lb[0] == 0x09);
        if tb.len() == 0 || tb[0] == 0x23 {
        } else if !indented && ends_with(tb, colon.as_slice()) {
            current_names.clear();
            proof {
                assert(names_view(current_names@) =~= Seq::<Seq<u8>>::empty());
            }
            extract_yarn_package_names(trimmed, &mut current_names);
        } else if current_names.len() > 0 && indented {
            match extract_yarn_version(trimmed) {
                Some(version) => {
                    insert_names(&mut map, &current_names, &version);
                    current_names.clear();
                    proof {
                        assert(names_view(current_names@) =~= Seq::<Seq<u8>>::empty());
                    }
                },
                None => {},
            }
        }
        proof {
            assert(yarn_map_step(st, sb(line)) == (YarnMapState {
                names: names_view(current_names@),
                map: lock_map_entries(map),
            }));
        }
        p = next;
        i = i + 1;
    }
    proof {
        assert(ls.skip(i as int).len() == 0);
        assert(ls.take(i as int) =~= ls);
    }
    map
}

// ---------------------------------------------------------------------------
// pnpm-lock.yaml → name/version map
// ---------------------------------------------------------------------------

/// Where the `pnpm-lock.yaml` map walker stands after some lines.
pub ghost struct PnpmMapState {
    pub in_packages: bool,
    pub done: bool,
    pub map: Map<Seq<u8>, Seq<u8>>,
}

/// The key of a `packages:` entry line, without colons, quotes and a leading `/`.
pub open spec fn pnpm_map_key(t: Seq<u8>) -> Seq<u8> {
    let k = unquote_b(trim_end_byte_b(t, 0x3A));
    if k.len() > 0 && k[0] == 0x2F {
        k.subrange(1, k.len() as int)
    } else {
        k
    }
}

/// One line of `pnpm-lock.yaml`; reading stops at the first top-level key
/// after `packages:`.
pub open spec fn pnpm_map_step(st: PnpmMapState, l: Seq<u8>) -> PnpmMapState {
    let t = trim_b(l);
    if st.done {
        st
    } else if t == sb("packages:") {
        PnpmMapState { in_packages: true, ..st }
    } else if st.in_packages && t.len() > 0 && !(l.len() > 0 && is_blank(l[0])) {
        PnpmMapState { done: true, ..st }
    } else if !st.in_packages || t.len() == 0 {
        st
    } else if ends_with_b(t, seq![0x3Au8]) {
        match pnpm_nv(pnpm_map_key(t)) {
            Some(nv) => PnpmMapState { map: insert_first(st.map, nv.0, nv.1), ..st },
            None => st,
        }
    } else {
        st
    }
}

/// The walker's state after the lines `ls`.
pub open spec fn pnpm_map_run(ls: Seq<Seq<u8>>) -> PnpmMapState
    decreases ls.len(),
{
    if ls.len() == 0 {
        PnpmMapState { in_packages: false, done: false, map: Map::empty() }
    } else {
        pnpm_map_step(pnpm_map_run(ls.drop_last()), ls.last())
    }
}

/// Parse pnpm's `pnpm-lock.yaml` file into a map of package name → version.
///
/// Handles both v6 format (`/name@version:`) and v9 format (`name@version:`);
/// peer-dependency suffixes are dropped and the first version recorded wins.
pub fn parse_pnpm_lock(content: &str) -> (r: LockMap)
    ensures
        lock_map_entries(r) == pnpm_map_run(lines(sb(content))).map,
{
    let b = bytes(content);
    let n = b.len();
    let ghost ls = lines(b@);
    let mut map = LockMap::new();
    let mut in_packages = false;
    let mut done = false;
    let mut p: usize = 0;
    let mut i: usize = 0;
    let colon: [u8; 1] = [0x3A];
    proof {
        assert(colon@ =~= seq![0x3Au8]);
        assert(lock_map_entries(map) =~= Map::<Seq<u8>, Seq<u8>>::empty());
    }
    while p < n && !done
        invariant
            n == b@.len(),
            b@ == sb(content),
            valid_utf8(b@),
            ls == lines(b@),
            p <= n,
            at_boundary(b@, p as int),
            i <= ls.len(),
            i <= p,
            lines_from(b@, p as int) == ls.skip(i as int),
            colon@ == seq![0x3Au8],
            pnpm_map_run(ls.take(i as int)) == (PnpmMapState {
                in_packages,
                done,
                map: lock_map_entries(map),
            }),
        decreases n - p,
    {
        let (ce, next) = next_line(b, p);
        let line = slice(content, p, ce);
        let ghost st = pnpm_map_run(ls.take(i as int));
        proof {
            assert(ls.skip(i as int).len() >= 1);
            assert(ls.skip(i as int)[0] == sb(line));
            assert(ls.skip(i + 1) =~= ls.skip(i as int).skip(1));
            assert(lines_from(b@, next as int) =~= ls.skip(i as int).skip(1));
            assert(ls.take(i + 1).drop_last() =~= ls.take(i as int));
            assert(ls.take(i + 1).last() == sb(line));
        }
        let lb = bytes(line);
        let trimmed = trim(line);
        let tb = bytes(trimmed);
        if str_eq(trimmed, "packages:") {
            in_packages = true;
        } else if in_packages && tb.len() > 0 && !(lb.len() > 0 && (lb[0] == 0x20 || lb[0] == 0x09)) {
            done = true;
        } else if !in_packages || tb.len() == 0 {
        } else if ends_with(tb, colon.as_slice()) {
            let k = unquote(trim_end_byte(trimmed, 0x3A));
            let kb = bytes(k);
            let key = if kb.len() > 0 && kb[0] == 0x2F {
                proof {
                    lemma_after_ascii(kb@, 0);
                }
                slice(k, 1, kb.len())
            } else {
                k
            };
            proof {
                if !(kb@.len() > 0 && kb@[0] == 0x2F) {
                    assert(sb(key) == pnpm_map_key(tb@));
                }
            }
            match split_pnpm_name_version(key) {
                Some((name, version)) => {
                    map.insert_first_ref(name, to_owned_string(version));
                },
                None => {},
            }
        }
        proof {
            assert(pnpm_map_step(st, sb(line)) == (PnpmMapState {
                in_packages,
                done,
                map: lock_map_entries(map),
            }));
        }
        p = next;
        i = i + 1;
    }
    proof {
        // once done, the remaining lines change nothing
        let st = pnpm_map_run(ls.take(i as int));
        assert forall|k: int| i <= k <= ls.len() implies #[trigger] pnpm_map_run(ls.take(k)) == st by {
            lemma_pnpm_done_stays(ls, i as int, k);
        }
        assert(ls.take(ls.len() as int) =~= ls);
    }
    map
}

proof fn lemma_pnpm_done_stays(ls: Seq<Seq<u8>>, i: int, k: int)
    requires
        0 <= i <= k <= ls.len(),
        pnpm_map_run(ls.take(i)).done || i == ls.len(),
    ensures
        pnpm_map_run(ls.take(k)) == pnpm_map_run(ls.take(i)),
    decreases k - i,
{
    if k > i {
        lemma_pnpm_done_stays(ls, i, k - 1);
        assert(ls.take(k).drop_last() =~= ls.take(k - 1));
    }
}

// ---------------------------------------------------------------------------
// Laws
// ---------------------------------------------------------------------------

/// A `name@version` spec splits at one `@`: rejoining the halves with `@`
/// gives the spec back.
pub proof fn law_split_name_version_rejoins(b: Seq<u8>)
    ensures
        split_nv(b) matches Some(p) ==> b == p.0 + seq![0x40u8] + p.1,
{
    let start = if b.len() > 0 && b[0] == 0x40 {
        1int
    } else {
        0int
    };
    lemma_find_b(b, start, 0x40);
    if split_nv(b) is Some {
        let at = at_separator(b)->0;
        assert(b =~= b.subrange(0, at) + seq![0x40u8] + b.subrange(at + 1, b.len() as int));
    }
}

/// A `node_modules/` key names a package exactly when it is
/// `node_modules/<name>` with a non-empty name holding no nested `node_modules/`.
pub proof fn law_node_modules_name(b: Seq<u8>)
    ensures
        node_modules_name(b) matches Some(s) ==> b == sb("node_modules/") + s && s.len() > 0
            && !contains_b(s, sb("node_modules/")),
{
    lit_node_modules();
    if node_modules_name(b) is Some {
        let s = node_modules_name(b)->0;
        assert(b =~= b.subrange(0, 13) + s);
    }
}

/// A pnpm key splits at its last `@` before any `(`: the name is not empty,
/// the version holds no `@`, and `name@version` is what precedes the `(`.
pub proof fn law_split_pnpm_key(b: Seq<u8>)
    ensures
        pnpm_key(b) matches Some(p) ==> p.0.len() > 0 && !p.1.contains(0x40u8) && before_byte(
            b,
            0x28,
        ) == p.0 + seq![0x40u8] + p.1,
{
    if pnpm_key(b) is Some {
        let base = before_byte(b, 0x28);
        lemma_rfind_b(base, base.len() as int, 0x40);
        let at = rfind_b(base, base.len() as int, 0x40)->0;
        let v = base.subrange(at + 1, base.len() as int);
        assert forall|k: int| 0 <= k < v.len() implies v[k] != 0x40u8 by {
            assert(v[k] == base[at + 1 + k]);
        }
        assert(base =~= base.subrange(0, at) + seq![0x40u8] + v);
    }
}

/// Cleaning JSONC never lengthens the text.
pub proof fn law_jsonc_not_longer(b: Seq<u8>, i: int, in_string: bool, escape: bool)
    requires
        0 <= i <= b.len(),
    ensures
        jsonc_from(b, i, in_string, escape).len() <= b.len() - i,
    decreases b.len() - i,
{
    if i < b.len() {
        let c = b[i];
        if escape {
            law_jsonc_not_longer(b, i + 1, in_string, false);
        } else if in_string {
            law_jsonc_not_longer(b, i + 1, c != 0x22, c == 0x5C);
        } else if c == 0x22 {
            law_jsonc_not_longer(b, i + 1, true, false);
        } else if c == 0x2F && i + 1 < b.len() && b[i + 1] == 0x2F {
            lemma_find_b(b, i + 1, 0x0A);
            if find_b(b, i + 1, 0x0A) is Some {
                let nl = find_b(b, i + 1, 0x0A)->0;
                law_jsonc_not_longer(b, nl + 1, false, false);
            }
        } else {
            law_jsonc_not_longer(b, i + 1, false, false);
        }
    }
}

/// JSONC text without any `/` or `,` comes out of the cleaner unchanged.
pub proof fn law_jsonc_plain_unchanged(b: Seq<u8>, i: int, in_string: bool, escape: bool)
    requires
        0 <= i <= b.len(),
        forall|k: int| 0 <= k < b.len() ==> b[k] != 0x2F && b[k] != 0x2C,
    ensures
        jsonc_from(b, i, in_string, escape) == b.subrange(i, b.len() as int),
    decreases b.len() - i,
{
    if i < b.len() {
        let c = b[i];
        if escape {
            law_jsonc_plain_unchanged(b, i + 1, in_string, false);
        } else if in_string {
            law_jsonc_plain_unchanged(b, i + 1, c != 0x22, c == 0x5C);
        } else if c == 0x22 {
            law_jsonc_plain_unchanged(b, i + 1, true, false);
        } else {
            law_jsonc_plain_unchanged(b, i + 1, false, false);
        }
        assert(b.subrange(i, b.len() as int) =~= seq![c] + b.subrange(i + 1, b.len() as int));
    } else {
        assert(b.subrange(i, b.len() as int) =~= Seq::<u8>::empty());
    }
}

/// The names read from a yarn header never repeat, however many ranges of
/// one package the header lists.
pub proof fn law_yarn_names_unique(segs: Seq<Seq<u8>>, acc: Seq<Seq<u8>>)
    requires
        acc.no_duplicates(),
    ensures
        yarn_names_from(segs, acc).no_duplicates(),
    decreases segs.len(),
{
    if segs.len() > 0 {
        let next = yarn_name_step(acc, segs[0]);
        assert(next.no_duplicates()) by {
            if let Some(nv) = split_nv(trim_byte_b(trim_b(segs[0]), 0x22)) {
                let n = nv.0;
                if !acc.contains(n) {
                    assert forall|a: int, c: int| 0 <= a < c < next.len() implies next[a] != next[c] by {
                        if c == acc.len() {
                            assert(next[a] == acc[a]);
                        }
                    }
                }
            }
        }
        law_yarn_names_unique(segs.drop_first(), next);
    }
}

/// Recording versions "first wins": a name that has a version keeps it.
pub proof fn law_insert_all_keeps(m: Map<Seq<u8>, Seq<u8>>, names: Seq<Seq<u8>>, v: Seq<u8>, k: Seq<u8>)
    requires
        m.dom().contains(k),
    ensures
        insert_all(m, names, v).dom().contains(k),
        insert_all(m, names, v)[k] == m[k],
    decreases names.len(),
{
    if names.len() > 0 {
        law_insert_all_keeps(insert_first(m, names[0], v), names.drop_first(), v, k);
    }
}

/// In `yarn.lock`, the first version recorded for a package is never replaced
/// by a later block.
pub proof fn law_yarn_lock_first_wins(ls: Seq<Seq<u8>>, i: int, j: int, k: Seq<u8>)
    requires
        0 <= i <= j <= ls.len(),
        yarn_map_run(ls.take(i)).map.dom().contains(k),
    ensures
        yarn_map_run(ls.take(j)).map.dom().contains(k),
        yarn_map_run(ls.take(j)).map[k] == yarn_map_run(ls.take(i)).map[k],
    decreases j - i,
{
    if j > i {
        law_yarn_lock_first_wins(ls, i, j - 1, k);
        assert(ls.take(j).drop_last() =~= ls.take(j - 1));
        let st = yarn_map_run(ls.take(j - 1));
        let t = trim_b(ls.take(j).last());
        if st.names.len() > 0 && yarn_version_b(t) is Some {
            law_insert_all_keeps(st.map, st.names, yarn_version_b(t)->0, k);
        }
    }
}

/// In `pnpm-lock.yaml`, the first version recorded for a package is never
/// replaced by a later entry.
pub proof fn law_pnpm_lock_first_wins(ls: Seq<Seq<u8>>, i: int, j: int, k: Seq<u8>)
    requires
        0 <= i <= j <= ls.len(),
        pnpm_map_run(ls.take(i)).map.dom().contains(k),
    ensures
        pnpm_map_run(ls.take(j)).map.dom().contains(k),
        pnpm_map_run(ls.take(j)).map[k] == pnpm_map_run(ls.take(i)).map[k],
    decreases j - i,
{
    if j > i {
        law_pnpm_lock_first_wins(ls, i, j - 1, k);
        assert(ls.take(j).drop_last() =~= ls.take(j - 1));
    }
}

// ---------------------------------------------------------------------------
// package-lock.json (npm) and bun.lock (Bun), as JSON documents
// ---------------------------------------------------------------------------

/// `m` with the `node_modules/<name>` members of a lockfile v2/v3 `packages`
/// object added, the first version of a name winning.
pub open spec fn package_lock_v2_fold(m: Map<Seq<u8>, Seq<u8>>, es: Seq<JsonMember>) -> Map<
    Seq<u8>,
    Seq<u8>,
>
    decreases es.len(),
{
    if es.len() == 0 {
        m
    } else {
        let m2 = package_lock_v2_fold(m, es.drop_last());
        match (node_modules_name(ob(&es.last().key)), json_field_str(es.last().value, sb("version"))) {
            (Some(n), Some(v)) => insert_first(m2, n, v),
            _ => m2,
        }
    }
}

/// `m` with the members of a lockfile v1 `dependencies` object added, the
/// first version of a name winning.
pub open spec fn package_lock_v1_fold(m: Map<Seq<u8>, Seq<u8>>, es: Seq<JsonMember>) -> Map<
    Seq<u8>,
    Seq<u8>,
>
    decreases es.len(),
{
    if es.len() == 0 {
        m
    } else {
        let m2 = package_lock_v1_fold(m, es.drop_last());
        match json_field_str(es.last().value, sb("version")) {
            Some(v) => insert_first(m2, ob(&es.last().key), v),
            None => m2,
        }
    }
}

/// The name → version map of a `package-lock.json` document: from the
/// `packages` object (lockfile v2/v3) when there is one, else from the flat
/// `dependencies` object (v1).
pub open spec fn package_lock_map(doc: JsonValue) -> Map<Seq<u8>, Seq<u8>> {
    match json_object(json_get(doc, sb("packages"))) {
        Some(es) => package_lock_v2_fold(Map::empty(), es),
        None => match json_object(json_get(doc, sb("dependencies"))) {
            Some(es) => package_lock_v1_fold(Map::empty(), es),
            None => Map::empty(),
        },
    }
}

/// Parse npm's `package-lock.json` document (lockfile versions 1, 2 and 3)
/// into a map of package name → version.
///
/// With a `packages` object (v2/v3), only top-level `node_modules/<name>`
/// keys count; nested `node_modules` copies and the root entry are skipped.
/// Otherwise the v1 `dependencies` object is read. Members need a string
/// `version`; the first version of a name wins.
pub fn parse_package_lock_doc(doc: &JsonValue) -> (r: LockMap)
    ensures
        lock_map_entries(r) == package_lock_map(*doc),
{
    let mut map = LockMap::new();
    proof {
        assert(lock_map_entries(map) =~= Map::<Seq<u8>, Seq<u8>>::empty());
    }
    match field_object(doc, "packages") {
        Some(es) => {
            let mut i: usize = 0;
            while i < es.len()
                invariant
                    i <= es@.len(),
                    lock_map_entries(map) == package_lock_v2_fold(Map::empty(), es@.take(i as int)),
                decreases es@.len() - i,
            {
                proof {
                    assert(es@.take(i + 1).drop_last() =~= es@.take(i as int));
                    assert(es@.take(i + 1).last() == es@[i as int]);
                }
                match (
                    extract_name_from_node_modules_path(es[i].key.as_str()),
                    field_str(&es[i].value, "version"),
                ) {
                    (Some(name), Some(version)) => {
                        map.insert_first_ref(name, to_owned_string(version));
                    },
                    _ => {},
                }
                i = i + 1;
            }
            proof {
                assert(es@.take(i as int) =~= es@);
            }
            return map;
        },
        None => {},
    }
    match field_object(doc, "dependencies") {
        Some(es) => {
            let mut i: usize = 0;
            while i < es.len()
                invariant
                    i <= es@.len(),
                    lock_map_entries(map) == package_lock_v1_fold(Map::empty(), es@.take(i as int)),
                decreases es@.len() - i,
            {
                proof {
                    assert(es@.take(i + 1).drop_last() =~= es@.take(i as int));
                    assert(es@.take(i + 1).last() == es@[i as int]);
                }
                match field_str(&es[i].value, "version") {
                    Some(version) => {
                        map.insert_first_ref(es[i].key.as_str(), to_owned_string(version));
                    },
                    None => {},
                }
                i = i + 1;
            }
            proof {
                assert(es@.take(i as int) =~= es@);
            }
        },
        None => {},
    }
    map
}

/// Parse the text of a `package-lock.json`, read with `serde_json`, into a
/// map of package name → version (see [`parse_package_lock_doc`]).
pub fn parse_package_lock(content: &str) -> (r: LockMap)
    ensures
        lock_map_entries(r) == package_lock_map(json_value_of(sb(content))),
{
    let doc = json_doc(content);
    parse_package_lock_doc(&doc)
}

/// The package a member of a v2/v3 `packages` object contributes to the
/// graph: top-level `node_modules/<name>` keys with a string `version`, the
/// keys of its `dependencies` object as edges.
pub open spec fn package_lock_pkg(e: JsonMember) -> Option<PkgModel> {
    if ob(&e.key).len() == 0 {
        None
    } else {
        match (node_modules_name(ob(&e.key)), json_field_str(e.value, sb("version"))) {
            (Some(n), Some(v)) => Some(
                PkgModel {
                    name: n,
                    version: v,
                    dependencies: member_keys(json_members(e.value, sb("dependencies"))),
                    is_root: false,
                },
            ),
            _ => None,
        }
    }
}

/// The graph packages of some members of a `packages` object, in order.
pub open spec fn package_lock_pkgs(es: Seq<JsonMember>) -> Seq<PkgModel>
    decreases es.len(),
{
    if es.len() == 0 {
        Seq::empty()
    } else {
        let prev = package_lock_pkgs(es.drop_last());
        match package_lock_pkg(es.last()) {
            Some(p) => prev.push(p),
            None => prev,
        }
    }
}

/// The keys of the `dependencies` object of `v`, in order.
fn dependency_keys(v: &JsonValue) -> (r: Vec<String>)
    ensures
        strings_view(r@) == member_keys(json_members(*v, sb("dependencies"))),
{
    let mut out: Vec<String> = Vec::new();
    match field_object(v, "dependencies") {
        Some(es) => {
            let mut i: usize = 0;
            while i < es.len()
                invariant
                    i <= es@.len(),
                    es@ == json_members(*v, sb("dependencies")),
                    strings_view(out@) == member_keys(es@.take(i as int)),
                decreases es@.len() - i,
            {
                let ghost o0 = out@;
                out.push(to_owned_string(es[i].key.as_str()));
                proof {
                    assert(strings_view(out@) =~= strings_view(o0).push(ob(&es@[i as int].key)));
                    assert(member_keys(es@.take(i + 1)) =~= member_keys(es@.take(i as int)).push(
                        ob(&es@[i as int].key),
                    ));
                }
                i = i + 1;
            }
            proof {
                assert(es@.take(i as int) =~= es@);
            }
        },
        None => {
            proof {
                assert(member_keys(json_members(*v, sb("dependencies"))) =~= Seq::<Seq<u8>>::empty());
            }
        },
    }
    out
}

/// Parse npm's `package-lock.json` document (v2/v3) into a
/// [`LockfileGraph`]: one package per top-level `node_modules/<name>` member
/// of `packages` with a string `version`, in order, the keys of its
/// `dependencies` object as edges. The root entry and nested `node_modules`
/// copies are skipped, so that a transitive copy never shadows the
/// top-level one.
pub fn parse_package_lock_graph_doc(doc: &JsonValue) -> (graph: LockfileGraph)
    ensures
        pkgs_view(graph.packages@) == package_lock_pkgs(json_members(*doc, sb("packages"))),
{
    let mut packages: Vec<LockfilePackage> = Vec::new();
    match field_object(doc, "packages") {
        Some(es) => {
            let mut i: usize = 0;
            while i < es.len()
                invariant
                    i <= es@.len(),
                    pkgs_view(packages@) == package_lock_pkgs(es@.take(i as int)),
                decreases es@.len() - i,
            {
                proof {
                    assert(es@.take(i + 1).drop_last() =~= es@.take(i as int));
                    assert(es@.take(i + 1).last() == es@[i as int]);
                }
                let key = es[i].key.as_str();
                if bytes(key).len() > 0 {
                    match (extract_name_from_node_modules_path(key), field_str(&es[i].value, "version")) {
                        (Some(name), Some(version)) => {
                            let pkg = LockfilePackage {
                                name: to_owned_string(name),
                                version: to_owned_string(version),
                                dependencies: dependency_keys(&es[i].value),
                                is_root: false,
                            };
                            let ghost pv = pkg@;
                            let ghost old_pk = packages@;
                            packages.push(pkg);
                            proof {
                                assert(pkgs_view(packages@) =~= pkgs_view(old_pk).push(pv));
                            }
                        },
                        _ => {},
                    }
                }
                i = i + 1;
            }
            proof {
                assert(es@.take(i as int) =~= es@);
            }
        },
        None => {
            proof {
                assert(pkgs_view(packages@) =~= Seq::<PkgModel>::empty());
            }
        },
    }
    LockfileGraph { packages }
}

/// Parse the text of a `package-lock.json`, read with `serde_json`, into a
/// [`LockfileGraph`] (see [`parse_package_lock_graph_doc`]).
pub fn parse_package_lock_graph(content: &str) -> (graph: LockfileGraph)
    ensures
        pkgs_view(graph.packages@) == package_lock_pkgs(json_members(json_value_of(sb(content)), sb("packages"))),
{
    let doc = json_doc(content);
    parse_package_lock_graph_doc(&doc)
}

/// The `name@version` spec a `bun.lock` package entry starts with: the first
/// element of its array, when it is a string.
pub open spec fn bun_spec(v: JsonValue) -> Option<Seq<u8>> {
    match json_array(Some(v)) {
        Some(a) => if a.len() > 0 {
            json_str(Some(a[0]))
        } else {
            None
        },
        None => None,
    }
}

/// `m` with the entries of a `bun.lock` `packages` object added, the first
/// version of a name winning.
pub open spec fn bun_fold(m: Map<Seq<u8>, Seq<u8>>, es: Seq<JsonMember>) -> Map<Seq<u8>, Seq<u8>>
    decreases es.len(),
{
    if es.len() == 0 {
        m
    } else {
        let m2 = bun_fold(m, es.drop_last());
        match bun_spec(es.last().value) {
            Some(s) => match split_nv(s) {
                Some(nv) => insert_first(m2, nv.0, nv.1),
                None => m2,
            },
            None => m2,
        }
    }
}

/// The name → version map of a `bun.lock` document.
pub open spec fn bun_lock_map(doc: JsonValue) -> Map<Seq<u8>, Seq<u8>> {
    bun_fold(Map::empty(), json_members(doc, sb("packages")))
}

/// Parse Bun's `bun.lock` document (its text cleaned of JSONC comments and
/// trailing commas by [`clean_jsonc`], then parsed) into a map of package
/// name → version: each member of `packages` is an array whose first element
/// is the `name@version` spec; the first version of a name wins.
pub fn parse_bun_lock_doc(doc: &JsonValue) -> (r: LockMap)
    ensures
        lock_map_entries(r) == bun_lock_map(*doc),
{
    let mut map = LockMap::new();
    proof {
        assert(lock_map_entries(map) =~= Map::<Seq<u8>, Seq<u8>>::empty());
    }
    match field_object(doc, "packages") {
        Some(es) => {
            let mut i: usize = 0;
            while i < es.len()
                invariant
                    i <= es@.len(),
                    es@ == json_members(*doc, sb("packages")),
                    lock_map_entries(map) == bun_fold(Map::empty(), es@.take(i as int)),
                decreases es@.len() - i,
            {
                proof {
                    assert(es@.take(i + 1).drop_last() =~= es@.take(i as int));
                    assert(es@.take(i + 1).last() == es@[i as int]);
                }
                let spec = match es[i].value.as_array() {
                    Some(a) => if a.len() > 0 {
                        a[0].as_str()
                    } else {
                        None
                    },
                    None => None,
                };
                match spec {
                    Some(s) => match split_name_version(s) {
                        Some((name, version)) => {
                            map.insert_first_ref(name, to_owned_string(version));
                        },
                        None => {},
                    },
                    None => {},
                }
                i = i + 1;
            }
            proof {
                assert(es@.take(i as int) =~= es@);
            }
        },
        None => {
            proof {
                assert(json_members(*doc, sb("packages")) =~= Seq::<JsonMember>::empty());
            }
        },
    }
    map
}

/// Parse the text of a `bun.lock`: cleaned by [`clean_jsonc`], then read
/// with `serde_json` (see [`parse_bun_lock_doc`]).
pub fn parse_bun_lock(content: &str) -> (r: LockMap)
    ensures
        lock_map_entries(r) == bun_lock_map(json_value_of(jsonc_from(sb(content), 0, false, false))),
{
    let cleaned = clean_jsonc(content);
    let doc = json_doc(cleaned.as_str());
    parse_bun_lock_doc(&doc)
}

/// The text a JSON lockfile is parsed from: `package-lock.json` as it is,
/// `bun.lock` cleaned of comments and trailing commas; the line-based
/// formats are not JSON.
pub fn npm_lockfile_json_text(content: &str, lockfile_type: NpmLockfileType) -> (r: Option<String>)
    ensures
        match lockfile_type {
            NpmLockfileType::PackageLock => r matches Some(t) && ob(&t) == sb(content),
            NpmLockfileType::BunLock => r matches Some(t) && ob(&t) == jsonc_from(sb(content), 0, false, false),
            _ => r is None,
        },
{
    match lockfile_type {
        NpmLockfileType::PackageLock => Some(to_owned_string(content)),
        NpmLockfileType::BunLock => Some(clean_jsonc(content)),
        _ => None,
    }
}

/// The JSON document a lockfile of the given kind is read from:
/// `package-lock.json` as `serde_json` reads it, `bun.lock` once cleaned of
/// comments and trailing commas; `null` for the line-based formats.
pub open spec fn npm_lock_doc(content: Seq<u8>, kind: NpmLockfileType) -> JsonValue {
    match kind {
        NpmLockfileType::PackageLock => json_value_of(content),
        NpmLockfileType::BunLock => json_value_of(jsonc_from(content, 0, false, false)),
        _ => JsonValue::Null,
    }
}

/// The document of a lockfile of the given kind: the text that
/// [`npm_lockfile_json_text`] gives, read with `serde_json`.
fn npm_lock_json(content: &str, lockfile_type: NpmLockfileType) -> (r: JsonValue)
    ensures
        r == npm_lock_doc(sb(content), lockfile_type),
{
    match npm_lockfile_json_text(content, lockfile_type) {
        Some(text) => json_doc(text.as_str()),
        None => JsonValue::Null,
    }
}

/// The name → version map of a Node.js lockfile of the given kind.
pub open spec fn npm_lockfile_map(content: Seq<u8>, doc: JsonValue, kind: NpmLockfileType) -> Map<
    Seq<u8>,
    Seq<u8>,
> {
    match kind {
        NpmLockfileType::PackageLock => package_lock_map(doc),
        NpmLockfileType::YarnLock => yarn_map_run(lines(content)).map,
        NpmLockfileType::PnpmLock => pnpm_map_run(lines(content)).map,
        NpmLockfileType::BunLock => bun_lock_map(doc),
    }
}

/// Parse a Node.js lockfile into a map of package name → resolved version,
/// by kind: `yarn.lock` and `pnpm-lock.yaml` are read from `content`, the
/// JSON formats from `doc`, the document parsed from the text that
/// [`npm_lockfile_json_text`] gives for the kind.
pub fn parse_npm_lockfile_doc(content: &str, doc: &JsonValue, lockfile_type: NpmLockfileType) -> (r:
    LockMap)
    ensures
        lock_map_entries(r) == npm_lockfile_map(sb(content), *doc, lockfile_type),
{
    match lockfile_type {
        NpmLockfileType::PackageLock => parse_package_lock_doc(doc),
        NpmLockfileType::YarnLock => parse_yarn_lock(content),
        NpmLockfileType::PnpmLock => parse_pnpm_lock(content),
        NpmLockfileType::BunLock => parse_bun_lock_doc(doc),
    }
}

/// Parse a Node.js lockfile of the given kind into a map of package name →
/// resolved version (see [`parse_npm_lockfile_doc`]; the JSON formats are
/// read with `serde_json`).
pub fn parse_npm_lockfile(content: &str, lockfile_type: NpmLockfileType) -> (r: LockMap)
    ensures
        lock_map_entries(r) == npm_lockfile_map(sb(content), npm_lock_doc(sb(content), lockfile_type), lockfile_type),
{
    let doc = npm_lock_json(content, lockfile_type);
    parse_npm_lockfile_doc(content, &doc, lockfile_type)
}

/// Resolves versions from npm, Yarn, pnpm and Bun lockfiles; the kind is
/// fixed when the lockfile is found.
pub struct NpmResolver {
    /// The lockfile found for the manifest.
    pub lock_path: std::path::PathBuf,
    /// Its kind.
    pub sub: NpmLockfileType,
}

impl NpmResolver {
    /// The dependency graph of the lockfile: by kind, from `content` (Yarn,
    /// pnpm) or from `doc` (npm). Bun has no graph parser: its graph is
    /// flat, one package per locked name without edges, in the order the
    /// map hands them out, which is not fixed.
    pub fn parse_graph_document(&self, content: &str, doc: &JsonValue) -> (graph: LockfileGraph)
        ensures
            match self.sub {
                NpmLockfileType::PackageLock => pkgs_view(graph.packages@) == package_lock_pkgs(
                    json_members(*doc, sb("packages")),
                ),
                NpmLockfileType::PnpmLock => pkgs_view(graph.packages@) == pnpm_graph(sb(content)),
                NpmLockfileType::YarnLock => pkgs_view(graph.packages@) == yarn_graph(sb(content)),
                NpmLockfileType::BunLock => exists|e: Seq<(Seq<u8>, Seq<u8>)>|
                    lists_pairs(e, bun_lock_map(*doc)) && pkgs_view(graph.packages@) == pair_pkgs(e),
            },
    {
        match self.sub {
            NpmLockfileType::PackageLock => parse_package_lock_graph_doc(doc),
            NpmLockfileType::PnpmLock => parse_pnpm_lock_graph(content),
            NpmLockfileType::YarnLock => parse_yarn_lock_graph(content),
            NpmLockfileType::BunLock => {
                let lock_versions = parse_bun_lock_doc(doc);
                let pairs = lock_versions.into_pairs();
                LockfileGraph { packages: flat_packages(pairs) }
            },
        }
    }

    /// The dependency graph of the text of the lockfile (see
    /// [`NpmResolver::parse_graph_document`]; the JSON formats are read with
    /// `serde_json`).
    pub fn parse_graph(&self, lock_content: &str) -> (graph: LockfileGraph)
        ensures
            match self.sub {
                NpmLockfileType::PackageLock => pkgs_view(graph.packages@) == package_lock_pkgs(
                    json_members(npm_lock_doc(sb(lock_content), self.sub), sb("packages")),
                ),
                NpmLockfileType::PnpmLock => pkgs_view(graph.packages@) == pnpm_graph(sb(lock_content)),
                NpmLockfileType::YarnLock => pkgs_view(graph.packages@) == yarn_graph(sb(lock_content)),
                NpmLockfileType::BunLock => exists|e: Seq<(Seq<u8>, Seq<u8>)>|
                    lists_pairs(e, bun_lock_map(npm_lock_doc(sb(lock_content), self.sub)))
                        && pkgs_view(graph.packages@) == pair_pkgs(e),
            },
    {
        let doc = npm_lock_json(lock_content, self.sub);
        self.parse_graph_document(lock_content, &doc)
    }
}

/// A package read from `pnpm-lock.yaml`: not a root, with a non-empty name,
/// and neither its name nor its version holds a `(` (peer-dependency
/// suffixes are cut off).
pub open spec fn pnpm_pkg_ok(p: PkgModel) -> bool {
    &&& !p.is_root
    &&& p.name.len() > 0
    &&& !p.name.contains(0x28u8)
    &&& !p.version.contains(0x28u8)
}

proof fn lemma_pnpm_key_ok(b: Seq<u8>)
    ensures
        pnpm_key(b) matches Some((n, v)) ==> n.len() > 0 && !n.contains(0x28u8) && !v.contains(0x28u8),
{
    lemma_find_b(b, 0, 0x28);
    let base = before_byte(b, 0x28);
    assert forall|k: int| 0 <= k < base.len() implies base[k] != 0x28u8 by {}
    lemma_rfind_b(base, base.len() as int, 0x40);
    if let Some(at) = rfind_b(base, base.len() as int, 0x40) {
        if at != 0 {
            let n = base.subrange(0, at);
            let v = base.subrange(at + 1, base.len() as int);
            assert forall|k: int| 0 <= k < n.len() implies n[k] != 0x28u8 by {
                assert(n[k] == base[k]);
            }
            assert forall|k: int| 0 <= k < v.len() implies v[k] != 0x28u8 by {
                assert(v[k] == base[at + 1 + k]);
            }
        }
    }
}

proof fn lemma_pnpm_run_ok(ls: Seq<Seq<u8>>)
    ensures
        forall|i: int| 0 <= i < pnpm_run(ls).pkgs.len() ==> pnpm_pkg_ok(#[trigger] pnpm_run(ls).pkgs[i]),
        pnpm_run(ls).current matches Some(p) ==> pnpm_pkg_ok(p),
        (forall|k: int| 0 <= k < ls.len() ==> #[trigger] ls[k] != sb("packages:")) ==> !pnpm_run(ls).in_packages
            && pnpm_run(ls).current is None && pnpm_run(ls).pkgs.len() == 0,
    decreases ls.len(),
{
    if ls.len() > 0 {
        let p = ls.drop_last();
        lemma_pnpm_run_ok(p);
        let st = pnpm_run(p);
        let l = ls.last();
        if let Some(rest) = pnpm_entry_rest_b(l) {
            lemma_pnpm_key_ok(pnpm_entry_key_b(rest));
        }
        if forall|k: int| 0 <= k < ls.len() ==> #[trigger] ls[k] != sb("packages:") {
            assert forall|k: int| 0 <= k < p.len() implies #[trigger] p[k] != sb("packages:") by {
                assert(p[k] == ls[k]);
            }
            assert(ls[ls.len() - 1] == l);
        }
        let st2 = pnpm_run(ls);
        assert forall|i: int| 0 <= i < st2.pkgs.len() implies pnpm_pkg_ok(#[trigger] st2.pkgs[i]) by {
            if i < st.pkgs.len() {
                assert(flush(st.current, st.pkgs)[i] == st.pkgs[i]);
            }
        }
    }
}

/// Every package of a `pnpm-lock.yaml` graph is a non-root package with a
/// non-empty name, and neither its name nor its version holds a `(`; a file
/// without a `packages:` line gives no packages.
pub proof fn law_pnpm_graph_packages(content: Seq<u8>)
    ensures
        forall|i: int| 0 <= i < pnpm_graph(content).len() ==> pnpm_pkg_ok(#[trigger] pnpm_graph(content)[i]),
        (forall|k: int| 0 <= k < lines(content).len() ==> #[trigger] lines(content)[k] != sb("packages:"))
            ==> pnpm_graph(content).len() == 0,
{
    lemma_pnpm_run_ok(lines(content));
    let st = pnpm_run(lines(content));
    assert forall|i: int| 0 <= i < pnpm_graph(content).len() implies pnpm_pkg_ok(#[trigger] pnpm_graph(content)[i]) by {
        if i < st.pkgs.len() {
            assert(flush(st.current, st.pkgs)[i] == st.pkgs[i]);
        }
    }
}

proof fn lemma_node_modules_name_of(n: Seq<u8>)
    requires
        n.len() > 0,
        !contains_b(n, sb("node_modules/")),
    ensures
        node_modules_name(sb("node_modules/") + n) == Some(n),
{
    lit_node_modules();
    let b = sb("node_modules/") + n;
    assert(b.subrange(0, 13) =~= sb("node_modules/"));
    assert(b.subrange(13, b.len() as int) =~= n);
}

proof fn lemma_v2_fold_grows(m: Map<Seq<u8>, Seq<u8>>, es: Seq<JsonMember>, k: Seq<u8>)
    requires
        m.dom().contains(k),
    ensures
        package_lock_v2_fold(m, es).dom().contains(k),
    decreases es.len(),
{
    if es.len() > 0 {
        lemma_v2_fold_grows(m, es.drop_last(), k);
    }
}

proof fn lemma_v2_fold_has(m: Map<Seq<u8>, Seq<u8>>, es: Seq<JsonMember>, i: int, n: Seq<u8>)
    requires
        0 <= i < es.len(),
        node_modules_name(ob(&es[i].key)) == Some(n),
        json_field_str(es[i].value, sb("version")) is Some,
    ensures
        package_lock_v2_fold(m, es).dom().contains(n),
    decreases es.len(),
{
    let m2 = package_lock_v2_fold(m, es.drop_last());
    if i < es.len() - 1 {
        assert(es.drop_last()[i] == es[i]);
        lemma_v2_fold_has(m, es.drop_last(), i, n);
    } else {
        assert(es.last() == es[i]);
    }
}

proof fn lemma_v1_fold_grows(m: Map<Seq<u8>, Seq<u8>>, es: Seq<JsonMember>, k: Seq<u8>)
    requires
        m.dom().contains(k),
    ensures
        package_lock_v1_fold(m, es).dom().contains(k),
    decreases es.len(),
{
    if es.len() > 0 {
        lemma_v1_fold_grows(m, es.drop_last(), k);
    }
}

proof fn lemma_v1_fold_has(m: Map<Seq<u8>, Seq<u8>>, es: Seq<JsonMember>, i: int)
    requires
        0 <= i < es.len(),
        json_field_str(es[i].value, sb("version")) is Some,
    ensures
        package_lock_v1_fold(m, es).dom().contains(ob(&es[i].key)),
    decreases es.len(),
{
    if i < es.len() - 1 {
        assert(es.drop_last()[i] == es[i]);
        lemma_v1_fold_has(m, es.drop_last(), i);
    } else {
        assert(es.last() == es[i]);
    }
}

/// Every top-level `node_modules/<name>` member of the `packages` object of
/// a `package-lock.json` (v2/v3) with a string `version` has `<name>` in the
/// version map (nested `node_modules` copies are not top-level).
pub proof fn law_package_lock_v2_reads_packages(doc: JsonValue, es: Seq<JsonMember>, i: int, n: Seq<u8>)
    requires
        json_object(json_get(doc, sb("packages"))) == Some(es),
        0 <= i < es.len(),
        ob(&es[i].key) == sb("node_modules/") + n,
        n.len() > 0,
        !contains_b(n, sb("node_modules/")),
        json_field_str(es[i].value, sb("version")) is Some,
    ensures
        package_lock_map(doc).dom().contains(n),
{
    lemma_node_modules_name_of(n);
    lemma_v2_fold_has(Map::empty(), es, i, n);
}

/// In a `package-lock.json` without a `packages` object (v1), every member
/// of the `dependencies` object with a string `version` has its key in the
/// version map.
pub proof fn law_package_lock_v1_reads_dependencies(doc: JsonValue, es: Seq<JsonMember>, i: int)
    requires
        json_object(json_get(doc, sb("packages"))) is None,
        json_object(json_get(doc, sb("dependencies"))) == Some(es),
        0 <= i < es.len(),
        json_field_str(es[i].value, sb("version")) is Some,
    ensures
        package_lock_map(doc).dom().contains(ob(&es[i].key)),
{
    lemma_v1_fold_has(Map::empty(), es, i);
}

proof fn lemma_package_lock_pkgs_keep(es: Seq<JsonMember>, i: int)
    requires
        0 <= i < es.len(),
        package_lock_pkg(es[i]) is Some,
    ensures
        exists|k: int| 0 <= k < package_lock_pkgs(es).len() && package_lock_pkgs(es)[k] == package_lock_pkg(es[i])->0,
    decreases es.len(),
{
    let prev = package_lock_pkgs(es.drop_last());
    if i < es.len() - 1 {
        assert(es.drop_last()[i] == es[i]);
        lemma_package_lock_pkgs_keep(es.drop_last(), i);
        let k = choose|k: int| 0 <= k < prev.len() && prev[k] == package_lock_pkg(es[i])->0;
        assert(package_lock_pkgs(es)[k] == prev[k]);
    } else {
        assert(es.last() == es[i]);
        assert(package_lock_pkgs(es)[prev.len() as int] == package_lock_pkg(es[i])->0);
    }
}

/// Every top-level `node_modules/<name>` member of the `packages` object of
/// a `package-lock.json` with a string `version` is a package of its graph,
/// named `<name>`, with that version, not a root.
pub proof fn law_package_lock_graph_reads_packages(doc: JsonValue, i: int, n: Seq<u8>, v: Seq<u8>)
    requires
        0 <= i < json_members(doc, sb("packages")).len(),
        ob(&json_members(doc, sb("packages"))[i].key) == sb("node_modules/") + n,
        n.len() > 0,
        !contains_b(n, sb("node_modules/")),
        json_field_str(json_members(doc, sb("packages"))[i].value, sb("version")) == Some(v),
    ensures
        exists|k: int|
            0 <= k < package_lock_pkgs(json_members(doc, sb("packages"))).len() && (#[trigger] package_lock_pkgs(
                json_members(doc, sb("packages")),
            )[k]).name == n && package_lock_pkgs(json_members(doc, sb("packages")))[k].version == v
                && !package_lock_pkgs(json_members(doc, sb("packages")))[k].is_root,
{
    let es = json_members(doc, sb("packages"));
    lemma_node_modules_name_of(n);
    lit_node_modules();
    assert(ob(&es[i].key).len() > 0);
    lemma_package_lock_pkgs_keep(es, i);
    let k = choose|k: int| 0 <= k < package_lock_pkgs(es).len() && package_lock_pkgs(es)[k] == package_lock_pkg(es[i])->0;
    assert(package_lock_pkgs(es)[k].name == n);
}

} // verus!
