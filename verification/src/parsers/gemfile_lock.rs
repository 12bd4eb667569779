//! Ruby lockfiles (`Gemfile.lock`): the `GEM` section read line by line into
//! a [`LockfileGraph`].

use vstd::prelude::*;
use vstd::utf8::valid_utf8;
use crate::text::{at_boundary, bytes, find_b, find_byte, first_token, first_word,
    lemma_after_ascii, lemma_find_b, lines, lines_from, lower_b, next_line, ob, sb, slice,
    starts_with, starts_with_b, str_eq, to_lowercase_string, trim, trim_b, trim_end, trim_end_b,
    trim_start, skip_ws, lemma_skip_ws_bounds};
use crate::parsers::lockfile_graph::{pkgs_view, strings_view, LockfileGraph, LockfilePackage,
    PkgModel};
use crate::parsers::npm_lock::{finish, flush, new_pkg, opt_pkg, with_dep};
use crate::parsers::lock_map::{insert_first, lock_map_entries, LockMap};

verus! {

broadcast use vstd::utf8::encode_utf8_valid_utf8, vstd::utf8::encode_utf8_decode_utf8;

proof fn lit_four_sp()
    ensures
        sb("    ") == seq![32u8, 32, 32, 32],
{
    reveal_strlit("    ");
    assert(vstd::string::is_ascii("    "));
    assert(sb("    ") =~= seq![32u8, 32, 32, 32]);
}

proof fn lit_six_sp()
    ensures
        sb("      ") == seq![32u8, 32, 32, 32, 32, 32],
{
    reveal_strlit("      ");
    assert(vstd::string::is_ascii("      "));
    assert(sb("      ") =~= seq![32u8, 32, 32, 32, 32, 32]);
}

proof fn lit_kw_x86_64()
    ensures
        sb("x86_64") == seq![120u8, 56, 54, 95, 54, 52],
{
    reveal_strlit("x86_64");
    assert(vstd::string::is_ascii("x86_64"));
    assert(sb("x86_64") =~= seq![120u8, 56, 54, 95, 54, 52]);
}

proof fn lit_kw_x86()
    ensures
        sb("x86") == seq![120u8, 56, 54],
{
    reveal_strlit("x86");
    assert(vstd::string::is_ascii("x86"));
    assert(sb("x86") =~= seq![120u8, 56, 54]);
}

proof fn lit_kw_arm64()
    ensures
        sb("arm64") == seq![97u8, 114, 109, 54, 52],
{
    reveal_strlit("arm64");
    assert(vstd::string::is_ascii("arm64"));
    assert(sb("arm64") =~= seq![97u8, 114, 109, 54, 52]);
}

proof fn lit_kw_aarch64()
    ensures
        sb("aarch64") == seq![97u8, 97, 114, 99, 104, 54, 52],
{
    reveal_strlit("aarch64");
    assert(vstd::string::is_ascii("aarch64"));
    assert(sb("aarch64") =~= seq![97u8, 97, 114, 99, 104, 54, 52]);
}

proof fn lit_kw_darwin()
    ensures
        sb("darwin") == seq![100u8, 97, 114, 119, 105, 110],
{
    reveal_strlit("darwin");
    assert(vstd::string::is_ascii("darwin"));
    assert(sb("darwin") =~= seq![100u8, 97, 114, 119, 105, 110]);
}

proof fn lit_kw_linux()
    ensures
        sb("linux") == seq![108u8, 105, 110, 117, 120],
{
    reveal_strlit("linux");
    assert(vstd::string::is_ascii("linux"));
    assert(sb("linux") =~= seq![108u8, 105, 110, 117, 120]);
}

proof fn lit_kw_mingw()
    ensures
        sb("mingw") == seq![109u8, 105, 110, 103, 119],
{
    reveal_strlit("mingw");
    assert(vstd::string::is_ascii("mingw"));
    assert(sb("mingw") =~= seq![109u8, 105, 110, 103, 119]);
}

proof fn lit_kw_mswin()
    ensures
        sb("mswin") == seq![109u8, 115, 119, 105, 110],
{
    reveal_strlit("mswin");
    assert(vstd::string::is_ascii("mswin"));
    assert(sb("mswin") =~= seq![109u8, 115, 119, 105, 110]);
}

proof fn lit_kw_java()
    ensures
        sb("java") == seq![106u8, 97, 118, 97],
{
    reveal_strlit("java");
    assert(vstd::string::is_ascii("java"));
    assert(sb("java") =~= seq![106u8, 97, 118, 97]);
}

proof fn lit_kw_jruby()
    ensures
        sb("jruby") == seq![106u8, 114, 117, 98, 121],
{
    reveal_strlit("jruby");
    assert(vstd::string::is_ascii("jruby"));
    assert(sb("jruby") =~= seq![106u8, 114, 117, 98, 121]);
}

proof fn lit_kw_universal()
    ensures
        sb("universal") == seq![117u8, 110, 105, 118, 101, 114, 115, 97, 108],
{
    reveal_strlit("universal");
    assert(vstd::string::is_ascii("universal"));
    assert(sb("universal") =~= seq![117u8, 110, 105, 118, 101, 114, 115, 97, 108]);
}

// ---------------------------------------------------------------------------
// Versions and names
// ---------------------------------------------------------------------------

/// `after` starts with the platform keyword `kw`, followed by nothing, `-` or a digit.
pub open spec fn kw_match(after: Seq<u8>, kw: Seq<u8>) -> bool {
    &&& starts_with_b(after, kw)
    &&& (after.len() == kw.len() || after[kw.len() as int] == 0x2D || (0x30 <= after[kw.len() as int]
        && after[kw.len() as int] <= 0x39))
}

/// The text after a version's first `-` names a RubyGems platform.
pub open spec fn is_platform(after: Seq<u8>) -> bool {
    ||| kw_match(after, sb("x86_64"))
    ||| kw_match(after, sb("x86"))
    ||| kw_match(after, sb("arm64"))
    ||| kw_match(after, sb("aarch64"))
    ||| kw_match(after, sb("darwin"))
    ||| kw_match(after, sb("linux"))
    ||| kw_match(after, sb("mingw"))
    ||| kw_match(after, sb("mswin"))
    ||| kw_match(after, sb("java"))
    ||| kw_match(after, sb("jruby"))
    ||| kw_match(after, sb("universal"))
}

/// A gem version without its platform suffix.
pub open spec fn strip_platform_b(v: Seq<u8>) -> Seq<u8> {
    match find_b(v, 0, 0x2D) {
        Some(d) => if is_platform(v.subrange(d + 1, v.len() as int)) {
            v.subrange(0, d)
        } else {
            v
        },
        None => v,
    }
}

fn kw_match_exec(after: &[u8], kw: &[u8]) -> (r: bool)
    ensures
        r == kw_match(after@, kw@),
{
    if !starts_with(after, kw) {
        return false;
    }
    let k = kw.len();
    k == after.len() || after[k] == 0x2D || (0x30 <= after[k] && after[k] <= 0x39)
}

/// Strip platform suffix from a gem version string.
///
/// RubyGems platform-specific gems append a platform suffix separated by `-`,
/// e.g. `1.15.4-x86_64-linux`. The actual version is the part before the first `-`
/// that is followed by a platform keyword.
///
/// Pre-release Ruby versions use dots, not hyphens (e.g. `1.0.0.pre.1`), so they
/// are returned unchanged.
pub fn strip_platform_suffix(version: &str) -> (r: &str)
    ensures
        sb(r) == strip_platform_b(sb(version)),
{
    let b = bytes(version);
    let blen = b.len();
    match find_byte(b, 0, 0x2D) {
        Some(d) => {
            proof {
                lemma_find_b(b@, 0, 0x2D);
                lemma_after_ascii(b@, d as int);
        lit_kw_x86_64();
        lit_kw_x86();
        lit_kw_arm64();
        lit_kw_aarch64();
        lit_kw_darwin();
        lit_kw_linux();
        lit_kw_mingw();
        lit_kw_mswin();
        lit_kw_java();
        lit_kw_jruby();
        lit_kw_universal();
            }
            let ab = bytes(slice(version, d + 1, blen));
            if kw_match_exec(ab, "x86_64".as_bytes()) || kw_match_exec(ab, "x86".as_bytes()) || kw_match_exec(ab, "arm64".as_bytes()) || kw_match_exec(ab, "aarch64".as_bytes()) || kw_match_exec(ab, "darwin".as_bytes()) || kw_match_exec(ab, "linux".as_bytes()) || kw_match_exec(ab, "mingw".as_bytes()) || kw_match_exec(ab, "mswin".as_bytes()) || kw_match_exec(ab, "java".as_bytes()) || kw_match_exec(ab, "jruby".as_bytes()) || kw_match_exec(ab, "universal".as_bytes()) {
                slice(version, 0, d)
            } else {
                proof {
                    assert(b@.subrange(0, b@.len() as int) =~= b@);
                }
                version
            }
        },
        None => version,
    }
}

/// Normalize a Ruby gem name to lowercase for case-insensitive matching.
pub fn normalize_gem_name(name: &str) -> (r: String)
    ensures
        r@ == crate::text::str_to_lowercase(name@),
        ob(&r) == lower_b(sb(name)),
{
    to_lowercase_string(name)
}

// ---------------------------------------------------------------------------
// Gemfile.lock graph
// ---------------------------------------------------------------------------

/// Where the line walker of `Gemfile.lock` stands after some lines.
pub ghost struct GemLockState {
    pub in_gem: bool,
    pub in_specs: bool,
    pub current: Option<PkgModel>,
    pub pkgs: Seq<PkgModel>,
}

/// First position at or after `p` holding neither `(` nor `)`.
pub open spec fn skip_parens(b: Seq<u8>, p: int) -> int
    decreases b.len() - p,
{
    if 0 <= p < b.len() && (b[p] == 0x28 || b[p] == 0x29) {
        skip_parens(b, p + 1)
    } else {
        p
    }
}

/// Last position at or before `e`, not below `lo`, not preceded by `(` or `)`.
pub open spec fn skip_parens_back(b: Seq<u8>, lo: int, e: int) -> int
    decreases e - lo,
{
    if lo < e <= b.len() && (b[e - 1] == 0x28 || b[e - 1] == 0x29) {
        skip_parens_back(b, lo, e - 1)
    } else {
        e
    }
}

/// `b` with `(` and `)` trimmed from both ends.
pub open spec fn trim_parens_b(b: Seq<u8>) -> Seq<u8> {
    let s = skip_parens(b, 0);
    b.subrange(s, skip_parens_back(b, s, b.len() as int))
}

proof fn lemma_skip_parens(b: Seq<u8>, p: int)
    requires
        0 <= p <= b.len(),
    ensures
        p <= skip_parens(b, p) <= b.len(),
        valid_utf8(b) && at_boundary(b, p) ==> at_boundary(b, skip_parens(b, p)),
    decreases b.len() - p,
{
    if p < b.len() && (b[p] == 0x28 || b[p] == 0x29) {
        if valid_utf8(b) && at_boundary(b, p) {
            lemma_after_ascii(b, p);
        }
        lemma_skip_parens(b, p + 1);
    }
}

proof fn lemma_skip_parens_back(b: Seq<u8>, lo: int, e: int)
    requires
        0 <= lo <= e <= b.len(),
    ensures
        lo <= skip_parens_back(b, lo, e) <= e,
        at_boundary(b, e) ==> at_boundary(b, skip_parens_back(b, lo, e)),
    decreases e - lo,
{
    if lo < e && (b[e - 1] == 0x28 || b[e - 1] == 0x29) {
        lemma_skip_parens_back(b, lo, e - 1);
    }
}

fn trim_parens(s: &str) -> (r: &str)
    ensures
        sb(r) == trim_parens_b(sb(s)),
{
    let b = bytes(s);
    let n = b.len();
    let mut p: usize = 0;
    while p < n && (b[p] == 0x28 || b[p] == 0x29)
        invariant
            n == b@.len(),
            p <= n,
            skip_parens(b@, 0) == skip_parens(b@, p as int),
        decreases n - p,
    {
        p = p + 1;
    }
    let mut e: usize = n;
    while e > p && (b[e - 1] == 0x28 || b[e - 1] == 0x29)
        invariant
            n == b@.len(),
            p <= e <= n,
            skip_parens_back(b@, p as int, n as int) == skip_parens_back(b@, p as int, e as int),
        decreases e,
    {
        e = e - 1;
    }
    proof {
        lemma_skip_parens(b@, 0);
        lemma_skip_parens_back(b@, p as int, n as int);
    }
    slice(s, p, e)
}

/// The package a `    name (version)` spec line opens.
pub open spec fn gem_spec_pkg(t: Seq<u8>) -> Option<PkgModel> {
    let s = trim_b(t);
    match find_b(s, 0, 0x20) {
        Some(i) => Some(
            new_pkg(
                lower_b(s.subrange(0, i)),
                strip_platform_b(trim_parens_b(trim_b(s.subrange(i + 1, s.len() as int)))),
            ),
        ),
        None => None,
    }
}

/// The lowercased first word of a `      name (constraint)` dependency line.
pub open spec fn gem_dep_name_b(t: Seq<u8>) -> Seq<u8> {
    match first_token(trim_b(t)) {
        Some(w) => w,
        None => Seq::empty(),
    }
}

/// One line of `Gemfile.lock`.
pub open spec fn gem_lock_step(st: GemLockState, l: Seq<u8>) -> GemLockState {
    let t = trim_end_b(l);
    if t.len() > 0 && t[0] != 0x20 {
        GemLockState {
            in_gem: trim_b(t) == sb("GEM"),
            in_specs: false,
            current: None,
            pkgs: flush(st.current, st.pkgs),
        }
    } else if !st.in_gem {
        st
    } else if trim_b(t) == sb("specs:") {
        GemLockState { in_specs: true, ..st }
    } else if !st.in_specs {
        st
    } else if !starts_with_b(t, sb("    ")) {
        GemLockState { in_specs: false, current: None, pkgs: flush(st.current, st.pkgs), ..st }
    } else if !starts_with_b(t, sb("      ")) {
        GemLockState { current: gem_spec_pkg(t), pkgs: flush(st.current, st.pkgs), ..st }
    } else {
        match st.current {
            Some(cur) => {
                let d = gem_dep_name_b(t);
                if d.len() > 0 {
                    GemLockState { current: Some(with_dep(cur, lower_b(d))), ..st }
                } else {
                    st
                }
            },
            None => st,
        }
    }
}

/// The walker's state after the lines `ls`.
pub open spec fn gem_lock_run(ls: Seq<Seq<u8>>) -> GemLockState
    decreases ls.len(),
{
    if ls.len() == 0 {
        GemLockState { in_gem: false, in_specs: false, current: None, pkgs: Seq::empty() }
    } else {
        gem_lock_step(gem_lock_run(ls.drop_last()), ls.last())
    }
}

/// The gems of the `GEM` sections of `Gemfile.lock` content, with their dependencies.
pub open spec fn gem_lock_graph(content: Seq<u8>) -> Seq<PkgModel> {
    let st = gem_lock_run(lines(content));
    flush(st.current, st.pkgs)
}

fn gem_spec_pkg_exec(t: &str) -> (r: Option<LockfilePackage>)
    ensures
        opt_pkg(r) == gem_spec_pkg(sb(t)),
{
    let s = trim(t);
    let sbytes = bytes(s);
    let slen = sbytes.len();
    match find_byte(sbytes, 0, 0x20) {
        Some(i) => {
            proof {
                lemma_find_b(sbytes@, 0, 0x20);
                lemma_after_ascii(sbytes@, i as int);
            }
            let name = slice(s, 0, i);
            let rest = slice(s, i + 1, slen);
            let version = strip_platform_suffix(trim_parens(trim(rest)));
            let pkg = LockfilePackage {
                name: normalize_gem_name(name),
                version: crate::text::to_owned_string(version),
                dependencies: Vec::new(),
                is_root: false,
            };
            proof {
                assert(pkg@.dependencies =~= Seq::<Seq<u8>>::empty());
            }
            Some(pkg)
        },
        None => None,
    }
}

/// Parse Gemfile.lock into a dependency graph.
/// Only the GEM section (RubyGems.org) is included. PATH and GIT sections are excluded.
/// The GEM/specs section uses 4-space indent for top-level gems (name + version)
/// and 6-space indent for their dependency list (name + constraint).
pub fn parse_gemfile_lock_graph(content: &str) -> (graph: LockfileGraph)
    ensures
        pkgs_view(graph.packages@) == gem_lock_graph(sb(content)),
{
    let b = bytes(content);
    let n = b.len();
    let ghost ls = lines(b@);
    let mut packages: Vec<LockfilePackage> = Vec::new();
    let mut in_gem = false;
    let mut in_specs = false;
    let mut current: Option<LockfilePackage> = None;
    let mut p: usize = 0;
    let mut i: usize = 0;
    proof {
        lit_four_sp();
        lit_six_sp();
        assert(pkgs_view(packages@) =~= Seq::<PkgModel>::empty());
    }
    while p < n
        invariant
            n == b@.len(),
            b@ == sb(content),
            valid_utf8(b@),
            ls == lines(b@),
            p <= n,
            at_boundary(b@, p as int),
            i <= ls.len(),
            i <= p,
            lines_from(b@, p as int) == ls.skip(i as int),
            gem_lock_run(ls.take(i as int)) == (GemLockState {
                in_gem,
                in_specs,
                current: opt_pkg(current),
                pkgs: pkgs_view(packages@),
            }),
        decreases n - p,
    {
        let (ce, next) = next_line(b, p);
        let line = slice(content, p, ce);
        let ghost st = gem_lock_run(ls.take(i as int));
        proof {
            assert(ls.skip(i as int).len() >= 1);
            assert(ls.skip(i as int)[0] == sb(line));
            assert(ls.skip(i + 1) =~= ls.skip(i as int).skip(1));
            assert(lines_from(b@, next as int) =~= ls.skip(i as int).skip(1));
            assert(ls.take(i + 1).drop_last() =~= ls.take(i as int));
            assert(ls.take(i + 1).last() == sb(line));
        }
        let trimmed = trim_end(line);
        let tb = bytes(trimmed);
        if tb.len() > 0 && tb[0] != 0x20 {
            let cur = current.take();
            finish(cur, &mut packages);
            in_gem = str_eq(trim(trimmed), "GEM");
            in_specs = false;
        } else if !in_gem {
        } else if str_eq(trim(trimmed), "specs:") {
            in_specs = true;
        } else if !in_specs {
        } else if !starts_with(tb, "    ".as_bytes()) {
            let cur = current.take();
            finish(cur, &mut packages);
            in_specs = false;
        } else if !starts_with(tb, "      ".as_bytes()) {
            let cur = current.take();
            finish(cur, &mut packages);
            current = gem_spec_pkg_exec(trimmed);
        } else {
            match current.take() {
                Some(mut cur) => {
                    let ghost before = cur@;
                    let w = match first_word(trim(trimmed)) {
                        Some(w) => w,
                        None => "",
                    };
                    proof {
                        reveal_strlit("");
                        assert(sb("") =~= Seq::<u8>::empty());
                    }
                    if bytes(w).len() > 0 {
                        let lower = normalize_gem_name(w);
                        cur.dependencies.push(lower);
                        proof {
                            assert(strings_view(cur.dependencies@) =~= before.dependencies.push(
                                lower_b(sb(w)),
                            ));
                            assert(cur@ == with_dep(before, lower_b(sb(w))));
                        }
                    }
                    current = Some(cur);
                },
                None => {},
            }
        }
        proof {
            assert(gem_lock_step(st, sb(line)) == (GemLockState {
                in_gem,
                in_specs,
                current: opt_pkg(current),
                pkgs: pkgs_view(packages@),
            }));
        }
        p = next;
        i = i + 1;
    }
    proof {
        assert(ls.skip(i as int).len() == 0);
        assert(ls.take(i as int) =~= ls);
    }
    finish(current, &mut packages);
    LockfileGraph { packages }
}

/// Resolves versions from `Gemfile.lock` for Ruby projects.
/// RubyGems normalizes gem names to lowercase via `normalize_gem_name`.
pub struct RubyResolver;

impl RubyResolver {
    /// The dependency graph of `Gemfile.lock` content.
    pub fn parse_graph(&self, lock_content: &str) -> (graph: LockfileGraph)
        ensures
            pkgs_view(graph.packages@) == gem_lock_graph(sb(lock_content)),
    {
        parse_gemfile_lock_graph(lock_content)
    }

    /// The name under which a gem is looked up in the lockfile.
    pub fn normalize_name(&self, name: &str) -> (r: String)
        ensures
            r@ == crate::text::str_to_lowercase(name@),
    {
        normalize_gem_name(name)
    }
}

// ---------------------------------------------------------------------------
// Gemfile.lock → name/version map
// ---------------------------------------------------------------------------

/// Where the `Gemfile.lock` map walker stands.
#[derive(Debug, Clone, Copy, PartialEq, Eq, Structural)]
pub enum GemMapSection {
    /// Looking for a `GEM` header.
    Searching,
    /// Inside a `GEM` section, before its `specs:`.
    InGem,
    /// Inside the `specs:` block of a `GEM` section.
    InSpecs,
}

/// The section a top-level line opens.
pub open spec fn gem_top(l: Seq<u8>) -> GemMapSection {
    if l == sb("GEM") {
        GemMapSection::InGem
    } else {
        GemMapSection::Searching
    }
}

/// The `(name, version)` a `    name (version)` spec line records: the name
/// lowercased, the version without its platform suffix.
pub open spec fn gem_spec_entry(l: Seq<u8>) -> Option<(Seq<u8>, Seq<u8>)> {
    let t = trim_b(l);
    match find_b(t, 0, 0x20) {
        Some(i) => {
            let rest = t.subrange(i + 1, t.len() as int);
            if rest.len() > 0 && rest[0] == 0x28 && rest[rest.len() - 1] == 0x29 {
                Some(
                    (
                        lower_b(t.subrange(0, i)),
                        strip_platform_b(rest.subrange(1, rest.len() - 1)),
                    ),
                )
            } else {
                None
            }
        },
        None => None,
    }
}

/// One line of `Gemfile.lock`, for the map of gem versions.
pub open spec fn gem_map_step(
    st: (GemMapSection, Map<Seq<u8>, Seq<u8>>),
    l: Seq<u8>,
) -> (GemMapSection, Map<Seq<u8>, Seq<u8>>) {
    let top = l.len() > 0 && l[0] != 0x20;
    match st.0 {
        GemMapSection::Searching => if l == sb("GEM") {
            (GemMapSection::InGem, st.1)
        } else {
            st
        },
        GemMapSection::InGem => if l == sb("  specs:") {
            (GemMapSection::InSpecs, st.1)
        } else if top {
            (gem_top(l), st.1)
        } else {
            st
        },
        GemMapSection::InSpecs => if top {
            (gem_top(l), st.1)
        } else if skip_ws(l, 0) == 4 {
            match gem_spec_entry(l) {
                Some(e) => (st.0, insert_first(st.1, e.0, e.1)),
                None => st,
            }
        } else {
            st
        },
    }
}

/// The walker's state after the lines `ls`.
pub open spec fn gem_map_run(ls: Seq<Seq<u8>>) -> (GemMapSection, Map<Seq<u8>, Seq<u8>>)
    decreases ls.len(),
{
    if ls.len() == 0 {
        (GemMapSection::Searching, Map::empty())
    } else {
        gem_map_step(gem_map_run(ls.drop_last()), ls.last())
    }
}

fn gem_top_exec(line: &str) -> (r: GemMapSection)
    ensures
        r == gem_top(sb(line)),
{
    if str_eq(line, "GEM") {
        GemMapSection::InGem
    } else {
        GemMapSection::Searching
    }
}

/// Parse a `Gemfile.lock` file into a map of gem name → resolved version.
///
/// Only `GEM` (registry) sections are read; `PATH` and `GIT` sourced gems are
/// excluded. Each gem appears in `specs:` as `    gem_name (VERSION)` with
/// exactly 4 columns of indentation; names are lowercased, platform suffixes
/// stripped from versions, and the first version recorded for a name wins.
pub fn parse_gemfile_lock(content: &str) -> (r: LockMap)
    ensures
        lock_map_entries(r) == gem_map_run(lines(sb(content))).1,
{
    let b = bytes(content);
    let n = b.len();
    let ghost ls = lines(b@);
    let mut map = LockMap::new();
    let mut state = GemMapSection::Searching;
    let mut p: usize = 0;
    let mut i: usize = 0;
    proof {
        assert(lock_map_entries(map) =~= Map::<Seq<u8>, Seq<u8>>::empty());
    }
    while p < n
        invariant
            n == b@.len(),
            b@ == sb(content),
            valid_utf8(b@),
            ls == lines(b@),
            p <= n,
            at_boundary(b@, p as int),
            i <= ls.len(),
            i <= p,
            lines_from(b@, p as int) == ls.skip(i as int),
            gem_map_run(ls.take(i as int)) == (state, lock_map_entries(map)),
        decreases n - p,
    {
        let (ce, next) = next_line(b, p);
        let line = slice(content, p, ce);
        let ghost st = gem_map_run(ls.take(i as int));
        proof {
            assert(ls.skip(i as int).len() >= 1);
            assert(ls.skip(i as int)[0] == sb(line));
            assert(ls.skip(i + 1) =~= ls.skip(i as int).skip(1));
            assert(lines_from(b@, next as int) =~= ls.skip(i as int).skip(1));
            assert(ls.take(i + 1).drop_last() =~= ls.take(i as int));
            assert(ls.take(i + 1).last() == sb(line));
        }
        let lb = bytes(line);
        let top = lb.len() > 0 && lb[0] != 0x20;
        match state {
            GemMapSection::Searching => {
                if str_eq(line, "GEM") {
                    state = GemMapSection::InGem;
                }
            },
            GemMapSection::InGem => {
                if str_eq(line, "  specs:") {
                    state = GemMapSection::InSpecs;
                } else if top {
                    state = gem_top_exec(line);
                }
            },
            GemMapSection::InSpecs => {
                proof {
                    lemma_skip_ws_bounds(lb@, 0);
                }
                if top {
                    state = gem_top_exec(line);
                } else if lb.len() - bytes(trim_start(line)).len() == 4 {
                    let trimmed = trim(line);
                    let tb = bytes(trimmed);
                    let tlen = tb.len();
                    match find_byte(tb, 0, 0x20) {
                        Some(sp) => {
                            proof {
                                lemma_find_b(tb@, 0, 0x20);
                                lemma_after_ascii(tb@, sp as int);
                            }
                            let name = slice(trimmed, 0, sp);
                            let rest = slice(trimmed, sp + 1, tlen);
                            let rb = bytes(rest);
                            let rlen = rb.len();
                            if rlen > 0 && rb[0] == 0x28 && rb[rlen - 1] == 0x29 {
                                proof {
                                    lemma_after_ascii(rb@, 0);
                                }
                                let raw_version = slice(rest, 1, rlen - 1);
                                let version = crate::text::to_owned_string(
                                    strip_platform_suffix(raw_version),
                                );
                                let key = normalize_gem_name(name);
                                map.insert_first_owned(key, version);
                            }
                        },
                        None => {},
                    }
                }
            },
        }
        proof {
            assert(gem_map_step(st, sb(line)) == (state, lock_map_entries(map)));
        }
        p = next;
        i = i + 1;
    }
    proof {
        assert(ls.skip(i as int).len() == 0);
        assert(ls.take(i as int) =~= ls);
    }
    map
}

/// Removing a platform suffix only ever cuts the version short: the result
/// is a prefix of the version, and a version without `-` is unchanged.
pub proof fn law_strip_platform_prefix(v: Seq<u8>)
    ensures
        strip_platform_b(v).len() <= v.len(),
        strip_platform_b(v) == v.subrange(0, strip_platform_b(v).len() as int),
        !v.contains(0x2Du8) ==> strip_platform_b(v) == v,
{
    lemma_find_b(v, 0, 0x2D);
    assert(v.subrange(0, v.len() as int) =~= v);
    if let Some(d) = find_b(v, 0, 0x2D) {
        assert(v.contains(0x2Du8));
    }
}

/// In `Gemfile.lock`, the first version recorded for a gem is never replaced
/// by a later spec line.
pub proof fn law_gemfile_lock_first_wins(ls: Seq<Seq<u8>>, i: int, j: int, k: Seq<u8>)
    requires
        0 <= i <= j <= ls.len(),
        gem_map_run(ls.take(i)).1.dom().contains(k),
    ensures
        gem_map_run(ls.take(j)).1.dom().contains(k),
        gem_map_run(ls.take(j)).1[k] == gem_map_run(ls.take(i)).1[k],
    decreases j - i,
{
    if j > i {
        law_gemfile_lock_first_wins(ls, i, j - 1, k);
        assert(ls.take(j).drop_last() =~= ls.take(j - 1));
    }
}

proof fn lit_gem_headers()
    ensures
        sb("GEM").len() == 3,
        sb("GEM")[0] == 71u8,
        sb("  specs:").len() == 8,
        sb("  specs:")[0] == 32u8,
{
    reveal_strlit("GEM");
    reveal_strlit("  specs:");
    assert(vstd::string::is_ascii("GEM"));
    assert(vstd::string::is_ascii("  specs:"));
    assert(sb("GEM") =~= seq![71u8, 69, 77]);
    assert(sb("  specs:") =~= seq![32u8, 32, 115, 112, 101, 99, 115, 58]);
}

/// A line that does not open a new top-level section: empty, or starting
/// with a space.
pub open spec fn gem_nested_line(l: Seq<u8>) -> bool {
    l.len() == 0 || l[0] == 0x20
}

proof fn lemma_gem_map_sections(ls: Seq<Seq<u8>>, g: int, s: int, n: int)
    requires
        0 <= g < s < ls.len(),
        g < n <= ls.len(),
        ls[g] == sb("GEM"),
        ls[s] == sb("  specs:"),
        forall|j: int| g < j < n && j != s ==> gem_nested_line(#[trigger] ls[j]),
    ensures
        n <= s ==> gem_map_run(ls.take(n)).0 != GemMapSection::Searching,
        n > s ==> gem_map_run(ls.take(n)).0 == GemMapSection::InSpecs,
    decreases n - g,
{
    lit_gem_headers();
    let t = ls.take(n);
    assert(t.drop_last() =~= ls.take(n - 1));
    assert(t.last() == ls[n - 1]);
    if n - 1 > g {
        lemma_gem_map_sections(ls, g, s, n - 1);
        if n - 1 != s {
            assert(gem_nested_line(ls[n - 1]));
        }
    }
}

/// Every spec line of the `specs:` block of a `GEM` section of a
/// `Gemfile.lock` (indented by four spaces, `name (version)`) puts its gem in
/// the version map, whatever follows.
pub proof fn law_gemfile_lock_reads_gem_specs(ls: Seq<Seq<u8>>, g: int, s: int, i: int, n: Seq<u8>, v: Seq<u8>)
    requires
        0 <= g < s < i < ls.len(),
        ls[g] == sb("GEM"),
        ls[s] == sb("  specs:"),
        forall|j: int| g < j < i && j != s ==> gem_nested_line(#[trigger] ls[j]),
        ls[i].len() > 0 && ls[i][0] == 0x20,
        skip_ws(ls[i], 0) == 4,
        gem_spec_entry(ls[i]) == Some((n, v)),
    ensures
        gem_map_run(ls).1.dom().contains(n),
{
    lemma_gem_map_sections(ls, g, s, i);
    let t = ls.take(i + 1);
    assert(t.drop_last() =~= ls.take(i));
    assert(t.last() == ls[i]);
    assert(gem_map_run(t).1.dom().contains(n));
    law_gemfile_lock_first_wins(ls, i + 1, ls.len() as int, n);
    assert(ls.take(ls.len() as int) =~= ls);
}

} // verus!
