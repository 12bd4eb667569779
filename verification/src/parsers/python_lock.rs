//! Python lockfiles: which tool manages a project, PEP 503 package-name
//! normalisation, and the lockfiles of Poetry, uv and PDM (TOML documents)
//! and Pipenv (JSON documents).

use vstd::prelude::*;
use vstd::utf8::valid_utf8;
use vstd::string::StrSliceExecFns;
use vstd::utf8::{decode_utf8, encode_utf8};
use crate::text::{at_boundary, bytes, lemma_ascii_prefix_boundary, lines, lines_from, matches_at,
    matches_at_exec, next_line, ob, sb, slice, starts_with, starts_with_b, to_owned_string, trim,
    trim_b};
use crate::parsers::json_value::{
    field_array as json_field_array, field_object as json_field_object,
    field_str as json_field_string, json_doc, json_field_str, json_members, json_section, json_str,
    json_value_of, JsonMember, JsonValue,
};
use crate::parsers::lock_map::{
    flat_packages, insert_first, lists_pairs, lock_map_entries, pair_pkgs, LockMap,
};
use crate::parsers::lockfile_graph::{pkgs_view, strings_view, LockfileGraph, LockfilePackage,
    PkgModel};
use crate::parsers::toml_value::{
    field_array as toml_field_array, field_str as toml_field_string, field_table as toml_field_table,
    toml_doc, toml_entries, toml_field_str, toml_section, toml_value_of, TomlEntry, TomlValue,
};

verus! {

broadcast use vstd::utf8::encode_utf8_valid_utf8, vstd::utf8::encode_utf8_decode_utf8;

/// Type of Python lockfile detected.
#[derive(Debug, Clone, Copy, PartialEq, Eq, Structural)]
pub enum PythonLockfileType {
    /// Poetry's `poetry.lock`
    PoetryLock,
    /// uv's `uv.lock`
    UvLock,
    /// PDM's `pdm.lock`
    PdmLock,
    /// Pipenv's `Pipfile.lock`
    PipfileLock,
}

/// The trimmed line `t` is a `[tool.<tool>]` or `[tool.<tool>.…]` header.
pub open spec fn tool_section(t: Seq<u8>, tool: Seq<u8>) -> bool {
    &&& starts_with_b(t, sb("[tool."))
    &&& matches_at(t, 6, tool)
    &&& 6 + tool.len() < t.len()
    &&& (t[6 + tool.len() as int] == ']' as u8 || t[6 + tool.len() as int] == '.' as u8)
}

/// The tool named by the first tool section header among `ls`.
pub open spec fn detect_tool(ls: Seq<Seq<u8>>) -> Option<PythonLockfileType>
    decreases ls.len(),
{
    if ls.len() == 0 {
        None
    } else {
        let t = trim_b(ls[0]);
        if tool_section(t, sb("poetry")) {
            Some(PythonLockfileType::PoetryLock)
        } else if tool_section(t, sb("uv")) {
            Some(PythonLockfileType::UvLock)
        } else if tool_section(t, sb("pdm")) {
            Some(PythonLockfileType::PdmLock)
        } else {
            detect_tool(ls.drop_first())
        }
    }
}

proof fn lit_tool_prefix()
    ensures
        sb("[tool.") == seq![91u8, 116, 111, 111, 108, 46],
{
    reveal_strlit("[tool.");
    assert(vstd::string::is_ascii("[tool."));
    assert(sb("[tool.") =~= seq![91u8, 116, 111, 111, 108, 46]);
}

/// Check if a line is a `[tool.<name>]` or `[tool.<name>.*]` TOML section header.
pub fn is_tool_section(line: &str, tool: &str) -> (r: bool)
    ensures
        r == tool_section(sb(line), sb(tool)),
{
    proof {
        lit_tool_prefix();
    }
    let b = bytes(line);
    let bl = b.len();
    let tb = bytes(tool);
    if !starts_with(b, "[tool.".as_bytes()) {
        return false;
    }
    if !matches_at_exec(b, 6, tb) {
        return false;
    }
    let k = 6 + tb.len();
    k < b.len() && (b[k] == ']' as u8 || b[k] == '.' as u8)
}

/// Detect which Python tool manages the project by inspecting `pyproject.toml`
/// content: the first `[tool.poetry]`, `[tool.uv]` or `[tool.pdm]` section
/// header (or a sub-table of one) decides.
pub fn detect_python_tool(manifest_content: &str) -> (r: Option<PythonLockfileType>)
    ensures
        r == detect_tool(lines(sb(manifest_content))),
{
    let b = bytes(manifest_content);
    let n = b.len();
    let mut p: usize = 0;
    while p < n
        invariant
            n == b@.len(),
            b@ == sb(manifest_content),
            valid_utf8(b@),
            p <= n,
            at_boundary(b@, p as int),
            detect_tool(lines(b@)) == detect_tool(lines_from(b@, p as int)),
        decreases n - p,
    {
        let (ce, next) = next_line(b, p);
        let line = slice(manifest_content, p, ce);
        let trimmed = trim(line);
        proof {
            let ls = lines_from(b@, p as int);
            assert(ls[0] == sb(line));
            assert(ls.drop_first() =~= lines_from(b@, next as int));
        }
        if is_tool_section(trimmed, "poetry") {
            return Some(PythonLockfileType::PoetryLock);
        }
        if is_tool_section(trimmed, "uv") {
            return Some(PythonLockfileType::UvLock);
        }
        if is_tool_section(trimmed, "pdm") {
            return Some(PythonLockfileType::PdmLock);
        }
        p = next;
    }
    None
}

/// The lowercase form of a char as given by `char::to_lowercase`.
pub uninterp spec fn char_to_lowercase(c: char) -> Seq<char>;

/// `char::to_lowercase`, collected into a string.
///
/// Trusted: the result is whatever `char::to_lowercase` yields for `c`; the
/// Unicode case mapping itself is not stated.
#[verifier::external_body]
fn char_lowercase_string(c: char) -> (r: String)
    ensures
        r@ == char_to_lowercase(c),
{
    c.to_lowercase().collect()
}

/// Lowercase of one char: ASCII letters map to their lowercase; other ASCII
/// chars stay; anything else follows `char::to_lowercase`.
pub open spec fn lower_char(c: char) -> Seq<char> {
    if 'A' <= c <= 'Z' {
        seq![((c as u32) + 32) as char]
    } else if (c as u32) < 0x80 {
        seq![c]
    } else {
        char_to_lowercase(c)
    }
}

/// A PEP 503 separator.
pub open spec fn is_name_sep(c: char) -> bool {
    c == '_' || c == '.' || c == '-'
}

/// The normalised prefix of `cs` and whether its last input char was a separator.
pub open spec fn py_norm_run(cs: Seq<char>) -> (Seq<char>, bool)
    decreases cs.len(),
{
    if cs.len() == 0 {
        (Seq::empty(), false)
    } else {
        let (r, prev) = py_norm_run(cs.drop_last());
        let c = cs.last();
        if is_name_sep(c) {
            if !prev && r.len() > 0 {
                (r.push('-'), true)
            } else {
                (r, prev)
            }
        } else {
            (r + lower_char(c), false)
        }
    }
}

/// PEP 503 normalisation of a package name.
pub open spec fn py_normalize(cs: Seq<char>) -> Seq<char> {
    let r = py_norm_run(cs).0;
    if r.len() > 0 && r.last() == '-' {
        r.drop_last()
    } else {
        r
    }
}

/// A string holding one char.
#[verifier::external_body]
fn push_char(s: &mut String, c: char)
    ensures
        final(s)@ == old(s)@.push(c),
{
    s.push(c)
}

/// Normalize a Python package name per PEP 503: lowercase it, and replace
/// each run of `_`, `.` and `-` with a single `-` (none at either end).
pub fn normalize_python_name(name: &str) -> (r: String)
    ensures
        r@ == py_normalize(name@),
{
    let mut result = String::new();
    let mut prev_was_separator = false;
    let n = name.unicode_len();
    let mut i: usize = 0;
    while i < n
        invariant
            n == name@.len(),
            i <= n,
            py_norm_run(name@.take(i as int)) == (result@, prev_was_separator),
        decreases n - i,
    {
        let ch = name.get_char(i);
        proof {
            assert(name@.take(i + 1).drop_last() =~= name@.take(i as int));
            assert(name@.take(i + 1).last() == ch);
        }
        if ch == '_' || ch == '.' || ch == '-' {
            if !prev_was_separator && result.as_str().unicode_len() > 0 {
                push_char(&mut result, '-');
                prev_was_separator = true;
            }
        } else {
            if 'A' <= ch && ch <= 'Z' {
                let lower = ((ch as u32) + 32) as u8 as char;
                proof {
                    assert(lower == ((ch as u32) + 32) as char);
                }
                push_char(&mut result, lower);
                proof {
                    assert(result@ =~= py_norm_run(name@.take(i + 1)).0);
                }
            } else if (ch as u32) < 0x80 {
                push_char(&mut result, ch);
                proof {
                    assert(result@ =~= py_norm_run(name@.take(i + 1)).0);
                }
            } else {
                let lower = char_lowercase_string(ch);
                result.append(lower.as_str());
            }
            prev_was_separator = false;
        }
        i = i + 1;
    }
    proof {
        assert(name@.take(n as int) =~= name@);
    }
    let len = result.as_str().unicode_len();
    if len > 0 && result.as_str().get_char(len - 1) == '-' {
        result = to_owned_chars(result.as_str().substring_char(0, len - 1));
    }
    result
}

/// An owned copy of a string slice.
fn to_owned_chars(s: &str) -> (r: String)
    ensures
        r@ == s@,
{
    crate::text::to_owned_string(s)
}

/// All chars of `cs` are ASCII.
pub open spec fn all_ascii(cs: Seq<char>) -> bool {
    forall|i: int| 0 <= i < cs.len() ==> (cs[i] as u32) < 0x80
}

/// A PEP 503 normal form: ASCII without uppercase letters, `_` or `.`, with
/// no `--` and no `-` at either end.
pub open spec fn pep503_normal(r: Seq<char>) -> bool {
    &&& forall|i: int|
        0 <= i < r.len() ==> (r[i] as u32) < 0x80 && !('A' <= #[trigger] r[i] <= 'Z') && r[i] != '_'
            && r[i] != '.'
    &&& forall|i: int| 0 <= i < r.len() - 1 ==> !(#[trigger] r[i] == '-' && r[i + 1] == '-')
    &&& r.len() > 0 ==> r[0] != '-' && r[r.len() - 1] != '-'
}

proof fn lemma_norm_run_shape(cs: Seq<char>)
    requires
        all_ascii(cs),
    ensures
        ({
            let (r, prev) = py_norm_run(cs);
            &&& forall|i: int|
                0 <= i < r.len() ==> (r[i] as u32) < 0x80 && !('A' <= #[trigger] r[i] <= 'Z')
                    && r[i] != '_' && r[i] != '.'
            &&& forall|i: int| 0 <= i < r.len() - 1 ==> !(#[trigger] r[i] == '-' && r[i + 1] == '-')
            &&& r.len() > 0 ==> r[0] != '-'
            &&& prev == (r.len() > 0 && r[r.len() - 1] == '-')
        }),
    decreases cs.len(),
{
    if cs.len() > 0 {
        let init = cs.drop_last();
        assert forall|i: int| 0 <= i < init.len() implies (init[i] as u32) < 0x80 by {
            assert(init[i] == cs[i]);
        }
        lemma_norm_run_shape(init);
        let (r0, p0) = py_norm_run(init);
        let c = cs.last();
        assert((c as u32) < 0x80);
        if !is_name_sep(c) {
            let lc = lower_char(c);
            if 'A' <= c <= 'Z' {
                assert(lc =~= seq![((c as u32) + 32) as char]);
            } else {
                assert(lc =~= seq![c]);
            }
            let r = r0 + lc;
            assert(r.len() == r0.len() + 1);
            assert(forall|i: int| 0 <= i < r0.len() ==> r[i] == r0[i]);
        }
    }
}

proof fn lemma_normal_fixpoint(r: Seq<char>, k: int)
    requires
        pep503_normal(r),
        0 <= k <= r.len(),
    ensures
        py_norm_run(r.take(k)) == (r.take(k), k > 0 && r[k - 1] == '-'),
    decreases k,
{
    if k > 0 {
        lemma_normal_fixpoint(r, k - 1);
        assert(r.take(k).drop_last() =~= r.take(k - 1));
        let c = r[k - 1];
        assert(r.take(k).last() == c);
        if is_name_sep(c) {
            assert(c == '-');
            if k >= 2 {
                assert(!(r[k - 2] == '-' && r[k - 1] == '-'));
            }
            assert(r.take(k - 1).push('-') =~= r.take(k));
        } else {
            assert(lower_char(c) =~= seq![c]);
            assert(r.take(k - 1) + seq![c] =~= r.take(k));
        }
    }
}

/// PEP 503 normalisation of an ASCII name yields a normal form, and
/// normalising again changes nothing.
pub proof fn law_normalize_idempotent(cs: Seq<char>)
    requires
        all_ascii(cs),
    ensures
        pep503_normal(py_normalize(cs)),
        py_normalize(py_normalize(cs)) == py_normalize(cs),
{
    lemma_norm_run_shape(cs);
    let r = py_norm_run(cs).0;
    let n = py_normalize(cs);
    if r.len() > 0 && r.last() == '-' {
        assert(n =~= r.drop_last());
        assert(forall|i: int| 0 <= i < n.len() ==> n[i] == r[i]);
        if n.len() > 0 {
            assert(!(r[n.len() - 1] == '-' && r[n.len() as int] == '-'));
        }
    }
    assert(pep503_normal(n));
    lemma_normal_fixpoint(n, n.len() as int);
    assert(n.take(n.len() as int) =~= n);
}

// ---------------------------------------------------------------------------
// Lockfile documents: poetry.lock, uv.lock, pdm.lock (TOML), Pipfile.lock (JSON)
// ---------------------------------------------------------------------------

proof fn lit_eqeq()
    ensures
        sb("==") == seq![61u8, 61],
{
    reveal_strlit("==");
    assert(vstd::string::is_ascii("=="));
    assert(sb("==") =~= seq![61u8, 61]);
}

/// The UTF-8 bytes of the PEP 503 normal form of the name whose bytes are `b`.
pub open spec fn py_norm_b(b: Seq<u8>) -> Seq<u8> {
    encode_utf8(py_normalize(decode_utf8(b)))
}

/// [`normalize_python_name`], stated over bytes.
fn py_norm(name: &str) -> (r: String)
    ensures
        ob(&r) == py_norm_b(sb(name)),
{
    normalize_python_name(name)
}

/// The `(name, version)` a `[[package]]` table records, the name normalised.
pub open spec fn toml_pkg_entry(p: TomlValue) -> Option<(Seq<u8>, Seq<u8>)> {
    match (toml_field_str(p, sb("name")), toml_field_str(p, sb("version"))) {
        (Some(n), Some(v)) => Some((py_norm_b(n), v)),
        _ => None,
    }
}

/// `m` with the entries of `ps` added in order, the first version of a name winning.
pub open spec fn toml_pkg_fold(m: Map<Seq<u8>, Seq<u8>>, ps: Seq<TomlValue>) -> Map<Seq<u8>, Seq<u8>>
    decreases ps.len(),
{
    if ps.len() == 0 {
        m
    } else {
        let m2 = toml_pkg_fold(m, ps.drop_last());
        match toml_pkg_entry(ps.last()) {
            Some(e) => insert_first(m2, e.0, e.1),
            None => m2,
        }
    }
}

/// The name → version map of a `poetry.lock`, `uv.lock` or `pdm.lock` document.
pub open spec fn toml_package_array_map(doc: TomlValue) -> Map<Seq<u8>, Seq<u8>> {
    toml_pkg_fold(Map::empty(), toml_section(doc, sb("package")))
}

/// Parse a TOML lockfile document whose `[[package]]` tables have `name` and
/// `version` strings (`poetry.lock`, `uv.lock` and `pdm.lock` share this
/// shape) into a map of PEP 503-normalised name → version, the first version
/// of a name winning.
pub fn parse_toml_package_array_doc(doc: &TomlValue) -> (r: LockMap)
    ensures
        lock_map_entries(r) == toml_package_array_map(*doc),
{
    let mut map = LockMap::new();
    proof {
        assert(lock_map_entries(map) =~= Map::<Seq<u8>, Seq<u8>>::empty());
    }
    match toml_field_array(doc, "package") {
        Some(ps) => {
            let mut i: usize = 0;
            while i < ps.len()
                invariant
                    i <= ps@.len(),
                    ps@ == toml_section(*doc, sb("package")),
                    lock_map_entries(map) == toml_pkg_fold(Map::empty(), ps@.take(i as int)),
                decreases ps@.len() - i,
            {
                proof {
                    assert(ps@.take(i + 1).drop_last() =~= ps@.take(i as int));
                    assert(ps@.take(i + 1).last() == ps@[i as int]);
                }
                match (toml_field_string(&ps[i], "name"), toml_field_string(&ps[i], "version")) {
                    (Some(n), Some(v)) => {
                        map.insert_first_owned(py_norm(n), to_owned_string(v));
                    },
                    _ => {},
                }
                i = i + 1;
            }
            proof {
                assert(ps@.take(i as int) =~= ps@);
            }
        },
        None => {
            proof {
                assert(toml_section(*doc, sb("package")) =~= Seq::<TomlValue>::empty());
            }
        },
    }
    map
}

/// Parse the text of a TOML lockfile with a `[[package]]` array, read with
/// `toml` (see [`parse_toml_package_array_doc`]).
pub fn parse_toml_package_array(content: &str) -> (r: LockMap)
    ensures
        lock_map_entries(r) == toml_package_array_map(toml_value_of(sb(content))),
{
    let doc = toml_doc(content);
    parse_toml_package_array_doc(&doc)
}

/// `v` without one leading `==`.
pub open spec fn strip_eq_once(v: Seq<u8>) -> Seq<u8> {
    if starts_with_b(v, sb("==")) {
        v.subrange(2, v.len() as int)
    } else {
        v
    }
}

/// `v` without any leading `==` (`trim_start_matches("==")`).
pub open spec fn strip_eq_all(v: Seq<u8>) -> Seq<u8>
    decreases v.len(),
{
    if v.len() >= 2 && starts_with_b(v, sb("==")) {
        strip_eq_all(v.subrange(2, v.len() as int))
    } else {
        v
    }
}

fn strip_eq_once_exec(v: &str) -> (r: &str)
    ensures
        sb(r) == strip_eq_once(sb(v)),
{
    let b = bytes(v);
    proof {
        lit_eqeq();
    }
    if starts_with(b, bytes("==")) {
        proof {
            lemma_ascii_prefix_boundary(b@, sb("=="));
        }
        slice(v, 2, b.len())
    } else {
        v
    }
}

fn strip_eq_all_exec(v: &str) -> (r: &str)
    ensures
        sb(r) == strip_eq_all(sb(v)),
{
    let mut cur = v;
    proof {
        lit_eqeq();
    }
    while bytes(cur).len() >= 2 && starts_with(bytes(cur), bytes("=="))
        invariant
            strip_eq_all(sb(v)) == strip_eq_all(sb(cur)),
            sb("==") == seq![61u8, 61],
        decreases sb(cur).len(),
    {
        proof {
            lemma_ascii_prefix_boundary(sb(cur), sb("=="));
        }
        cur = slice(cur, 2, bytes(cur).len());
    }
    cur
}

/// `m` with the members of one `Pipfile.lock` section added, names
/// normalised, one leading `==` stripped from versions, the first version of
/// a name winning.
pub open spec fn pipfile_fold(m: Map<Seq<u8>, Seq<u8>>, es: Seq<JsonMember>) -> Map<Seq<u8>, Seq<u8>>
    decreases es.len(),
{
    if es.len() == 0 {
        m
    } else {
        let m2 = pipfile_fold(m, es.drop_last());
        match json_field_str(es.last().value, sb("version")) {
            Some(v) => insert_first(m2, py_norm_b(ob(&es.last().key)), strip_eq_once(v)),
            None => m2,
        }
    }
}

/// The name → version map of a `Pipfile.lock` document: `default`, then `develop`.
pub open spec fn pipfile_lock_map(doc: JsonValue) -> Map<Seq<u8>, Seq<u8>> {
    pipfile_fold(
        pipfile_fold(Map::empty(), json_members(doc, sb("default"))),
        json_members(doc, sb("develop")),
    )
}

fn pipfile_add_section(map: &mut LockMap, doc: &JsonValue, section: &str)
    ensures
        lock_map_entries(*final(map)) == pipfile_fold(
            lock_map_entries(*old(map)),
            json_members(*doc, sb(section)),
        ),
{
    let ghost m0 = lock_map_entries(*map);
    match json_field_object(doc, section) {
        Some(es) => {
            let mut i: usize = 0;
            while i < es.len()
                invariant
                    i <= es@.len(),
                    es@ == json_members(*doc, sb(section)),
                    lock_map_entries(*map) == pipfile_fold(m0, es@.take(i as int)),
                decreases es@.len() - i,
            {
                proof {
                    assert(es@.take(i + 1).drop_last() =~= es@.take(i as int));
                    assert(es@.take(i + 1).last() == es@[i as int]);
                }
                match json_field_string(&es[i].value, "version") {
                    Some(v) => {
                        map.insert_first_owned(
                            py_norm(es[i].key.as_str()),
                            to_owned_string(strip_eq_once_exec(v)),
                        );
                    },
                    None => {},
                }
                i = i + 1;
            }
            proof {
                assert(es@.take(i as int) =~= es@);
            }
        },
        None => {
            proof {
                assert(json_members(*doc, sb(section)) =~= Seq::<JsonMember>::empty());
            }
        },
    }
}

/// Parse Pipenv's `Pipfile.lock` document into a map of PEP 503-normalised
/// name → version: the `default` section, then `develop`; one leading `==`
/// is stripped from versions, and the first version of a name wins (so
/// `default` wins over `develop`).
pub fn parse_pipfile_lock_doc(doc: &JsonValue) -> (r: LockMap)
    ensures
        lock_map_entries(r) == pipfile_lock_map(*doc),
{
    let mut map = LockMap::new();
    proof {
        assert(lock_map_entries(map) =~= Map::<Seq<u8>, Seq<u8>>::empty());
    }
    pipfile_add_section(&mut map, doc, "default");
    pipfile_add_section(&mut map, doc, "develop");
    map
}

/// Parse the text of a `Pipfile.lock`, read with `serde_json` (see
/// [`parse_pipfile_lock_doc`]).
pub fn parse_pipfile_lock(content: &str) -> (r: LockMap)
    ensures
        lock_map_entries(r) == pipfile_lock_map(json_value_of(sb(content))),
{
    let doc = json_doc(content);
    parse_pipfile_lock_doc(&doc)
}

/// The name → version map of a Python lockfile of the given kind.
pub open spec fn python_lockfile_map(
    toml_doc: TomlValue,
    json_doc: JsonValue,
    kind: PythonLockfileType,
) -> Map<Seq<u8>, Seq<u8>> {
    match kind {
        PythonLockfileType::PipfileLock => pipfile_lock_map(json_doc),
        _ => toml_package_array_map(toml_doc),
    }
}

/// Whether a Python lockfile of this kind is JSON (`Pipfile.lock`) rather
/// than TOML (`poetry.lock`, `uv.lock`, `pdm.lock`).
pub fn python_lockfile_is_json(kind: PythonLockfileType) -> (r: bool)
    ensures
        r == (kind == PythonLockfileType::PipfileLock),
{
    match kind {
        PythonLockfileType::PipfileLock => true,
        _ => false,
    }
}

/// Parse a Python lockfile's document into a map of PEP 503-normalised name
/// → version: `poetry.lock`, `uv.lock` and `pdm.lock` from their TOML
/// document, `Pipfile.lock` from its JSON document.
pub fn parse_python_lockfile_docs(
    toml_doc: &TomlValue,
    json_doc: &JsonValue,
    lockfile_type: PythonLockfileType,
) -> (r: LockMap)
    ensures
        lock_map_entries(r) == python_lockfile_map(*toml_doc, *json_doc, lockfile_type),
{
    match lockfile_type {
        PythonLockfileType::PipfileLock => parse_pipfile_lock_doc(json_doc),
        _ => parse_toml_package_array_doc(toml_doc),
    }
}

/// Parse the text of a Python lockfile of the given kind into a map of
/// PEP 503-normalised name → version: `Pipfile.lock` read with `serde_json`,
/// the others with `toml` (see [`parse_python_lockfile_docs`]).
pub fn parse_python_lockfile(content: &str, lockfile_type: PythonLockfileType) -> (r: LockMap)
    ensures
        lock_map_entries(r) == python_lockfile_map(
            toml_value_of(sb(content)),
            json_value_of(sb(content)),
            lockfile_type,
        ),
{
    match lockfile_type {
        PythonLockfileType::PipfileLock => parse_pipfile_lock(content),
        _ => parse_toml_package_array(content),
    }
}

/// The normalised keys of the `dependencies` table of a `poetry.lock` package.
pub open spec fn poetry_deps(p: TomlValue) -> Seq<Seq<u8>> {
    toml_entries(p, sb("dependencies")).map_values(|e: TomlEntry| py_norm_b(ob(&e.key)))
}

/// The package a `poetry.lock` `[[package]]` table contributes to the graph.
pub open spec fn poetry_pkg(p: TomlValue) -> Option<PkgModel> {
    match (toml_field_str(p, sb("name")), toml_field_str(p, sb("version"))) {
        (Some(n), Some(v)) => Some(
            PkgModel { name: py_norm_b(n), version: v, dependencies: poetry_deps(p), is_root: false },
        ),
        _ => None,
    }
}

/// The graph packages of some `poetry.lock` tables, in order.
pub open spec fn poetry_pkgs(ps: Seq<TomlValue>) -> Seq<PkgModel>
    decreases ps.len(),
{
    if ps.len() == 0 {
        Seq::empty()
    } else {
        let prev = poetry_pkgs(ps.drop_last());
        match poetry_pkg(ps.last()) {
            Some(p) => prev.push(p),
            None => prev,
        }
    }
}

fn poetry_dep_names(p: &TomlValue) -> (r: Vec<String>)
    ensures
        strings_view(r@) == poetry_deps(*p),
{
    let mut out: Vec<String> = Vec::new();
    let ghost all = toml_entries(*p, sb("dependencies"));
    match toml_field_table(p, "dependencies") {
        Some(es) => {
            let mut i: usize = 0;
            while i < es.len()
                invariant
                    i <= es@.len(),
                    es@ == all,
                    strings_view(out@) == all.take(i as int).map_values(
                        |e: TomlEntry| py_norm_b(ob(&e.key)),
                    ),
                decreases es@.len() - i,
            {
                let ghost o0 = out@;
                out.push(py_norm(es[i].key.as_str()));
                proof {
                    assert(strings_view(out@) =~= strings_view(o0).push(py_norm_b(ob(&es@[i as int].key))));
                    assert(all.take(i + 1).map_values(|e: TomlEntry| py_norm_b(ob(&e.key))) =~= all.take(
                        i as int,
                    ).map_values(|e: TomlEntry| py_norm_b(ob(&e.key))).push(py_norm_b(ob(&es@[i as int].key))));
                }
                i = i + 1;
            }
            proof {
                assert(all.take(i as int) =~= all);
            }
        },
        None => {
            proof {
                assert(all =~= Seq::<TomlEntry>::empty());
                assert(poetry_deps(*p) =~= Seq::<Seq<u8>>::empty());
            }
        },
    }
    out
}

/// Parse a `poetry.lock` document into a [`LockfileGraph`]: one package per
/// `[[package]]` with string `name` and `version`, in order, names PEP 503
/// normalised, the normalised keys of its `dependencies` table as edges.
pub fn parse_poetry_lock_graph_doc(doc: &TomlValue) -> (graph: LockfileGraph)
    ensures
        pkgs_view(graph.packages@) == poetry_pkgs(toml_section(*doc, sb("package"))),
{
    let mut packages: Vec<LockfilePackage> = Vec::new();
    match toml_field_array(doc, "package") {
        Some(ps) => {
            let mut i: usize = 0;
            while i < ps.len()
                invariant
                    i <= ps@.len(),
                    pkgs_view(packages@) == poetry_pkgs(ps@.take(i as int)),
                decreases ps@.len() - i,
            {
                proof {
                    assert(ps@.take(i + 1).drop_last() =~= ps@.take(i as int));
                    assert(ps@.take(i + 1).last() == ps@[i as int]);
                }
                match (toml_field_string(&ps[i], "name"), toml_field_string(&ps[i], "version")) {
                    (Some(n), Some(v)) => {
                        let pkg = LockfilePackage {
                            name: py_norm(n),
                            version: to_owned_string(v),
                            dependencies: poetry_dep_names(&ps[i]),
                            is_root: false,
                        };
                        let ghost pv = pkg@;
                        let ghost old_pk = packages@;
                        packages.push(pkg);
                        proof {
                            assert(pkgs_view(packages@) =~= pkgs_view(old_pk).push(pv));
                        }
                    },
                    _ => {},
                }
                i = i + 1;
            }
            proof {
                assert(ps@.take(i as int) =~= ps@);
            }
        },
        None => {
            proof {
                assert(pkgs_view(packages@) =~= Seq::<PkgModel>::empty());
            }
        },
    }
    LockfileGraph { packages }
}

/// Parse the text of a `poetry.lock`, read with `toml`, into a [`LockfileGraph`]
/// (see [`parse_poetry_lock_graph_doc`]).
pub fn parse_poetry_lock_graph(content: &str) -> (graph: LockfileGraph)
    ensures
        pkgs_view(graph.packages@) == poetry_pkgs(toml_section(toml_value_of(sb(content)), sb("package"))),
{
    let doc = toml_doc(content);
    parse_poetry_lock_graph_doc(&doc)
}

/// The normalised string entries of the `dependencies` array of a
/// `Pipfile.lock` entry, in order.
pub open spec fn pipfile_deps(ds: Seq<JsonValue>) -> Seq<Seq<u8>>
    decreases ds.len(),
{
    if ds.len() == 0 {
        Seq::empty()
    } else {
        let prev = pipfile_deps(ds.drop_last());
        match json_str(Some(ds.last())) {
            Some(s) => prev.push(py_norm_b(s)),
            None => prev,
        }
    }
}

/// The package a member of a `Pipfile.lock` section contributes to the graph.
pub open spec fn pipfile_pkg(e: JsonMember) -> Option<PkgModel> {
    match json_field_str(e.value, sb("version")) {
        Some(raw) => Some(
            PkgModel {
                name: py_norm_b(ob(&e.key)),
                version: strip_eq_all(raw),
                dependencies: pipfile_deps(json_section(e.value, sb("dependencies"))),
                is_root: false,
            },
        ),
        None => None,
    }
}

/// The graph packages of some members of a `Pipfile.lock` section, in order.
pub open spec fn pipfile_pkgs(es: Seq<JsonMember>) -> Seq<PkgModel>
    decreases es.len(),
{
    if es.len() == 0 {
        Seq::empty()
    } else {
        let prev = pipfile_pkgs(es.drop_last());
        match pipfile_pkg(es.last()) {
            Some(p) => prev.push(p),
            None => prev,
        }
    }
}

/// The graph packages of a `Pipfile.lock` document: `default`, then `develop`.
pub open spec fn pipfile_lock_pkgs(doc: JsonValue) -> Seq<PkgModel> {
    pipfile_pkgs(json_members(doc, sb("default"))) + pipfile_pkgs(json_members(doc, sb("develop")))
}

fn pipfile_dep_names(v: &JsonValue) -> (r: Vec<String>)
    ensures
        strings_view(r@) == pipfile_deps(json_section(*v, sb("dependencies"))),
{
    let mut out: Vec<String> = Vec::new();
    match json_field_array(v, "dependencies") {
        Some(ds) => {
            let mut j: usize = 0;
            while j < ds.len()
                invariant
                    j <= ds@.len(),
                    ds@ == json_section(*v, sb("dependencies")),
                    strings_view(out@) == pipfile_deps(ds@.take(j as int)),
                decreases ds@.len() - j,
            {
                proof {
                    assert(ds@.take(j + 1).drop_last() =~= ds@.take(j as int));
                    assert(ds@.take(j + 1).last() == ds@[j as int]);
                }
                match ds[j].as_str() {
                    Some(s) => {
                        let ghost o0 = out@;
                        out.push(py_norm(s));
                        proof {
                            assert(strings_view(out@) =~= strings_view(o0).push(py_norm_b(sb(s))));
                        }
                    },
                    None => {},
                }
                j = j + 1;
            }
            proof {
                assert(ds@.take(j as int) =~= ds@);
            }
        },
        None => {
            proof {
                assert(json_section(*v, sb("dependencies")) =~= Seq::<JsonValue>::empty());
            }
        },
    }
    out
}

fn pipfile_graph_section(packages: &mut Vec<LockfilePackage>, doc: &JsonValue, section: &str)
    ensures
        pkgs_view(final(packages)@) == pkgs_view(old(packages)@) + pipfile_pkgs(
            json_members(*doc, sb(section)),
        ),
{
    let ghost p0 = pkgs_view(packages@);
    match json_field_object(doc, section) {
        Some(es) => {
            let mut i: usize = 0;
            while i < es.len()
                invariant
                    i <= es@.len(),
                    es@ == json_members(*doc, sb(section)),
                    pkgs_view(packages@) == p0 + pipfile_pkgs(es@.take(i as int)),
                decreases es@.len() - i,
            {
                proof {
                    assert(es@.take(i + 1).drop_last() =~= es@.take(i as int));
                    assert(es@.take(i + 1).last() == es@[i as int]);
                }
                match json_field_string(&es[i].value, "version") {
                    Some(raw) => {
                        let pkg = LockfilePackage {
                            name: py_norm(es[i].key.as_str()),
                            version: to_owned_string(strip_eq_all_exec(raw)),
                            dependencies: pipfile_dep_names(&es[i].value),
                            is_root: false,
                        };
                        let ghost pv = pkg@;
                        let ghost old_pk = packages@;
                        packages.push(pkg);
                        proof {
                            assert(pkgs_view(packages@) =~= pkgs_view(old_pk).push(pv));
                        }
                    },
                    None => {},
                }
                i = i + 1;
            }
            proof {
                assert(es@.take(i as int) =~= es@);
            }
        },
        None => {
            proof {
                assert(json_members(*doc, sb(section)) =~= Seq::<JsonMember>::empty());
            }
        },
    }
}

/// Parse a `Pipfile.lock` document into a [`LockfileGraph`]: one package per
/// member of `default`, then of `develop`, with a string `version` (leading
/// `==` stripped), names PEP 503 normalised, the normalised strings of its
/// `dependencies` array (rarely present) as edges.
pub fn parse_pipfile_lock_graph_doc(doc: &JsonValue) -> (graph: LockfileGraph)
    ensures
        pkgs_view(graph.packages@) == pipfile_lock_pkgs(*doc),
{
    let mut packages: Vec<LockfilePackage> = Vec::new();
    proof {
        assert(pkgs_view(packages@) =~= Seq::<PkgModel>::empty());
    }
    pipfile_graph_section(&mut packages, doc, "default");
    pipfile_graph_section(&mut packages, doc, "develop");
    proof {
        assert(pkgs_view(packages@) =~= pipfile_lock_pkgs(*doc));
    }
    LockfileGraph { packages }
}

/// Parse the text of a `Pipfile.lock`, read with `serde_json`, into a [`LockfileGraph`]
/// (see [`parse_pipfile_lock_graph_doc`]).
pub fn parse_pipfile_lock_graph(content: &str) -> (graph: LockfileGraph)
    ensures
        pkgs_view(graph.packages@) == pipfile_lock_pkgs(json_value_of(sb(content))),
{
    let doc = json_doc(content);
    parse_pipfile_lock_graph_doc(&doc)
}

/// The normalised `name`s of the tables of the `dependencies` array of a
/// `uv.lock` package, in order.
pub open spec fn uv_deps(ds: Seq<TomlValue>) -> Seq<Seq<u8>>
    decreases ds.len(),
{
    if ds.len() == 0 {
        Seq::empty()
    } else {
        let prev = uv_deps(ds.drop_last());
        match toml_field_str(ds.last(), sb("name")) {
            Some(n) => prev.push(py_norm_b(n)),
            None => prev,
        }
    }
}

/// The package a `uv.lock` `[[package]]` table contributes to the graph.
pub open spec fn uv_pkg(p: TomlValue) -> Option<PkgModel> {
    match (toml_field_str(p, sb("name")), toml_field_str(p, sb("version"))) {
        (Some(n), Some(v)) => Some(
            PkgModel {
                name: py_norm_b(n),
                version: v,
                dependencies: uv_deps(toml_section(p, sb("dependencies"))),
                is_root: false,
            },
        ),
        _ => None,
    }
}

/// The graph packages of some `uv.lock` tables, in order.
pub open spec fn uv_pkgs(ps: Seq<TomlValue>) -> Seq<PkgModel>
    decreases ps.len(),
{
    if ps.len() == 0 {
        Seq::empty()
    } else {
        let prev = uv_pkgs(ps.drop_last());
        match uv_pkg(ps.last()) {
            Some(p) => prev.push(p),
            None => prev,
        }
    }
}

fn uv_dep_names(p: &TomlValue) -> (r: Vec<String>)
    ensures
        strings_view(r@) == uv_deps(toml_section(*p, sb("dependencies"))),
{
    let mut out: Vec<String> = Vec::new();
    match toml_field_array(p, "dependencies") {
        Some(ds) => {
            let mut j: usize = 0;
            while j < ds.len()
                invariant
                    j <= ds@.len(),
                    ds@ == toml_section(*p, sb("dependencies")),
                    strings_view(out@) == uv_deps(ds@.take(j as int)),
                decreases ds@.len() - j,
            {
                proof {
                    assert(ds@.take(j + 1).drop_last() =~= ds@.take(j as int));
                    assert(ds@.take(j + 1).last() == ds@[j as int]);
                }
                match toml_field_string(&ds[j], "name") {
                    Some(n) => {
                        let ghost o0 = out@;
                        out.push(py_norm(n));
                        proof {
                            assert(strings_view(out@) =~= strings_view(o0).push(py_norm_b(sb(n))));
                        }
                    },
                    None => {},
                }
                j = j + 1;
            }
            proof {
                assert(ds@.take(j as int) =~= ds@);
            }
        },
        None => {
            proof {
                assert(toml_section(*p, sb("dependencies")) =~= Seq::<TomlValue>::empty());
            }
        },
    }
    out
}

/// Parse a `uv.lock` document into a [`LockfileGraph`]: one package per
/// `[[package]]` with string `name` and `version`, in order, names PEP 503
/// normalised, the normalised `name` of each `{ name = ... }` table of its
/// `dependencies` array as edges.
pub fn parse_uv_lock_graph_doc(doc: &TomlValue) -> (graph: LockfileGraph)
    ensures
        pkgs_view(graph.packages@) == uv_pkgs(toml_section(*doc, sb("package"))),
{
    let mut packages: Vec<LockfilePackage> = Vec::new();
    match toml_field_array(doc, "package") {
        Some(ps) => {
            let mut i: usize = 0;
            while i < ps.len()
                invariant
                    i <= ps@.len(),
                    pkgs_view(packages@) == uv_pkgs(ps@.take(i as int)),
                decreases ps@.len() - i,
            {
                proof {
                    assert(ps@.take(i + 1).drop_last() =~= ps@.take(i as int));
                    assert(ps@.take(i + 1).last() == ps@[i as int]);
                }
                match (toml_field_string(&ps[i], "name"), toml_field_string(&ps[i], "version")) {
                    (Some(n), Some(v)) => {
                        let pkg = LockfilePackage {
                            name: py_norm(n),
                            version: to_owned_string(v),
                            dependencies: uv_dep_names(&ps[i]),
                            is_root: false,
                        };
                        let ghost pv = pkg@;
                        let ghost old_pk = packages@;
                        packages.push(pkg);
                        proof {
                            assert(pkgs_view(packages@) =~= pkgs_view(old_pk).push(pv));
                        }
                    },
                    _ => {},
                }
                i = i + 1;
            }
            proof {
                assert(ps@.take(i as int) =~= ps@);
            }
        },
        None => {
            proof {
                assert(pkgs_view(packages@) =~= Seq::<PkgModel>::empty());
            }
        },
    }
    LockfileGraph { packages }
}

/// Parse the text of a `uv.lock`, read with `toml`, into a [`LockfileGraph`]
/// (see [`parse_uv_lock_graph_doc`]).
pub fn parse_uv_lock_graph(content: &str) -> (graph: LockfileGraph)
    ensures
        pkgs_view(graph.packages@) == uv_pkgs(toml_section(toml_value_of(sb(content)), sb("package"))),
{
    let doc = toml_doc(content);
    parse_uv_lock_graph_doc(&doc)
}

/// Resolves versions from Python lockfiles (Poetry, uv, PDM, Pipenv); the
/// kind is fixed when the lockfile is found, and names are PEP 503
/// normalised on lookup.
pub struct PythonResolver {
    /// The lockfile found for the manifest.
    pub lock_path: std::path::PathBuf,
    /// Its kind.
    pub sub: PythonLockfileType,
}

impl PythonResolver {
    /// The dependency graph of the lockfile, by kind: from the TOML document
    /// for Poetry and uv, from the JSON document for Pipenv. PDM has no
    /// graph parser: its graph is flat, one package per locked name without
    /// edges, in the order the map hands them out, which is not fixed.
    pub fn parse_graph_documents(&self, toml_doc: &TomlValue, json_doc: &JsonValue) -> (graph: LockfileGraph)
        ensures
            match self.sub {
                PythonLockfileType::PoetryLock => pkgs_view(graph.packages@) == poetry_pkgs(
                    toml_section(*toml_doc, sb("package")),
                ),
                PythonLockfileType::UvLock => pkgs_view(graph.packages@) == uv_pkgs(
                    toml_section(*toml_doc, sb("package")),
                ),
                PythonLockfileType::PipfileLock => pkgs_view(graph.packages@) == pipfile_lock_pkgs(
                    *json_doc,
                ),
                PythonLockfileType::PdmLock => exists|e: Seq<(Seq<u8>, Seq<u8>)>|
                    lists_pairs(e, toml_package_array_map(*toml_doc)) && pkgs_view(graph.packages@)
                        == pair_pkgs(e),
            },
    {
        match self.sub {
            PythonLockfileType::PoetryLock => parse_poetry_lock_graph_doc(toml_doc),
            PythonLockfileType::UvLock => parse_uv_lock_graph_doc(toml_doc),
            PythonLockfileType::PipfileLock => parse_pipfile_lock_graph_doc(json_doc),
            PythonLockfileType::PdmLock => {
                let lock_versions = parse_toml_package_array_doc(toml_doc);
                let pairs = lock_versions.into_pairs();
                LockfileGraph { packages: flat_packages(pairs) }
            },
        }
    }

    /// The dependency graph of the text of the lockfile, by kind (see
    /// [`PythonResolver::parse_graph_documents`]): `Pipfile.lock` read with
    /// `serde_json`, the others with `toml`.
    pub fn parse_graph(&self, lock_content: &str) -> (graph: LockfileGraph)
        ensures
            match self.sub {
                PythonLockfileType::PoetryLock => pkgs_view(graph.packages@) == poetry_pkgs(
                    toml_section(toml_value_of(sb(lock_content)), sb("package")),
                ),
                PythonLockfileType::UvLock => pkgs_view(graph.packages@) == uv_pkgs(
                    toml_section(toml_value_of(sb(lock_content)), sb("package")),
                ),
                PythonLockfileType::PipfileLock => pkgs_view(graph.packages@) == pipfile_lock_pkgs(
                    json_value_of(sb(lock_content)),
                ),
                PythonLockfileType::PdmLock => exists|e: Seq<(Seq<u8>, Seq<u8>)>|
                    lists_pairs(e, toml_package_array_map(toml_value_of(sb(lock_content))))
                        && pkgs_view(graph.packages@) == pair_pkgs(e),
            },
    {
        match self.sub {
            PythonLockfileType::PoetryLock => parse_poetry_lock_graph(lock_content),
            PythonLockfileType::UvLock => parse_uv_lock_graph(lock_content),
            PythonLockfileType::PipfileLock => parse_pipfile_lock_graph(lock_content),
            PythonLockfileType::PdmLock => {
                let lock_versions = parse_toml_package_array(lock_content);
                let pairs = lock_versions.into_pairs();
                LockfileGraph { packages: flat_packages(pairs) }
            },
        }
    }

    /// The name under which a package is looked up in the lockfile.
    pub fn normalize_name(&self, name: &str) -> (r: String)
        ensures
            r@ == py_normalize(name@),
    {
        normalize_python_name(name)
    }
}

proof fn lemma_pipfile_pkgs_keep(es: Seq<JsonMember>, i: int)
    requires
        0 <= i < es.len(),
        pipfile_pkg(es[i]) is Some,
    ensures
        exists|k: int| 0 <= k < pipfile_pkgs(es).len() && pipfile_pkgs(es)[k] == pipfile_pkg(es[i])->0,
    decreases es.len(),
{
    let prev = pipfile_pkgs(es.drop_last());
    if i < es.len() - 1 {
        assert(es.drop_last()[i] == es[i]);
        lemma_pipfile_pkgs_keep(es.drop_last(), i);
        let k = choose|k: int| 0 <= k < prev.len() && prev[k] == pipfile_pkg(es[i])->0;
        assert(pipfile_pkgs(es)[k] == prev[k]);
    } else {
        assert(es.last() == es[i]);
        assert(pipfile_pkgs(es)[prev.len() as int] == pipfile_pkg(es[i])->0);
    }
}

/// Every member of the `default` object of a `Pipfile.lock` with a string
/// `version` is a package of its graph: the name PEP 503 normalised, the
/// version without its leading `==`, not a root.
pub proof fn law_pipfile_graph_reads_default(doc: JsonValue, i: int, raw: Seq<u8>)
    requires
        0 <= i < json_members(doc, sb("default")).len(),
        json_field_str(json_members(doc, sb("default"))[i].value, sb("version")) == Some(raw),
    ensures
        exists|k: int|
            0 <= k < pipfile_lock_pkgs(doc).len() && (#[trigger] pipfile_lock_pkgs(doc)[k]).name == py_norm_b(
                ob(&json_members(doc, sb("default"))[i].key),
            ) && pipfile_lock_pkgs(doc)[k].version == strip_eq_all(raw) && !pipfile_lock_pkgs(doc)[k].is_root,
{
    let da = json_members(doc, sb("default"));
    let de = json_members(doc, sb("develop"));
    let all = pipfile_lock_pkgs(doc);
    assert(all == pipfile_pkgs(da) + pipfile_pkgs(de));
    lemma_pipfile_pkgs_keep(da, i);
    let k = choose|k: int| 0 <= k < pipfile_pkgs(da).len() && pipfile_pkgs(da)[k] == pipfile_pkg(da[i])->0;
    assert(all[k] == pipfile_pkgs(da)[k]);
    assert(all[k].name == py_norm_b(ob(&da[i].key)));
}

/// Every member of the `develop` object of a `Pipfile.lock` with a string
/// `version` is a package of its graph too (the name PEP 503 normalised, the
/// version without its leading `==`, not a root), and it comes after every
/// such member of `default`.
pub proof fn law_pipfile_graph_reads_develop(doc: JsonValue, i: int, raw: Seq<u8>)
    requires
        0 <= i < json_members(doc, sb("develop")).len(),
        json_field_str(json_members(doc, sb("develop"))[i].value, sb("version")) == Some(raw),
    ensures
        exists|k: int|
            0 <= k < pipfile_lock_pkgs(doc).len() && (#[trigger] pipfile_lock_pkgs(doc)[k]).name == py_norm_b(
                ob(&json_members(doc, sb("develop"))[i].key),
            ) && pipfile_lock_pkgs(doc)[k].version == strip_eq_all(raw) && !pipfile_lock_pkgs(doc)[k].is_root
                && forall|q: int|
                0 <= q < json_members(doc, sb("default")).len() && json_field_str(
                    (#[trigger] json_members(doc, sb("default"))[q]).value,
                    sb("version"),
                ) is Some ==> exists|k2: int|
                    0 <= k2 < k && (#[trigger] pipfile_lock_pkgs(doc)[k2]).name == py_norm_b(
                        ob(&json_members(doc, sb("default"))[q].key),
                    ) && pipfile_lock_pkgs(doc)[k2].version == strip_eq_all(
                        json_field_str(json_members(doc, sb("default"))[q].value, sb("version"))->0,
                    ),
{
    let da = json_members(doc, sb("default"));
    let de = json_members(doc, sb("develop"));
    let all = pipfile_lock_pkgs(doc);
    assert(all == pipfile_pkgs(da) + pipfile_pkgs(de));
    lemma_pipfile_pkgs_keep(de, i);
    let kd = choose|kd: int| 0 <= kd < pipfile_pkgs(de).len() && pipfile_pkgs(de)[kd] == pipfile_pkg(de[i])->0;
    let k = pipfile_pkgs(da).len() + kd;
    assert(all[k] == pipfile_pkgs(de)[kd]);
    assert(all[k].name == py_norm_b(ob(&de[i].key)));
    assert forall|q: int|
        0 <= q < da.len() && json_field_str((#[trigger] da[q]).value, sb("version")) is Some implies exists|k2: int|
        0 <= k2 < k && (#[trigger] all[k2]).name == py_norm_b(ob(&da[q].key)) && all[k2].version
            == strip_eq_all(json_field_str(da[q].value, sb("version"))->0) by {
        lemma_pipfile_pkgs_keep(da, q);
        let k2 = choose|k2: int| 0 <= k2 < pipfile_pkgs(da).len() && pipfile_pkgs(da)[k2] == pipfile_pkg(da[q])->0;
        assert(all[k2] == pipfile_pkgs(da)[k2]);
    }
}

proof fn lemma_pipfile_fold_concat(m: Map<Seq<u8>, Seq<u8>>, a: Seq<JsonMember>, b: Seq<JsonMember>)
    ensures
        pipfile_fold(pipfile_fold(m, a), b) == pipfile_fold(m, a + b),
    decreases b.len(),
{
    if b.len() > 0 {
        lemma_pipfile_fold_concat(m, a, b.drop_last());
        assert((a + b).drop_last() =~= a + b.drop_last());
        assert((a + b).last() == b.last());
    } else {
        assert(a + b =~= a);
    }
}

/// The map key and value a `Pipfile.lock` member gives, when its `version`
/// is a string.
spec fn pipfile_member_entry(e: JsonMember) -> Option<(Seq<u8>, Seq<u8>)> {
    match json_field_str(e.value, sb("version")) {
        Some(v) => Some((py_norm_b(ob(&e.key)), strip_eq_once(v))),
        None => None,
    }
}

proof fn lemma_pipfile_fold_absent(m: Map<Seq<u8>, Seq<u8>>, es: Seq<JsonMember>, key: Seq<u8>)
    requires
        !m.dom().contains(key),
        forall|j: int| 0 <= j < es.len() ==> !(#[trigger] pipfile_member_entry(es[j]) matches Some(f) && f.0 == key),
    ensures
        !pipfile_fold(m, es).dom().contains(key),
    decreases es.len(),
{
    if es.len() > 0 {
        let p = es.drop_last();
        assert forall|j: int| 0 <= j < p.len() implies !(#[trigger] pipfile_member_entry(p[j]) matches Some(f) && f.0 == key) by {
            assert(p[j] == es[j]);
        }
        lemma_pipfile_fold_absent(m, p, key);
        assert(pipfile_member_entry(es[es.len() - 1]) == pipfile_member_entry(es.last()));
    }
}

proof fn lemma_pipfile_fold_entry(m: Map<Seq<u8>, Seq<u8>>, es: Seq<JsonMember>, i: int)
    requires
        0 <= i < es.len(),
        pipfile_member_entry(es[i]) is Some,
    ensures
        pipfile_fold(m, es).dom().contains((pipfile_member_entry(es[i])->0).0),
        (!m.dom().contains((pipfile_member_entry(es[i])->0).0) && forall|j: int|
            0 <= j < i ==> !(#[trigger] pipfile_member_entry(es[j]) matches Some(f) && f.0 == (pipfile_member_entry(
                es[i],
            )->0).0)) ==> pipfile_fold(m, es)[(pipfile_member_entry(es[i])->0).0] == (pipfile_member_entry(es[i])->0).1,
    decreases es.len(),
{
    let e = pipfile_member_entry(es[i])->0;
    let p = es.drop_last();
    if i < es.len() - 1 {
        assert(p[i] == es[i]);
        lemma_pipfile_fold_entry(m, p, i);
        if !m.dom().contains(e.0) && forall|j: int|
            0 <= j < i ==> !(#[trigger] pipfile_member_entry(es[j]) matches Some(f) && f.0 == e.0) {
            assert forall|j: int| 0 <= j < i implies !(#[trigger] pipfile_member_entry(p[j]) matches Some(f) && f.0 == e.0) by {
                assert(p[j] == es[j]);
            }
        }
    } else {
        assert(es.last() == es[i]);
        if !m.dom().contains(e.0) && forall|j: int|
            0 <= j < i ==> !(#[trigger] pipfile_member_entry(es[j]) matches Some(f) && f.0 == e.0) {
            lemma_pipfile_fold_absent(m, p, e.0);
        }
    }
}

/// Every member of `default` or `develop` (taken in that order) with a
/// string `version` has its PEP 503 normalised name in the version map, and
/// the first such member of a name gives its version (one leading `==`
/// stripped), so `default` wins over `develop`.
pub proof fn law_pipfile_map_first_entry(doc: JsonValue, i: int, raw: Seq<u8>)
    requires
        0 <= i < (json_members(doc, sb("default")) + json_members(doc, sb("develop"))).len(),
        json_field_str((json_members(doc, sb("default")) + json_members(doc, sb("develop")))[i].value, sb("version"))
            == Some(raw),
    ensures
        pipfile_lock_map(doc).dom().contains(
            py_norm_b(ob(&(json_members(doc, sb("default")) + json_members(doc, sb("develop")))[i].key)),
        ),
        (forall|j: int|
            0 <= j < i && json_field_str(
                (#[trigger] (json_members(doc, sb("default")) + json_members(doc, sb("develop")))[j]).value,
                sb("version"),
            ) is Some ==> py_norm_b(ob(&(json_members(doc, sb("default")) + json_members(doc, sb("develop")))[j].key))
                != py_norm_b(ob(&(json_members(doc, sb("default")) + json_members(doc, sb("develop")))[i].key)))
            ==> pipfile_lock_map(doc)[py_norm_b(
            ob(&(json_members(doc, sb("default")) + json_members(doc, sb("develop")))[i].key),
        )] == strip_eq_once(raw),
{
    let all = json_members(doc, sb("default")) + json_members(doc, sb("develop"));
    lemma_pipfile_fold_concat(Map::empty(), json_members(doc, sb("default")), json_members(doc, sb("develop")));
    lemma_pipfile_fold_entry(Map::empty(), all, i);
    let key = py_norm_b(ob(&all[i].key));
    if forall|j: int|
        0 <= j < i && json_field_str((#[trigger] all[j]).value, sb("version")) is Some ==> py_norm_b(ob(&all[j].key))
            != key {
        assert forall|j: int| 0 <= j < i implies !(#[trigger] pipfile_member_entry(all[j]) matches Some(f) && f.0
            == key) by {
            if json_field_str(all[j].value, sb("version")) is Some {
                assert(py_norm_b(ob(&all[j].key)) != key);
            }
        }
    }
}

proof fn lemma_poetry_keep(ps: Seq<TomlValue>, i: int)
    requires
        0 <= i < ps.len(),
        poetry_pkg(ps[i]) is Some,
    ensures
        exists|k: int| 0 <= k < poetry_pkgs(ps).len() && poetry_pkgs(ps)[k] == poetry_pkg(ps[i])->0,
    decreases ps.len(),
{
    let prev = poetry_pkgs(ps.drop_last());
    if i < ps.len() - 1 {
        assert(ps.drop_last()[i] == ps[i]);
        lemma_poetry_keep(ps.drop_last(), i);
        let k = choose|k: int| 0 <= k < prev.len() && prev[k] == poetry_pkg(ps[i])->0;
        assert(poetry_pkgs(ps)[k] == prev[k]);
    } else {
        assert(ps.last() == ps[i]);
        assert(poetry_pkgs(ps)[prev.len() as int] == poetry_pkg(ps[i])->0);
    }
}

/// Every `[[package]]` table of a `poetry.lock` with a string `name` and
/// `version` is a package of its graph: the name PEP 503 normalised, the version as
/// written, not a root.
pub proof fn law_poetry_graph_reads_packages(doc: TomlValue, i: int, n: Seq<u8>, v: Seq<u8>)
    requires
        0 <= i < toml_section(doc, sb("package")).len(),
        toml_field_str(toml_section(doc, sb("package"))[i], sb("name")) == Some(n),
        toml_field_str(toml_section(doc, sb("package"))[i], sb("version")) == Some(v),
    ensures
        exists|k: int|
            0 <= k < poetry_pkgs(toml_section(doc, sb("package"))).len() && (#[trigger] poetry_pkgs(
                toml_section(doc, sb("package")),
            )[k]).name == py_norm_b(n) && poetry_pkgs(toml_section(doc, sb("package")))[k].version == v
                && !poetry_pkgs(toml_section(doc, sb("package")))[k].is_root,
{
    let ps = toml_section(doc, sb("package"));
    lemma_poetry_keep(ps, i);
    let k = choose|k: int| 0 <= k < poetry_pkgs(ps).len() && poetry_pkgs(ps)[k] == poetry_pkg(ps[i])->0;
    assert(poetry_pkgs(ps)[k].name == py_norm_b(n));
}

proof fn lemma_uv_keep(ps: Seq<TomlValue>, i: int)
    requires
        0 <= i < ps.len(),
        uv_pkg(ps[i]) is Some,
    ensures
        exists|k: int| 0 <= k < uv_pkgs(ps).len() && uv_pkgs(ps)[k] == uv_pkg(ps[i])->0,
    decreases ps.len(),
{
    let prev = uv_pkgs(ps.drop_last());
    if i < ps.len() - 1 {
        assert(ps.drop_last()[i] == ps[i]);
        lemma_uv_keep(ps.drop_last(), i);
        let k = choose|k: int| 0 <= k < prev.len() && prev[k] == uv_pkg(ps[i])->0;
        assert(uv_pkgs(ps)[k] == prev[k]);
    } else {
        assert(ps.last() == ps[i]);
        assert(uv_pkgs(ps)[prev.len() as int] == uv_pkg(ps[i])->0);
    }
}

/// Every `[[package]]` table of a `uv.lock` with a string `name` and
/// `version` is a package of its graph: the name PEP 503 normalised, the version as
/// written, not a root.
pub proof fn law_uv_graph_reads_packages(doc: TomlValue, i: int, n: Seq<u8>, v: Seq<u8>)
    requires
        0 <= i < toml_section(doc, sb("package")).len(),
        toml_field_str(toml_section(doc, sb("package"))[i], sb("name")) == Some(n),
        toml_field_str(toml_section(doc, sb("package"))[i], sb("version")) == Some(v),
    ensures
        exists|k: int|
            0 <= k < uv_pkgs(toml_section(doc, sb("package"))).len() && (#[trigger] uv_pkgs(
                toml_section(doc, sb("package")),
            )[k]).name == py_norm_b(n) && uv_pkgs(toml_section(doc, sb("package")))[k].version == v
                && !uv_pkgs(toml_section(doc, sb("package")))[k].is_root,
{
    let ps = toml_section(doc, sb("package"));
    lemma_uv_keep(ps, i);
    let k = choose|k: int| 0 <= k < uv_pkgs(ps).len() && uv_pkgs(ps)[k] == uv_pkg(ps[i])->0;
    assert(uv_pkgs(ps)[k].name == py_norm_b(n));
}

proof fn lemma_toml_pkg_fold_absent(m: Map<Seq<u8>, Seq<u8>>, ps: Seq<TomlValue>, key: Seq<u8>)
    requires
        !m.dom().contains(key),
        forall|j: int| 0 <= j < ps.len() ==> !(#[trigger] toml_pkg_entry(ps[j]) matches Some(f) && f.0 == key),
    ensures
        !toml_pkg_fold(m, ps).dom().contains(key),
    decreases ps.len(),
{
    if ps.len() > 0 {
        let p = ps.drop_last();
        assert forall|j: int| 0 <= j < p.len() implies !(#[trigger] toml_pkg_entry(p[j]) matches Some(f) && f.0 == key) by {
            assert(p[j] == ps[j]);
        }
        lemma_toml_pkg_fold_absent(m, p, key);
        assert(toml_pkg_entry(ps[ps.len() - 1]) == toml_pkg_entry(ps.last()));
    }
}

proof fn lemma_toml_pkg_fold_entry(m: Map<Seq<u8>, Seq<u8>>, ps: Seq<TomlValue>, i: int)
    requires
        0 <= i < ps.len(),
        toml_pkg_entry(ps[i]) is Some,
    ensures
        toml_pkg_fold(m, ps).dom().contains((toml_pkg_entry(ps[i])->0).0),
        (!m.dom().contains((toml_pkg_entry(ps[i])->0).0) && forall|j: int|
            0 <= j < i ==> !(#[trigger] toml_pkg_entry(ps[j]) matches Some(f) && f.0 == (toml_pkg_entry(ps[i])->0).0))
            ==> toml_pkg_fold(m, ps)[(toml_pkg_entry(ps[i])->0).0] == (toml_pkg_entry(ps[i])->0).1,
    decreases ps.len(),
{
    let e = toml_pkg_entry(ps[i])->0;
    let p = ps.drop_last();
    if i < ps.len() - 1 {
        assert(p[i] == ps[i]);
        lemma_toml_pkg_fold_entry(m, p, i);
        if !m.dom().contains(e.0) && forall|j: int|
            0 <= j < i ==> !(#[trigger] toml_pkg_entry(ps[j]) matches Some(f) && f.0 == e.0) {
            assert forall|j: int| 0 <= j < i implies !(#[trigger] toml_pkg_entry(p[j]) matches Some(f) && f.0 == e.0) by {
                assert(p[j] == ps[j]);
            }
        }
    } else {
        assert(ps.last() == ps[i]);
        if !m.dom().contains(e.0) && forall|j: int|
            0 <= j < i ==> !(#[trigger] toml_pkg_entry(ps[j]) matches Some(f) && f.0 == e.0) {
            lemma_toml_pkg_fold_absent(m, p, e.0);
        }
    }
}

/// Every `[[package]]` table of a `poetry.lock`, `uv.lock` or `pdm.lock`
/// with a string `name` and `version` has its PEP 503 normalised name in the
/// version map, and the first such table of a name gives its version.
pub proof fn law_toml_package_map_first_entry(doc: TomlValue, i: int, n: Seq<u8>, v: Seq<u8>)
    requires
        0 <= i < toml_section(doc, sb("package")).len(),
        toml_field_str(toml_section(doc, sb("package"))[i], sb("name")) == Some(n),
        toml_field_str(toml_section(doc, sb("package"))[i], sb("version")) == Some(v),
    ensures
        toml_package_array_map(doc).dom().contains(py_norm_b(n)),
        (forall|j: int|
            0 <= j < i && toml_field_str(#[trigger] toml_section(doc, sb("package"))[j], sb("name")) is Some
                && toml_field_str(toml_section(doc, sb("package"))[j], sb("version")) is Some ==> py_norm_b(
                toml_field_str(toml_section(doc, sb("package"))[j], sb("name"))->0,
            ) != py_norm_b(n)) ==> toml_package_array_map(doc)[py_norm_b(n)] == v,
{
    let ps = toml_section(doc, sb("package"));
    lemma_toml_pkg_fold_entry(Map::empty(), ps, i);
    if forall|j: int|
        0 <= j < i && toml_field_str(#[trigger] ps[j], sb("name")) is Some && toml_field_str(ps[j], sb("version"))
            is Some ==> py_norm_b(toml_field_str(ps[j], sb("name"))->0) != py_norm_b(n) {
        assert forall|j: int| 0 <= j < i implies !(#[trigger] toml_pkg_entry(ps[j]) matches Some(f) && f.0 == py_norm_b(n)) by {
            if toml_field_str(ps[j], sb("name")) is Some && toml_field_str(ps[j], sb("version")) is Some {
                assert(py_norm_b(toml_field_str(ps[j], sb("name"))->0) != py_norm_b(n));
            }
        }
    }
}

} // verus!
