//! Python manifests: `requirements.txt` lines, PEP 508 requirement strings,
//! detection of `pyproject.toml` and `hatch.toml` content, and the
//! dependency sections of their TOML documents.

use vstd::prelude::*;
use vstd::utf8::valid_utf8;
use crate::text::{append_str, at_boundary, before_byte, bytes, contains, contains_b, find_b,
    find_byte, find_s, find_seq, lemma_after_ascii, lemma_ascii_prefix_boundary, lemma_find_b,
    lemma_find_s, lemma_skip_ws_back_bounds, lemma_skip_ws_bounds, lines, lines_from, matches_at,
    next_line, ob, sb, skip_ws, skip_ws_back, slice, starts_with, starts_with_b, to_owned_string,
    trim, trim_b, trim_end, trim_end_b, trim_start, trim_start_b, until_byte};
use crate::parsers::{Dependency, DepModel, Parser, Span, deps_view};
use crate::parsers::toml_tree::{
    array_items, get_opt, incl_line_ranges, incl_ranges_from, node_array, node_get, node_table,
    opt_get, range_span, range_to_span, table_entries, taplo_tree_of, to_ranges, toml_tree, TextRange, TomlDocument,
    TomlNode, TomlNodeEntry,
};
use crate::text::str_eq;

verus! {

broadcast use vstd::utf8::encode_utf8_valid_utf8;

/// Parser for Python dependency files (`requirements.txt`, `pyproject.toml`, `hatch.toml`).
#[derive(Debug, Default)]
pub struct PythonParser;

impl PythonParser {
    /// Creates a new [`PythonParser`] instance.
    pub fn new() -> Self {
        Self
    }
}

// ---------------------------------------------------------------------------
// File-type detection
// ---------------------------------------------------------------------------

/// `line[prefix_len..]` has the shape `]` or `.name]`, then nothing but
/// whitespace or a comment.
pub open spec fn valid_header_b(line: Seq<u8>, prefix_len: int) -> bool {
    let a = line.subrange(prefix_len, line.len() as int);
    match find_b(a, 0, 0x5D) {
        None => false,
        Some(bp) => {
            let inner = a.subrange(0, bp);
            let after = trim_start_b(a.subrange(bp + 1, a.len() as int));
            (inner.len() == 0 || inner[0] == 0x2E) && (after.len() == 0 || after[0] == 0x23)
        },
    }
}

/// Check if a line is a valid TOML section header starting with the given prefix.
///
/// Requires: starts with prefix, followed by either `]` or `.` then more chars
/// ending with `]`; allows whitespace and a comment after the closing `]`.
pub fn is_valid_section_header(line: &str, prefix: &str) -> (r: bool)
    requires
        sb(prefix).len() <= sb(line).len(),
        at_boundary(sb(line), sb(prefix).len() as int),
    ensures
        r == valid_header_b(sb(line), sb(prefix).len() as int),
{
    let lb = bytes(line);
    let plen = bytes(prefix).len();
    let after_prefix = slice(line, plen, lb.len());
    let ab = bytes(after_prefix);
    let alen = ab.len();
    let bracket_pos = match find_byte(ab, 0, 0x5D) {
        Some(p) => p,
        None => {
            return false;
        },
    };
    proof {
        lemma_find_b(ab@, 0, 0x5D);
        lemma_after_ascii(ab@, bracket_pos as int);
    }
    if bracket_pos > 0 && ab[0] != 0x2E {
        return false;
    }
    let after = bytes(trim_start(slice(after_prefix, bracket_pos + 1, alen)));
    after.len() == 0 || after[0] == 0x23
}

/// A trimmed line that opens a `pyproject.toml` section this parser reads.
pub open spec fn pyproject_header(t: Seq<u8>) -> bool {
    ||| (starts_with_b(t, sb("[project")) && valid_header_b(t, sb("[project").len() as int))
    ||| (starts_with_b(t, sb("[tool.poetry")) && valid_header_b(t, sb("[tool.poetry").len() as int))
    ||| (starts_with_b(t, sb("[dependency-groups")) && valid_header_b(
        t,
        sb("[dependency-groups").len() as int,
    ))
    ||| (starts_with_b(t, sb("[tool.hatch")) && valid_header_b(t, sb("[tool.hatch").len() as int))
}

/// A trimmed line that opens an `[envs.<name>]` section of `hatch.toml`.
pub open spec fn hatch_header(t: Seq<u8>) -> bool {
    &&& starts_with_b(t, sb("[envs."))
    &&& match find_b(t, 0, 0x5D) {
        Some(close) => {
            let after = trim_start_b(t.subrange(close + 1, t.len() as int));
            after.len() == 0 || after[0] == 0x23
        },
        None => false,
    }
}

/// Some line of `b`, trimmed, satisfies `f`.
pub open spec fn some_line(b: Seq<u8>, f: spec_fn(Seq<u8>) -> bool) -> bool {
    exists|k: int| 0 <= k < lines(b).len() && #[trigger] f(trim_b(lines(b)[k]))
}

fn prefixed_header(t: &str, prefix: &str) -> (r: bool)
    requires
        sb(prefix).len() > 0,
        sb(prefix)[sb(prefix).len() - 1] < 0x80,
    ensures
        r == (starts_with_b(sb(t), sb(prefix)) && valid_header_b(sb(t), sb(prefix).len() as int)),
{
    let tb = bytes(t);
    if !starts_with(tb, bytes(prefix)) {
        return false;
    }
    proof {
        lemma_ascii_prefix_boundary(tb@, sb(prefix));
    }
    is_valid_section_header(t, prefix)
}

proof fn lit_headers()
    ensures
        sb("[project").len() == 8 && sb("[project")[7] == 0x74,
        sb("[tool.poetry").len() == 12 && sb("[tool.poetry")[11] == 0x79,
        sb("[dependency-groups").len() == 18 && sb("[dependency-groups")[17] == 0x73,
        sb("[tool.hatch").len() == 11 && sb("[tool.hatch")[10] == 0x68,
        sb("[envs.").len() == 6 && sb("[envs.")[5] == 0x2E,
{
    reveal_strlit("[project");
    reveal_strlit("[tool.poetry");
    reveal_strlit("[dependency-groups");
    reveal_strlit("[tool.hatch");
    reveal_strlit("[envs.");
    assert(vstd::string::is_ascii("[project"));
    assert(vstd::string::is_ascii("[tool.poetry"));
    assert(vstd::string::is_ascii("[dependency-groups"));
    assert(vstd::string::is_ascii("[tool.hatch"));
    assert(vstd::string::is_ascii("[envs."));
    assert(sb("[project") =~= seq![91u8, 112, 114, 111, 106, 101, 99, 116]);
    assert(sb("[tool.poetry") =~= seq![91u8, 116, 111, 111, 108, 46, 112, 111, 101, 116, 114, 121]);
    assert(sb("[dependency-groups") =~= seq![91u8, 100, 101, 112, 101, 110, 100, 101, 110, 99, 121, 45, 103, 114, 111, 117, 112, 115]);
    assert(sb("[tool.hatch") =~= seq![91u8, 116, 111, 111, 108, 46, 104, 97, 116, 99, 104]);
    assert(sb("[envs.") =~= seq![91u8, 101, 110, 118, 115, 46]);
}

fn is_pyproject_header(t: &str) -> (r: bool)
    ensures
        r == pyproject_header(sb(t)),
{
    proof {
        lit_headers();
    }
    prefixed_header(t, "[project") || prefixed_header(t, "[tool.poetry") || prefixed_header(
        t,
        "[dependency-groups",
    ) || prefixed_header(t, "[tool.hatch")
}

fn is_hatch_header(t: &str) -> (r: bool)
    ensures
        r == hatch_header(sb(t)),
{
    let tb = bytes(t);
    let tlen = tb.len();
    if !starts_with(tb, "[envs.".as_bytes()) {
        return false;
    }
    match find_byte(tb, 0, 0x5D) {
        Some(close) => {
            proof {
                lemma_find_b(tb@, 0, 0x5D);
                lemma_after_ascii(tb@, close as int);
            }
            let after = bytes(trim_start(slice(t, close + 1, tlen)));
            after.len() == 0 || after[0] == 0x23
        },
        None => false,
    }
}

/// Check if content is a pyproject.toml file by looking for line-anchored section headers.
///
/// `[project…]`, `[tool.poetry…]`, `[dependency-groups…]` and `[tool.hatch…]`
/// headers count, also with a comment after them.
pub fn is_pyproject_toml(content: &str) -> (r: bool)
    ensures
        r == some_line(sb(content), |t: Seq<u8>| pyproject_header(t)),
{
    let b = bytes(content);
    let n = b.len();
    let ghost ls = lines(b@);
    let ghost f = |t: Seq<u8>| pyproject_header(t);
    let mut p: usize = 0;
    let mut i: usize = 0;
    while p < n
        invariant
            n == b@.len(),
            b@ == sb(content),
            valid_utf8(b@),
            ls == lines(b@),
            f == (|t: Seq<u8>| pyproject_header(t)),
            p <= n,
            at_boundary(b@, p as int),
            i <= ls.len(),
            i <= p,
            lines_from(b@, p as int) == ls.skip(i as int),
            forall|k: int| 0 <= k < i ==> !#[trigger] f(trim_b(ls[k])),
        decreases n - p,
    {
        let (ce, next) = next_line(b, p);
        let line = slice(content, p, ce);
        proof {
            assert(ls.skip(i as int).len() >= 1);
            assert(ls.skip(i as int)[0] == sb(line));
            assert(ls[i as int] == sb(line));
            assert(ls.skip(i + 1) =~= ls.skip(i as int).skip(1));
            assert(lines_from(b@, next as int) =~= ls.skip(i as int).skip(1));
        }
        if is_pyproject_header(trim(line)) {
            proof {
                assert(f(trim_b(ls[i as int])));
            }
            return true;
        }
        p = next;
        i = i + 1;
    }
    proof {
        assert(ls.skip(i as int).len() == 0);
    }
    false
}

/// Detect a standalone `hatch.toml` file: a top-level `[envs.<NAME>]` section
/// header, with a mandatory dot-separated env name.
pub fn is_hatch_toml(content: &str) -> (r: bool)
    ensures
        r == some_line(sb(content), |t: Seq<u8>| hatch_header(t)),
{
    let b = bytes(content);
    let n = b.len();
    let ghost ls = lines(b@);
    let ghost f = |t: Seq<u8>| hatch_header(t);
    let mut p: usize = 0;
    let mut i: usize = 0;
    while p < n
        invariant
            n == b@.len(),
            b@ == sb(content),
            valid_utf8(b@),
            ls == lines(b@),
            f == (|t: Seq<u8>| hatch_header(t)),
            p <= n,
            at_boundary(b@, p as int),
            i <= ls.len(),
            i <= p,
            lines_from(b@, p as int) == ls.skip(i as int),
            forall|k: int| 0 <= k < i ==> !#[trigger] f(trim_b(ls[k])),
        decreases n - p,
    {
        let (ce, next) = next_line(b, p);
        let line = slice(content, p, ce);
        proof {
            assert(ls.skip(i as int).len() >= 1);
            assert(ls.skip(i as int)[0] == sb(line));
            assert(ls[i as int] == sb(line));
            assert(ls.skip(i + 1) =~= ls.skip(i as int).skip(1));
            assert(lines_from(b@, next as int) =~= ls.skip(i as int).skip(1));
        }
        if is_hatch_header(trim(line)) {
            proof {
                assert(f(trim_b(ls[i as int])));
            }
            return true;
        }
        p = next;
        i = i + 1;
    }
    proof {
        assert(ls.skip(i as int).len() == 0);
    }
    false
}

proof fn lit_op3eq()
    ensures
        sb("===") == seq![61u8, 61, 61],
{
    reveal_strlit("===");
    assert(vstd::string::is_ascii("==="));
    assert(sb("===") =~= seq![61u8, 61, 61]);
}

proof fn lit_op2eq()
    ensures
        sb("==") == seq![61u8, 61],
{
    reveal_strlit("==");
    assert(vstd::string::is_ascii("=="));
    assert(sb("==") =~= seq![61u8, 61]);
}

proof fn lit_opge()
    ensures
        sb(">=") == seq![62u8, 61],
{
    reveal_strlit(">=");
    assert(vstd::string::is_ascii(">="));
    assert(sb(">=") =~= seq![62u8, 61]);
}

proof fn lit_ople()
    ensures
        sb("<=") == seq![60u8, 61],
{
    reveal_strlit("<=");
    assert(vstd::string::is_ascii("<="));
    assert(sb("<=") =~= seq![60u8, 61]);
}

proof fn lit_opne()
    ensures
        sb("!=") == seq![33u8, 61],
{
    reveal_strlit("!=");
    assert(vstd::string::is_ascii("!="));
    assert(sb("!=") =~= seq![33u8, 61]);
}

proof fn lit_opte()
    ensures
        sb("~=") == seq![126u8, 61],
{
    reveal_strlit("~=");
    assert(vstd::string::is_ascii("~="));
    assert(sb("~=") =~= seq![126u8, 61]);
}

proof fn lit_opgt()
    ensures
        sb(">") == seq![62u8],
{
    reveal_strlit(">");
    assert(vstd::string::is_ascii(">"));
    assert(sb(">") =~= seq![62u8]);
}

proof fn lit_oplt()
    ensures
        sb("<") == seq![60u8],
{
    reveal_strlit("<");
    assert(vstd::string::is_ascii("<"));
    assert(sb("<") =~= seq![60u8]);
}

// ---------------------------------------------------------------------------
// PEP 508 requirement strings
// ---------------------------------------------------------------------------

/// What a PEP 508 requirement string declares, with byte ranges in the string.
pub ghost struct Pep508Model {
    pub name: Seq<u8>,
    pub version: Seq<u8>,
    pub name_start: int,
    pub name_end: int,
    pub v_start: int,
    pub v_end: int,
    pub additional: bool,
}

/// The earliest occurrence so far of a version operator, given the next
/// operator `op` to look for (on equal positions the earlier operator stays).
pub open spec fn op_at(wm: Seq<u8>, op: Seq<u8>, acc: Option<(int, int)>) -> Option<(int, int)> {
    match find_s(wm, 0, op) {
        Some(pos) => match acc {
            None => Some((pos, op.len() as int)),
            Some(a) => if pos < a.0 {
                Some((pos, op.len() as int))
            } else {
                acc
            },
        },
        None => acc,
    }
}

/// Position and length of the first version operator; longer operators are
/// tried first, so `===` wins over `==`.
pub open spec fn first_op(wm: Seq<u8>) -> Option<(int, int)> {
    op_at(wm, sb("<"), op_at(wm, sb(">"), op_at(wm, sb("~="), op_at(wm, sb("!="), op_at(
        wm,
        sb("<="),
        op_at(wm, sb(">="), op_at(wm, sb("=="), op_at(wm, sb("==="), None))),
    )))))
}

/// A PEP 508 requirement: name (without extras and markers), and operator plus
/// first version constraint exactly as written (inner whitespace kept).
/// The part of a requirement string before any `;` marker, trimmed.
pub open spec fn pep_wm(d: Seq<u8>) -> Seq<u8> {
    let ts = skip_ws(d, 0);
    let trimmed = trim_end_b(d.subrange(ts, d.len() as int));
    let pre = match find_b(trimmed, 0, 0x3B) {
        Some(sc) => trimmed.subrange(0, sc),
        None => trimmed,
    };
    trim_end_b(pre.subrange(skip_ws(pre, 0), pre.len() as int))
}

/// Where [`pep_wm`] starts within the requirement string.
pub open spec fn pep_off(d: Seq<u8>) -> int {
    let ts = skip_ws(d, 0);
    let trimmed = trim_end_b(d.subrange(ts, d.len() as int));
    let pre = match find_b(trimmed, 0, 0x3B) {
        Some(sc) => trimmed.subrange(0, sc),
        None => trimmed,
    };
    ts + skip_ws(pre, 0)
}

/// A PEP 508 requirement: name (without extras and markers), and operator plus
/// first version constraint exactly as written (inner whitespace kept).
pub open spec fn pep508(d: Seq<u8>) -> Option<Pep508Model> {
    let wm = pep_wm(d);
    let off = pep_off(d);
    match first_op(wm) {
        None => None,
        Some(o) => {
            let op_pos = o.0;
            let op_len = o.1;
            let name_substr = before_byte(wm.subrange(0, op_pos), 0x5B);
            let name = trim_b(name_substr);
            let vpart = wm.subrange(op_pos + op_len, wm.len() as int);
            let vns = before_byte(vpart, 0x2C);
            if name.len() == 0 || trim_b(vns).len() == 0 {
                None
            } else {
                let name_start = off + skip_ws(name_substr, 0);
                let v_start = off + op_pos;
                let v_end = v_start + op_len + trim_end_b(vns).len();
                Some(
                    Pep508Model {
                        name,
                        version: d.subrange(v_start, v_end),
                        name_start,
                        name_end: name_start + name.len(),
                        v_start,
                        v_end,
                        additional: contains_b(vpart, seq![0x2Cu8]),
                    },
                )
            }
        },
    }
}

/// Result of parsing a PEP 508 dependency string, with byte ranges in it.
pub struct Pep508Parsed {
    pub name: String,
    /// Operator + first version anchor with source whitespace preserved.
    pub version: String,
    /// Byte range covering the package name (excludes extras like `[security]`).
    pub name_byte_range: (usize, usize),
    /// Byte range covering operator + version.
    pub version_byte_range: (usize, usize),
    /// Whether later comma-separated constraints exist outside `version_byte_range`.
    pub has_additional_version_constraints: bool,
}

impl View for Pep508Parsed {
    type V = Pep508Model;

    open spec fn view(&self) -> Pep508Model {
        Pep508Model {
            name: ob(&self.name),
            version: ob(&self.version),
            name_start: self.name_byte_range.0 as int,
            name_end: self.name_byte_range.1 as int,
            v_start: self.version_byte_range.0 as int,
            v_end: self.version_byte_range.1 as int,
            additional: self.has_additional_version_constraints,
        }
    }
}

/// An operator match as integers.
pub open spec fn pair_view(o: Option<(usize, usize)>) -> Option<(int, int)> {
    match o {
        Some(p) => Some((p.0 as int, p.1 as int)),
        None => None,
    }
}

/// An operator match of ASCII bytes inside `wm`.
pub open spec fn op_ok(wm: Seq<u8>, o: Option<(usize, usize)>) -> bool {
    o matches Some(p) ==> p.0 + p.1 <= wm.len() && p.1 >= 1 && wm[p.0 as int] < 0x80 && wm[p.0
        + p.1 - 1] < 0x80
}

fn op_step(wm: &[u8], op: &[u8], acc: Option<(usize, usize)>) -> (r: Option<(usize, usize)>)
    requires
        1 <= op@.len() <= 3,
        op@[0] < 0x80,
        op@[op@.len() - 1] < 0x80,
        op_ok(wm@, acc),
    ensures
        pair_view(r) == op_at(wm@, op@, pair_view(acc)),
        op_ok(wm@, r),
{
    match find_seq(wm, 0, op) {
        Some(pos) => {
            proof {
                lemma_find_s(wm@, 0, op@);
                assert(wm@[pos as int] == wm@.subrange(pos as int, pos + op@.len())[0]);
                assert(wm@[pos + op@.len() - 1] == wm@.subrange(pos as int, pos + op@.len())[op@.len()
                    - 1]);
            }
            match acc {
                None => Some((pos, op.len())),
                Some(a) => {
                    if pos < a.0 {
                        Some((pos, op.len()))
                    } else {
                        acc
                    }
                },
            }
        },
        None => acc,
    }
}

fn pep_core(dep_str: &str) -> (r: (&str, usize))
    ensures
        sb(r.0) == pep_wm(sb(dep_str)),
        r.1 as int == pep_off(sb(dep_str)),
        r.1 + sb(r.0).len() <= sb(dep_str).len(),
        sb(dep_str).subrange(r.1 as int, r.1 + sb(r.0).len()) == sb(r.0),
{
    let db = bytes(dep_str);
    let dlen = db.len();
    let ts = skip_ws_from_str(db);
    let a = slice(dep_str, ts, dlen);
    let trimmed = trim_end(a);
    let tb = bytes(trimmed);
    proof {
        lemma_skip_ws_back_bounds(sb(a), sb(a).len() as int);
    }
    let pre = match find_byte(tb, 0, 0x3B) {
        Some(sc) => {
            proof {
                lemma_find_b(tb@, 0, 0x3B);
            }
            slice(trimmed, 0, sc)
        },
        None => trimmed,
    };
    let pb = bytes(pre);
    let plen = pb.len();
    let pl = skip_ws_from_str(pb);
    let c = slice(pre, pl, plen);
    let wm = trim_end(c);
    let wb = bytes(wm);
    let wlen = wb.len();
    proof {
        lemma_skip_ws_back_bounds(sb(c), sb(c).len() as int);
        assert(sb(a) =~= db@.subrange(ts as int, dlen as int));
        assert(tb@ =~= db@.subrange(ts as int, ts + tb@.len()));
        assert(pb@ =~= db@.subrange(ts as int, ts + plen));
        assert(sb(c) =~= db@.subrange(ts + pl, ts + plen));
        assert(wb@ =~= db@.subrange(ts + pl, ts + pl + wlen));
    }
    (wm, ts + pl)
}

fn first_operator(wb: &[u8]) -> (r: Option<(usize, usize)>)
    ensures
        pair_view(r) == first_op(wb@),
        op_ok(wb@, r),
{
    proof {
        lit_op3eq();
        lit_op2eq();
        lit_opge();
        lit_ople();
        lit_opne();
        lit_opte();
        lit_opgt();
        lit_oplt();
    }
    let mut best: Option<(usize, usize)> = None;
    best = op_step(wb, "===".as_bytes(), best);
    best = op_step(wb, "==".as_bytes(), best);
    best = op_step(wb, ">=".as_bytes(), best);
    best = op_step(wb, "<=".as_bytes(), best);
    best = op_step(wb, "!=".as_bytes(), best);
    best = op_step(wb, "~=".as_bytes(), best);
    best = op_step(wb, ">".as_bytes(), best);
    best = op_step(wb, "<".as_bytes(), best);
    best
}

/// Parse a PEP 508 dependency string: `package>=1.0.0` or `package[extra]>=1.0.0`.
#[verifier::spinoff_prover]
#[verifier::rlimit(40)]
pub fn parse_pep508_dependency(dep_str: &str) -> (r: Option<Pep508Parsed>)
    ensures
        match pep508(sb(dep_str)) {
            None => r is None,
            Some(m) => r matches Some(x) && x@ == m,
        },
{
    let ghost db = sb(dep_str);
    let _dlen = bytes(dep_str).len();
    let (wm, off) = pep_core(dep_str);
    let wb = bytes(wm);
    let wlen = wb.len();
    let (op_pos, op_len) = match first_operator(wb) {
        Some(o) => o,
        None => {
            return None;
        },
    };
    proof {
        lemma_after_ascii(wb@, op_pos + op_len - 1);
    }
    let name_substr = until_byte(slice(wm, 0, op_pos), 0x5B);
    let name = trim(name_substr);
    let nlen = bytes(name).len();
    let vpart = slice(wm, op_pos + op_len, wlen);
    let vns = until_byte(vpart, 0x2C);
    let vnum = trim(vns);
    if nlen == 0 || bytes(vnum).len() == 0 {
        return None;
    }
    let nsb = bytes(name_substr);
    let name_inner = skip_ws_from_str(nsb);
    let vte = trim_end(vns);
    proof {
        lemma_skip_ws_back_bounds(sb(vns), sb(vns).len() as int);
        lemma_skip_ws_bounds(nsb@, 0);
        lemma_skip_ws_back_bounds(trim_start_b(nsb@), trim_start_b(nsb@).len() as int);
        lemma_find_b(wb@.subrange(0, op_pos as int), 0, 0x5B);
        lemma_find_b(sb(vpart), 0, 0x2C);
        assert(nsb@.len() <= op_pos);
        assert(sb(vpart) =~= wb@.subrange(op_pos + op_len, wlen as int));
        assert(sb(vns) =~= wb@.subrange(op_pos + op_len, op_pos + op_len + sb(vns).len()));
    }
    let vte_len = bytes(vte).len();
    let name_start = off + name_inner;
    let v_start = off + op_pos;
    let v_end = v_start + op_len + vte_len;
    let mut version = to_owned_string(slice(wm, op_pos, op_pos + op_len));
    append_str(&mut version, vte);
    proof {
        assert(sb(vte) =~= wb@.subrange(op_pos + op_len, op_pos + op_len + vte_len));
        assert(ob(&version) =~= wb@.subrange(op_pos as int, op_pos + op_len + vte_len));
        assert(ob(&version) =~= db.subrange(v_start as int, v_end as int));
    }
    let comma: [u8; 1] = [0x2C];
    proof {
        assert(comma@ =~= seq![0x2Cu8]);
    }
    let additional = contains(bytes(vpart), comma.as_slice());
    Some(
        Pep508Parsed {
            name: to_owned_string(name),
            version,
            name_byte_range: (name_start, name_start + nlen),
            version_byte_range: (v_start, v_end),
            has_additional_version_constraints: additional,
        },
    )
}

fn skip_ws_from_str(b: &[u8]) -> (r: usize)
    ensures
        r as int == skip_ws(b@, 0),
        r <= b@.len(),
        valid_utf8(b@) ==> at_boundary(b@, r as int),
{
    crate::text::skip_ws_from(b, 0)
}

// ---------------------------------------------------------------------------
// requirements.txt
// ---------------------------------------------------------------------------

/// The dependency a requirements line declares (a `#` comment is ignored);
/// nothing when an offset does not fit in `u32`.
pub open spec fn requirement(line: Seq<u8>, line_num: u32, dev: bool) -> Option<DepModel> {
    match pep508(trim_end_b(before_byte(line, 0x23))) {
        None => None,
        Some(m) => if m.name_start > u32::MAX || m.name_end > u32::MAX || m.v_start > u32::MAX
            || m.v_end > u32::MAX {
            None
        } else {
            Some(
                DepModel {
                    name: m.name,
                    version: m.version,
                    name_span: Span {
                        line: line_num,
                        line_start: m.name_start as u32,
                        line_end: m.name_end as u32,
                    },
                    version_span: Span {
                        line: line_num,
                        line_start: m.v_start as u32,
                        line_end: m.v_end as u32,
                    },
                    dev,
                    optional: false,
                    registry: None,
                    resolved_version: None,
                    has_additional_version_constraints: m.additional,
                },
            )
        },
    }
}

/// Parse a single requirement line.
pub fn parse_requirement_line(line: &str, line_num: u32, dev: bool) -> (r: Option<Dependency>)
    ensures
        match requirement(sb(line), line_num, dev) {
            None => r is None,
            Some(d) => r matches Some(x) && x@ == d,
        },
{
    let without_comment = trim_end(until_byte(line, 0x23));
    let parsed = match parse_pep508_dependency(without_comment) {
        Some(p) => p,
        None => {
            return None;
        },
    };
    if parsed.name_byte_range.0 > 0xFFFF_FFFF || parsed.name_byte_range.1 > 0xFFFF_FFFF
        || parsed.version_byte_range.0 > 0xFFFF_FFFF || parsed.version_byte_range.1 > 0xFFFF_FFFF {
        return None;
    }
    Some(
        Dependency {
            name: parsed.name,
            version: parsed.version,
            name_span: Span {
                line: line_num,
                line_start: parsed.name_byte_range.0 as u32,
                line_end: parsed.name_byte_range.1 as u32,
            },
            version_span: Span {
                line: line_num,
                line_start: parsed.version_byte_range.0 as u32,
                line_end: parsed.version_byte_range.1 as u32,
            },
            dev,
            optional: false,
            registry: None,
            resolved_version: None,
            has_additional_version_constraints: parsed.has_additional_version_constraints,
        },
    )
}

/// The dependencies after one more line, the `idx`-th, of `requirements.txt`.
pub open spec fn req_step(deps: Seq<DepModel>, l: Seq<u8>, idx: int) -> Seq<DepModel> {
    let t = trim_b(l);
    if t.len() == 0 || t[0] == 0x23 || t[0] == 0x2D || contains_b(t, sb(" @ ")) {
        deps
    } else {
        match requirement(l, idx as u32, false) {
            Some(d) => deps.push(d),
            None => deps,
        }
    }
}

/// The dependencies of the lines `ls` of `requirements.txt`.
pub open spec fn req_run(ls: Seq<Seq<u8>>) -> Seq<DepModel>
    decreases ls.len(),
{
    if ls.len() == 0 {
        Seq::empty()
    } else {
        req_step(req_run(ls.drop_last()), ls.last(), ls.len() - 1)
    }
}

/// Parse requirements.txt / constraints.txt content.
///
/// Comments, option lines (`-r`, `-e`, `--index-url`, …) and URL
/// requirements (`name @ https://…`) are skipped.
pub fn parse_requirements_txt(content: &str) -> (deps: Vec<Dependency>)
    ensures
        deps_view(deps@) == req_run(lines(sb(content))),
{
    let b = bytes(content);
    let n = b.len();
    let ghost ls = lines(b@);
    let mut dependencies: Vec<Dependency> = Vec::new();
    let mut p: usize = 0;
    let mut i: usize = 0;
    proof {
        assert(deps_view(dependencies@) =~= Seq::<DepModel>::empty());
    }
    while p < n
        invariant
            n == b@.len(),
            b@ == sb(content),
            valid_utf8(b@),
            ls == lines(b@),
            p <= n,
            at_boundary(b@, p as int),
            i <= ls.len(),
            i <= p,
            lines_from(b@, p as int) == ls.skip(i as int),
            req_run(ls.take(i as int)) == deps_view(dependencies@),
        decreases n - p,
    {
        let (ce, next) = next_line(b, p);
        let line = slice(content, p, ce);
        let ghost st = req_run(ls.take(i as int));
        proof {
            assert(ls.skip(i as int).len() >= 1);
            assert(ls.skip(i as int)[0] == sb(line));
            assert(ls.skip(i + 1) =~= ls.skip(i as int).skip(1));
            assert(lines_from(b@, next as int) =~= ls.skip(i as int).skip(1));
            assert(ls.take(i + 1).drop_last() =~= ls.take(i as int));
            assert(ls.take(i + 1).last() == sb(line));
        }
        let line_num = i as u32;
        let tb = bytes(trim(line));
        if !(tb.len() == 0 || tb[0] == 0x23 || tb[0] == 0x2D || contains(tb, " @ ".as_bytes())) {
            match parse_requirement_line(line, line_num, false) {
                Some(dep) => {
                    let ghost dm = dep@;
                    dependencies.push(dep);
                    proof {
                        assert(deps_view(dependencies@) =~= st.push(dm));
                    }
                },
                None => {},
            }
        }
        p = next;
        i = i + 1;
    }
    proof {
        assert(ls.skip(i as int).len() == 0);
        assert(ls.take(i as int) =~= ls);
    }
    dependencies
}

// ---------------------------------------------------------------------------
// pyproject.toml and hatch.toml (from their TOML documents)
// ---------------------------------------------------------------------------

/// The range of the content of a string token: its range without the two
/// quote characters; none for a token shorter than two bytes.
pub open spec fn inner_range(r: Option<TextRange>) -> Option<TextRange> {
    match r {
        Some(t) => if t.end - t.start < 2 {
            None
        } else {
            Some(TextRange { start: (t.start + 1) as u32, end: (t.end - 1) as u32 })
        },
        None => None,
    }
}

/// The byte range covering the content of a string token (between its quotes).
pub fn string_inner_range(range: Option<TextRange>) -> (r: Option<TextRange>)
    ensures
        r == inner_range(range),
{
    match range {
        Some(t) => {
            if t.end < t.start || t.end - t.start < 2 {
                None
            } else {
                Some(TextRange { start: t.start + 1, end: t.end - 1 })
            }
        },
        None => None,
    }
}

/// The range `[base + s, base + e)`, when it fits in `u32`.
pub open spec fn offset_range(base: u32, s: int, e: int) -> Option<TextRange> {
    if 0 <= s <= e && base + e <= u32::MAX {
        Some(TextRange { start: (base + s) as u32, end: (base + e) as u32 })
    } else {
        None
    }
}

/// The name and version spans of a PEP 508 string item whose token range is
/// `r`: the parsed byte ranges, shifted to the start of the string's content.
pub open spec fn pep508_item_spans(r: Option<TextRange>, m: Pep508Model, lines: Seq<TextRange>) -> Option<
    (Span, Span),
> {
    match inner_range(r) {
        Some(inner) => match (
            offset_range(inner.start, m.name_start, m.name_end),
            offset_range(inner.start, m.v_start, m.v_end),
        ) {
            (Some(nr), Some(vr)) => match (range_span(lines, nr), range_span(lines, vr)) {
                (Some(ns), Some(vs)) => Some((ns, vs)),
                _ => None,
            },
            _ => None,
        },
        None => None,
    }
}

fn offset_range_exec(base: u32, s: usize, e: usize) -> (r: Option<TextRange>)
    ensures
        r == offset_range(base, s as int, e as int),
{
    if s <= e && e <= 0xFFFF_FFFF && (base as u64) + (e as u64) <= 0xFFFF_FFFF {
        Some(TextRange { start: base + s as u32, end: base + e as u32 })
    } else {
        None
    }
}

/// Map the byte ranges of a parsed PEP 508 string onto the source spans of
/// the name and version inside the string item's content.
pub fn pep508_spans(range: Option<TextRange>, parsed: &Pep508Parsed, lines: &[TextRange]) -> (r:
    Option<(Span, Span)>)
    ensures
        r == pep508_item_spans(range, parsed@, lines@),
{
    let inner = match string_inner_range(range) {
        Some(i) => i,
        None => return None,
    };
    let nr = match offset_range_exec(inner.start, parsed.name_byte_range.0, parsed.name_byte_range.1) {
        Some(x) => x,
        None => return None,
    };
    let vr = match offset_range_exec(
        inner.start,
        parsed.version_byte_range.0,
        parsed.version_byte_range.1,
    ) {
        Some(x) => x,
        None => return None,
    };
    let ns = match range_to_span(nr, lines) {
        Some(x) => x,
        None => return None,
    };
    let vs = match range_to_span(vr, lines) {
        Some(x) => x,
        None => return None,
    };
    Some((ns, vs))
}

/// The dependency a PEP 508 string item of an array gives.
pub open spec fn pep508_item_dep(item: TomlNode, lines: Seq<TextRange>, dev: bool, optional: bool) -> Option<
    DepModel,
> {
    match item {
        TomlNode::Str { value, range } => match pep508(ob(&value)) {
            Some(m) => match pep508_item_spans(range, m, lines) {
                Some(sp) => Some(
                    DepModel {
                        name: m.name,
                        version: m.version,
                        name_span: sp.0,
                        version_span: sp.1,
                        dev,
                        optional,
                        registry: None,
                        resolved_version: None,
                        has_additional_version_constraints: m.additional,
                    },
                ),
                None => None,
            },
            None => None,
        },
        _ => None,
    }
}

/// The dependencies of the PEP 508 string items of an array, in order.
pub open spec fn pep508_items(items: Seq<TomlNode>, lines: Seq<TextRange>, dev: bool, optional: bool) -> Seq<
    DepModel,
>
    decreases items.len(),
{
    if items.len() == 0 {
        Seq::empty()
    } else {
        let prev = pep508_items(items.drop_last(), lines, dev, optional);
        match pep508_item_dep(items.last(), lines, dev, optional) {
            Some(d) => prev.push(d),
            None => prev,
        }
    }
}

/// The dependencies of an optional array node's PEP 508 items.
pub open spec fn pep508_array(n: Option<TomlNode>, lines: Seq<TextRange>, dev: bool, optional: bool) -> Seq<
    DepModel,
> {
    match node_array(n) {
        Some(items) => pep508_items(items, lines, dev, optional),
        None => Seq::empty(),
    }
}

/// Appends the dependencies of the PEP 508 string items of `items`.
fn push_pep508_items(
    items: &Vec<TomlNode>,
    lines: &[TextRange],
    dev: bool,
    optional: bool,
    deps: &mut Vec<Dependency>,
)
    ensures
        deps_view(final(deps)@) == deps_view(old(deps)@) + pep508_items(items@, lines@, dev, optional),
{
    let ghost d0 = deps_view(deps@);
    let mut i: usize = 0;
    while i < items.len()
        invariant
            i <= items@.len(),
            deps_view(deps@) == d0 + pep508_items(items@.take(i as int), lines@, dev, optional),
        decreases items@.len() - i,
    {
        proof {
            assert(items@.take(i + 1).drop_last() =~= items@.take(i as int));
            assert(items@.take(i + 1).last() == items@[i as int]);
        }
        match &items[i] {
            TomlNode::Str { value, range } => {
                match parse_pep508_dependency(value.as_str()) {
                    Some(parsed) => {
                        match pep508_spans(*range, &parsed, lines) {
                            Some((name_span, version_span)) => {
                                let dep = Dependency {
                                    name: parsed.name,
                                    version: parsed.version,
                                    name_span,
                                    version_span,
                                    dev,
                                    optional,
                                    registry: None,
                                    resolved_version: None,
                                    has_additional_version_constraints:
                                        parsed.has_additional_version_constraints,
                                };
                                let ghost dv = dep@;
                                let ghost o0 = deps@;
                                deps.push(dep);
                                proof {
                                    assert(deps_view(deps@) =~= deps_view(o0).push(dv));
                                }
                            },
                            None => {},
                        }
                    },
                    None => {},
                }
            },
            _ => {},
        }
        i = i + 1;
    }
    proof {
        assert(items@.take(i as int) =~= items@);
    }
}

/// Appends the dependencies of an optional array node's PEP 508 items.
fn push_pep508_array(
    n: Option<&TomlNode>,
    lines: &[TextRange],
    dev: bool,
    optional: bool,
    deps: &mut Vec<Dependency>,
)
    ensures
        deps_view(final(deps)@) == deps_view(old(deps)@) + pep508_array(
            match n {
                Some(y) => Some(*y),
                None => None,
            },
            lines@,
            dev,
            optional,
        ),
{
    match array_items(n) {
        Some(items) => push_pep508_items(items, lines, dev, optional, deps),
        None => {
            proof {
                assert(deps_view(deps@) =~= deps_view(deps@) + Seq::<DepModel>::empty());
            }
        },
    }
}

/// The optional node `Some(*n)`.
pub open spec fn some_node(n: Option<&TomlNode>) -> Option<TomlNode> {
    match n {
        Some(y) => Some(*y),
        None => None,
    }
}

/// `[project.dependencies]` (PEP 621): PEP 508 strings, neither dev nor optional.
pub open spec fn pep621_deps(root: TomlNode, lines: Seq<TextRange>) -> Seq<DepModel> {
    pep508_array(opt_get(node_get(root, sb("project")), sb("dependencies")), lines, false, false)
}

/// Parse `[project.dependencies]` (PEP 621): an array of PEP 508 strings.
pub fn parse_pep621_deps(dom: &TomlNode, lines: &[TextRange], deps: &mut Vec<Dependency>)
    ensures
        deps_view(final(deps)@) == deps_view(old(deps)@) + pep621_deps(*dom, lines@),
{
    let project = dom.get("project");
    let deps_node = get_opt(project, "dependencies");
    push_pep508_array(deps_node, lines, false, false, deps);
}

/// The groups of a table of arrays of PEP 508 strings, in order.
pub open spec fn pep508_groups(es: Seq<TomlNodeEntry>, lines: Seq<TextRange>, dev: bool, optional: bool) -> Seq<
    DepModel,
>
    decreases es.len(),
{
    if es.len() == 0 {
        Seq::empty()
    } else {
        pep508_groups(es.drop_last(), lines, dev, optional) + pep508_array(
            Some(es.last().value),
            lines,
            dev,
            optional,
        )
    }
}

/// Appends the PEP 508 dependencies of each array-valued entry of `es`.
fn push_pep508_groups(
    es: &Vec<TomlNodeEntry>,
    lines: &[TextRange],
    dev: bool,
    optional: bool,
    deps: &mut Vec<Dependency>,
)
    ensures
        deps_view(final(deps)@) == deps_view(old(deps)@) + pep508_groups(es@, lines@, dev, optional),
{
    let ghost d0 = deps_view(deps@);
    let mut i: usize = 0;
    proof {
        assert(d0 + pep508_groups(es@.take(0), lines@, dev, optional) =~= d0);
    }
    while i < es.len()
        invariant
            i <= es@.len(),
            deps_view(deps@) == d0 + pep508_groups(es@.take(i as int), lines@, dev, optional),
        decreases es@.len() - i,
    {
        proof {
            assert(es@.take(i + 1).drop_last() =~= es@.take(i as int));
            assert(es@.take(i + 1).last() == es@[i as int]);
        }
        push_pep508_array(Some(&es[i].value), lines, dev, optional, deps);
        proof {
            assert(d0 + pep508_groups(es@.take(i + 1), lines@, dev, optional) =~= d0
                + pep508_groups(es@.take(i as int), lines@, dev, optional) + pep508_array(
                Some(es@[i as int].value),
                lines@,
                dev,
                optional,
            ));
        }
        i = i + 1;
    }
    proof {
        assert(es@.take(i as int) =~= es@);
    }
}

/// `[project.optional-dependencies]` (PEP 621): groups of PEP 508 strings,
/// each dependency dev and optional.
pub open spec fn pep621_optional(root: TomlNode, lines: Seq<TextRange>) -> Seq<DepModel> {
    match node_table(opt_get(node_get(root, sb("project")), sb("optional-dependencies"))) {
        Some(es) => pep508_groups(es, lines, true, true),
        None => Seq::empty(),
    }
}

/// Parse `[project.optional-dependencies]` (PEP 621): a table of group name →
/// array of PEP 508 strings. Each dependency is dev and optional.
pub fn parse_pep621_optional(dom: &TomlNode, lines: &[TextRange], deps: &mut Vec<Dependency>)
    ensures
        deps_view(final(deps)@) == deps_view(old(deps)@) + pep621_optional(*dom, lines@),
{
    let project = dom.get("project");
    let optional_node = get_opt(project, "optional-dependencies");
    match table_entries(optional_node) {
        Some(es) => push_pep508_groups(es, lines, true, true, deps),
        None => {
            proof {
                assert(deps_view(deps@) =~= deps_view(deps@) + Seq::<DepModel>::empty());
            }
        },
    }
}

/// A Poetry dependency value's version, whether it is optional, and the
/// range of the version string's content: a plain string, or a table with a
/// string `version` (and a boolean `optional`, false when absent).
pub open spec fn poetry_version(v: TomlNode) -> Option<(Seq<u8>, bool, TextRange)> {
    match v {
        TomlNode::Str { value, range } => match inner_range(range) {
            Some(inner) => Some((ob(&value), false, inner)),
            None => None,
        },
        TomlNode::Table(_) => match node_get(v, sb("version")) {
            Some(TomlNode::Str { value, range }) => {
                let optional = match node_get(v, sb("optional")) {
                    Some(TomlNode::Bool(b)) => b,
                    _ => false,
                };
                match inner_range(range) {
                    Some(inner) => Some((ob(&value), optional, inner)),
                    None => None,
                }
            },
            _ => None,
        },
        _ => None,
    }
}

/// The version of a Poetry dependency value, whether it is optional, and the
/// range of the version literal's content.
pub fn extract_poetry_version(value: &TomlNode) -> (r: Option<(String, bool, TextRange)>)
    ensures
        match r {
            Some(x) => poetry_version(*value) == Some((ob(&x.0), x.1, x.2)),
            None => poetry_version(*value) is None,
        },
{
    match value {
        TomlNode::Str { value: s, range } => {
            let inner = match string_inner_range(*range) {
                Some(i) => i,
                None => return None,
            };
            Some((to_owned_string(s.as_str()), false, inner))
        },
        TomlNode::Table(_) => {
            match value.get("version") {
                Some(TomlNode::Str { value: s, range }) => {
                    let optional = match value.get("optional") {
                        Some(TomlNode::Bool(b)) => *b,
                        _ => false,
                    };
                    let inner = match string_inner_range(*range) {
                        Some(i) => i,
                        None => return None,
                    };
                    Some((to_owned_string(s.as_str()), optional, inner))
                },
                _ => None,
            }
        },
        _ => None,
    }
}

/// The dependency a Poetry dependency-table entry gives.
pub open spec fn poetry_entry_dep(e: TomlNodeEntry, lines: Seq<TextRange>, dev: bool) -> Option<DepModel> {
    match poetry_version(e.value) {
        Some(pv) => match e.key_range {
            Some(kr) => match (range_span(lines, kr), range_span(lines, pv.2)) {
                (Some(ns), Some(vs)) => Some(
                    DepModel {
                        name: ob(&e.key),
                        version: pv.0,
                        name_span: ns,
                        version_span: vs,
                        dev,
                        optional: pv.1,
                        registry: None,
                        resolved_version: None,
                        has_additional_version_constraints: false,
                    },
                ),
                _ => None,
            },
            None => None,
        },
        None => None,
    }
}

/// The dependencies of a Poetry dependency table, in order, the `python`
/// entry skipped when `skip_python`.
pub open spec fn poetry_entries(
    es: Seq<TomlNodeEntry>,
    lines: Seq<TextRange>,
    dev: bool,
    skip_python: bool,
) -> Seq<DepModel>
    decreases es.len(),
{
    if es.len() == 0 {
        Seq::empty()
    } else {
        let prev = poetry_entries(es.drop_last(), lines, dev, skip_python);
        if skip_python && ob(&es.last().key) == sb("python") {
            prev
        } else {
            match poetry_entry_dep(es.last(), lines, dev) {
                Some(d) => prev.push(d),
                None => prev,
            }
        }
    }
}

/// The dependencies of an optional Poetry dependency table node.
pub open spec fn poetry_table(n: Option<TomlNode>, lines: Seq<TextRange>, dev: bool, skip_python: bool) -> Seq<
    DepModel,
> {
    match node_table(n) {
        Some(es) => poetry_entries(es, lines, dev, skip_python),
        None => Seq::empty(),
    }
}

/// Appends the dependencies of an optional Poetry dependency table node.
fn push_poetry_table(
    n: Option<&TomlNode>,
    lines: &[TextRange],
    dev: bool,
    skip_python: bool,
    deps: &mut Vec<Dependency>,
)
    ensures
        deps_view(final(deps)@) == deps_view(old(deps)@) + poetry_table(some_node(n), lines@, dev, skip_python),
{
    let ghost d0 = deps_view(deps@);
    match table_entries(n) {
        Some(es) => {
            let mut i: usize = 0;
            while i < es.len()
                invariant
                    i <= es@.len(),
                    deps_view(deps@) == d0 + poetry_entries(es@.take(i as int), lines@, dev, skip_python),
                decreases es@.len() - i,
            {
                proof {
                    assert(es@.take(i + 1).drop_last() =~= es@.take(i as int));
                    assert(es@.take(i + 1).last() == es@[i as int]);
                }
                let e = &es[i];
                if !(skip_python && str_eq(e.key.as_str(), "python")) {
                    match (extract_poetry_version(&e.value), e.key_range) {
                        (Some((version, optional, version_range)), Some(kr)) => {
                            match (range_to_span(kr, lines), range_to_span(version_range, lines)) {
                                (Some(name_span), Some(version_span)) => {
                                    let dep = Dependency {
                                        name: to_owned_string(e.key.as_str()),
                                        version,
                                        name_span,
                                        version_span,
                                        dev,
                                        optional,
                                        registry: None,
                                        resolved_version: None,
                                        has_additional_version_constraints: false,
                                    };
                                    let ghost dv = dep@;
                                    let ghost o0 = deps@;
                                    deps.push(dep);
                                    proof {
                                        assert(deps_view(deps@) =~= deps_view(o0).push(dv));
                                    }
                                },
                                _ => {},
                            }
                        },
                        _ => {},
                    }
                }
                i = i + 1;
            }
            proof {
                assert(es@.take(i as int) =~= es@);
            }
        },
        None => {
            proof {
                assert(deps_view(deps@) =~= d0 + Seq::<DepModel>::empty());
            }
        },
    }
}

/// The `[tool.poetry]` node of a document.
pub open spec fn poetry_node(root: TomlNode) -> Option<TomlNode> {
    opt_get(node_get(root, sb("tool")), sb("poetry"))
}

/// `[tool.poetry.dependencies]`: neither dev nor skipping anything but `python`.
pub open spec fn poetry_main(root: TomlNode, lines: Seq<TextRange>) -> Seq<DepModel> {
    poetry_table(opt_get(poetry_node(root), sb("dependencies")), lines, false, true)
}

/// Parse `[tool.poetry.dependencies]`, skipping the `python` entry (the
/// interpreter constraint).
pub fn parse_poetry_main(dom: &TomlNode, lines: &[TextRange], deps: &mut Vec<Dependency>)
    ensures
        deps_view(final(deps)@) == deps_view(old(deps)@) + poetry_main(*dom, lines@),
{
    let poetry = get_opt(dom.get("tool"), "poetry");
    push_poetry_table(get_opt(poetry, "dependencies"), lines, false, true, deps);
}

/// `[tool.poetry.dev-dependencies]` (Poetry before 1.2): dev dependencies.
pub open spec fn poetry_dev_legacy(root: TomlNode, lines: Seq<TextRange>) -> Seq<DepModel> {
    poetry_table(opt_get(poetry_node(root), sb("dev-dependencies")), lines, true, false)
}

/// Parse legacy `[tool.poetry.dev-dependencies]` (Poetry before 1.2): dev dependencies.
pub fn parse_poetry_dev_legacy(dom: &TomlNode, lines: &[TextRange], deps: &mut Vec<Dependency>)
    ensures
        deps_view(final(deps)@) == deps_view(old(deps)@) + poetry_dev_legacy(*dom, lines@),
{
    let poetry = get_opt(dom.get("tool"), "poetry");
    push_poetry_table(get_opt(poetry, "dev-dependencies"), lines, true, false, deps);
}

/// Whether a Poetry group holds development dependencies: `dev` and `test` do.
pub open spec fn dev_group(name: Seq<u8>) -> bool {
    name == sb("dev") || name == sb("test")
}

/// The dependencies of the groups of `[tool.poetry.group]`, in order.
pub open spec fn poetry_group_entries(gs: Seq<TomlNodeEntry>, lines: Seq<TextRange>) -> Seq<DepModel>
    decreases gs.len(),
{
    if gs.len() == 0 {
        Seq::empty()
    } else {
        let prev = poetry_group_entries(gs.drop_last(), lines);
        let g = gs.last();
        match g.value {
            TomlNode::Table(_) => prev + poetry_table(
                node_get(g.value, sb("dependencies")),
                lines,
                dev_group(ob(&g.key)),
                false,
            ),
            _ => prev,
        }
    }
}

/// `[tool.poetry.group.<name>.dependencies]` (Poetry 1.2 and later).
pub open spec fn poetry_groups(root: TomlNode, lines: Seq<TextRange>) -> Seq<DepModel> {
    match node_table(opt_get(poetry_node(root), sb("group"))) {
        Some(gs) => poetry_group_entries(gs, lines),
        None => Seq::empty(),
    }
}

/// Parse `[tool.poetry.group.<name>.dependencies]` (Poetry 1.2 and later);
/// the groups named `dev` and `test` hold dev dependencies.
pub fn parse_poetry_groups(dom: &TomlNode, lines: &[TextRange], deps: &mut Vec<Dependency>)
    ensures
        deps_view(final(deps)@) == deps_view(old(deps)@) + poetry_groups(*dom, lines@),
{
    let ghost d0 = deps_view(deps@);
    let poetry = get_opt(dom.get("tool"), "poetry");
    match table_entries(get_opt(poetry, "group")) {
        Some(gs) => {
            let mut i: usize = 0;
            proof {
                assert(d0 + poetry_group_entries(gs@.take(0), lines@) =~= d0);
            }
            while i < gs.len()
                invariant
                    i <= gs@.len(),
                    deps_view(deps@) == d0 + poetry_group_entries(gs@.take(i as int), lines@),
                decreases gs@.len() - i,
            {
                proof {
                    assert(gs@.take(i + 1).drop_last() =~= gs@.take(i as int));
                    assert(gs@.take(i + 1).last() == gs@[i as int]);
                }
                let g = &gs[i];
                match &g.value {
                    TomlNode::Table(_) => {
                        let is_dev = str_eq(g.key.as_str(), "dev") || str_eq(g.key.as_str(), "test");
                        let ghost before = deps_view(deps@);
                        push_poetry_table(g.value.get("dependencies"), lines, is_dev, false, deps);
                        proof {
                            assert(deps_view(deps@) =~= d0 + poetry_group_entries(gs@.take(i + 1), lines@));
                        }
                    },
                    _ => {},
                }
                i = i + 1;
            }
            proof {
                assert(gs@.take(i as int) =~= gs@);
            }
        },
        None => {
            proof {
                assert(deps_view(deps@) =~= d0 + Seq::<DepModel>::empty());
            }
        },
    }
}

/// `[dependency-groups]` (PEP 735): groups of PEP 508 strings; items that are
/// not strings (`{include-group = ...}` tables) are skipped.
pub open spec fn pep735_groups(root: TomlNode, lines: Seq<TextRange>) -> Seq<DepModel> {
    match node_table(node_get(root, sb("dependency-groups"))) {
        Some(es) => pep508_groups(es, lines, false, false),
        None => Seq::empty(),
    }
}

/// Parse `[dependency-groups]` (PEP 735): a table of group name → array of
/// items, each a PEP 508 string or an `{include-group = "..."}` table (skipped).
pub fn parse_pep735_groups(dom: &TomlNode, lines: &[TextRange], deps: &mut Vec<Dependency>)
    ensures
        deps_view(final(deps)@) == deps_view(old(deps)@) + pep735_groups(*dom, lines@),
{
    match table_entries(dom.get("dependency-groups")) {
        Some(es) => push_pep508_groups(es, lines, false, false, deps),
        None => {
            proof {
                assert(deps_view(deps@) =~= deps_view(deps@) + Seq::<DepModel>::empty());
            }
        },
    }
}

/// The dev dependencies of one Hatch environment: its `dependencies`, then
/// its `extra-dependencies`.
pub open spec fn hatch_env(env: TomlNode, lines: Seq<TextRange>) -> Seq<DepModel> {
    pep508_array(node_get(env, sb("dependencies")), lines, true, false) + pep508_array(
        node_get(env, sb("extra-dependencies")),
        lines,
        true,
        false,
    )
}

/// The dev dependencies of some Hatch environments, in order.
pub open spec fn hatch_env_entries(es: Seq<TomlNodeEntry>, lines: Seq<TextRange>) -> Seq<DepModel>
    decreases es.len(),
{
    if es.len() == 0 {
        Seq::empty()
    } else {
        hatch_env_entries(es.drop_last(), lines) + hatch_env(es.last().value, lines)
    }
}

/// The dev dependencies of an optional Hatch `envs` table node.
pub open spec fn hatch_envs(n: Option<TomlNode>, lines: Seq<TextRange>) -> Seq<DepModel> {
    match node_table(n) {
        Some(es) => hatch_env_entries(es, lines),
        None => Seq::empty(),
    }
}

/// Parse Hatch environments (`[tool.hatch.envs.<name>]` in `pyproject.toml`,
/// `[envs.<name>]` in `hatch.toml`): their `dependencies` and
/// `extra-dependencies` arrays of PEP 508 strings, all dev, none optional.
pub fn parse_hatch_envs(envs_node: Option<&TomlNode>, lines: &[TextRange], deps: &mut Vec<Dependency>)
    ensures
        deps_view(final(deps)@) == deps_view(old(deps)@) + hatch_envs(some_node(envs_node), lines@),
{
    let ghost d0 = deps_view(deps@);
    match table_entries(envs_node) {
        Some(es) => {
            let mut i: usize = 0;
            proof {
                assert(d0 + hatch_env_entries(es@.take(0), lines@) =~= d0);
            }
            while i < es.len()
                invariant
                    i <= es@.len(),
                    deps_view(deps@) == d0 + hatch_env_entries(es@.take(i as int), lines@),
                decreases es@.len() - i,
            {
                proof {
                    assert(es@.take(i + 1).drop_last() =~= es@.take(i as int));
                    assert(es@.take(i + 1).last() == es@[i as int]);
                }
                let env = &es[i].value;
                push_pep508_array(env.get("dependencies"), lines, true, false, deps);
                push_pep508_array(env.get("extra-dependencies"), lines, true, false, deps);
                proof {
                    assert(deps_view(deps@) =~= d0 + hatch_env_entries(es@.take(i + 1), lines@));
                }
                i = i + 1;
            }
            proof {
                assert(es@.take(i as int) =~= es@);
            }
        },
        None => {
            proof {
                assert(deps_view(deps@) =~= d0 + Seq::<DepModel>::empty());
            }
        },
    }
}

/// The dependencies of a `pyproject.toml` document: PEP 621 (when
/// `[project]` is a table), Poetry (when `[tool.poetry]` is a table), PEP
/// 735, then Hatch environments; none when the parser reported errors.
pub open spec fn pyproject_deps(content: Seq<u8>, doc: TomlDocument) -> Seq<DepModel> {
    if doc.errors@.len() > 0 {
        Seq::empty()
    } else {
        let root = doc.root;
        let lines = ranges_of(content);
        let pep621 = if node_table(node_get(root, sb("project"))) is Some {
            pep621_deps(root, lines) + pep621_optional(root, lines)
        } else {
            Seq::empty()
        };
        let poetry = if node_table(poetry_node(root)) is Some {
            poetry_main(root, lines) + poetry_dev_legacy(root, lines) + poetry_groups(root, lines)
        } else {
            Seq::empty()
        };
        pep621 + poetry + pep735_groups(root, lines) + hatch_envs(
            opt_get(opt_get(node_get(root, sb("tool")), sb("hatch")), sb("envs")),
            lines,
        )
    }
}

/// The line ranges of `content`, each with its `\n`.
pub open spec fn ranges_of(content: Seq<u8>) -> Seq<TextRange> {
    to_ranges(incl_ranges_from(content, 0))
}

/// The byte range of every line of `content`, its `\n` included: the table
/// that turns the ranges of string and key tokens into line spans.
pub fn compute_line_ranges(content: &str) -> (r: Vec<TextRange>)
    ensures
        r@ == ranges_of(sb(content)),
{
    incl_line_ranges(content)
}

/// Parse a `pyproject.toml` document (PEP 621, Poetry, PEP 735 and Hatch
/// sections); a document with parse errors gives nothing.
#[verifier::spinoff_prover]
#[verifier::rlimit(40)]
pub fn parse_pyproject_document(content: &str, doc: &TomlDocument) -> (deps: Vec<Dependency>)
    ensures
        deps_view(deps@) == pyproject_deps(sb(content), *doc),
{
    let mut dependencies: Vec<Dependency> = Vec::new();
    if doc.errors.len() > 0 {
        proof {
            assert(deps_view(dependencies@) =~= Seq::<DepModel>::empty());
        }
        return dependencies;
    }
    let dom = &doc.root;
    let line_ranges = compute_line_ranges(content);
    let ghost lines = line_ranges@;
    let ghost pep621 = if node_table(node_get(*dom, sb("project"))) is Some {
        pep621_deps(*dom, lines) + pep621_optional(*dom, lines)
    } else {
        Seq::empty()
    };
    let ghost poetry = if node_table(poetry_node(*dom)) is Some {
        poetry_main(*dom, lines) + poetry_dev_legacy(*dom, lines) + poetry_groups(*dom, lines)
    } else {
        Seq::empty()
    };
    proof {
        assert(deps_view(dependencies@) =~= Seq::<DepModel>::empty());
    }
    if table_entries(dom.get("project")).is_some() {
        parse_pep621_deps(dom, line_ranges.as_slice(), &mut dependencies);
        parse_pep621_optional(dom, line_ranges.as_slice(), &mut dependencies);
    }
    proof {
        assert(deps_view(dependencies@) =~= pep621);
    }
    let tool = dom.get("tool");
    let poetry_table = get_opt(tool, "poetry");
    if table_entries(poetry_table).is_some() {
        parse_poetry_main(dom, line_ranges.as_slice(), &mut dependencies);
        parse_poetry_dev_legacy(dom, line_ranges.as_slice(), &mut dependencies);
        parse_poetry_groups(dom, line_ranges.as_slice(), &mut dependencies);
    }
    proof {
        assert(deps_view(dependencies@) =~= pep621 + poetry);
    }
    parse_pep735_groups(dom, line_ranges.as_slice(), &mut dependencies);
    let hatch_envs_node = get_opt(get_opt(dom.get("tool"), "hatch"), "envs");
    parse_hatch_envs(hatch_envs_node, line_ranges.as_slice(), &mut dependencies);
    dependencies
}

/// Parse the text of a `pyproject.toml`, read with `taplo` (see
/// [`parse_pyproject_document`]).
pub fn parse_pyproject_toml(content: &str) -> (deps: Vec<Dependency>)
    ensures
        deps_view(deps@) == pyproject_deps(sb(content), taplo_tree_of(sb(content))),
{
    let doc = toml_tree(content);
    parse_pyproject_document(content, &doc)
}

/// The dependencies of a standalone `hatch.toml` document: its `[envs.<name>]`
/// environments; none when the parser reported errors.
pub open spec fn hatch_toml_deps(content: Seq<u8>, doc: TomlDocument) -> Seq<DepModel> {
    if doc.errors@.len() > 0 {
        Seq::empty()
    } else {
        hatch_envs(node_get(doc.root, sb("envs")), ranges_of(content))
    }
}

/// Parse a standalone `hatch.toml` document, where the environments table
/// stands at the top level under `envs` (no `tool.hatch` prefix).
pub fn parse_hatch_document(content: &str, doc: &TomlDocument) -> (deps: Vec<Dependency>)
    ensures
        deps_view(deps@) == hatch_toml_deps(sb(content), *doc),
{
    let mut dependencies: Vec<Dependency> = Vec::new();
    proof {
        assert(deps_view(dependencies@) =~= Seq::<DepModel>::empty());
    }
    if doc.errors.len() > 0 {
        return dependencies;
    }
    let line_ranges = compute_line_ranges(content);
    parse_hatch_envs(doc.root.get("envs"), line_ranges.as_slice(), &mut dependencies);
    proof {
        assert(deps_view(dependencies@) =~= hatch_toml_deps(sb(content), *doc));
    }
    dependencies
}

/// Parse the text of a standalone `hatch.toml`, read with `taplo` (see
/// [`parse_hatch_document`]).
pub fn parse_hatch_toml(content: &str) -> (deps: Vec<Dependency>)
    ensures
        deps_view(deps@) == hatch_toml_deps(sb(content), taplo_tree_of(sb(content))),
{
    let doc = toml_tree(content);
    parse_hatch_document(content, &doc)
}

/// The dependencies of Python manifest content: a `pyproject.toml` when it
/// has a line-anchored pyproject section header, else a `hatch.toml` when it
/// has a Hatch header, else a `requirements.txt`.
pub open spec fn python_deps(content: Seq<u8>, doc: TomlDocument) -> Seq<DepModel> {
    if some_line(content, |t: Seq<u8>| pyproject_header(t)) {
        pyproject_deps(content, doc)
    } else if some_line(content, |t: Seq<u8>| hatch_header(t)) {
        hatch_toml_deps(content, doc)
    } else {
        req_run(lines(content))
    }
}

impl PythonParser {
    /// Parse Python manifest content; `doc` is the `taplo` tree of
    /// `content`, which only the `pyproject.toml` and `hatch.toml` forms read.
    pub fn parse_document(&self, content: &str, doc: &TomlDocument) -> (deps: Vec<Dependency>)
        ensures
            deps_view(deps@) == python_deps(sb(content), *doc),
    {
        if is_pyproject_toml(content) {
            parse_pyproject_document(content, doc)
        } else if is_hatch_toml(content) {
            parse_hatch_document(content, doc)
        } else {
            parse_requirements_txt(content)
        }
    }
}

impl Parser for PythonParser {
    /// Parse Python manifest content; the TOML forms are read with `taplo`,
    /// and only they are.
    fn parse(&self, content: &str) -> (deps: Vec<Dependency>)
        ensures
            deps_view(deps@) == python_deps(sb(content), taplo_tree_of(sb(content))),
    {
        if is_pyproject_toml(content) {
            parse_pyproject_toml(content)
        } else if is_hatch_toml(content) {
            parse_hatch_toml(content)
        } else {
            parse_requirements_txt(content)
        }
    }
}

/// One of the PEP 440 comparison operators a requirement's version starts with.
pub open spec fn pep_operator(s: Seq<u8>) -> bool {
    ||| s == sb("===")
    ||| s == sb("==")
    ||| s == sb(">=")
    ||| s == sb("<=")
    ||| s == sb("!=")
    ||| s == sb("~=")
    ||| s == sb(">")
    ||| s == sb("<")
}

proof fn lemma_pep_wm(d: Seq<u8>)
    ensures
        0 <= pep_off(d),
        pep_off(d) + pep_wm(d).len() <= d.len(),
        d.subrange(pep_off(d), pep_off(d) + pep_wm(d).len()) == pep_wm(d),
{
    let ts = skip_ws(d, 0);
    lemma_skip_ws_bounds(d, 0);
    let a = d.subrange(ts, d.len() as int);
    let trimmed = trim_end_b(a);
    lemma_skip_ws_back_bounds(a, a.len() as int);
    lemma_find_b(trimmed, 0, 0x3B);
    let pre = match find_b(trimmed, 0, 0x3B) {
        Some(sc) => trimmed.subrange(0, sc),
        None => trimmed,
    };
    lemma_skip_ws_bounds(pre, 0);
    let pl = skip_ws(pre, 0);
    let c = pre.subrange(pl, pre.len() as int);
    lemma_skip_ws_back_bounds(c, c.len() as int);
    let wm = trim_end_b(c);
    assert(pre =~= d.subrange(ts, ts + pre.len()));
    assert(wm =~= d.subrange(ts + pl, ts + pl + wm.len()));
}

proof fn lemma_op_at(wm: Seq<u8>, op: Seq<u8>, acc: Option<(int, int)>)
    requires
        op.len() >= 1,
        pep_operator(op),
        acc matches Some(a) ==> 0 <= a.0 && a.1 >= 1 && a.0 + a.1 <= wm.len() && pep_operator(
            wm.subrange(a.0, a.0 + a.1),
        ),
    ensures
        op_at(wm, op, acc) matches Some(a) ==> 0 <= a.0 && a.1 >= 1 && a.0 + a.1 <= wm.len()
            && pep_operator(wm.subrange(a.0, a.0 + a.1)),
{
    lemma_find_s(wm, 0, op);
}

proof fn lemma_first_op(wm: Seq<u8>)
    ensures
        first_op(wm) matches Some(a) ==> 0 <= a.0 && a.1 >= 1 && a.0 + a.1 <= wm.len() && pep_operator(
            wm.subrange(a.0, a.0 + a.1),
        ),
{
    lit_op3eq();
    lit_op2eq();
    lit_opge();
    lit_ople();
    lit_opne();
    lit_opte();
    lit_opgt();
    lit_oplt();
    let a1 = op_at(wm, sb("==="), None);
    lemma_op_at(wm, sb("==="), None);
    let a2 = op_at(wm, sb("=="), a1);
    lemma_op_at(wm, sb("=="), a1);
    let a3 = op_at(wm, sb(">="), a2);
    lemma_op_at(wm, sb(">="), a2);
    let a4 = op_at(wm, sb("<="), a3);
    lemma_op_at(wm, sb("<="), a3);
    let a5 = op_at(wm, sb("!="), a4);
    lemma_op_at(wm, sb("!="), a4);
    let a6 = op_at(wm, sb("~="), a5);
    lemma_op_at(wm, sb("~="), a5);
    let a7 = op_at(wm, sb(">"), a6);
    lemma_op_at(wm, sb(">"), a6);
    lemma_op_at(wm, sb("<"), a7);
}

/// A parsed PEP 508 requirement points back into its text: the name range
/// holds the name (non-empty, without extras) and ends before the version
/// range, which holds the version, and the version starts with a
/// comparison operator.
pub proof fn law_pep508_ranges(d: Seq<u8>)
    ensures
        pep508(d) matches Some(m) ==> {
            &&& 0 <= m.name_start < m.name_end <= m.v_start < m.v_end <= d.len()
            &&& d.subrange(m.name_start, m.name_end) == m.name
            &&& d.subrange(m.v_start, m.v_end) == m.version
            &&& !m.name.contains(0x5Bu8)
            &&& exists|k: int| 1 <= k <= m.version.len() && pep_operator(#[trigger] m.version.take(k))
        },
{
    lemma_pep_wm(d);
    lemma_first_op(pep_wm(d));
    let wm = pep_wm(d);
    let off = pep_off(d);
    if let Some(o) = first_op(wm) {
        let op_pos = o.0;
        let op_len = o.1;
        let w0 = wm.subrange(0, op_pos);
        lemma_find_b(w0, 0, 0x5B);
        let ns = before_byte(w0, 0x5B);
        let s0 = skip_ws(ns, 0);
        lemma_skip_ws_bounds(ns, 0);
        let tsn = ns.subrange(s0, ns.len() as int);
        lemma_skip_ws_back_bounds(tsn, tsn.len() as int);
        let name = trim_b(ns);
        let vpart = wm.subrange(op_pos + op_len, wm.len() as int);
        lemma_find_b(vpart, 0, 0x2C);
        let vns = before_byte(vpart, 0x2C);
        lemma_skip_ws_back_bounds(vns, vns.len() as int);
        if name.len() > 0 && trim_b(vns).len() > 0 {
            let m = pep508(d)->0;
            assert(ns.len() <= op_pos);
            assert(name =~= wm.subrange(s0, s0 + name.len()));
            assert(d.subrange(off + s0, off + s0 + name.len()) =~= wm.subrange(s0, s0 + name.len()));
            assert forall|i: int| 0 <= i < name.len() implies name[i] != 0x5Bu8 by {
                assert(name[i] == ns[s0 + i]);
                assert(ns[s0 + i] == w0[s0 + i]);
            }
            assert(m.version.take(op_len) =~= wm.subrange(op_pos, op_pos + op_len));
        }
    }
}

proof fn lemma_pep508_items_keep(items: Seq<TomlNode>, lines: Seq<TextRange>, dev: bool, optional: bool, i: int)
    requires
        0 <= i < items.len(),
        pep508_item_dep(items[i], lines, dev, optional) is Some,
    ensures
        pep508_items(items, lines, dev, optional).contains(pep508_item_dep(items[i], lines, dev, optional)->0),
    decreases items.len(),
{
    let prev = pep508_items(items.drop_last(), lines, dev, optional);
    let d = pep508_item_dep(items[i], lines, dev, optional)->0;
    if i < items.len() - 1 {
        assert(items.drop_last()[i] == items[i]);
        lemma_pep508_items_keep(items.drop_last(), lines, dev, optional, i);
        let k = choose|k: int| 0 <= k < prev.len() && prev[k] == d;
        assert(pep508_items(items, lines, dev, optional)[k] == prev[k]);
    } else {
        assert(items.last() == items[i]);
        assert(pep508_items(items, lines, dev, optional)[prev.len() as int] == d);
    }
}

proof fn lemma_pep508_groups_keep(
    es: Seq<TomlNodeEntry>,
    lines: Seq<TextRange>,
    dev: bool,
    optional: bool,
    g: int,
    items: Seq<TomlNode>,
    i: int,
)
    requires
        0 <= g < es.len(),
        node_array(Some(es[g].value)) == Some(items),
        0 <= i < items.len(),
        pep508_item_dep(items[i], lines, dev, optional) is Some,
    ensures
        pep508_groups(es, lines, dev, optional).contains(pep508_item_dep(items[i], lines, dev, optional)->0),
    decreases es.len(),
{
    let d = pep508_item_dep(items[i], lines, dev, optional)->0;
    let prev = pep508_groups(es.drop_last(), lines, dev, optional);
    let last = pep508_array(Some(es.last().value), lines, dev, optional);
    if g < es.len() - 1 {
        assert(es.drop_last()[g] == es[g]);
        lemma_pep508_groups_keep(es.drop_last(), lines, dev, optional, g, items, i);
        let k = choose|k: int| 0 <= k < prev.len() && prev[k] == d;
        assert((prev + last)[k] == d);
    } else {
        assert(es.last() == es[g]);
        lemma_pep508_items_keep(items, lines, dev, optional, i);
        let k = choose|k: int| 0 <= k < last.len() && last[k] == d;
        assert((prev + last)[prev.len() + k] == d);
    }
}

proof fn lemma_poetry_entries_keep(es: Seq<TomlNodeEntry>, lines: Seq<TextRange>, dev: bool, skip: bool, i: int)
    requires
        0 <= i < es.len(),
        !(skip && ob(&es[i].key) == sb("python")),
        poetry_entry_dep(es[i], lines, dev) is Some,
    ensures
        poetry_entries(es, lines, dev, skip).contains(poetry_entry_dep(es[i], lines, dev)->0),
    decreases es.len(),
{
    let prev = poetry_entries(es.drop_last(), lines, dev, skip);
    let d = poetry_entry_dep(es[i], lines, dev)->0;
    if i < es.len() - 1 {
        assert(es.drop_last()[i] == es[i]);
        lemma_poetry_entries_keep(es.drop_last(), lines, dev, skip, i);
        let k = choose|k: int| 0 <= k < prev.len() && prev[k] == d;
        assert(poetry_entries(es, lines, dev, skip)[k] == prev[k]);
    } else {
        assert(es.last() == es[i]);
        assert(poetry_entries(es, lines, dev, skip)[prev.len() as int] == d);
    }
}

proof fn lemma_poetry_groups_keep(gs: Seq<TomlNodeEntry>, lines: Seq<TextRange>, g: int, es: Seq<TomlNodeEntry>, i: int)
    requires
        0 <= g < gs.len(),
        gs[g].value is Table,
        node_table(node_get(gs[g].value, sb("dependencies"))) == Some(es),
        0 <= i < es.len(),
        poetry_entry_dep(es[i], lines, dev_group(ob(&gs[g].key))) is Some,
    ensures
        poetry_group_entries(gs, lines).contains(poetry_entry_dep(es[i], lines, dev_group(ob(&gs[g].key)))->0),
    decreases gs.len(),
{
    let d = poetry_entry_dep(es[i], lines, dev_group(ob(&gs[g].key)))->0;
    let prev = poetry_group_entries(gs.drop_last(), lines);
    if g < gs.len() - 1 {
        assert(gs.drop_last()[g] == gs[g]);
        lemma_poetry_groups_keep(gs.drop_last(), lines, g, es, i);
        let k = choose|k: int| 0 <= k < prev.len() && prev[k] == d;
        let last = gs.last();
        match last.value {
            TomlNode::Table(_) => {
                let t = poetry_table(node_get(last.value, sb("dependencies")), lines, dev_group(ob(&last.key)), false);
                assert((prev + t)[k] == d);
            },
            _ => {},
        }
    } else {
        assert(gs.last() == gs[g]);
        lemma_poetry_entries_keep(es, lines, dev_group(ob(&gs[g].key)), false, i);
        let t = poetry_table(node_get(gs[g].value, sb("dependencies")), lines, dev_group(ob(&gs[g].key)), false);
        let k = choose|k: int| 0 <= k < t.len() && t[k] == d;
        assert((prev + t)[prev.len() + k] == d);
    }
}

/// The parts of a `pyproject.toml`'s dependencies, in order.
proof fn lemma_pyproject_parts(content: Seq<u8>, doc: TomlDocument)
    requires
        doc.errors@.len() == 0,
    ensures
        ({
            let root = doc.root;
            let lines = ranges_of(content);
            let pep621 = if node_table(node_get(root, sb("project"))) is Some {
                pep621_deps(root, lines) + pep621_optional(root, lines)
            } else {
                Seq::empty()
            };
            let poetry = if node_table(poetry_node(root)) is Some {
                poetry_main(root, lines) + poetry_dev_legacy(root, lines) + poetry_groups(root, lines)
            } else {
                Seq::empty()
            };
            pyproject_deps(content, doc) == pep621 + poetry + pep735_groups(root, lines) + hatch_envs(
                opt_get(opt_get(node_get(root, sb("tool")), sb("hatch")), sb("envs")),
                lines,
            )
        }),
{
}

proof fn lemma_in_concat4(a: Seq<DepModel>, b: Seq<DepModel>, c: Seq<DepModel>, e: Seq<DepModel>, d: DepModel, w: int)
    requires
        0 <= w < 4,
        w == 0 ==> a.contains(d),
        w == 1 ==> b.contains(d),
        w == 2 ==> c.contains(d),
        w == 3 ==> e.contains(d),
    ensures
        (a + b + c + e).contains(d),
{
    let s = a + b + c + e;
    if w == 0 {
        let k = choose|k: int| 0 <= k < a.len() && a[k] == d;
        assert(s[k] == d);
    } else if w == 1 {
        let k = choose|k: int| 0 <= k < b.len() && b[k] == d;
        assert(s[a.len() + k] == d);
    } else if w == 2 {
        let k = choose|k: int| 0 <= k < c.len() && c[k] == d;
        assert(s[a.len() + b.len() + k] == d);
    } else {
        let k = choose|k: int| 0 <= k < e.len() && e[k] == d;
        assert(s[a.len() + b.len() + c.len() + k] == d);
    }
}

/// Every readable PEP 508 string of `[project] dependencies` of a
/// `pyproject.toml` without parse errors is one of its dependencies, neither
/// dev nor optional.
pub proof fn law_pyproject_reads_project_dependencies(content: Seq<u8>, doc: TomlDocument, items: Seq<TomlNode>, i: int)
    requires
        doc.errors@.len() == 0,
        node_table(node_get(doc.root, sb("project"))) is Some,
        node_array(opt_get(node_get(doc.root, sb("project")), sb("dependencies"))) == Some(items),
        0 <= i < items.len(),
        pep508_item_dep(items[i], ranges_of(content), false, false) is Some,
    ensures
        pyproject_deps(content, doc).contains(pep508_item_dep(items[i], ranges_of(content), false, false)->0),
        !(pep508_item_dep(items[i], ranges_of(content), false, false)->0).dev,
        !(pep508_item_dep(items[i], ranges_of(content), false, false)->0).optional,
{
    let root = doc.root;
    let lines = ranges_of(content);
    let d = pep508_item_dep(items[i], lines, false, false)->0;
    lemma_pyproject_parts(content, doc);
    lemma_pep508_items_keep(items, lines, false, false, i);
    let a = pep621_deps(root, lines);
    let b = pep621_optional(root, lines);
    let k = choose|k: int| 0 <= k < a.len() && a[k] == d;
    assert((a + b)[k] == d);
    let poetry = if node_table(poetry_node(root)) is Some {
        poetry_main(root, lines) + poetry_dev_legacy(root, lines) + poetry_groups(root, lines)
    } else {
        Seq::empty()
    };
    let h = hatch_envs(opt_get(opt_get(node_get(root, sb("tool")), sb("hatch")), sb("envs")), lines);
    lemma_in_concat4(a + b, poetry, pep735_groups(root, lines), h, d, 0);
}

/// Every readable PEP 508 string of a group of `[project.optional-dependencies]`
/// is one of the dependencies, dev and optional.
pub proof fn law_pyproject_reads_optional_dependencies(
    content: Seq<u8>,
    doc: TomlDocument,
    es: Seq<TomlNodeEntry>,
    g: int,
    items: Seq<TomlNode>,
    i: int,
)
    requires
        doc.errors@.len() == 0,
        node_table(node_get(doc.root, sb("project"))) is Some,
        node_table(opt_get(node_get(doc.root, sb("project")), sb("optional-dependencies"))) == Some(es),
        0 <= g < es.len(),
        node_array(Some(es[g].value)) == Some(items),
        0 <= i < items.len(),
        pep508_item_dep(items[i], ranges_of(content), true, true) is Some,
    ensures
        pyproject_deps(content, doc).contains(pep508_item_dep(items[i], ranges_of(content), true, true)->0),
        (pep508_item_dep(items[i], ranges_of(content), true, true)->0).dev,
        (pep508_item_dep(items[i], ranges_of(content), true, true)->0).optional,
{
    let root = doc.root;
    let lines = ranges_of(content);
    let d = pep508_item_dep(items[i], lines, true, true)->0;
    lemma_pyproject_parts(content, doc);
    lemma_pep508_groups_keep(es, lines, true, true, g, items, i);
    let a = pep621_deps(root, lines);
    let b = pep621_optional(root, lines);
    let k = choose|k: int| 0 <= k < b.len() && b[k] == d;
    assert((a + b)[a.len() + k] == d);
    let poetry = if node_table(poetry_node(root)) is Some {
        poetry_main(root, lines) + poetry_dev_legacy(root, lines) + poetry_groups(root, lines)
    } else {
        Seq::empty()
    };
    let h = hatch_envs(opt_get(opt_get(node_get(root, sb("tool")), sb("hatch")), sb("envs")), lines);
    lemma_in_concat4(a + b, poetry, pep735_groups(root, lines), h, d, 0);
}

/// Every readable entry of `[tool.poetry.dependencies]` (other than
/// `python`) and of the legacy `[tool.poetry.dev-dependencies]` is one of the
/// dependencies, dev exactly for the latter.
pub proof fn law_pyproject_reads_poetry_tables(
    content: Seq<u8>,
    doc: TomlDocument,
    dev: bool,
    es: Seq<TomlNodeEntry>,
    i: int,
)
    requires
        doc.errors@.len() == 0,
        node_table(poetry_node(doc.root)) is Some,
        node_table(opt_get(poetry_node(doc.root), if dev { sb("dev-dependencies") } else { sb("dependencies") }))
            == Some(es),
        0 <= i < es.len(),
        dev || ob(&es[i].key) != sb("python"),
        poetry_entry_dep(es[i], ranges_of(content), dev) is Some,
    ensures
        pyproject_deps(content, doc).contains(poetry_entry_dep(es[i], ranges_of(content), dev)->0),
        (poetry_entry_dep(es[i], ranges_of(content), dev)->0).dev == dev,
        (poetry_entry_dep(es[i], ranges_of(content), dev)->0).name == ob(&es[i].key),
{
    let root = doc.root;
    let lines = ranges_of(content);
    let d = poetry_entry_dep(es[i], lines, dev)->0;
    lemma_pyproject_parts(content, doc);
    lemma_poetry_entries_keep(es, lines, dev, !dev, i);
    let m = poetry_main(root, lines);
    let l = poetry_dev_legacy(root, lines);
    let gr = poetry_groups(root, lines);
    if dev {
        let k = choose|k: int| 0 <= k < l.len() && l[k] == d;
        assert((m + l + gr)[m.len() + k] == d);
    } else {
        let k = choose|k: int| 0 <= k < m.len() && m[k] == d;
        assert((m + l + gr)[k] == d);
    }
    let pep621 = if node_table(node_get(root, sb("project"))) is Some {
        pep621_deps(root, lines) + pep621_optional(root, lines)
    } else {
        Seq::empty()
    };
    let h = hatch_envs(opt_get(opt_get(node_get(root, sb("tool")), sb("hatch")), sb("envs")), lines);
    lemma_in_concat4(pep621, m + l + gr, pep735_groups(root, lines), h, d, 1);
}

/// Every readable entry of the `dependencies` table of a
/// `[tool.poetry.group.<name>]` is one of the dependencies, dev exactly for
/// the groups `dev` and `test`.
pub proof fn law_pyproject_reads_poetry_groups(
    content: Seq<u8>,
    doc: TomlDocument,
    gs: Seq<TomlNodeEntry>,
    g: int,
    es: Seq<TomlNodeEntry>,
    i: int,
)
    requires
        doc.errors@.len() == 0,
        node_table(poetry_node(doc.root)) is Some,
        node_table(opt_get(poetry_node(doc.root), sb("group"))) == Some(gs),
        0 <= g < gs.len(),
        gs[g].value is Table,
        node_table(node_get(gs[g].value, sb("dependencies"))) == Some(es),
        0 <= i < es.len(),
        poetry_entry_dep(es[i], ranges_of(content), dev_group(ob(&gs[g].key))) is Some,
    ensures
        pyproject_deps(content, doc).contains(poetry_entry_dep(es[i], ranges_of(content), dev_group(ob(&gs[g].key)))->0),
        (poetry_entry_dep(es[i], ranges_of(content), dev_group(ob(&gs[g].key)))->0).dev == (ob(&gs[g].key) == sb("dev")
            || ob(&gs[g].key) == sb("test")),
{
    let root = doc.root;
    let lines = ranges_of(content);
    let d = poetry_entry_dep(es[i], lines, dev_group(ob(&gs[g].key)))->0;
    lemma_pyproject_parts(content, doc);
    lemma_poetry_groups_keep(gs, lines, g, es, i);
    let m = poetry_main(root, lines);
    let l = poetry_dev_legacy(root, lines);
    let gr = poetry_groups(root, lines);
    let k = choose|k: int| 0 <= k < gr.len() && gr[k] == d;
    assert((m + l + gr)[m.len() + l.len() + k] == d);
    let pep621 = if node_table(node_get(root, sb("project"))) is Some {
        pep621_deps(root, lines) + pep621_optional(root, lines)
    } else {
        Seq::empty()
    };
    let h = hatch_envs(opt_get(opt_get(node_get(root, sb("tool")), sb("hatch")), sb("envs")), lines);
    lemma_in_concat4(pep621, m + l + gr, pep735_groups(root, lines), h, d, 1);
}

/// Every readable PEP 508 string of a group of `[dependency-groups]`
/// (PEP 735) is one of the dependencies.
pub proof fn law_pyproject_reads_dependency_groups(
    content: Seq<u8>,
    doc: TomlDocument,
    es: Seq<TomlNodeEntry>,
    g: int,
    items: Seq<TomlNode>,
    i: int,
)
    requires
        doc.errors@.len() == 0,
        node_table(node_get(doc.root, sb("dependency-groups"))) == Some(es),
        0 <= g < es.len(),
        node_array(Some(es[g].value)) == Some(items),
        0 <= i < items.len(),
        pep508_item_dep(items[i], ranges_of(content), false, false) is Some,
    ensures
        pyproject_deps(content, doc).contains(pep508_item_dep(items[i], ranges_of(content), false, false)->0),
{
    let root = doc.root;
    let lines = ranges_of(content);
    let d = pep508_item_dep(items[i], lines, false, false)->0;
    lemma_pyproject_parts(content, doc);
    lemma_pep508_groups_keep(es, lines, false, false, g, items, i);
    let pep621 = if node_table(node_get(root, sb("project"))) is Some {
        pep621_deps(root, lines) + pep621_optional(root, lines)
    } else {
        Seq::empty()
    };
    let poetry = if node_table(poetry_node(root)) is Some {
        poetry_main(root, lines) + poetry_dev_legacy(root, lines) + poetry_groups(root, lines)
    } else {
        Seq::empty()
    };
    let h = hatch_envs(opt_get(opt_get(node_get(root, sb("tool")), sb("hatch")), sb("envs")), lines);
    lemma_in_concat4(pep621, poetry, pep735_groups(root, lines), h, d, 2);
}

} // verus!
