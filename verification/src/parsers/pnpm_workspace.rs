//! pnpm `pnpm-workspace.yaml` catalogs: the default `catalog:` and the named
//! `catalogs:`, in block and in flow (`{ name: version }`) style, and the
//! resolution of `catalog:` references in `package.json` dependencies.

use vstd::prelude::*;
use vstd::utf8::valid_utf8;
use crate::text::{at_boundary, bytes, find_b, find_byte, find_s, find_seq, lemma_after_ascii,
    lemma_ascii_prefix_boundary, lemma_find_b, lemma_find_s, lemma_skip_ws_back_bounds,
    lemma_skip_ws_bounds, lines, lines_from, next_line, ob, sb, skip_ws, skip_ws_from, slice,
    starts_with, starts_with_b, str_eq, to_owned_string, trim, trim_b, trim_start, trim_start_b,
    ws_len_back, ws_len_before};
use crate::parsers::{Dependency, DepModel, Parser, Span, deps_view, plain_dep};

verus! {

broadcast use vstd::utf8::encode_utf8_valid_utf8;

// ---------------------------------------------------------------------------
// Scanning flow YAML: quotes, escapes and brace depth
// ---------------------------------------------------------------------------

/// Scanner state before a byte: inside single or double quotes, right after
/// a backslash, and how many `{` are open.
pub struct ScanState {
    pub sq: bool,
    pub dq: bool,
    pub esc: bool,
    pub depth: usize,
}

/// The scanner state after the byte `c`.
pub open spec fn scan_step(st: ScanState, c: u8) -> ScanState {
    if st.esc {
        ScanState { esc: false, ..st }
    } else if c == 0x5C {
        ScanState { esc: true, ..st }
    } else if c == 0x27 && !st.dq {
        ScanState { sq: !st.sq, ..st }
    } else if c == 0x22 && !st.sq {
        ScanState { dq: !st.dq, ..st }
    } else if c == 0x7B && !st.sq && !st.dq {
        ScanState { depth: (st.depth + 1) as usize, ..st }
    } else if c == 0x7D && !st.sq && !st.dq && st.depth > 0 {
        ScanState { depth: (st.depth - 1) as usize, ..st }
    } else {
        st
    }
}

/// The scanner state before `b[i]`.
pub open spec fn scan_to(b: Seq<u8>, i: int) -> ScanState
    decreases i,
{
    if i <= 0 {
        ScanState { sq: false, dq: false, esc: false, depth: 0 }
    } else {
        scan_step(scan_to(b, i - 1), b[i - 1])
    }
}

/// `b[i]` is outside quotes, not escaped, and at brace depth 0.
pub open spec fn top_level(b: Seq<u8>, i: int) -> bool {
    let st = scan_to(b, i);
    !st.esc && !st.sq && !st.dq && st.depth == 0
}

proof fn lemma_scan_depth(b: Seq<u8>, i: int)
    requires
        0 <= i,
    ensures
        scan_to(b, i).depth <= i,
    decreases i,
{
    if i > 0 {
        lemma_scan_depth(b, i - 1);
    }
}

fn scan_advance(st: &ScanState, c: u8, i: usize) -> (r: ScanState)
    requires
        st.depth <= i,
        i < usize::MAX,
    ensures
        r == scan_step(*st, c),
        r.depth <= i + 1,
{
    if st.esc {
        ScanState { sq: st.sq, dq: st.dq, esc: false, depth: st.depth }
    } else if c == 0x5C {
        ScanState { sq: st.sq, dq: st.dq, esc: true, depth: st.depth }
    } else if c == 0x27 && !st.dq {
        ScanState { sq: !st.sq, dq: st.dq, esc: st.esc, depth: st.depth }
    } else if c == 0x22 && !st.sq {
        ScanState { sq: st.sq, dq: !st.dq, esc: st.esc, depth: st.depth }
    } else if c == 0x7B && !st.sq && !st.dq {
        ScanState { sq: st.sq, dq: st.dq, esc: st.esc, depth: st.depth + 1 }
    } else if c == 0x7D && !st.sq && !st.dq && st.depth > 0 {
        ScanState { sq: st.sq, dq: st.dq, esc: st.esc, depth: st.depth - 1 }
    } else {
        ScanState { sq: st.sq, dq: st.dq, esc: st.esc, depth: st.depth }
    }
}

/// Where an inline comment starts in `b`, searching from `i`: an unquoted,
/// unescaped `#` at the start or after whitespace; the length when none.
pub open spec fn comment_from(b: Seq<u8>, i: int) -> int
    decreases b.len() - i,
{
    if i < 0 || i >= b.len() {
        b.len() as int
    } else {
        let st = scan_to(b, i);
        if !st.esc && !st.sq && !st.dq && b[i] == 0x23 && (i == 0 || ws_len_back(b, i) > 0) {
            i
        } else {
            comment_from(b, i + 1)
        }
    }
}

/// The line without any inline YAML comment.
pub fn strip_inline_comment(line: &str) -> (r: &str)
    ensures
        sb(r) == sb(line).subrange(0, comment_from(sb(line), 0)),
{
    let b = bytes(line);
    let n = b.len();
    let mut st = ScanState { sq: false, dq: false, esc: false, depth: 0 };
    let mut i: usize = 0;
    while i < n
        invariant
            n == b@.len(),
            b@ == sb(line),
            i <= n,
            st == scan_to(b@, i as int),
            st.depth <= i,
            comment_from(b@, 0) == comment_from(b@, i as int),
        decreases n - i,
    {
        let c = b[i];
        if !st.esc && !st.sq && !st.dq && c == 0x23 && (i == 0 || ws_len_before(b, i) > 0) {
            return slice(line, 0, i);
        }
        st = scan_advance(&st, c, i);
        i = i + 1;
    }
    proof {
        assert(b@.subrange(0, n as int) =~= b@);
    }
    line
}

/// The first top-level `:` at or after `i`.
pub open spec fn top_colon_from(b: Seq<u8>, i: int) -> Option<int>
    decreases b.len() - i,
{
    if i < 0 || i >= b.len() {
        None
    } else if b[i] == 0x3A && top_level(b, i) {
        Some(i)
    } else {
        top_colon_from(b, i + 1)
    }
}

proof fn lemma_top_colon(b: Seq<u8>, i: int)
    requires
        0 <= i,
    ensures
        top_colon_from(b, i) matches Some(k) ==> i <= k < b.len() && b[k] == 0x3A,
    decreases b.len() - i,
{
    if i < b.len() && !(b[i] == 0x3A && top_level(b, i)) {
        lemma_top_colon(b, i + 1);
    }
}

/// The first `:` outside quotes and braces.
pub fn find_top_level_colon(value: &str) -> (r: Option<usize>)
    ensures
        r matches Some(k) ==> top_colon_from(sb(value), 0) == Some(k as int) && k < sb(value).len()
            && sb(value)[k as int] == 0x3A,
        r is None ==> top_colon_from(sb(value), 0) is None,
{
    let b = bytes(value);
    let n = b.len();
    let mut st = ScanState { sq: false, dq: false, esc: false, depth: 0 };
    let mut i: usize = 0;
    proof {
        lemma_top_colon(b@, 0);
    }
    while i < n
        invariant
            n == b@.len(),
            b@ == sb(value),
            i <= n,
            st == scan_to(b@, i as int),
            st.depth <= i,
            top_colon_from(b@, 0) == top_colon_from(b@, i as int),
        decreases n - i,
    {
        let c = b[i];
        if c == 0x3A && !st.esc && !st.sq && !st.dq && st.depth == 0 {
            return Some(i);
        }
        st = scan_advance(&st, c, i);
        i = i + 1;
    }
    None
}

/// A top-level `,` of flow YAML.
pub open spec fn top_comma(b: Seq<u8>, i: int) -> bool {
    b[i] == 0x2C && top_level(b, i)
}

/// The segment `[s, e)` of `b` when it is not blank.
pub open spec fn seg_if(b: Seq<u8>, s: int, e: int) -> Seq<(int, int)> {
    if trim_b(b.subrange(s, e)).len() > 0 {
        seq![(s, e)]
    } else {
        Seq::empty()
    }
}

/// The non-blank pieces of `b` between top-level commas, from the piece that
/// starts at `start`, scanning from `i`.
pub open spec fn flow_segs_from(b: Seq<u8>, start: int, i: int) -> Seq<(int, int)>
    decreases b.len() - i,
{
    if i < 0 || i >= b.len() {
        seg_if(b, start, b.len() as int)
    } else if top_comma(b, i) {
        seg_if(b, start, i) + flow_segs_from(b, i + 1, i + 1)
    } else {
        flow_segs_from(b, start, i + 1)
    }
}

/// A piece of a flow mapping and where it starts in the mapping's body.
pub struct FlowSegment<'a> {
    pub text: &'a str,
    pub start: usize,
}

/// The start and end offsets of the pieces.
pub open spec fn segs_view(v: Seq<FlowSegment>) -> Seq<(int, int)> {
    v.map_values(|s: FlowSegment| (s.start as int, s.start + sb(s.text).len()))
}

fn push_flow_segment<'a>(segments: &mut Vec<FlowSegment<'a>>, value: &'a str, start: usize, end: usize)
    requires
        start <= end <= sb(value).len(),
        at_boundary(sb(value), start as int),
        at_boundary(sb(value), end as int),
    ensures
        segs_view(final(segments)@) == segs_view(old(segments)@) + seg_if(sb(value), start as int, end as int),
        forall|k: int| 0 <= k < old(segments)@.len() ==> final(segments)@[k] == old(segments)@[k],
        final(segments)@.len() > old(segments)@.len() ==> final(segments)@.len() == old(segments)@.len() + 1
            && sb(final(segments)@.last().text) == sb(value).subrange(start as int, end as int)
            && final(segments)@.last().start == start,
{
    let text = slice(value, start, end);
    if bytes(trim(text)).len() > 0 {
        let ghost before = segs_view(segments@);
        segments.push(FlowSegment { text, start });
        proof {
            assert(segs_view(segments@) =~= before + seq![(start as int, end as int)]);
        }
    } else {
        proof {
            assert(segs_view(segments@) =~= segs_view(segments@) + Seq::<(int, int)>::empty());
        }
    }
}

/// Split flow YAML at its top-level commas, keeping the non-blank pieces.
pub fn split_flow_segments(value: &str) -> (r: Vec<FlowSegment<'_>>)
    ensures
        segs_view(r@) == flow_segs_from(sb(value), 0, 0),
        forall|k: int| 0 <= k < r@.len() ==> sb(#[trigger] r@[k].text) == sb(value).subrange(
            r@[k].start as int,
            r@[k].start + sb(r@[k].text).len(),
        ) && r@[k].start + sb(r@[k].text).len() <= sb(value).len(),
{
    let b = bytes(value);
    let n = b.len();
    let mut segments: Vec<FlowSegment> = Vec::new();
    let mut st = ScanState { sq: false, dq: false, esc: false, depth: 0 };
    let mut start: usize = 0;
    let mut i: usize = 0;
    proof {
        assert(segs_view(segments@) =~= Seq::<(int, int)>::empty());
    }
    while i < n
        invariant
            n == b@.len(),
            b@ == sb(value),
            valid_utf8(b@),
            start <= i <= n,
            at_boundary(b@, start as int),
            st == scan_to(b@, i as int),
            st.depth <= i,
            flow_segs_from(b@, 0, 0) == segs_view(segments@) + flow_segs_from(b@, start as int, i as int),
            forall|k: int| 0 <= k < segments@.len() ==> sb(#[trigger] segments@[k].text) == b@.subrange(
                segments@[k].start as int,
                segments@[k].start + sb(segments@[k].text).len(),
            ) && segments@[k].start + sb(segments@[k].text).len() <= n,
        decreases n - i,
    {
        let c = b[i];
        if c == 0x2C && !st.esc && !st.sq && !st.dq && st.depth == 0 {
            let ghost before = segs_view(segments@);
            push_flow_segment(&mut segments, value, start, i);
            proof {
                lemma_after_ascii(b@, i as int);
                assert(segs_view(segments@) + flow_segs_from(b@, i + 1, i + 1) =~= before
                    + flow_segs_from(b@, start as int, i as int));
            }
            start = i + 1;
        }
        st = scan_advance(&st, c, i);
        i = i + 1;
    }
    let ghost before = segs_view(segments@);
    push_flow_segment(&mut segments, value, start, n);
    segments
}

// ---------------------------------------------------------------------------
// Quotes
// ---------------------------------------------------------------------------

/// `v` without one pair of surrounding double quotes, else of single quotes.
pub open spec fn trim_quotes_b(v: Seq<u8>) -> Seq<u8> {
    if v.len() >= 2 && v[0] == 0x22 && v[v.len() - 1] == 0x22 {
        v.subrange(1, v.len() - 1)
    } else if v.len() >= 2 && v[0] == 0x27 && v[v.len() - 1] == 0x27 {
        v.subrange(1, v.len() - 1)
    } else {
        v
    }
}

/// Strip one pair of matching surrounding quotes.
pub fn trim_quotes(value: &str) -> (r: &str)
    ensures
        sb(r) == trim_quotes_b(sb(value)),
{
    let b = bytes(value);
    let n = b.len();
    if n >= 2 && ((b[0] == 0x22 && b[n - 1] == 0x22) || (b[0] == 0x27 && b[n - 1] == 0x27)) {
        proof {
            lemma_after_ascii(b@, 0);
        }
        slice(value, 1, n - 1)
    } else {
        value
    }
}

/// How many quote characters (`"` or `'`) `v` starts with, from `i`.
pub open spec fn lead_quotes(v: Seq<u8>, i: int) -> int
    decreases v.len() - i,
{
    if 0 <= i < v.len() && (v[i] == 0x22 || v[i] == 0x27) {
        1 + lead_quotes(v, i + 1)
    } else {
        0
    }
}

proof fn lemma_lead_quotes(v: Seq<u8>, i: int)
    requires
        0 <= i <= v.len(),
    ensures
        0 <= lead_quotes(v, i) <= v.len() - i,
    decreases v.len() - i,
{
    if i < v.len() && (v[i] == 0x22 || v[i] == 0x27) {
        lemma_lead_quotes(v, i + 1);
    }
}

fn count_lead_quotes(v: &[u8]) -> (r: usize)
    ensures
        r as int == lead_quotes(v@, 0),
        r <= v@.len(),
{
    let n = v.len();
    let mut k: usize = 0;
    proof {
        lemma_lead_quotes(v@, 0);
    }
    while k < n && (v[k] == 0x22 || v[k] == 0x27)
        invariant
            n == v@.len(),
            k <= n,
            lead_quotes(v@, 0) == k + lead_quotes(v@, k as int),
        decreases n - k,
    {
        k = k + 1;
    }
    k
}

// ---------------------------------------------------------------------------
// Catalog entries
// ---------------------------------------------------------------------------

/// The dependency a block catalog line `  name: version` declares.
pub open spec fn catalog_entry(line: Seq<u8>, ln: u32) -> Option<DepModel> {
    let t = trim_b(line.subrange(0, comment_from(line, 0)));
    match find_b(t, 0, 0x3A) {
        None => None,
        Some(c) => {
            let raw_name = trim_b(t.subrange(0, c));
            let name = trim_quotes_b(raw_name);
            let raw_version = trim_b(t.subrange(c + 1, t.len() as int));
            let version = trim_quotes_b(raw_version);
            if name.len() == 0 || version.len() == 0 {
                None
            } else {
                match (find_s(t, 0, raw_name), find_b(line, 0, 0x3A)) {
                    (Some(pn), Some(ds)) => match find_s(
                        line.subrange(ds + 1, line.len() as int),
                        0,
                        raw_version,
                    ) {
                        Some(pv) => Some(
                            plain_dep(
                                name,
                                version,
                                ln,
                                skip_ws(line, 0) + pn + lead_quotes(raw_name, 0),
                                pv + ds + 1 + lead_quotes(raw_version, 0),
                                false,
                                false,
                                false,
                            ),
                        ),
                        None => None,
                    },
                    _ => None,
                }
            }
        },
    }
}

/// A dependency whose spans lie on line `ln`, with 128-bit offsets cut to `u32`.
fn catalog_dep(name: &str, version: &str, ln: u32, name_start: u128, version_start: u128) -> (r: Dependency)
    requires
        name_start + sb(name).len() <= u128::MAX,
        version_start + sb(version).len() <= u128::MAX,
    ensures
        r@ == plain_dep(
            sb(name),
            sb(version),
            ln,
            name_start as int,
            version_start as int,
            false,
            false,
            false,
        ),
{
    let nlen = bytes(name).len() as u128;
    let vlen = bytes(version).len() as u128;
    Dependency {
        name: to_owned_string(name),
        version: to_owned_string(version),
        name_span: Span {
            line: ln,
            line_start: name_start as u32,
            line_end: (name_start + nlen) as u32,
        },
        version_span: Span {
            line: ln,
            line_start: version_start as u32,
            line_end: (version_start + vlen) as u32,
        },
        dev: false,
        optional: false,
        registry: None,
        resolved_version: None,
        has_additional_version_constraints: false,
    }
}

/// Parse one block catalog line into a dependency.
pub fn parse_catalog_entry(line_number: u32, line: &str) -> (r: Option<Dependency>)
    ensures
        match catalog_entry(sb(line), line_number) {
            None => r is None,
            Some(d) => r matches Some(x) && x@ == d,
        },
{
    let lb = bytes(line);
    let llen = lb.len();
    let indent = skip_ws_from(lb, 0);
    let without_comment = strip_inline_comment(line);
    let trimmed = trim(without_comment);
    let tb = bytes(trimmed);
    let tlen = tb.len();
    let c = match find_byte(tb, 0, 0x3A) {
        Some(c) => c,
        None => {
            return None;
        },
    };
    proof {
        lemma_find_b(tb@, 0, 0x3A);
        lemma_after_ascii(tb@, c as int);
    }
    let raw_name = trim(slice(trimmed, 0, c));
    let name = trim_quotes(raw_name);
    let raw_version = trim(slice(trimmed, c + 1, tlen));
    let version = trim_quotes(raw_version);
    if bytes(name).len() == 0 || bytes(version).len() == 0 {
        return None;
    }
    let pn = match find_seq(tb, 0, bytes(raw_name)) {
        Some(p) => p,
        None => {
            return None;
        },
    };
    let ds = match find_byte(lb, 0, 0x3A) {
        Some(d) => d,
        None => {
            return None;
        },
    };
    proof {
        lemma_find_b(lb@, 0, 0x3A);
        lemma_after_ascii(lb@, ds as int);
    }
    let after = slice(line, ds + 1, llen);
    let ab = bytes(after);
    let _alen = ab.len();
    let pv = match find_seq(ab, 0, bytes(raw_version)) {
        Some(p) => p,
        None => {
            return None;
        },
    };
    let nq = count_lead_quotes(bytes(raw_name));
    let vq = count_lead_quotes(bytes(raw_version));
    let name_start: u128 = indent as u128 + pn as u128 + nq as u128;
    let version_start: u128 = pv as u128 + ds as u128 + 1 + vq as u128;
    Some(catalog_dep(name, version, line_number, name_start, version_start))
}

/// The dependency a flow-mapping piece `name: version` declares, the piece
/// starting at offset `seg_start` of its line.
pub open spec fn flow_entry(seg: Seq<u8>, seg_start: int, ln: u32) -> Option<DepModel> {
    match top_colon_from(seg, 0) {
        None => None,
        Some(d) => {
            let name_part = seg.subrange(0, d);
            let rvp = seg.subrange(d + 1, seg.len() as int);
            let raw_name = trim_b(name_part);
            let name = trim_quotes_b(raw_name);
            let raw_version = trim_b(rvp);
            let version = trim_quotes_b(raw_version);
            if name.len() == 0 || version.len() == 0 {
                None
            } else {
                Some(
                    plain_dep(
                        name,
                        version,
                        ln,
                        seg_start + skip_ws(name_part, 0) + lead_quotes(raw_name, 0),
                        seg_start + d + 1 + skip_ws(rvp, 0) + lead_quotes(raw_version, 0),
                        false,
                        false,
                        false,
                    ),
                )
            }
        },
    }
}

/// Parse one piece of a flow mapping into a dependency.
pub fn parse_flow_catalog_entry(line_number: u32, segment: &str, segment_start: usize) -> (r: Option<Dependency>)
    ensures
        match flow_entry(sb(segment), segment_start as int, line_number) {
            None => r is None,
            Some(d) => r matches Some(x) && x@ == d,
        },
{
    let sgb = bytes(segment);
    let slen = sgb.len();
    let d = match find_top_level_colon(segment) {
        Some(d) => d,
        None => {
            return None;
        },
    };
    proof {
        lemma_after_ascii(sgb@, d as int);
    }
    let name_part = slice(segment, 0, d);
    let raw_version_part = slice(segment, d + 1, slen);
    let raw_name = trim(name_part);
    let name = trim_quotes(raw_name);
    let raw_version = trim(raw_version_part);
    let version = trim_quotes(raw_version);
    if bytes(name).len() == 0 || bytes(version).len() == 0 {
        return None;
    }
    let nlead = skip_ws_from(bytes(name_part), 0);
    let vlead = skip_ws_from(bytes(raw_version_part), 0);
    let nq = count_lead_quotes(bytes(raw_name));
    let vq = count_lead_quotes(bytes(raw_version));
    let name_start: u128 = segment_start as u128 + nlead as u128 + nq as u128;
    let version_start: u128 = segment_start as u128 + d as u128 + 1 + vlead as u128 + vq as u128;
    Some(catalog_dep(name, version, line_number, name_start, version_start))
}

proof fn lit_catalogs()
    ensures
        sb("catalogs:") == seq![99u8, 97, 116, 97, 108, 111, 103, 115, 58],
{
    reveal_strlit("catalogs:");
    assert(vstd::string::is_ascii("catalogs:"));
    assert(sb("catalogs:") =~= seq![99u8, 97, 116, 97, 108, 111, 103, 115, 58]);
}

proof fn lit_catalog()
    ensures
        sb("catalog:") == seq![99u8, 97, 116, 97, 108, 111, 103, 58],
{
    reveal_strlit("catalog:");
    assert(vstd::string::is_ascii("catalog:"));
    assert(sb("catalog:") =~= seq![99u8, 97, 116, 97, 108, 111, 103, 58]);
}

// ---------------------------------------------------------------------------
// Flow mappings `{ a: 1, b: 2 }`
// ---------------------------------------------------------------------------

/// The text between the braces of a flow mapping, and where it starts in `v`.
pub open spec fn flow_body(v: Seq<u8>) -> Option<(Seq<u8>, int)> {
    let t = trim_b(v);
    if t.len() >= 2 && t[0] == 0x7B && t[t.len() - 1] == 0x7D {
        Some((t.subrange(1, t.len() - 1), skip_ws(v, 0) + 1))
    } else {
        None
    }
}

/// The body of a flow mapping and its offset, given the offset of `value`.
pub fn flow_map_body(value: &str, value_start: usize) -> (r: Option<(&str, usize)>)
    requires
        value_start + sb(value).len() <= usize::MAX,
    ensures
        match flow_body(sb(value)) {
            None => r is None,
            Some(fb) => r matches Some(x) && sb(x.0) == fb.0 && x.1 == value_start + fb.1 && x.1
                + sb(x.0).len() <= value_start + sb(value).len(),
        },
{
    let vb = bytes(value);
    let leading = skip_ws_from(vb, 0);
    let trimmed = trim(value);
    let tb = bytes(trimmed);
    let tlen = tb.len();
    proof {
        lemma_skip_ws_bounds(vb@, 0);
        lemma_skip_ws_back_bounds(trim_start_b(vb@), trim_start_b(vb@).len() as int);
    }
    if tlen >= 2 && tb[0] == 0x7B && tb[tlen - 1] == 0x7D {
        proof {
            lemma_after_ascii(tb@, 0);
        }
        Some((slice(trimmed, 1, tlen - 1), value_start + leading + 1))
    } else {
        None
    }
}

/// The dependencies of the flow pieces `segs` of `body`, whose offset is `base`.
pub open spec fn flow_entries(body: Seq<u8>, segs: Seq<(int, int)>, base: int, ln: u32) -> Seq<DepModel>
    decreases segs.len(),
{
    if segs.len() == 0 {
        Seq::empty()
    } else {
        let prev = flow_entries(body, segs.drop_last(), base, ln);
        let se = segs.last();
        match flow_entry(body.subrange(se.0, se.1), base + se.0, ln) {
            Some(d) => prev.push(d),
            None => prev,
        }
    }
}

/// The dependencies a flow mapping lists, the mapping starting at offset `vs`.
pub open spec fn flow_deps(v: Seq<u8>, vs: int, ln: u32) -> Option<Seq<DepModel>> {
    match flow_body(v) {
        None => None,
        Some(fb) => Some(flow_entries(fb.0, flow_segs_from(fb.0, 0, 0), vs + fb.1, ln)),
    }
}

/// Parse a flow mapping of catalog entries.
pub fn parse_flow_catalog_dependencies(line_number: u32, value: &str, value_start: usize) -> (r: Option<Vec<Dependency>>)
    requires
        value_start + sb(value).len() <= usize::MAX,
    ensures
        match flow_deps(sb(value), value_start as int, line_number) {
            None => r is None,
            Some(ds) => r matches Some(v) && deps_view(v@) == ds,
        },
{
    let (body, body_start) = match flow_map_body(value, value_start) {
        Some(x) => x,
        None => {
            return None;
        },
    };
    let segments = split_flow_segments(body);
    let ghost segs = segs_view(segments@);
    let mut out: Vec<Dependency> = Vec::new();
    let mut k: usize = 0;
    proof {
        assert(deps_view(out@) =~= Seq::<DepModel>::empty());
    }
    while k < segments.len()
        invariant
            k <= segments@.len(),
            segs == segs_view(segments@),
            segs == flow_segs_from(sb(body), 0, 0),
            body_start + sb(body).len() <= usize::MAX,
            forall|j: int| 0 <= j < segments@.len() ==> sb(#[trigger] segments@[j].text) == sb(body).subrange(
                segments@[j].start as int,
                segments@[j].start + sb(segments@[j].text).len(),
            ) && segments@[j].start + sb(segments@[j].text).len() <= sb(body).len(),
            deps_view(out@) == flow_entries(sb(body), segs.take(k as int), body_start as int, line_number),
        decreases segments@.len() - k,
    {
        let seg = &segments[k];
        proof {
            assert(segs.take(k + 1).drop_last() =~= segs.take(k as int));
            assert(segs.take(k + 1).last() == segs[k as int]);
        }
        let ghost before = deps_view(out@);
        match parse_flow_catalog_entry(line_number, seg.text, body_start + seg.start) {
            Some(d) => {
                let ghost dm = d@;
                out.push(d);
                proof {
                    assert(deps_view(out@) =~= before.push(dm));
                }
            },
            None => {},
        }
        k = k + 1;
    }
    proof {
        assert(segs.take(k as int) =~= segs);
    }
    Some(out)
}

/// A named catalog: its name and the dependencies it lists.
#[derive(Debug)]
pub struct NamedCatalog {
    pub name: String,
    pub dependencies: Vec<Dependency>,
}

/// The abstract value of a [`NamedCatalog`].
pub ghost struct CatalogModel {
    pub name: Seq<u8>,
    pub deps: Seq<DepModel>,
}

impl View for NamedCatalog {
    type V = CatalogModel;

    open spec fn view(&self) -> CatalogModel {
        CatalogModel { name: ob(&self.name), deps: deps_view(self.dependencies@) }
    }
}

/// The abstract values of a list of catalogs.
pub open spec fn catalogs_view(v: Seq<NamedCatalog>) -> Seq<CatalogModel> {
    v.map_values(|c: NamedCatalog| c@)
}

/// The catalog a `name: { … }` text declares, the text starting at offset `ts`.
pub open spec fn inline_catalog(t: Seq<u8>, ts: int, ln: u32) -> Option<CatalogModel> {
    match top_colon_from(t, 0) {
        None => None,
        Some(d) => {
            let name = trim_quotes_b(trim_b(t.subrange(0, d)));
            if name.len() == 0 {
                None
            } else {
                match flow_deps(t.subrange(d + 1, t.len() as int), ts + d + 1, ln) {
                    None => None,
                    Some(deps) => Some(CatalogModel { name, deps }),
                }
            }
        },
    }
}

/// Parse a `name: { dep: version, … }` catalog.
pub fn parse_inline_named_catalog(line_number: u32, trimmed: &str, trimmed_start: usize) -> (r: Option<NamedCatalog>)
    requires
        trimmed_start + sb(trimmed).len() <= usize::MAX,
    ensures
        match inline_catalog(sb(trimmed), trimmed_start as int, line_number) {
            None => r is None,
            Some(c) => r matches Some(x) && x@ == c,
        },
{
    let tb = bytes(trimmed);
    let tlen = tb.len();
    let d = match find_top_level_colon(trimmed) {
        Some(d) => d,
        None => {
            return None;
        },
    };
    proof {
        lemma_after_ascii(tb@, d as int);
    }
    let name = trim_quotes(trim(slice(trimmed, 0, d)));
    if bytes(name).len() == 0 {
        return None;
    }
    let value = slice(trimmed, d + 1, tlen);
    match parse_flow_catalog_dependencies(line_number, value, trimmed_start + d + 1) {
        Some(dependencies) => Some(NamedCatalog { name: to_owned_string(name), dependencies }),
        None => None,
    }
}

/// The catalogs of the flow pieces `segs` of `body`, whose offset is `base`.
pub open spec fn flow_catalogs(body: Seq<u8>, segs: Seq<(int, int)>, base: int, ln: u32) -> Seq<CatalogModel>
    decreases segs.len(),
{
    if segs.len() == 0 {
        Seq::empty()
    } else {
        let prev = flow_catalogs(body, segs.drop_last(), base, ln);
        let se = segs.last();
        match inline_catalog(body.subrange(se.0, se.1), base + se.0, ln) {
            Some(c) => prev.push(c),
            None => prev,
        }
    }
}

/// The named catalogs a flow mapping of flow mappings lists.
pub open spec fn flow_named(v: Seq<u8>, vs: int, ln: u32) -> Option<Seq<CatalogModel>> {
    match flow_body(v) {
        None => None,
        Some(fb) => Some(flow_catalogs(fb.0, flow_segs_from(fb.0, 0, 0), vs + fb.1, ln)),
    }
}

/// Parse a flow mapping of named catalogs.
pub fn parse_flow_named_catalogs(line_number: u32, value: &str, value_start: usize) -> (r: Option<Vec<NamedCatalog>>)
    requires
        value_start + sb(value).len() <= usize::MAX,
    ensures
        match flow_named(sb(value), value_start as int, line_number) {
            None => r is None,
            Some(cs) => r matches Some(v) && catalogs_view(v@) == cs,
        },
{
    let (body, body_start) = match flow_map_body(value, value_start) {
        Some(x) => x,
        None => {
            return None;
        },
    };
    let segments = split_flow_segments(body);
    let ghost segs = segs_view(segments@);
    let mut out: Vec<NamedCatalog> = Vec::new();
    let mut k: usize = 0;
    proof {
        assert(catalogs_view(out@) =~= Seq::<CatalogModel>::empty());
    }
    while k < segments.len()
        invariant
            k <= segments@.len(),
            segs == segs_view(segments@),
            segs == flow_segs_from(sb(body), 0, 0),
            body_start + sb(body).len() <= usize::MAX,
            forall|j: int| 0 <= j < segments@.len() ==> sb(#[trigger] segments@[j].text) == sb(body).subrange(
                segments@[j].start as int,
                segments@[j].start + sb(segments@[j].text).len(),
            ) && segments@[j].start + sb(segments@[j].text).len() <= sb(body).len(),
            catalogs_view(out@) == flow_catalogs(sb(body), segs.take(k as int), body_start as int, line_number),
        decreases segments@.len() - k,
    {
        let seg = &segments[k];
        proof {
            assert(segs.take(k + 1).drop_last() =~= segs.take(k as int));
            assert(segs.take(k + 1).last() == segs[k as int]);
        }
        let ghost before = catalogs_view(out@);
        match parse_inline_named_catalog(line_number, seg.text, body_start + seg.start) {
            Some(c) => {
                let ghost cm = c@;
                out.push(c);
                proof {
                    assert(catalogs_view(out@) =~= before.push(cm));
                }
            },
            None => {},
        }
        k = k + 1;
    }
    proof {
        assert(segs.take(k as int) =~= segs);
    }
    Some(out)
}

/// `catalog: { … }` on one line.
pub open spec fn inline_default(t: Seq<u8>, ts: int, ln: u32) -> Option<Seq<DepModel>> {
    if starts_with_b(t, sb("catalog:")) {
        flow_deps(t.subrange(8, t.len() as int), ts + 8, ln)
    } else {
        None
    }
}

/// `catalogs: { … }` on one line.
pub open spec fn inline_named(t: Seq<u8>, ts: int, ln: u32) -> Option<Seq<CatalogModel>> {
    if starts_with_b(t, sb("catalogs:")) {
        flow_named(t.subrange(9, t.len() as int), ts + 9, ln)
    } else {
        None
    }
}

/// Parse a one-line `catalog: { … }`.
pub fn parse_inline_default_catalog(line_number: u32, trimmed: &str, trimmed_start: usize) -> (r: Option<Vec<Dependency>>)
    requires
        trimmed_start + sb(trimmed).len() <= usize::MAX,
    ensures
        match inline_default(sb(trimmed), trimmed_start as int, line_number) {
            None => r is None,
            Some(ds) => r matches Some(v) && deps_view(v@) == ds,
        },
{
    let tb = bytes(trimmed);
    proof {
        lit_catalog();
    }
    if !starts_with(tb, "catalog:".as_bytes()) {
        return None;
    }
    proof {
        lemma_ascii_prefix_boundary(tb@, sb("catalog:"));
    }
    let value = slice(trimmed, 8, tb.len());
    parse_flow_catalog_dependencies(line_number, value, trimmed_start + 8)
}

/// Parse a one-line `catalogs: { … }`.
pub fn parse_inline_named_catalogs(line_number: u32, trimmed: &str, trimmed_start: usize) -> (r: Option<Vec<NamedCatalog>>)
    requires
        trimmed_start + sb(trimmed).len() <= usize::MAX,
    ensures
        match inline_named(sb(trimmed), trimmed_start as int, line_number) {
            None => r is None,
            Some(cs) => r matches Some(v) && catalogs_view(v@) == cs,
        },
{
    let tb = bytes(trimmed);
    proof {
        lit_catalogs();
    }
    if !starts_with(tb, "catalogs:".as_bytes()) {
        return None;
    }
    proof {
        lemma_ascii_prefix_boundary(tb@, sb("catalogs:"));
    }
    let value = slice(trimmed, 9, tb.len());
    parse_flow_named_catalogs(line_number, value, trimmed_start + 9)
}

/// The name a `name:` header line (nothing after the colon) opens.
pub open spec fn named_header(t: Seq<u8>) -> Option<Seq<u8>> {
    match find_b(t, 0, 0x3A) {
        None => None,
        Some(c) => {
            let name = trim_quotes_b(trim_b(t.subrange(0, c)));
            if name.len() > 0 && trim_b(t.subrange(c + 1, t.len() as int)).len() == 0 {
                Some(name)
            } else {
                None
            }
        },
    }
}

/// The catalog name of a `name:` header line.
pub fn parse_named_catalog_header(line: &str) -> (r: Option<&str>)
    ensures
        match named_header(sb(line)) {
            None => r is None,
            Some(n) => r matches Some(x) && sb(x) == n,
        },
{
    let lb = bytes(line);
    let llen = lb.len();
    let c = match find_byte(lb, 0, 0x3A) {
        Some(c) => c,
        None => {
            return None;
        },
    };
    proof {
        lemma_find_b(lb@, 0, 0x3A);
        lemma_after_ascii(lb@, c as int);
    }
    let name = trim_quotes(trim(slice(line, 0, c)));
    let value = trim(slice(line, c + 1, llen));
    if bytes(name).len() > 0 && bytes(value).len() == 0 {
        Some(name)
    } else {
        None
    }
}

// ---------------------------------------------------------------------------
// Line walkers
// ---------------------------------------------------------------------------

/// Where the default-catalog walker stands after some lines.
pub ghost struct DefaultCatalogState {
    pub in_catalog: bool,
    pub catalog_indent: int,
    pub deps: Seq<DepModel>,
}

/// A line's text without its inline comment.
pub open spec fn code_of(l: Seq<u8>) -> Seq<u8> {
    l.subrange(0, comment_from(l, 0))
}

/// One line, the `idx`-th, of `pnpm-workspace.yaml`, for the default catalog.
pub open spec fn default_step(st: DefaultCatalogState, l: Seq<u8>, idx: int) -> DefaultCatalogState {
    let wc = code_of(l);
    let t = trim_b(wc);
    if t.len() == 0 || t[0] == 0x23 {
        st
    } else {
        let ts = skip_ws(wc, 0);
        let indent = skip_ws(l, 0);
        let in_cat = st.in_catalog && !(indent <= st.catalog_indent);
        if !in_cat {
            if t == sb("catalog:") {
                DefaultCatalogState { in_catalog: true, catalog_indent: indent, deps: st.deps }
            } else {
                match inline_default(t, ts, idx as u32) {
                    Some(fd) => DefaultCatalogState { in_catalog: false, deps: st.deps + fd, ..st },
                    None => DefaultCatalogState { in_catalog: false, ..st },
                }
            }
        } else {
            match catalog_entry(l, idx as u32) {
                Some(d) => DefaultCatalogState { deps: st.deps.push(d), ..st },
                None => st,
            }
        }
    }
}

/// The walker's state after the lines `ls`.
pub open spec fn default_run(ls: Seq<Seq<u8>>) -> DefaultCatalogState
    decreases ls.len(),
{
    if ls.len() == 0 {
        DefaultCatalogState { in_catalog: false, catalog_indent: 0, deps: Seq::empty() }
    } else {
        default_step(default_run(ls.drop_last()), ls.last(), ls.len() - 1)
    }
}

/// The dependencies of the default catalog of `pnpm-workspace.yaml` content.
pub open spec fn default_catalog(content: Seq<u8>) -> Seq<DepModel> {
    default_run(lines(content)).deps
}

/// Facts about a line's comment-free text and its trimmed start.
proof fn lemma_code_bounds(l: Seq<u8>)
    ensures
        0 <= comment_from(l, 0) <= l.len(),
        ({
            let wc = code_of(l);
            let ts = skip_ws(wc, 0);
            0 <= ts <= wc.len() && ts + trim_b(wc).len() <= wc.len()
        }),
{
    lemma_comment_from(l, 0);
    let wc = code_of(l);
    lemma_skip_ws_bounds(wc, 0);
    lemma_skip_ws_back_bounds(trim_start_b(wc), trim_start_b(wc).len() as int);
}

proof fn lemma_comment_from(b: Seq<u8>, i: int)
    requires
        0 <= i <= b.len(),
    ensures
        i <= comment_from(b, i) <= b.len(),
    decreases b.len() - i,
{
    if i < b.len() {
        let st = scan_to(b, i);
        if !(!st.esc && !st.sq && !st.dq && b[i] == 0x23 && (i == 0 || ws_len_back(b, i) > 0)) {
            lemma_comment_from(b, i + 1);
        }
    }
}

/// The dependencies of the default `catalog:` of a workspace file, in block
/// or in flow style.
pub fn parse_default_catalog(content: &str) -> (deps: Vec<Dependency>)
    ensures
        deps_view(deps@) == default_catalog(sb(content)),
{
    let b = bytes(content);
    let n = b.len();
    let ghost ls = lines(b@);
    let mut dependencies: Vec<Dependency> = Vec::new();
    let mut in_catalog = false;
    let mut catalog_indent: usize = 0;
    let mut p: usize = 0;
    let mut i: usize = 0;
    proof {
        assert(deps_view(dependencies@) =~= Seq::<DepModel>::empty());
    }
    while p < n
        invariant
            n == b@.len(),
            b@ == sb(content),
            valid_utf8(b@),
            ls == lines(b@),
            p <= n,
            at_boundary(b@, p as int),
            i <= ls.len(),
            i <= p,
            lines_from(b@, p as int) == ls.skip(i as int),
            default_run(ls.take(i as int)) == (DefaultCatalogState {
                in_catalog,
                catalog_indent: catalog_indent as int,
                deps: deps_view(dependencies@),
            }),
        decreases n - p,
    {
        let (ce, next) = next_line(b, p);
        let line = slice(content, p, ce);
        let ghost st = default_run(ls.take(i as int));
        proof {
            assert(ls.skip(i as int).len() >= 1);
            assert(ls.skip(i as int)[0] == sb(line));
            assert(ls.skip(i + 1) =~= ls.skip(i as int).skip(1));
            assert(lines_from(b@, next as int) =~= ls.skip(i as int).skip(1));
            assert(ls.take(i + 1).drop_last() =~= ls.take(i as int));
            assert(ls.take(i + 1).last() == sb(line));
            lemma_code_bounds(sb(line));
        }
        let line_num = i as u32;
        let without_comment = strip_inline_comment(line);
        let trimmed = trim(without_comment);
        let tb = bytes(trimmed);
        if !(tb.len() == 0 || tb[0] == 0x23) {
            let trimmed_start = skip_ws_from(bytes(without_comment), 0);
            let indent = skip_ws_from(bytes(line), 0);
            if in_catalog && indent <= catalog_indent {
                in_catalog = false;
            }
            if !in_catalog {
                if str_eq(trimmed, "catalog:") {
                    in_catalog = true;
                    catalog_indent = indent;
                } else {
                    match parse_inline_default_catalog(line_num, trimmed, trimmed_start) {
                        Some(mut fd) => {
                            let ghost before = deps_view(dependencies@);
                            let ghost more = deps_view(fd@);
                            dependencies.append(&mut fd);
                            proof {
                                assert(deps_view(dependencies@) =~= before + more);
                            }
                        },
                        None => {},
                    }
                }
            } else {
                match parse_catalog_entry(line_num, line) {
                    Some(d) => {
                        let ghost before = deps_view(dependencies@);
                        let ghost dm = d@;
                        dependencies.push(d);
                        proof {
                            assert(deps_view(dependencies@) =~= before.push(dm));
                        }
                    },
                    None => {},
                }
            }
        }
        proof {
            assert(default_step(st, sb(line), i as int) == (DefaultCatalogState {
                in_catalog,
                catalog_indent: catalog_indent as int,
                deps: deps_view(dependencies@),
            }));
        }
        p = next;
        i = i + 1;
    }
    proof {
        assert(ls.skip(i as int).len() == 0);
        assert(ls.take(i as int) =~= ls);
    }
    dependencies
}

/// Where the named-catalogs walker stands after some lines.
pub ghost struct NamedCatalogState {
    pub catalogs: Seq<CatalogModel>,
    pub current: Option<CatalogModel>,
    pub in_catalogs: bool,
    pub catalogs_indent: int,
    pub named_indent: int,
}

/// The catalog being read, if any, appended to those finished.
pub open spec fn flush_catalog(cur: Option<CatalogModel>, cs: Seq<CatalogModel>) -> Seq<CatalogModel> {
    match cur {
        Some(c) => cs.push(c),
        None => cs,
    }
}

/// One line, the `idx`-th, of `pnpm-workspace.yaml`, for the named catalogs.
pub open spec fn named_step(st: NamedCatalogState, l: Seq<u8>, idx: int) -> NamedCatalogState {
    let wc = code_of(l);
    let t = trim_b(wc);
    if t.len() == 0 || t[0] == 0x23 {
        st
    } else {
        let ts = skip_ws(wc, 0);
        let indent = skip_ws(l, 0);
        let leave = st.in_catalogs && indent <= st.catalogs_indent;
        let s1 = if leave {
            NamedCatalogState {
                catalogs: flush_catalog(st.current, st.catalogs),
                current: None,
                in_catalogs: false,
                ..st
            }
        } else {
            st
        };
        if !s1.in_catalogs {
            if t == sb("catalogs:") {
                NamedCatalogState { in_catalogs: true, catalogs_indent: indent, ..s1 }
            } else {
                match inline_named(t, ts, idx as u32) {
                    Some(fc) => NamedCatalogState { catalogs: s1.catalogs + fc, ..s1 },
                    None => s1,
                }
            }
        } else {
            let s2 = if indent <= s1.named_indent && s1.current is Some {
                NamedCatalogState {
                    catalogs: flush_catalog(s1.current, s1.catalogs),
                    current: None,
                    ..s1
                }
            } else {
                s1
            };
            match s2.current {
                None => match inline_catalog(t, ts, idx as u32) {
                    Some(c) => NamedCatalogState { catalogs: s2.catalogs.push(c), ..s2 },
                    None => match named_header(t) {
                        Some(name) => NamedCatalogState {
                            current: Some(CatalogModel { name, deps: Seq::empty() }),
                            named_indent: indent,
                            ..s2
                        },
                        None => s2,
                    },
                },
                Some(cur) => match catalog_entry(l, idx as u32) {
                    Some(d) => NamedCatalogState {
                        current: Some(CatalogModel { deps: cur.deps.push(d), ..cur }),
                        ..s2
                    },
                    None => s2,
                },
            }
        }
    }
}

/// The walker's state after the lines `ls`.
pub open spec fn named_run(ls: Seq<Seq<u8>>) -> NamedCatalogState
    decreases ls.len(),
{
    if ls.len() == 0 {
        NamedCatalogState {
            catalogs: Seq::empty(),
            current: None,
            in_catalogs: false,
            catalogs_indent: 0,
            named_indent: 0,
        }
    } else {
        named_step(named_run(ls.drop_last()), ls.last(), ls.len() - 1)
    }
}

/// The named catalogs of `pnpm-workspace.yaml` content, in order.
pub open spec fn named_catalogs(content: Seq<u8>) -> Seq<CatalogModel> {
    let st = named_run(lines(content));
    flush_catalog(st.current, st.catalogs)
}

/// The abstract value of an optional catalog.
pub open spec fn opt_catalog(c: Option<NamedCatalog>) -> Option<CatalogModel> {
    match c {
        Some(x) => Some(x@),
        None => None,
    }
}

fn finish_catalog(current: Option<NamedCatalog>, catalogs: &mut Vec<NamedCatalog>)
    ensures
        catalogs_view(final(catalogs)@) == flush_catalog(opt_catalog(current), catalogs_view(old(catalogs)@)),
{
    match current {
        Some(c) => {
            let ghost cm = c@;
            catalogs.push(c);
            proof {
                assert(catalogs_view(catalogs@) =~= catalogs_view(old(catalogs)@).push(cm));
            }
        },
        None => {},
    }
}

/// The named `catalogs:` of a workspace file, each with its dependencies.
#[verifier::rlimit(40)]
pub fn parse_named_catalog_collections(content: &str) -> (r: Vec<NamedCatalog>)
    ensures
        catalogs_view(r@) == named_catalogs(sb(content)),
{
    let b = bytes(content);
    let n = b.len();
    let ghost ls = lines(b@);
    let mut catalogs: Vec<NamedCatalog> = Vec::new();
    let mut current: Option<NamedCatalog> = None;
    let mut in_catalogs = false;
    let mut catalogs_indent: usize = 0;
    let mut named_catalog_indent: usize = 0;
    let mut p: usize = 0;
    let mut i: usize = 0;
    proof {
        assert(catalogs_view(catalogs@) =~= Seq::<CatalogModel>::empty());
    }
    while p < n
        invariant
            n == b@.len(),
            b@ == sb(content),
            valid_utf8(b@),
            ls == lines(b@),
            p <= n,
            at_boundary(b@, p as int),
            i <= ls.len(),
            i <= p,
            lines_from(b@, p as int) == ls.skip(i as int),
            named_run(ls.take(i as int)) == (NamedCatalogState {
                catalogs: catalogs_view(catalogs@),
                current: opt_catalog(current),
                in_catalogs,
                catalogs_indent: catalogs_indent as int,
                named_indent: named_catalog_indent as int,
            }),
        decreases n - p,
    {
        let (ce, next) = next_line(b, p);
        let line = slice(content, p, ce);
        let ghost st = named_run(ls.take(i as int));
        proof {
            assert(ls.skip(i as int).len() >= 1);
            assert(ls.skip(i as int)[0] == sb(line));
            assert(ls.skip(i + 1) =~= ls.skip(i as int).skip(1));
            assert(lines_from(b@, next as int) =~= ls.skip(i as int).skip(1));
            assert(ls.take(i + 1).drop_last() =~= ls.take(i as int));
            assert(ls.take(i + 1).last() == sb(line));
            lemma_code_bounds(sb(line));
        }
        let line_num = i as u32;
        let without_comment = strip_inline_comment(line);
        let trimmed = trim(without_comment);
        let tb = bytes(trimmed);
        if !(tb.len() == 0 || tb[0] == 0x23) {
            let trimmed_start = skip_ws_from(bytes(without_comment), 0);
            let indent = skip_ws_from(bytes(line), 0);
            if in_catalogs && indent <= catalogs_indent {
                in_catalogs = false;
                let cur = current.take();
                finish_catalog(cur, &mut catalogs);
            }
            if !in_catalogs {
                if str_eq(trimmed, "catalogs:") {
                    in_catalogs = true;
                    catalogs_indent = indent;
                } else {
                    match parse_inline_named_catalogs(line_num, trimmed, trimmed_start) {
                        Some(mut fc) => {
                            let ghost before = catalogs_view(catalogs@);
                            let ghost more = catalogs_view(fc@);
                            catalogs.append(&mut fc);
                            proof {
                                assert(catalogs_view(catalogs@) =~= before + more);
                            }
                        },
                        None => {},
                    }
                }
            } else {
                if indent <= named_catalog_indent && current.is_some() {
                    let cur = current.take();
                    finish_catalog(cur, &mut catalogs);
                }
                match current.take() {
                    None => {
                        match parse_inline_named_catalog(line_num, trimmed, trimmed_start) {
                            Some(c) => {
                                let ghost before = catalogs_view(catalogs@);
                                let ghost cm = c@;
                                catalogs.push(c);
                                proof {
                                    assert(catalogs_view(catalogs@) =~= before.push(cm));
                                }
                            },
                            None => {
                                match parse_named_catalog_header(trimmed) {
                                    Some(name) => {
                                        let c = NamedCatalog {
                                            name: to_owned_string(name),
                                            dependencies: Vec::new(),
                                        };
                                        proof {
                                            assert(c@.deps =~= Seq::<DepModel>::empty());
                                        }
                                        current = Some(c);
                                        named_catalog_indent = indent;
                                    },
                                    None => {},
                                }
                            },
                        }
                    },
                    Some(mut cur) => {
                        match parse_catalog_entry(line_num, line) {
                            Some(d) => {
                                let ghost before = cur@;
                                let ghost dm = d@;
                                cur.dependencies.push(d);
                                proof {
                                    assert(deps_view(cur.dependencies@) =~= before.deps.push(dm));
                                }
                            },
                            None => {},
                        }
                        current = Some(cur);
                    },
                }
            }
        }
        proof {
            assert(named_step(st, sb(line), i as int) == (NamedCatalogState {
                catalogs: catalogs_view(catalogs@),
                current: opt_catalog(current),
                in_catalogs,
                catalogs_indent: catalogs_indent as int,
                named_indent: named_catalog_indent as int,
            }));
        }
        p = next;
        i = i + 1;
    }
    proof {
        assert(ls.skip(i as int).len() == 0);
        assert(ls.take(i as int) =~= ls);
    }
    finish_catalog(current, &mut catalogs);
    catalogs
}

/// The dependencies of the catalogs `cs`, catalog after catalog.
pub open spec fn all_catalog_deps(cs: Seq<CatalogModel>) -> Seq<DepModel>
    decreases cs.len(),
{
    if cs.len() == 0 {
        Seq::empty()
    } else {
        all_catalog_deps(cs.drop_last()) + cs.last().deps
    }
}

proof fn lemma_all_catalog_deps_front(cs: Seq<CatalogModel>)
    requires
        cs.len() > 0,
    ensures
        all_catalog_deps(cs) == cs[0].deps + all_catalog_deps(cs.drop_first()),
    decreases cs.len(),
{
    if cs.len() == 1 {
        assert(cs.drop_last() =~= Seq::<CatalogModel>::empty());
        assert(cs.drop_first() =~= Seq::<CatalogModel>::empty());
        assert(cs[0].deps + Seq::<DepModel>::empty() =~= cs[0].deps);
        assert(Seq::<DepModel>::empty() + cs[0].deps =~= cs[0].deps);
    } else {
        lemma_all_catalog_deps_front(cs.drop_last());
        assert(cs.drop_last().drop_first() =~= cs.drop_first().drop_last());
        assert(cs.drop_first().last() == cs.last());
        assert(cs.drop_last()[0] == cs[0]);
    }
}

/// The dependencies of every named catalog of a workspace file.
pub fn parse_named_catalogs(content: &str) -> (r: Vec<Dependency>)
    ensures
        deps_view(r@) == all_catalog_deps(named_catalogs(sb(content))),
{
    let mut catalogs = parse_named_catalog_collections(content);
    let ghost all = catalogs_view(catalogs@);
    let mut out: Vec<Dependency> = Vec::new();
    proof {
        assert(deps_view(out@) + all_catalog_deps(all) =~= all_catalog_deps(all));
    }
    while catalogs.len() > 0
        invariant
            deps_view(out@) + all_catalog_deps(catalogs_view(catalogs@)) == all_catalog_deps(all),
        decreases catalogs@.len(),
    {
        let ghost cv = catalogs_view(catalogs@);
        let mut c = catalogs.remove(0);
        proof {
            lemma_all_catalog_deps_front(cv);
            assert(catalogs_view(catalogs@) =~= cv.drop_first());
        }
        let ghost before = deps_view(out@);
        let ghost more = deps_view(c.dependencies@);
        out.append(&mut c.dependencies);
        proof {
            assert(deps_view(out@) =~= before + more);
            assert(before + more + all_catalog_deps(cv.drop_first()) =~= before + (more
                + all_catalog_deps(cv.drop_first())));
        }
    }
    proof {
        assert(catalogs_view(catalogs@) =~= Seq::<CatalogModel>::empty());
        assert(deps_view(out@) + Seq::<DepModel>::empty() =~= deps_view(out@));
    }
    out
}

/// Parser for pnpm workspace catalog dependency files.
#[derive(Debug, Default)]
pub struct PnpmWorkspaceParser;

impl PnpmWorkspaceParser {
    /// Creates a new [`PnpmWorkspaceParser`] instance.
    pub fn new() -> Self {
        Self
    }
}

/// The catalog dependencies of a workspace file: the default catalog's, then
/// every named catalog's.
pub open spec fn workspace_deps(content: Seq<u8>) -> Seq<DepModel> {
    default_catalog(content) + all_catalog_deps(named_catalogs(content))
}

impl Parser for PnpmWorkspaceParser {
    fn parse(&self, content: &str) -> (deps: Vec<Dependency>)
        ensures
            deps_view(deps@) == workspace_deps(sb(content)),
    {
        let mut dependencies = parse_default_catalog(content);
        let mut named = parse_named_catalogs(content);
        let ghost a = deps_view(dependencies@);
        let ghost c = deps_view(named@);
        dependencies.append(&mut named);
        proof {
            assert(deps_view(dependencies@) =~= a + c);
        }
        dependencies
    }
}

// ---------------------------------------------------------------------------
// `catalog:` references
// ---------------------------------------------------------------------------

/// The first dependency named `name`.
pub open spec fn first_named(ds: Seq<DepModel>, name: Seq<u8>) -> Option<DepModel>
    decreases ds.len(),
{
    if ds.len() == 0 {
        None
    } else if ds[0].name == name {
        Some(ds[0])
    } else {
        first_named(ds.drop_first(), name)
    }
}

/// The first catalog named `name`.
pub open spec fn first_catalog(cs: Seq<CatalogModel>, name: Seq<u8>) -> Option<CatalogModel>
    decreases cs.len(),
{
    if cs.len() == 0 {
        None
    } else if cs[0].name == name {
        Some(cs[0])
    } else {
        first_catalog(cs.drop_first(), name)
    }
}

/// A dependency with its `catalog:` / `catalog:<name>` version resolved
/// against the default catalog `cat` and the named catalogs `named`.
pub open spec fn resolve_one(d: DepModel, cat: Seq<DepModel>, named: Seq<CatalogModel>) -> DepModel {
    if d.version == sb("catalog:") && first_named(cat, d.name) is Some {
        DepModel { resolved_version: Some(first_named(cat, d.name)->0.version), ..d }
    } else if starts_with_b(d.version, sb("catalog:")) {
        match first_catalog(named, d.version.subrange(8, d.version.len() as int)) {
            Some(nc) => match first_named(nc.deps, d.name) {
                Some(cd) => DepModel { resolved_version: Some(cd.version), ..d },
                None => d,
            },
            None => d,
        }
    } else {
        d
    }
}

fn find_named<'a>(ds: &'a Vec<Dependency>, name: &str) -> (r: Option<&'a Dependency>)
    ensures
        match first_named(deps_view(ds@), sb(name)) {
            None => r is None,
            Some(d) => r matches Some(x) && x@ == d,
        },
{
    let mut k: usize = 0;
    proof {
        assert(deps_view(ds@).skip(0) =~= deps_view(ds@));
    }
    while k < ds.len()
        invariant
            k <= ds@.len(),
            first_named(deps_view(ds@), sb(name)) == first_named(deps_view(ds@).skip(k as int), sb(name)),
        decreases ds@.len() - k,
    {
        proof {
            assert(deps_view(ds@).skip(k as int).drop_first() =~= deps_view(ds@).skip(k + 1));
            assert(deps_view(ds@).skip(k as int)[0] == ds@[k as int]@);
        }
        if str_eq(ds[k].name.as_str(), name) {
            return Some(&ds[k]);
        }
        k = k + 1;
    }
    None
}

fn find_catalog<'a>(cs: &'a Vec<NamedCatalog>, name: &str) -> (r: Option<&'a NamedCatalog>)
    ensures
        match first_catalog(catalogs_view(cs@), sb(name)) {
            None => r is None,
            Some(c) => r matches Some(x) && x@ == c,
        },
{
    let mut k: usize = 0;
    proof {
        assert(catalogs_view(cs@).skip(0) =~= catalogs_view(cs@));
    }
    while k < cs.len()
        invariant
            k <= cs@.len(),
            first_catalog(catalogs_view(cs@), sb(name)) == first_catalog(catalogs_view(cs@).skip(k as int), sb(name)),
        decreases cs@.len() - k,
    {
        proof {
            assert(catalogs_view(cs@).skip(k as int).drop_first() =~= catalogs_view(cs@).skip(k + 1));
            assert(catalogs_view(cs@).skip(k as int)[0] == cs@[k as int]@);
        }
        if str_eq(cs[k].name.as_str(), name) {
            return Some(&cs[k]);
        }
        k = k + 1;
    }
    None
}

fn resolve_dependency(dependency: &mut Dependency, catalog: &Vec<Dependency>, named: &Vec<NamedCatalog>)
    ensures
        final(dependency)@ == resolve_one(old(dependency)@, deps_view(catalog@), catalogs_view(named@)),
{
    let mut resolved: Option<String> = None;
    if str_eq(dependency.version.as_str(), "catalog:") {
        match find_named(catalog, dependency.name.as_str()) {
            Some(cd) => {
                resolved = Some(cd.version.clone());
            },
            None => {},
        }
    }
    if resolved.is_none() {
        let vb = bytes(dependency.version.as_str());
        proof {
            lit_catalog();
        }
        if starts_with(vb, "catalog:".as_bytes()) {
            proof {
                lemma_ascii_prefix_boundary(vb@, sb("catalog:"));
            }
            let catalog_name = slice(dependency.version.as_str(), 8, vb.len());
            match find_catalog(named, catalog_name) {
                Some(nc) => {
                    match find_named(&nc.dependencies, dependency.name.as_str()) {
                        Some(cd) => {
                            resolved = Some(cd.version.clone());
                        },
                        None => {},
                    }
                },
                None => {},
            }
        }
    }
    match resolved {
        Some(v) => {
            dependency.resolved_version = Some(v);
        },
        None => {},
    }
}

/// Resolve npm `catalog:` dependency references against a pnpm workspace file.
///
/// `catalog:` takes the version of the default catalog, `catalog:<name>`
/// that of the named catalog; the version goes to `resolved_version`.
/// Without workspace content the dependencies come back unchanged.
pub fn resolve_catalog_references(dependencies: Vec<Dependency>, workspace_content: Option<&str>) -> (r: Vec<Dependency>)
    ensures
        match workspace_content {
            None => deps_view(r@) == deps_view(dependencies@),
            Some(ws) => deps_view(r@) == deps_view(dependencies@).map_values(
                |d: DepModel| resolve_one(d, default_catalog(sb(ws)), named_catalogs(sb(ws))),
            ),
        },
{
    let ws = match workspace_content {
        Some(w) => w,
        None => {
            return dependencies;
        },
    };
    let catalog_dependencies = parse_default_catalog(ws);
    let named_catalogs_vec = parse_named_catalog_collections(ws);
    let ghost cat = deps_view(catalog_dependencies@);
    let ghost named = catalogs_view(named_catalogs_vec@);
    let ghost orig = deps_view(dependencies@);
    let mut rest = dependencies;
    let mut reversed: Vec<Dependency> = Vec::new();
    while rest.len() > 0
        invariant
            deps_view(rest@) + deps_view(reversed@).reverse() == orig,
        decreases rest@.len(),
    {
        let ghost rv = deps_view(rest@);
        let ghost revv = deps_view(reversed@);
        let d = rest.pop().unwrap();
        let ghost dm = d@;
        reversed.push(d);
        proof {
            assert(deps_view(rest@) =~= rv.drop_last());
            assert(deps_view(reversed@) =~= revv.push(dm));
            assert(revv.push(dm).reverse() =~= seq![dm] + revv.reverse());
            assert(rv =~= rv.drop_last().push(dm));
            assert(deps_view(rest@) + deps_view(reversed@).reverse() =~= rv + revv.reverse());
        }
    }
    proof {
        assert(deps_view(rest@) =~= Seq::<DepModel>::empty());
        assert(deps_view(reversed@).reverse() =~= orig);
    }
    let mut out: Vec<Dependency> = Vec::new();
    while reversed.len() > 0
        invariant
            deps_view(out@) + deps_view(reversed@).reverse().map_values(
                |d: DepModel| resolve_one(d, cat, named),
            ) == orig.map_values(|d: DepModel| resolve_one(d, cat, named)),
            cat == deps_view(catalog_dependencies@),
            named == catalogs_view(named_catalogs_vec@),
        decreases reversed@.len(),
    {
        let ghost revv = deps_view(reversed@);
        let mut d = reversed.pop().unwrap();
        let ghost dm = d@;
        resolve_dependency(&mut d, &catalog_dependencies, &named_catalogs_vec);
        let ghost before = deps_view(out@);
        let ghost rm = d@;
        out.push(d);
        proof {
            assert(deps_view(reversed@) =~= revv.drop_last());
            assert(revv =~= revv.drop_last().push(dm));
            assert(revv.reverse() =~= seq![dm] + revv.drop_last().reverse());
            assert(revv.reverse().map_values(|d: DepModel| resolve_one(d, cat, named)) =~= seq![rm]
                + revv.drop_last().reverse().map_values(|d: DepModel| resolve_one(d, cat, named)));
            assert(deps_view(out@) =~= before.push(rm));
            assert(deps_view(out@) + deps_view(reversed@).reverse().map_values(
                |d: DepModel| resolve_one(d, cat, named),
            ) =~= before + revv.reverse().map_values(|d: DepModel| resolve_one(d, cat, named)));
        }
    }
    proof {
        assert(deps_view(reversed@).reverse().map_values(|d: DepModel| resolve_one(d, cat, named))
            =~= Seq::<DepModel>::empty());
        assert(deps_view(out@) + Seq::<DepModel>::empty() =~= deps_view(out@));
    }
    out
}

/// Catalog resolution only ever fills in `resolved_version`: the declared
/// name, version, spans and flags stay as they were, and a dependency whose
/// version is not a `catalog:` reference is left untouched.
pub proof fn law_catalog_resolution_keeps_declaration(d: DepModel, cat: Seq<DepModel>, named: Seq<CatalogModel>)
    ensures
        ({
            let r = resolve_one(d, cat, named);
            &&& r.name == d.name
            &&& r.version == d.version
            &&& r.name_span == d.name_span
            &&& r.version_span == d.version_span
            &&& r.dev == d.dev
            &&& r.optional == d.optional
            &&& r.registry == d.registry
        }),
        !starts_with_b(d.version, sb("catalog:")) ==> resolve_one(d, cat, named) == d,
{
    if d.version == sb("catalog:") {
        assert(d.version.subrange(0, sb("catalog:").len() as int) =~= sb("catalog:"));
    }
}

proof fn lemma_first_named(ds: Seq<DepModel>, name: Seq<u8>)
    ensures
        first_named(ds, name) matches Some(x) ==> exists|i: int|
            0 <= i < ds.len() && ds[i] == x && x.name == name && forall|j: int| 0 <= j < i ==> (#[trigger] ds[j]).name != name,
    decreases ds.len(),
{
    if ds.len() > 0 && ds[0].name != name {
        lemma_first_named(ds.drop_first(), name);
        if let Some(x) = first_named(ds, name) {
            let i = choose|i: int| 0 <= i < ds.drop_first().len() && ds.drop_first()[i] == x && x.name == name
                && forall|j: int| 0 <= j < i ==> (#[trigger] ds.drop_first()[j]).name != name;
            assert(ds[i + 1] == x);
            assert forall|j: int| 0 <= j < i + 1 implies (#[trigger] ds[j]).name != name by {
                if j > 0 {
                    assert(ds[j] == ds.drop_first()[j - 1]);
                }
            }
        }
    } else if ds.len() > 0 {
        assert(ds[0] == first_named(ds, name)->0);
    }
}

proof fn lemma_first_catalog(cs: Seq<CatalogModel>, name: Seq<u8>)
    ensures
        first_catalog(cs, name) matches Some(x) ==> exists|i: int|
            0 <= i < cs.len() && cs[i] == x && x.name == name && forall|j: int| 0 <= j < i ==> (#[trigger] cs[j]).name != name,
    decreases cs.len(),
{
    if cs.len() > 0 && cs[0].name != name {
        lemma_first_catalog(cs.drop_first(), name);
        if let Some(x) = first_catalog(cs, name) {
            let i = choose|i: int| 0 <= i < cs.drop_first().len() && cs.drop_first()[i] == x && x.name == name
                && forall|j: int| 0 <= j < i ==> (#[trigger] cs.drop_first()[j]).name != name;
            assert(cs[i + 1] == x);
            assert forall|j: int| 0 <= j < i + 1 implies (#[trigger] cs[j]).name != name by {
                if j > 0 {
                    assert(cs[j] == cs.drop_first()[j - 1]);
                }
            }
        }
    } else if cs.len() > 0 {
        assert(cs[0] == first_catalog(cs, name)->0);
    }
}

/// `v` is the version of the first entry named `name` in `ds`.
pub open spec fn first_entry_version(ds: Seq<DepModel>, name: Seq<u8>, v: Seq<u8>) -> bool {
    exists|i: int|
        0 <= i < ds.len() && ds[i].name == name && ds[i].version == v && forall|j: int|
            0 <= j < i ==> (#[trigger] ds[j]).name != name
}

/// A catalog reference takes the version of the first entry of its name:
/// when resolution changes a dependency, its version is `catalog:` and the
/// default catalog's first entry of that name has the resolved version, or
/// its version is `catalog:<N>` and the first entry of that name in the
/// first catalog named `N` has it.
pub proof fn law_catalog_first_entry(d: DepModel, cat: Seq<DepModel>, named: Seq<CatalogModel>)
    ensures
        resolve_one(d, cat, named) != d ==> (resolve_one(d, cat, named).resolved_version matches Some(v) && (
            (d.version == sb("catalog:") && first_entry_version(cat, d.name, v))
            || (starts_with_b(d.version, sb("catalog:")) && exists|c: int|
                0 <= c < named.len() && named[c].name == d.version.subrange(8, d.version.len() as int)
                    && (forall|j: int| 0 <= j < c ==> (#[trigger] named[j]).name != named[c].name)
                    && first_entry_version(named[c].deps, d.name, v)))),
{
    lemma_first_named(cat, d.name);
    let n = d.version.subrange(8, d.version.len() as int);
    lemma_first_catalog(named, n);
    if let Some(nc) = first_catalog(named, n) {
        lemma_first_named(nc.deps, d.name);
    }
}

} // verus!
