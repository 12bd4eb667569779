//! The spans of `requirements.txt` dependencies: each covers exactly the
//! name or the version constraint on the dependency's line.

use vstd::prelude::*;
use crate::parsers::covers;
use crate::parsers::python::{first_op, op_at, pep508, pep_off, pep_wm, req_run, requirement};
use crate::text::{
    before_byte, find_b, lemma_find_b, lemma_find_s, lemma_skip_ws_back_bounds,
    lemma_skip_ws_bounds, lines, sb, skip_ws, trim_b, trim_end_b,
};

verus! {

proof fn lemma_before_byte_prefix(b: Seq<u8>, c: u8)
    ensures
        before_byte(b, c).len() <= b.len(),
        before_byte(b, c) == b.subrange(0, before_byte(b, c).len() as int),
{
    lemma_find_b(b, 0, c);
    if find_b(b, 0, c) is None {
        assert(b.subrange(0, b.len() as int) =~= b);
    }
}

proof fn lemma_trim_end_prefix(b: Seq<u8>)
    ensures
        trim_end_b(b).len() <= b.len(),
        trim_end_b(b) == b.subrange(0, trim_end_b(b).len() as int),
{
    lemma_skip_ws_back_bounds(b, b.len() as int);
}

proof fn lemma_trim_inner(b: Seq<u8>)
    ensures
        0 <= skip_ws(b, 0) <= b.len(),
        skip_ws(b, 0) + trim_b(b).len() <= b.len(),
        trim_b(b) == b.subrange(skip_ws(b, 0), skip_ws(b, 0) + trim_b(b).len()),
{
    lemma_skip_ws_bounds(b, 0);
    let x = b.subrange(skip_ws(b, 0), b.len() as int);
    lemma_trim_end_prefix(x);
    assert(trim_b(b) =~= b.subrange(skip_ws(b, 0), skip_ws(b, 0) + trim_b(b).len()));
}

proof fn lemma_op_at_bounds(wm: Seq<u8>, op: Seq<u8>, acc: Option<(int, int)>)
    requires
        acc matches Some(a) ==> 0 <= a.0 && a.1 >= 0 && a.0 + a.1 <= wm.len(),
    ensures
        op_at(wm, op, acc) matches Some(a) ==> 0 <= a.0 && a.1 >= 0 && a.0 + a.1 <= wm.len(),
{
    lemma_find_s(wm, 0, op);
}

proof fn lemma_first_op_bounds(wm: Seq<u8>)
    ensures
        first_op(wm) matches Some(a) ==> 0 <= a.0 && a.1 >= 0 && a.0 + a.1 <= wm.len(),
{
    let a1 = op_at(wm, sb("==="), None);
    lemma_op_at_bounds(wm, sb("==="), None);
    let a2 = op_at(wm, sb("=="), a1);
    lemma_op_at_bounds(wm, sb("=="), a1);
    let a3 = op_at(wm, sb(">="), a2);
    lemma_op_at_bounds(wm, sb(">="), a2);
    let a4 = op_at(wm, sb("<="), a3);
    lemma_op_at_bounds(wm, sb("<="), a3);
    let a5 = op_at(wm, sb("!="), a4);
    lemma_op_at_bounds(wm, sb("!="), a4);
    let a6 = op_at(wm, sb("~="), a5);
    lemma_op_at_bounds(wm, sb("~="), a5);
    let a7 = op_at(wm, sb(">"), a6);
    lemma_op_at_bounds(wm, sb(">"), a6);
    lemma_op_at_bounds(wm, sb("<"), a7);
}

proof fn lemma_pep_wm_in(d: Seq<u8>)
    ensures
        0 <= pep_off(d),
        pep_off(d) + pep_wm(d).len() <= d.len(),
        pep_wm(d) == d.subrange(pep_off(d), pep_off(d) + pep_wm(d).len()),
{
    let ts = skip_ws(d, 0);
    lemma_skip_ws_bounds(d, 0);
    let rest = d.subrange(ts, d.len() as int);
    let trimmed = trim_end_b(rest);
    lemma_trim_end_prefix(rest);
    let pre = match find_b(trimmed, 0, 0x3B) {
        Some(sc) => trimmed.subrange(0, sc),
        None => trimmed,
    };
    lemma_find_b(trimmed, 0, 0x3B);
    assert(pre.len() <= trimmed.len());
    assert(pre == trimmed.subrange(0, pre.len() as int)) by {
        if find_b(trimmed, 0, 0x3B) is None {
            assert(trimmed.subrange(0, trimmed.len() as int) =~= trimmed);
        }
    }
    let s2 = skip_ws(pre, 0);
    lemma_skip_ws_bounds(pre, 0);
    let x = pre.subrange(s2, pre.len() as int);
    lemma_trim_end_prefix(x);
    let wm = trim_end_b(x);
    assert(wm =~= d.subrange(ts + s2, ts + s2 + wm.len()));
}

proof fn lemma_pep508_covers(d: Seq<u8>)
    ensures
        pep508(d) matches Some(m) ==> {
            &&& 0 <= m.name_start <= m.name_end <= d.len()
            &&& d.subrange(m.name_start, m.name_end) == m.name
            &&& 0 <= m.v_start <= m.v_end <= d.len()
            &&& d.subrange(m.v_start, m.v_end) == m.version
        },
{
    let wm = pep_wm(d);
    let off = pep_off(d);
    lemma_pep_wm_in(d);
    lemma_first_op_bounds(wm);
    if let Some(o) = first_op(wm) {
        let op_pos = o.0;
        let op_len = o.1;
        let head = wm.subrange(0, op_pos);
        let name_substr = before_byte(head, 0x5B);
        lemma_before_byte_prefix(head, 0x5B);
        lemma_trim_inner(name_substr);
        let k = skip_ws(name_substr, 0);
        let name = trim_b(name_substr);
        let vpart = wm.subrange(op_pos + op_len, wm.len() as int);
        let vns = before_byte(vpart, 0x2C);
        lemma_before_byte_prefix(vpart, 0x2C);
        lemma_trim_end_prefix(vns);
        if pep508(d) is Some {
            assert(name =~= d.subrange(off + k, off + k + name.len()));
        }
    }
}

proof fn lemma_requirement_covers(line: Seq<u8>, n: u32, dev: bool)
    requires
        requirement(line, n, dev) is Some,
    ensures
        ({
            let d = requirement(line, n, dev)->0;
            &&& d.name_span.line == n
            &&& covers(line, d.name_span, d.name)
            &&& covers(line, d.version_span, d.version)
        }),
{
    let b = before_byte(line, 0x23);
    lemma_before_byte_prefix(line, 0x23);
    let dd = trim_end_b(b);
    lemma_trim_end_prefix(b);
    lemma_pep508_covers(dd);
    let m = pep508(dd)->0;
    assert(dd =~= line.subrange(0, dd.len() as int));
    assert(line.subrange(m.name_start, m.name_end) =~= dd.subrange(m.name_start, m.name_end));
    assert(line.subrange(m.v_start, m.v_end) =~= dd.subrange(m.v_start, m.v_end));
}

proof fn lemma_req_run_covers(ls: Seq<Seq<u8>>)
    requires
        ls.len() <= u32::MAX,
    ensures
        forall|i: int|
            0 <= i < req_run(ls).len() ==> {
                let d = #[trigger] req_run(ls)[i];
                &&& d.name_span.line < ls.len()
                &&& covers(ls[d.name_span.line as int], d.name_span, d.name)
                &&& covers(ls[d.name_span.line as int], d.version_span, d.version)
            },
    decreases ls.len(),
{
    if ls.len() > 0 {
        let p = ls.drop_last();
        lemma_req_run_covers(p);
        let deps = req_run(p);
        let l = ls.last();
        let idx = ls.len() - 1;
        assert(ls[idx] == l);
        if requirement(l, idx as u32, false) is Some {
            lemma_requirement_covers(l, idx as u32, false);
        }
        assert forall|i: int| 0 <= i < deps.len() implies ls[(#[trigger] deps[i]).name_span.line as int]
            == p[deps[i].name_span.line as int] by {}
    }
}

/// Every dependency of a `requirements.txt` names the line it was read
/// from, and its spans cover its name and its version constraint on that
/// line (for files with at most `u32::MAX` lines).
pub proof fn law_requirements_spans_cover_tokens(content: Seq<u8>)
    requires
        lines(content).len() <= u32::MAX,
    ensures
        forall|i: int|
            0 <= i < req_run(lines(content)).len() ==> {
                let d = #[trigger] req_run(lines(content))[i];
                &&& d.name_span.line < lines(content).len()
                &&& covers(lines(content)[d.name_span.line as int], d.name_span, d.name)
                &&& covers(lines(content)[d.name_span.line as int], d.version_span, d.version)
            },
{
    lemma_req_run_covers(lines(content));
}

} // verus!
