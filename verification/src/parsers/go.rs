//! Go module files (`go.mod`).
//!
//! Recognises both single-line and block `require` directives. Indirect
//! dependencies are surfaced with `optional = true`; `replace` directives and
//! comment-only lines are skipped.

use vstd::prelude::*;
use vstd::utf8::valid_utf8;
use crate::text::{at_boundary, bytes, contains, contains_b, find_s, find_seq, first_token,
    first_word, lemma_ascii_prefix_boundary, lemma_find_s, lines, lines_from, next_line, sb,
    slice, starts_with, starts_with_b, str_eq, to_owned_string, trim, trim_b, trim_end, trim_end_b,
    trim_start, trim_start_b};
use crate::parsers::{covers, Dependency, DepModel, Parser, Span, deps_view, plain_dep};

verus! {

broadcast use vstd::utf8::encode_utf8_valid_utf8;

/// Parser for Go `go.mod` dependency files.
#[derive(Debug, Default)]
pub struct GoParser;

impl GoParser {
    /// Creates a new [`GoParser`] instance.
    pub fn new() -> Self {
        Self
    }
}

proof fn lit_require_sp()
    ensures
        sb("require ") == seq![114u8, 101, 113, 117, 105, 114, 101, 32],
{
    reveal_strlit("require ");
    assert(vstd::string::is_ascii("require "));
    assert(sb("require ") =~= seq![114u8, 101, 113, 117, 105, 114, 101, 32]);
}

/// First index at or after `i` holding a space or a tab.
pub open spec fn find_blank(b: Seq<u8>, i: int) -> Option<int>
    decreases b.len() - i,
{
    if i < 0 || i >= b.len() {
        None
    } else if b[i] == 0x20 || b[i] == 0x09 {
        Some(i)
    } else {
        find_blank(b, i + 1)
    }
}

proof fn lemma_find_blank(b: Seq<u8>, i: int)
    requires
        0 <= i,
    ensures
        find_blank(b, i) matches Some(k) ==> i <= k < b.len() && (b[k] == 0x20 || b[k] == 0x09),
    decreases b.len() - i,
{
    if 0 <= i < b.len() && !(b[i] == 0x20 || b[i] == 0x09) {
        lemma_find_blank(b, i + 1);
    }
}

/// The dependency for `module` and `version` with their positions in `line`:
/// the module's first occurrence, then the version's first occurrence after
/// the module's end (offsets kept as `u32`, so wrapping past `u32::MAX`).
pub open spec fn go_dep(line: Seq<u8>, module: Seq<u8>, version: Seq<u8>, line_num: u32, indirect: bool) -> Option<DepModel> {
    match find_s(line, 0, module) {
        None => None,
        Some(ns) => {
            let ss = ((ns + module.len()) as u32) as int;
            if ss > line.len() || !at_boundary(line, ss) {
                None
            } else {
                match find_s(line.subrange(ss, line.len() as int), 0, version) {
                    None => None,
                    Some(rel) => Some(plain_dep(module, version, line_num, ns, ss + rel, false, indirect, false)),
                }
            }
        },
    }
}

/// The text of a requirement without any `//` comment.
pub open spec fn go_strip_comment(c: Seq<u8>) -> Seq<u8> {
    match find_s(c, 0, sb("//")) {
        Some(pos) => trim_end_b(c.subrange(0, pos)),
        None => c,
    }
}

/// The dependency a `module/path v1.2.3 [// indirect]` entry declares.
pub open spec fn go_require(line: Seq<u8>, c: Seq<u8>, line_num: u32) -> Option<DepModel> {
    if c.len() == 0 || starts_with_b(c, sb("//")) || starts_with_b(c, sb("replace")) {
        None
    } else {
        let indirect = contains_b(c, sb("// indirect"));
        let wc = go_strip_comment(c);
        match find_blank(wc, 0) {
            None => None,
            Some(sp) => {
                let module = wc.subrange(0, sp);
                let version = trim_start_b(wc.subrange(sp, wc.len() as int));
                if !(version.len() > 0 && version[0] == 0x76) || contains_b(version, seq![0x20u8]) {
                    match first_token(version) {
                        None => None,
                        Some(v) => if v.len() > 0 && v[0] == 0x76 {
                            go_dep(line, module, v, line_num, indirect)
                        } else {
                            None
                        },
                    }
                } else {
                    go_dep(line, module, version, line_num, indirect)
                }
            },
        }
    }
}

/// Resolves byte positions for `module_name` and `version` within `line` and
/// constructs the [`Dependency`].
pub fn parse_require_with_positions(
    line: &str,
    module_name: &str,
    version: &str,
    line_num: u32,
    is_indirect: bool,
) -> (r: Option<Dependency>)
    ensures
        match go_dep(sb(line), sb(module_name), sb(version), line_num, is_indirect) {
            None => r is None,
            Some(d) => r matches Some(x) && x@ == d,
        },
{
    let lb = bytes(line);
    let llen = lb.len();
    let mb = bytes(module_name);
    let mlen = mb.len();
    let name_start = match find_seq(lb, 0, mb) {
        Some(p) => p,
        None => {
            return None;
        },
    };
    let name_end: u32 = (name_start + mlen) as u32;
    let search_start = name_end as usize;
    if search_start > llen || !(search_start == llen || !(0x80 <= lb[search_start]
        && lb[search_start] <= 0xBF)) {
        return None;
    }
    let rest = slice(line, search_start, llen);
    let vb = bytes(version);
    let vlen = vb.len();
    let rb = bytes(rest);
    let _rlen = rb.len();
    let rel = match find_seq(rb, 0, vb) {
        Some(p) => p,
        None => {
            return None;
        },
    };
    let version_start = search_start + rel;
    Some(
        Dependency {
            name: to_owned_string(module_name),
            version: to_owned_string(version),
            name_span: Span {
                line: line_num,
                line_start: name_start as u32,
                line_end: name_end,
            },
            version_span: Span {
                line: line_num,
                line_start: version_start as u32,
                line_end: (version_start + vlen) as u32,
            },
            dev: false,
            optional: is_indirect,
            registry: None,
            resolved_version: None,
            has_additional_version_constraints: false,
        },
    )
}

/// Parses a single `require` entry (standalone or inside a block).
///
/// Expected format: `module/path v1.2.3 [// indirect]`
///
/// Returns `None` for comments, blank lines, and `replace` directives.
pub fn parse_require_line(line: &str, content: &str, line_num: u32) -> (r: Option<Dependency>)
    ensures
        match go_require(sb(line), sb(content), line_num) {
            None => r is None,
            Some(d) => r matches Some(x) && x@ == d,
        },
{
    let cb = bytes(content);
    if cb.len() == 0 || starts_with(cb, "//".as_bytes()) || starts_with(cb, "replace".as_bytes()) {
        return None;
    }
    let is_indirect = contains(cb, "// indirect".as_bytes());
    let without_comment = match find_seq(cb, 0, "//".as_bytes()) {
        Some(pos) => {
            proof {
                lemma_find_s(cb@, 0, sb("//"));
                reveal_strlit("//");
                assert(vstd::string::is_ascii("//"));
                assert(sb("//") =~= seq![47u8, 47]);
                assert(cb@[pos as int] == cb@.subrange(pos as int, pos + 2)[0]);
            }
            trim_end(slice(content, 0, pos))
        },
        None => content,
    };
    let wb = bytes(without_comment);
    let wlen = wb.len();
    let mut i: usize = 0;
    while i < wlen && !(wb[i] == 0x20 || wb[i] == 0x09)
        invariant
            wlen == wb@.len(),
            i <= wlen,
            find_blank(wb@, 0) == find_blank(wb@, i as int),
        decreases wlen - i,
    {
        i = i + 1;
    }
    if i == wlen {
        return None;
    }
    let space_pos = i;
    let module_name = slice(without_comment, 0, space_pos);
    let version = trim_start(slice(without_comment, space_pos, wlen));
    let verb = bytes(version);
    let space: [u8; 1] = [0x20];
    proof {
        assert(space@ =~= seq![0x20u8]);
    }
    if !(verb.len() > 0 && verb[0] == 0x76) || contains(verb, space.as_slice()) {
        let v = match first_word(version) {
            Some(v) => v,
            None => {
                return None;
            },
        };
        let vb2 = bytes(v);
        if !(vb2.len() > 0 && vb2[0] == 0x76) {
            return None;
        }
        return parse_require_with_positions(line, module_name, v, line_num, is_indirect);
    }
    parse_require_with_positions(line, module_name, version, line_num, is_indirect)
}

/// Where the line walker of `go.mod` stands after some lines.
pub ghost struct GoState {
    pub in_block: bool,
    pub deps: Seq<DepModel>,
}

/// The dependency list `deps` with `d` appended when there is one.
pub open spec fn push_opt(deps: Seq<DepModel>, d: Option<DepModel>) -> Seq<DepModel> {
    match d {
        Some(x) => deps.push(x),
        None => deps,
    }
}

/// One line, the `idx`-th, of `go.mod`.
pub open spec fn go_step(st: GoState, l: Seq<u8>, idx: int) -> GoState {
    let t = trim_b(l);
    if t.len() == 0 || starts_with_b(t, sb("//")) {
        st
    } else if t == sb("require (") {
        GoState { in_block: true, ..st }
    } else if t == sb(")") {
        GoState { in_block: false, ..st }
    } else if starts_with_b(t, sb("require ")) {
        let rest = t.subrange(8, t.len() as int);
        if rest.len() > 0 && rest[0] == 0x28 {
            st
        } else {
            GoState { deps: push_opt(st.deps, go_require(l, rest, idx as u32)), ..st }
        }
    } else if st.in_block {
        GoState { deps: push_opt(st.deps, go_require(l, t, idx as u32)), ..st }
    } else {
        st
    }
}

/// The walker's state after the lines `ls`.
pub open spec fn go_run(ls: Seq<Seq<u8>>) -> GoState
    decreases ls.len(),
{
    if ls.len() == 0 {
        GoState { in_block: false, deps: Seq::empty() }
    } else {
        go_step(go_run(ls.drop_last()), ls.last(), ls.len() - 1)
    }
}

/// The dependencies required by `go.mod` content.
pub open spec fn go_deps(content: Seq<u8>) -> Seq<DepModel> {
    go_run(lines(content)).deps
}

fn push_dep(deps: &mut Vec<Dependency>, d: Option<Dependency>)
    ensures
        deps_view(final(deps)@) == push_opt(deps_view(old(deps)@), match d {
            Some(x) => Some(x@),
            None => None,
        }),
{
    match d {
        Some(x) => {
            let ghost before = deps_view(deps@);
            let ghost xm = x@;
            deps.push(x);
            proof {
                assert(deps_view(deps@) =~= before.push(xm));
            }
        },
        None => {},
    }
}

impl Parser for GoParser {
    fn parse(&self, content: &str) -> (deps: Vec<Dependency>)
        ensures
            deps_view(deps@) == go_deps(sb(content)),
    {
        let b = bytes(content);
        let n = b.len();
        let ghost ls = lines(b@);
        let mut dependencies: Vec<Dependency> = Vec::new();
        let mut in_require_block = false;
        let mut p: usize = 0;
        let mut i: usize = 0;
        proof {
            lit_require_sp();
            assert(deps_view(dependencies@) =~= Seq::<DepModel>::empty());
        }
        while p < n
            invariant
                n == b@.len(),
                b@ == sb(content),
                valid_utf8(b@),
                ls == lines(b@),
                p <= n,
                at_boundary(b@, p as int),
                i <= ls.len(),
                i <= p,
                lines_from(b@, p as int) == ls.skip(i as int),
                sb("require ") == seq![114u8, 101, 113, 117, 105, 114, 101, 32],
                go_run(ls.take(i as int)) == (GoState {
                    in_block: in_require_block,
                    deps: deps_view(dependencies@),
                }),
            decreases n - p,
        {
            let (ce, next) = next_line(b, p);
            let line = slice(content, p, ce);
            let ghost st = go_run(ls.take(i as int));
            proof {
                assert(ls.skip(i as int).len() >= 1);
                assert(ls.skip(i as int)[0] == sb(line));
                assert(ls.skip(i + 1) =~= ls.skip(i as int).skip(1));
                assert(lines_from(b@, next as int) =~= ls.skip(i as int).skip(1));
                assert(ls.take(i + 1).drop_last() =~= ls.take(i as int));
                assert(ls.take(i + 1).last() == sb(line));
            }
            let line_num = i as u32;
            let trimmed = trim(line);
            let tb = bytes(trimmed);
            if tb.len() == 0 || starts_with(tb, "//".as_bytes()) {
            } else if str_eq(trimmed, "require (") {
                in_require_block = true;
            } else if str_eq(trimmed, ")") {
                in_require_block = false;
            } else if starts_with(tb, "require ".as_bytes()) {
                proof {
                    lemma_ascii_prefix_boundary(tb@, sb("require "));
                }
                let rest = slice(trimmed, 8, tb.len());
                let rb = bytes(rest);
                if !(rb.len() > 0 && rb[0] == 0x28) {
                    let d = parse_require_line(line, rest, line_num);
                    push_dep(&mut dependencies, d);
                }
            } else if in_require_block {
                let d = parse_require_line(line, trimmed, line_num);
                push_dep(&mut dependencies, d);
            }
            proof {
                assert(go_step(st, sb(line), i as int) == (GoState {
                    in_block: in_require_block,
                    deps: deps_view(dependencies@),
                }));
            }
            p = next;
            i = i + 1;
        }
        proof {
            assert(ls.skip(i as int).len() == 0);
            assert(ls.take(i as int) =~= ls);
        }
        dependencies
    }
}


proof fn lemma_go_dep_covers(line: Seq<u8>, module: Seq<u8>, version: Seq<u8>, n: u32, ind: bool)
    requires
        line.len() <= u32::MAX,
        go_dep(line, module, version, n, ind) is Some,
    ensures
        ({
            let d = go_dep(line, module, version, n, ind)->0;
            &&& d.name == module
            &&& d.version == version
            &&& d.name_span.line == n
            &&& d.version_span.line == n
            &&& covers(line, d.name_span, module)
            &&& covers(line, d.version_span, version)
        }),
{
    lemma_find_s(line, 0, module);
    let ns = find_s(line, 0, module)->0;
    let ss = ((ns + module.len()) as u32) as int;
    let rest = line.subrange(ss, line.len() as int);
    lemma_find_s(rest, 0, version);
    let rel = find_s(rest, 0, version)->0;
    assert(rest.subrange(rel, rel + version.len()) =~= line.subrange(ss + rel, ss + rel + version.len()));
}

proof fn lemma_go_require_covers(line: Seq<u8>, c: Seq<u8>, n: u32)
    requires
        line.len() <= u32::MAX,
        go_require(line, c, n) is Some,
    ensures
        ({
            let d = go_require(line, c, n)->0;
            &&& d.name_span.line == n
            &&& d.version_span.line == n
            &&& covers(line, d.name_span, d.name)
            &&& covers(line, d.version_span, d.version)
        }),
{
    let indirect = contains_b(c, sb("// indirect"));
    let wc = go_strip_comment(c);
    let sp = find_blank(wc, 0)->0;
    let module = wc.subrange(0, sp);
    let version = trim_start_b(wc.subrange(sp, wc.len() as int));
    if !(version.len() > 0 && version[0] == 0x76) || contains_b(version, seq![0x20u8]) {
        let v = first_token(version)->0;
        lemma_go_dep_covers(line, module, v, n, indirect);
    } else {
        lemma_go_dep_covers(line, module, version, n, indirect);
    }
}

proof fn lemma_go_run_covers(ls: Seq<Seq<u8>>)
    requires
        ls.len() <= u32::MAX,
        forall|k: int| 0 <= k < ls.len() ==> (#[trigger] ls[k]).len() <= u32::MAX,
    ensures
        forall|i: int|
            0 <= i < go_run(ls).deps.len() ==> {
                let d = #[trigger] go_run(ls).deps[i];
                &&& d.name_span.line < ls.len()
                &&& d.version_span.line == d.name_span.line
                &&& covers(ls[d.name_span.line as int], d.name_span, d.name)
                &&& covers(ls[d.name_span.line as int], d.version_span, d.version)
            },
    decreases ls.len(),
{
    if ls.len() > 0 {
        let p = ls.drop_last();
        assert forall|k: int| 0 <= k < p.len() implies (#[trigger] p[k]).len() <= u32::MAX by {
            assert(p[k] == ls[k]);
        }
        lemma_go_run_covers(p);
        let st = go_run(p);
        let l = ls.last();
        let idx = ls.len() - 1;
        assert(ls[idx] == l);
        let t = trim_b(l);
        let rest = t.subrange(8, t.len() as int);
        if go_require(l, rest, idx as u32) is Some {
            lemma_go_require_covers(l, rest, idx as u32);
        }
        if go_require(l, t, idx as u32) is Some {
            lemma_go_require_covers(l, t, idx as u32);
        }
        assert forall|i: int| 0 <= i < st.deps.len() implies ls[(#[trigger] st.deps[i]).name_span.line as int]
            == p[st.deps[i].name_span.line as int] by {}
    }
}

/// Every dependency of a `go.mod` names the line it was read from, and its
/// spans cover exactly its module path and its version on that line (for
/// files whose line count and line lengths fit in a `u32`).
pub proof fn law_go_spans_cover_tokens(content: Seq<u8>)
    requires
        lines(content).len() <= u32::MAX,
        forall|k: int| 0 <= k < lines(content).len() ==> (#[trigger] lines(content)[k]).len() <= u32::MAX,
    ensures
        forall|i: int|
            0 <= i < go_deps(content).len() ==> {
                let d = #[trigger] go_deps(content)[i];
                &&& d.name_span.line < lines(content).len()
                &&& covers(lines(content)[d.name_span.line as int], d.name_span, d.name)
                &&& covers(lines(content)[d.name_span.line as int], d.version_span, d.version)
            },
{
    lemma_go_run_covers(lines(content));
}

} // verus!
