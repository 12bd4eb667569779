//! Parser for Ruby `Gemfile` files (Bundler format).
//!
//! Supports `gem 'name', 'version'` and `gem "name", "version"` declarations,
//! the parenthesised form `gem('name', 'version')`, and
//! `group :development, :test do … end` blocks — gems inside `dev`/`test`
//! groups are emitted with `dev = true`. Gems whose second argument is not a
//! string (e.g. `git:` or `path:` options) are skipped.

use vstd::prelude::*;
use vstd::utf8::valid_utf8;
use crate::text::{ends_with, ends_with_b, 
    lemma_find_b, lemma_find_s,
    at_boundary, bytes, contains, contains_b, find_b, find_byte, find_s, find_seq,
    lemma_ascii_prefix_boundary, lemma_next_boundary, lemma_skip_blanks, lines, lines_from,
    next_line, ob, quoted_bytes, sb, skip_blanks, skip_blanks_from, slice, starts_with,
    starts_with_b, sub_string, trim, trim_b, trim_start, trim_start_b,
};
use crate::parsers::{covers, Dependency, DepModel, Parser, Span, deps_view, plain_dep};

verus! {

broadcast use vstd::utf8::encode_utf8_valid_utf8, vstd::string::is_ascii_spec_bytes;

/// Parser for Ruby `Gemfile` dependency files.
#[derive(Debug, Default)]
pub struct RubyParser;

impl RubyParser {
    /// Creates a new [`RubyParser`] instance.
    pub fn new() -> Self {
        RubyParser
    }
}

// ---------------------------------------------------------------------------
// Specification
// ---------------------------------------------------------------------------

/// A single or double quote.
pub open spec fn is_quote(x: u8) -> bool {
    x == '\'' as u8 || x == '"' as u8
}

/// The quoted string that starts (after blanks) at `start`: its content and
/// the position just after its closing quote.
pub open spec fn quoted_at(b: Seq<u8>, start: int) -> Option<(Seq<u8>, int)> {
    let i = skip_blanks(b, start);
    if i >= b.len() || !is_quote(b[i]) {
        None
    } else {
        match find_b(b, i + 1, b[i]) {
            Some(j) => Some((b.subrange(i + 1, j), j + 1)),
            None => None,
        }
    }
}

/// Where `needle` lies in `line`: inside single quotes first, then inside
/// double quotes, then anywhere.
pub open spec fn quoted_pos(line: Seq<u8>, needle: Seq<u8>) -> Option<int> {
    match find_s(line, 0, seq!['\'' as u8] + needle + seq!['\'' as u8]) {
        Some(p) => Some(p + 1),
        None => match find_s(line, 0, seq!['"' as u8] + needle + seq!['"' as u8]) {
            Some(p) => Some(p + 1),
            None => find_s(line, 0, needle),
        },
    }
}

/// An ASCII letter, an ASCII digit or `_`.
pub open spec fn is_ident_byte(x: u8) -> bool {
    ('0' as u8 <= x <= '9' as u8) || ('A' as u8 <= x <= 'Z' as u8) || ('a' as u8 <= x
        <= 'z' as u8) || x == '_' as u8
}

/// End of the run of identifier bytes starting at `i`.
pub open spec fn ident_end(b: Seq<u8>, i: int) -> int
    decreases b.len() - i,
{
    if 0 <= i < b.len() && is_ident_byte(b[i]) {
        ident_end(b, i + 1)
    } else {
        i
    }
}

/// A trailing argument that is an options hash: `{ ... }`, `:key => ...` or `key: ...`.
pub open spec fn options_arg(tail: Seq<u8>) -> bool {
    let a = trim_start_b(tail);
    if a.len() > 0 && a[0] == '{' as u8 {
        true
    } else if a.len() > 0 && a[0] == ':' as u8 {
        let sym = a.subrange(1, a.len() as int);
        let k = ident_end(sym, 0);
        k > 0 && starts_with_b(trim_start_b(sym.subrange(k, sym.len() as int)), sb("=>"))
    } else {
        let k = ident_end(a, 0);
        k > 0 && k < a.len() && a[k] == ':' as u8
    }
}

/// After the version argument ending at `index`, another positional argument
/// follows that is not an options hash.
pub open spec fn trailing_arg(b: Seq<u8>, index: int) -> bool {
    let i = skip_blanks(b, index);
    if i >= b.len() || b[i] != ',' as u8 {
        false
    } else {
        let j = skip_blanks(b, i + 1);
        let tail = b.subrange(j, b.len() as int);
        tail.len() == 0 || !options_arg(tail)
    }
}

/// What the argument list of a `gem` declaration yields.
pub ghost struct GemArgs {
    pub name: Seq<u8>,
    pub version: Seq<u8>,
    pub name_start: int,
    pub version_start: int,
    pub additional: bool,
}

/// Parses the arguments `a` of a `gem` declaration on `line`.
pub open spec fn gem_args(line: Seq<u8>, a: Seq<u8>) -> Option<GemArgs> {
    match quoted_at(a, 0) {
        None => None,
        Some((name, ne)) => match find_b(a, ne, ',' as u8) {
            None => None,
            Some(c) => {
                let idx = skip_blanks(a, c + 1);
                if idx >= a.len() || !is_quote(a[idx]) {
                    None
                } else {
                    match quoted_at(a, idx) {
                        None => None,
                        Some((version, ve)) => {
                            if version.len() == 0 || find_b(version, 0, ':' as u8) is Some {
                                None
                            } else {
                                match (quoted_pos(line, name), quoted_pos(line, version)) {
                                    (Some(ns), Some(vs)) => Some(
                                        GemArgs {
                                            name,
                                            version,
                                            name_start: ns,
                                            version_start: vs,
                                            additional: trailing_arg(a, ve),
                                        },
                                    ),
                                    _ => None,
                                }
                            }
                        },
                    }
                }
            },
        },
    }
}

/// The arguments of a trimmed `gem` line: after `gem(` (without one closing
/// parenthesis) or after `gem `.
pub open spec fn gem_after(t: Seq<u8>) -> Option<Seq<u8>> {
    if starts_with_b(t, sb("gem(")) {
        let rest = t.subrange(4, t.len() as int);
        if rest.len() > 0 && rest.last() == ')' as u8 {
            Some(rest.drop_last())
        } else {
            Some(rest)
        }
    } else if starts_with_b(t, sb("gem ")) {
        Some(t.subrange(4, t.len() as int))
    } else {
        None
    }
}

/// The dependency declared by a `gem` line, if any.
pub open spec fn gem_decl(line: Seq<u8>, line_num: u32, dev: bool) -> Option<DepModel> {
    match gem_after(trim_b(line)) {
        None => None,
        Some(a) => match gem_args(line, a) {
            None => None,
            Some(g) => Some(
                plain_dep(
                    g.name,
                    g.version,
                    line_num,
                    g.name_start,
                    g.version_start,
                    dev,
                    false,
                    g.additional,
                ),
            ),
        },
    }
}

/// A `group` line names a development or test group.
pub open spec fn group_is_dev(t: Seq<u8>) -> bool {
    ||| contains_b(t, sb(":development"))
    ||| contains_b(t, sb(":test"))
    ||| contains_b(t, sb("'development'"))
    ||| contains_b(t, sb("\"development\""))
    ||| contains_b(t, sb("'test'"))
    ||| contains_b(t, sb("\"test\""))
}

/// A line that opens a `do ... end` block other than a group
/// (`platforms :mri do`, `install_if -> { ... } do`, `source "..." do |s|`).
pub open spec fn opens_block(t: Seq<u8>) -> bool {
    ends_with_b(t, sb(" do")) || contains_b(t, sb(" do |"))
}

/// The parser state after a line, and the dependency the line declares. The
/// state is the block depth at which the outermost development group opened
/// (0 outside such a group) and the number of open `do ... end` blocks; every
/// `end` closes the innermost block.
pub open spec fn gemfile_line(dev_depth: int, depth: int, line: Seq<u8>, idx: int) -> (
    int,
    int,
    Option<DepModel>,
) {
    let t = trim_b(line);
    if t.len() == 0 || t[0] == '#' as u8 {
        (dev_depth, depth, None)
    } else if starts_with_b(t, sb("group")) {
        if contains_b(t, sb("do")) {
            (if dev_depth == 0 && group_is_dev(t) {
                depth + 1
            } else {
                dev_depth
            }, depth + 1, None)
        } else {
            (dev_depth, depth, None)
        }
    } else if t == sb("end") {
        if depth > 0 {
            (if dev_depth >= depth {
                0
            } else {
                dev_depth
            }, depth - 1, None)
        } else {
            (dev_depth, depth, None)
        }
    } else if opens_block(t) {
        (dev_depth, depth + 1, None)
    } else {
        (dev_depth, depth, gem_decl(line, idx as u32, dev_depth > 0))
    }
}

/// The state and dependencies after the lines `ls` of a Gemfile.
pub open spec fn gemfile_run(ls: Seq<Seq<u8>>) -> (int, int, Seq<DepModel>)
    decreases ls.len(),
{
    if ls.len() == 0 {
        (0, 0, Seq::empty())
    } else {
        let (dev, depth, deps) = gemfile_run(ls.drop_last());
        let (dev2, depth2, d) = gemfile_line(dev, depth, ls.last(), ls.len() - 1);
        (dev2, depth2, match d {
            Some(m) => deps.push(m),
            None => deps,
        })
    }
}

/// The dependencies declared in a Gemfile.
pub open spec fn gemfile_deps(content: Seq<u8>) -> Seq<DepModel> {
    gemfile_run(lines(content)).2
}

// ---------------------------------------------------------------------------
// Implementation
// ---------------------------------------------------------------------------

proof fn lit_gem_paren()
    ensures
        sb("gem(") == seq![103u8, 101, 109, 40],
{
    reveal_strlit("gem(");
    assert(vstd::string::is_ascii("gem("));
    assert(sb("gem(") =~= seq![103u8, 101, 109, 40]);
}

proof fn lit_gem_space()
    ensures
        sb("gem ") == seq![103u8, 101, 109, 32],
{
    reveal_strlit("gem ");
    assert(vstd::string::is_ascii("gem "));
    assert(sb("gem ") =~= seq![103u8, 101, 109, 32]);
}

struct ParsedGemArgs {
    name: String,
    version: String,
    name_start: u32,
    name_end: u32,
    version_start: u32,
    version_end: u32,
    has_additional_version_constraints: bool,
}

/// Parses a quoted string starting (after blanks) at `start` in `s`.
/// Returns its content and the index just after the closing quote.
fn parse_quoted_string(s: &str, start: usize) -> (r: Option<(String, usize)>)
    requires
        start <= sb(s).len(),
        at_boundary(sb(s), start as int),
    ensures
        match quoted_at(sb(s), start as int) {
            None => r is None,
            Some((c, e)) => r matches Some((v, e2)) && ob(&v) == c && e2 == e && e <= sb(s).len(),
        },
{
    let b = bytes(s);
    let len = b.len();
    let idx = skip_blanks_from(b, start);
    if idx >= len {
        return None;
    }
    let quote = b[idx];
    if quote != '\'' as u8 && quote != '"' as u8 {
        return None;
    }
    let string_start = idx + 1;
    match find_byte(b, string_start, quote) {
        None => None,
        Some(j) => {
            proof {
                lemma_skip_blanks(b@, start as int);
                lemma_next_boundary(b@, idx as int);
                lemma_find_b(b@, string_start as int, quote);
            }
            let v = sub_string(s, string_start, j);
            Some((v, j + 1))
        },
    }
}

/// The byte position of `needle` within its surrounding quotes in `line`.
fn find_quoted_position(line: &str, needle: &String) -> (r: Option<(u32, u32)>)
    ensures
        match quoted_pos(sb(line), ob(needle)) {
            None => r is None,
            Some(p) => r == Some((p as u32, (p + ob(needle).len()) as u32)),
        },
{
    let lb = bytes(line);
    let ll = lb.len();
    let nb = bytes(needle.as_str());
    let single = quoted_bytes('\'' as u8, nb);
    if let Some(pos) = find_seq(lb, 0, single.as_slice()) {
        return Some(((pos + 1) as u32, (pos + 1 + nb.len()) as u32));
    }
    let double = quoted_bytes('"' as u8, nb);
    if let Some(pos) = find_seq(lb, 0, double.as_slice()) {
        return Some(((pos + 1) as u32, (pos + 1 + nb.len()) as u32));
    }
    match find_seq(lb, 0, nb) {
        Some(pos) => Some((pos as u32, (pos + nb.len()) as u32)),
        None => None,
    }
}

/// Exec version of `ident_end`.
fn ident_end_from(b: &[u8], i: usize) -> (r: usize)
    requires
        i <= b@.len(),
    ensures
        r as int == ident_end(b@, i as int),
        i <= r <= b@.len(),
{
    let n = b.len();
    let mut j = i;
    while j < n && ((b[j] >= '0' as u8 && b[j] <= '9' as u8) || (b[j] >= 'A' as u8 && b[j]
        <= 'Z' as u8) || (b[j] >= 'a' as u8 && b[j] <= 'z' as u8) || b[j] == '_' as u8)
        invariant
            n == b@.len(),
            i <= j <= n,
            ident_end(b@, i as int) == ident_end(b@, j as int),
        decreases n - j,
    {
        j = j + 1;
    }
    j
}

pub proof fn lemma_ident_end(b: Seq<u8>, i: int)
    requires
        0 <= i <= b.len(),
    ensures
        i <= ident_end(b, i) <= b.len(),
        forall|j: int| i <= j < ident_end(b, i) ==> is_ident_byte(#[trigger] b[j]),
    decreases b.len() - i,
{
    if i < b.len() && is_ident_byte(b[i]) {
        lemma_ident_end(b, i + 1);
    }
}

/// Whether a trailing argument is an options hash.
fn is_options_argument(tail: &str) -> (r: bool)
    ensures
        r == options_arg(sb(tail)),
{
    let argument = trim_start(tail);
    let a = bytes(argument);
    if a.len() > 0 && a[0] == '{' as u8 {
        return true;
    }
    if a.len() > 0 && a[0] == ':' as u8 {
        proof {
            lemma_next_boundary(a@, 0);
        }
        let symbol = slice(argument, 1, a.len());
        let sy = bytes(symbol);
        let key_end = ident_end_from(sy, 0);
        if key_end == 0 {
            return false;
        }
        proof {
            lemma_ident_end(sy@, 0);
            assert(is_ident_byte(sy@[key_end - 1]));
            lemma_next_boundary(sy@, key_end - 1);
        }
        let rest = trim_start(slice(symbol, key_end, sy.len()));
        return starts_with(bytes(rest), "=>".as_bytes());
    }
    let key_end = ident_end_from(a, 0);
    key_end > 0 && key_end < a.len() && a[key_end] == ':' as u8
}

/// Whether another positional (non-options) argument follows the version.
fn has_unproven_trailing_argument(s: &str, index: usize) -> (r: bool)
    requires
        index <= sb(s).len(),
        at_boundary(sb(s), index as int),
    ensures
        r == trailing_arg(sb(s), index as int),
{
    let b = bytes(s);
    let i = skip_blanks_from(b, index);
    if i >= b.len() || b[i] != ',' as u8 {
        return false;
    }
    let j = skip_blanks_from(b, i + 1);
    proof {
        lemma_skip_blanks(b@, index as int);
        lemma_next_boundary(b@, i as int);
        lemma_skip_blanks(b@, i + 1);
    }
    let tail = slice(s, j, b.len());
    if j == b.len() {
        return true;
    }
    !is_options_argument(tail)
}

/// Parses the argument list `args` of a `gem` declaration on `line`.
fn parse_gem_args(line: &str, args: &str) -> (r: Option<ParsedGemArgs>)
    ensures
        match gem_args(sb(line), sb(args)) {
            None => r is None,
            Some(g) => r matches Some(p) && ob(&p.name) == g.name && ob(&p.version) == g.version
                && p.name_start == g.name_start as u32 && p.name_end == (g.name_start
                + g.name.len()) as u32 && p.version_start == g.version_start as u32
                && p.version_end == (g.version_start + g.version.len()) as u32
                && p.has_additional_version_constraints == g.additional,
        },
{
    let b = bytes(args);
    let len = b.len();
    let (name, name_end_idx) = match parse_quoted_string(args, 0) {
        Some(x) => x,
        None => return None,
    };
    let comma = match find_byte(b, name_end_idx, ',' as u8) {
        Some(c) => c,
        None => return None,
    };
    let idx = skip_blanks_from(b, comma + 1);
    if idx >= len {
        return None;
    }
    let next_byte = b[idx];
    if next_byte != '\'' as u8 && next_byte != '"' as u8 {
        return None;
    }
    let (version, version_end_idx) = match parse_quoted_string(args, idx) {
        Some(x) => x,
        None => return None,
    };
    let vb = bytes(version.as_str());
    if vb.len() == 0 || find_byte(vb, 0, ':' as u8).is_some() {
        return None;
    }
    let (name_start, name_end) = match find_quoted_position(line, &name) {
        Some(x) => x,
        None => return None,
    };
    let (version_start, version_end) = match find_quoted_position(line, &version) {
        Some(x) => x,
        None => return None,
    };
    proof {
        lemma_skip_blanks(b@, idx as int);
        lemma_find_b(b@, idx + 1, next_byte);
        assert(b@[version_end_idx - 1] == next_byte);
        lemma_next_boundary(b@, version_end_idx - 1);
    }
    let has_additional_version_constraints = has_unproven_trailing_argument(args, version_end_idx);
    Some(
        ParsedGemArgs {
            name,
            version,
            name_start,
            name_end,
            version_start,
            version_end,
            has_additional_version_constraints,
        },
    )
}

/// Parses a `gem` declaration line and returns the corresponding dependency.
///
/// The trimmed line must start with `gem(` or `gem ` (one space); the
/// argument list needs a quoted name and a quoted version.
fn parse_gem_declaration(line: &str, line_num: u32, dev: bool) -> (r: Option<Dependency>)
    ensures
        match gem_decl(sb(line), line_num, dev) {
            None => r is None,
            Some(m) => r matches Some(d) && d@ == m,
        },
{
    let trimmed = trim(line);
    let t = bytes(trimmed);
    let after_gem = if starts_with(t, "gem(".as_bytes()) {
        proof {
            lit_gem_paren();
            lemma_ascii_prefix_boundary(t@, sb("gem("));
        }
        let rest = slice(trimmed, 4, t.len());
        let rb = bytes(rest);
        if rb.len() > 0 && rb[rb.len() - 1] == ')' as u8 {
            slice(rest, 0, rb.len() - 1)
        } else {
            rest
        }
    } else if starts_with(t, "gem ".as_bytes()) {
        proof {
            lit_gem_space();
            lemma_ascii_prefix_boundary(t@, sb("gem "));
        }
        slice(trimmed, 4, t.len())
    } else {
        return None;
    };
    proof {
        lit_gem_paren();
        lit_gem_space();
        assert(gem_after(t@) == Some(sb(after_gem)));
    }
    let parsed = match parse_gem_args(line, after_gem) {
        Some(p) => p,
        None => return None,
    };
    Some(
        Dependency {
            name: parsed.name,
            version: parsed.version,
            name_span: Span {
                line: line_num,
                line_start: parsed.name_start,
                line_end: parsed.name_end,
            },
            version_span: Span {
                line: line_num,
                line_start: parsed.version_start,
                line_end: parsed.version_end,
            },
            dev,
            optional: false,
            registry: None,
            resolved_version: None,
            has_additional_version_constraints: parsed.has_additional_version_constraints,
        },
    )
}

/// Whether the trimmed `group` line names a development or test group.
fn is_dev_group(t: &[u8]) -> (r: bool)
    ensures
        r == group_is_dev(t@),
{
    contains(t, ":development".as_bytes()) || contains(t, ":test".as_bytes()) || contains(
        t,
        "'development'".as_bytes(),
    ) || contains(t, "\"development\"".as_bytes()) || contains(t, "'test'".as_bytes())
        || contains(t, "\"test\"".as_bytes())
}

impl Parser for RubyParser {
    fn parse(&self, content: &str) -> (deps: Vec<Dependency>)
        ensures
            deps_view(deps@) == gemfile_deps(sb(content)),
    {
        let b = bytes(content);
        let n = b.len();
        let ghost ls = lines(b@);
        let mut dependencies: Vec<Dependency> = Vec::new();
        let mut dev_depth: usize = 0;
        let mut group_depth: usize = 0;
        let mut p: usize = 0;
        let mut i: usize = 0;
        while p < n
            invariant
                n == b@.len(),
                b@ == sb(content),
                valid_utf8(b@),
                ls == lines(b@),
                p <= n,
                at_boundary(b@, p as int),
                i <= ls.len(),
                i <= p,
                lines_from(b@, p as int) == ls.skip(i as int),
                dev_depth <= group_depth <= i,
                gemfile_run(ls.take(i as int)) == (
                    dev_depth as int,
                    group_depth as int,
                    deps_view(dependencies@),
                ),
            decreases n - p,
        {
            let (ce, next) = next_line(b, p);
            let line = slice(content, p, ce);
            let ghost st = (dev_depth as int, group_depth as int, deps_view(dependencies@));
            proof {
                assert(ls.skip(i as int).len() >= 1);
                assert(ls.skip(i as int)[0] == sb(line));
                assert(ls[i as int] == sb(line));
                assert(ls.skip(i + 1) =~= ls.skip(i as int).skip(1));
                assert(lines_from(b@, next as int) =~= ls.skip(i as int).skip(1));
                assert(ls.take(i + 1).drop_last() =~= ls.take(i as int));
                assert(ls.take(i + 1).last() == sb(line));
            }
            let line_num = i as u32;
            let trimmed = trim(line);
            let t = bytes(trimmed);
            if t.len() == 0 || t[0] == '#' as u8 {
            } else if starts_with(t, "group".as_bytes()) {
                let is_dev = is_dev_group(t);
                if contains(t, "do".as_bytes()) {
                    group_depth = group_depth + 1;
                    if dev_depth == 0 && is_dev {
                        dev_depth = group_depth;
                    }
                }
            } else if t.len() == 3 && t[0] == 'e' as u8 && t[1] == 'n' as u8 && t[2] == 'd'
                as u8 {
                proof {
                    reveal_strlit("end");
                    assert(vstd::string::is_ascii("end"));
                    assert(sb("end") =~= seq![101u8, 110, 100]);
                    assert(t@ =~= sb("end"));
                }
                if group_depth > 0 {
                    if dev_depth >= group_depth {
                        dev_depth = 0;
                    }
                    group_depth = group_depth - 1;
                }
            } else if ends_with(t, " do".as_bytes()) || contains(t, " do |".as_bytes()) {
                proof {
                    reveal_strlit("end");
                    assert(vstd::string::is_ascii("end"));
                    assert(sb("end") =~= seq![101u8, 110, 100]);
                    if t@ == sb("end") {
                        assert(t@[0] == 101u8 && t@[1] == 110u8 && t@[2] == 100u8);
                    }
                }
                group_depth = group_depth + 1;
            } else {
                proof {
                    reveal_strlit("end");
                    assert(vstd::string::is_ascii("end"));
                    assert(sb("end") =~= seq![101u8, 110, 100]);
                    if t@ == sb("end") {
                        assert(t@[0] == 101u8 && t@[1] == 110u8 && t@[2] == 100u8);
                    }
                }
                match parse_gem_declaration(line, line_num, dev_depth > 0) {
                    Some(dep) => {
                        dependencies.push(dep);
                    },
                    None => {},
                }
            }
            proof {
                let (d2, g2, m) = gemfile_line(st.0, st.1, sb(line), i as int);
                assert(d2 == dev_depth as int);
                assert(g2 == group_depth as int);
                assert(deps_view(dependencies@) =~= (match m {
                    Some(x) => st.2.push(x),
                    None => st.2,
                }));
            }
            p = next;
            i = i + 1;
        }
        proof {
            assert(ls.skip(i as int).len() == 0);
            assert(ls.take(i as int) =~= ls);
        }
        dependencies
    }
}

proof fn lemma_quoted_pos(line: Seq<u8>, needle: Seq<u8>)
    ensures
        quoted_pos(line, needle) matches Some(st) ==> 0 <= st && st + needle.len() <= line.len()
            && line.subrange(st, st + needle.len()) == needle,
{
    let q1 = seq!['\'' as u8] + needle + seq!['\'' as u8];
    let q2 = seq!['"' as u8] + needle + seq!['"' as u8];
    lemma_find_s(line, 0, q1);
    lemma_find_s(line, 0, q2);
    lemma_find_s(line, 0, needle);
    match find_s(line, 0, q1) {
        Some(p) => {
            assert(line.subrange(p, p + q1.len()) == q1);
            assert(line.subrange(p + 1, p + 1 + needle.len()) =~= q1.subrange(1, 1 + needle.len() as int));
            assert(q1.subrange(1, 1 + needle.len() as int) =~= needle);
        },
        None => match find_s(line, 0, q2) {
            Some(p) => {
                assert(line.subrange(p, p + q2.len()) == q2);
                assert(line.subrange(p + 1, p + 1 + needle.len()) =~= q2.subrange(1, 1 + needle.len() as int));
                assert(q2.subrange(1, 1 + needle.len() as int) =~= needle);
            },
            None => {},
        },
    }
}

proof fn lemma_gem_decl_covers(line: Seq<u8>, n: u32, dev: bool)
    requires
        line.len() <= u32::MAX,
        gem_decl(line, n, dev) is Some,
    ensures
        ({
            let d = gem_decl(line, n, dev)->0;
            &&& d.name_span.line == n
            &&& covers(line, d.name_span, d.name)
            &&& covers(line, d.version_span, d.version)
        }),
{
    let a = gem_after(trim_b(line))->0;
    let g = gem_args(line, a)->0;
    lemma_quoted_pos(line, g.name);
    lemma_quoted_pos(line, g.version);
}

proof fn lemma_gemfile_run_covers(ls: Seq<Seq<u8>>)
    requires
        ls.len() <= u32::MAX,
        forall|k: int| 0 <= k < ls.len() ==> (#[trigger] ls[k]).len() <= u32::MAX,
    ensures
        forall|i: int|
            0 <= i < gemfile_run(ls).2.len() ==> {
                let d = #[trigger] gemfile_run(ls).2[i];
                &&& d.name_span.line < ls.len()
                &&& covers(ls[d.name_span.line as int], d.name_span, d.name)
                &&& covers(ls[d.name_span.line as int], d.version_span, d.version)
            },
    decreases ls.len(),
{
    if ls.len() > 0 {
        let p = ls.drop_last();
        assert forall|k: int| 0 <= k < p.len() implies (#[trigger] p[k]).len() <= u32::MAX by {
            assert(p[k] == ls[k]);
        }
        lemma_gemfile_run_covers(p);
        let (dev_depth, depth, deps) = gemfile_run(p);
        let l = ls.last();
        let idx = ls.len() - 1;
        assert(ls[idx] == l);
        if gem_decl(l, idx as u32, dev_depth > 0) is Some {
            lemma_gem_decl_covers(l, idx as u32, dev_depth > 0);
        }
        assert forall|i: int| 0 <= i < deps.len() implies ls[(#[trigger] deps[i]).name_span.line as int]
            == p[deps[i].name_span.line as int] by {}
    }
}

/// Every dependency of a Gemfile names the line it was read from, and its
/// spans cover its name and its version on that line (for files whose line
/// count and line lengths fit in a `u32`).
pub proof fn law_gemfile_spans_cover_tokens(content: Seq<u8>)
    requires
        lines(content).len() <= u32::MAX,
        forall|k: int| 0 <= k < lines(content).len() ==> (#[trigger] lines(content)[k]).len() <= u32::MAX,
    ensures
        forall|i: int|
            0 <= i < gemfile_deps(content).len() ==> {
                let d = #[trigger] gemfile_deps(content)[i];
                &&& d.name_span.line < lines(content).len()
                &&& covers(lines(content)[d.name_span.line as int], d.name_span, d.name)
                &&& covers(lines(content)[d.name_span.line as int], d.version_span, d.version)
            },
{
    lemma_gemfile_run_covers(lines(content));
}

} // verus!
