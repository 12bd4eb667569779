//! Dart/Flutter `pubspec.yaml` manifests.
//!
//! Recognises three top-level sections: `dependencies` and
//! `dependency_overrides` (not dev) and `dev_dependencies` (dev). Complex
//! dependency forms (git, path, SDK, hosted) are skipped, and so are the
//! Flutter SDK packages. Inline YAML comments after a version are stripped.

use vstd::prelude::*;
use vstd::utf8::valid_utf8;
use crate::text::{at_boundary, before_byte, bytes, contains, contains_b, ends_with, ends_with_b, find_b,
    find_byte, find_s, find_seq, lemma_after_ascii, lemma_find_b, lemma_find_s, lines, lines_from, next_line, ob,
    sb, slice, str_eq, to_owned_string, trim, trim_b, trim_byte, trim_byte_b, trim_end_byte,
    trim_end_byte_b, trim_start, trim_start_b, until_byte};
use crate::parsers::{covers, Dependency, DepModel, Parser, Span, deps_view, plain_dep};

verus! {

broadcast use vstd::utf8::encode_utf8_valid_utf8;

/// Parser for Dart `pubspec.yaml` dependency files.
#[derive(Debug, Default)]
pub struct DartParser;

impl DartParser {
    /// Creates a new [`DartParser`] instance.
    pub fn new() -> Self {
        Self
    }
}

/// Which top-level YAML section is being read.
#[derive(Debug, Clone, Copy)]
pub enum DependencySection {
    Dependencies,
    DevDependencies,
    DependencyOverrides,
}

impl DependencySection {
    /// `dev_dependencies` holds development dependencies.
    pub open spec fn spec_is_dev(self) -> bool {
        self is DevDependencies
    }

    /// Whether this section holds development dependencies.
    pub fn is_dev(&self) -> (r: bool)
        ensures
            r == self.spec_is_dev(),
    {
        matches!(self, DependencySection::DevDependencies)
    }
}

/// A version value without an inline `# comment`; a quoted value ends at its closing quote.
pub open spec fn dart_strip_comment(vp: Seq<u8>) -> Seq<u8> {
    if vp.len() > 0 && (vp[0] == 0x22 || vp[0] == 0x27) {
        match find_b(vp, 1, vp[0]) {
            Some(e) => trim_b(vp.subrange(0, e + 1)),
            None => vp,
        }
    } else {
        match find_b(vp, 0, 0x23) {
            Some(h) => trim_b(vp.subrange(0, h)),
            None => vp,
        }
    }
}

/// The dependency a `  name: version` line declares, if it declares a plain version.
/// The version's span is the first occurrence of the version after the colon.
pub open spec fn dart_line(line: Seq<u8>, line_num: u32, dev: bool) -> Option<DepModel> {
    let t = trim_b(line);
    match find_b(t, 0, 0x3A) {
        None => None,
        Some(cp) => {
            let name = trim_b(t.subrange(0, cp));
            let vp = trim_b(t.subrange(cp + 1, t.len() as int));
            if vp.len() == 0 {
                None
            } else if vp[0] == 0x7B || (vp[0] != 0x5E && contains_b(vp, seq![0x3Au8])) {
                None
            } else {
                let v = trim_byte_b(trim_byte_b(dart_strip_comment(vp), 0x22), 0x27);
                if v.len() == 0 || v[0] == 0x2F || v[0] == 0x2E {
                    None
                } else {
                    match find_b(line, 0, 0x3A) {
                        None => None,
                        Some(lc) => match (find_s(line, 0, name), find_s(line, lc + 1, v)) {
                            (Some(ns), Some(vs)) => Some(
                                plain_dep(name, v, line_num, ns, vs, dev, false, false),
                            ),
                            _ => None,
                        },
                    }
                }
            }
        },
    }
}

/// A trimmed line that opens a git, path, SDK or hosted dependency.
pub open spec fn dart_complex(t: Seq<u8>) -> bool {
    let s = trim_b(t);
    ||| (ends_with_b(s, seq![0x3Au8]) && !contains_b(s, seq![0x20u8]))
    ||| contains_b(s, sb("sdk:"))
    ||| contains_b(s, sb("git:"))
    ||| contains_b(s, sb("path:"))
    ||| contains_b(s, sb("hosted:"))
}

/// A package that ships with the Flutter SDK.
pub open spec fn flutter_sdk_name(n: Seq<u8>) -> bool {
    ||| n == sb("flutter")
    ||| n == sb("flutter_test")
    ||| n == sb("flutter_localizations")
    ||| n == sb("flutter_driver")
    ||| n == sb("flutter_web_plugins")
}

/// The section a header names.
pub open spec fn dart_section(name: Seq<u8>) -> Option<DependencySection> {
    if name == sb("dependencies") {
        Some(DependencySection::Dependencies)
    } else if name == sb("dev_dependencies") {
        Some(DependencySection::DevDependencies)
    } else if name == sb("dependency_overrides") {
        Some(DependencySection::DependencyOverrides)
    } else {
        None
    }
}

/// Where the line walker of `pubspec.yaml` stands after some lines.
pub ghost struct DartState {
    pub section: Option<DependencySection>,
    pub nested: bool,
    pub deps: Seq<DepModel>,
}

/// The line starts with a space or a tab.
pub open spec fn indented(l: Seq<u8>) -> bool {
    l.len() > 0 && (l[0] == 0x20 || l[0] == 0x09)
}

/// One line, the `idx`-th, of `pubspec.yaml`. Whether a declaration opens a
/// complex form is decided on the text before its inline `#` comment.
pub open spec fn dart_step(st: DartState, l: Seq<u8>, idx: int) -> DartState {
    let t = trim_b(l);
    if t.len() == 0 || t[0] == 0x23 {
        st
    } else if !indented(l) && ends_with_b(t, seq![0x3Au8]) {
        DartState { section: dart_section(trim_end_byte_b(t, 0x3A)), nested: false, ..st }
    } else if st.section is None {
        st
    } else if !indented(l) {
        DartState { section: None, ..st }
    } else if st.nested && l.len() - trim_start_b(l).len() > 2 {
        st
    } else {
        let dev = st.section->0.spec_is_dev();
        match dart_line(l, idx as u32, dev) {
            Some(d) => if dart_complex(before_byte(t, 0x23)) {
                DartState { nested: true, ..st }
            } else if flutter_sdk_name(d.name) {
                DartState { nested: false, ..st }
            } else {
                DartState { nested: false, deps: st.deps.push(d), ..st }
            },
            None => if ends_with_b(t, seq![0x3Au8]) && !contains_b(t, seq![0x20u8]) {
                DartState { nested: true, ..st }
            } else {
                DartState { nested: false, ..st }
            },
        }
    }
}

/// The walker's state after the lines `ls`.
pub open spec fn dart_run(ls: Seq<Seq<u8>>) -> DartState
    decreases ls.len(),
{
    if ls.len() == 0 {
        DartState { section: None, nested: false, deps: Seq::empty() }
    } else {
        dart_step(dart_run(ls.drop_last()), ls.last(), ls.len() - 1)
    }
}

/// The dependencies declared in `pubspec.yaml` content.
pub open spec fn dart_deps(content: Seq<u8>) -> Seq<DepModel> {
    dart_run(lines(content)).deps
}

/// Parses a single indented YAML dependency line.
///
/// Returns `None` for lines without a version (complex dependencies handled
/// by the caller as nested blocks), for complex inline forms (`sdk:`, `git:`,
/// etc.), and for path/absolute-path version values.
pub fn parse_dart_dependency_line(line: &str, line_num: u32, dev: bool) -> (r: Option<Dependency>)
    ensures
        match dart_line(sb(line), line_num, dev) {
            None => r is None,
            Some(d) => r matches Some(x) && x@ == d,
        },
{
    let trimmed = trim(line);
    let tb = bytes(trimmed);
    let tlen = tb.len();
    let colon_pos = match find_byte(tb, 0, 0x3A) {
        Some(c) => c,
        None => {
            return None;
        },
    };
    proof {
        lemma_find_b(tb@, 0, 0x3A);
        lemma_after_ascii(tb@, colon_pos as int);
    }
    let name = trim(slice(trimmed, 0, colon_pos));
    let version_part = trim(slice(trimmed, colon_pos + 1, tlen));
    let vb = bytes(version_part);
    let vlen = vb.len();
    if vlen == 0 {
        return None;
    }
    let colon: [u8; 1] = [0x3A];
    proof {
        assert(colon@ =~= seq![0x3Au8]);
    }
    if vb[0] == 0x7B || (vb[0] != 0x5E && contains(vb, colon.as_slice())) {
        return None;
    }
    let stripped = if vb[0] == 0x22 || vb[0] == 0x27 {
        let quote = vb[0];
        match find_byte(vb, 1, quote) {
            Some(end) => {
                proof {
                    lemma_find_b(vb@, 1, quote);
                    lemma_after_ascii(vb@, end as int);
                }
                trim(slice(version_part, 0, end + 1))
            },
            None => version_part,
        }
    } else {
        match find_byte(vb, 0, 0x23) {
            Some(hash_pos) => {
                proof {
                    lemma_find_b(vb@, 0, 0x23);
                }
                trim(slice(version_part, 0, hash_pos))
            },
            None => version_part,
        }
    };
    let version = trim_byte(trim_byte(stripped, 0x22), 0x27);
    let verb = bytes(version);
    if verb.len() == 0 || verb[0] == 0x2F || verb[0] == 0x2E {
        return None;
    }
    let lb = bytes(line);
    let _llen = lb.len();
    let name_start = match find_seq(lb, 0, bytes(name)) {
        Some(p) => p,
        None => {
            return None;
        },
    };
    let line_colon = match find_byte(lb, 0, 0x3A) {
        Some(c) => c,
        None => {
            return None;
        },
    };
    proof {
        lemma_find_b(lb@, 0, 0x3A);
    }
    let version_start = match find_seq(lb, line_colon + 1, verb) {
        Some(p) => p,
        None => {
            return None;
        },
    };
    let name_len = bytes(name).len();
    let version_len = verb.len();
    Some(
        Dependency {
            name: to_owned_string(name),
            version: to_owned_string(version),
            name_span: Span {
                line: line_num,
                line_start: name_start as u32,
                line_end: (name_start + name_len) as u32,
            },
            version_span: Span {
                line: line_num,
                line_start: version_start as u32,
                line_end: (version_start + version_len) as u32,
            },
            dev,
            optional: false,
            registry: None,
            resolved_version: None,
            has_additional_version_constraints: false,
        },
    )
}

/// Returns `true` when `line` indicates a complex dependency form (git, path, sdk, hosted).
pub fn is_complex_dependency(line: &str) -> (r: bool)
    ensures
        r == dart_complex(sb(line)),
{
    let t = bytes(trim(line));
    let colon: [u8; 1] = [0x3A];
    let space: [u8; 1] = [0x20];
    proof {
        assert(colon@ =~= seq![0x3Au8]);
        assert(space@ =~= seq![0x20u8]);
    }
    (ends_with(t, colon.as_slice()) && !contains(t, space.as_slice())) || contains(
        t,
        "sdk:".as_bytes(),
    ) || contains(t, "git:".as_bytes()) || contains(t, "path:".as_bytes()) || contains(
        t,
        "hosted:".as_bytes(),
    )
}

/// Returns `true` for packages that are part of the Flutter SDK and therefore
/// have no pub.dev entry.
pub fn is_flutter_sdk_dependency(name: &str) -> (r: bool)
    ensures
        r == flutter_sdk_name(sb(name)),
{
    str_eq(name, "flutter") || str_eq(name, "flutter_test") || str_eq(name, "flutter_localizations")
        || str_eq(name, "flutter_driver") || str_eq(name, "flutter_web_plugins")
}

fn section_of(name: &str) -> (r: Option<DependencySection>)
    ensures
        r == dart_section(sb(name)),
{
    if str_eq(name, "dependencies") {
        Some(DependencySection::Dependencies)
    } else if str_eq(name, "dev_dependencies") {
        Some(DependencySection::DevDependencies)
    } else if str_eq(name, "dependency_overrides") {
        Some(DependencySection::DependencyOverrides)
    } else {
        None
    }
}

impl Parser for DartParser {
    fn parse(&self, content: &str) -> (deps: Vec<Dependency>)
        ensures
            deps_view(deps@) == dart_deps(sb(content)),
    {
        let b = bytes(content);
        let n = b.len();
        let ghost ls = lines(b@);
        let mut dependencies: Vec<Dependency> = Vec::new();
        let mut current_section: Option<DependencySection> = None;
        let mut in_nested_block = false;
        let mut p: usize = 0;
        let mut i: usize = 0;
        let colon: [u8; 1] = [0x3A];
        let space: [u8; 1] = [0x20];
        proof {
            assert(colon@ =~= seq![0x3Au8]);
            assert(space@ =~= seq![0x20u8]);
            assert(deps_view(dependencies@) =~= Seq::<DepModel>::empty());
        }
        while p < n
            invariant
                n == b@.len(),
                b@ == sb(content),
                valid_utf8(b@),
                ls == lines(b@),
                p <= n,
                at_boundary(b@, p as int),
                i <= ls.len(),
                i <= p,
                lines_from(b@, p as int) == ls.skip(i as int),
                colon@ == seq![0x3Au8],
                space@ == seq![0x20u8],
                dart_run(ls.take(i as int)) == (DartState {
                    section: current_section,
                    nested: in_nested_block,
                    deps: deps_view(dependencies@),
                }),
            decreases n - p,
        {
            let (ce, next) = next_line(b, p);
            let line = slice(content, p, ce);
            let ghost st = dart_run(ls.take(i as int));
            proof {
                assert(ls.skip(i as int).len() >= 1);
                assert(ls.skip(i as int)[0] == sb(line));
                assert(ls.skip(i + 1) =~= ls.skip(i as int).skip(1));
                assert(lines_from(b@, next as int) =~= ls.skip(i as int).skip(1));
                assert(ls.take(i + 1).drop_last() =~= ls.take(i as int));
                assert(ls.take(i + 1).last() == sb(line));
            }
            let line_num = i as u32;
            let lb = bytes(line);
            let trimmed = trim(line);
            let tb = bytes(trimmed);
            proof {
                crate::text::lemma_skip_ws_bounds(lb@, 0);
            }
            let is_indented = lb.len() > 0 && (lb[0] == 0x20 || lb[0] == 0x09);
            if tb.len() == 0 || tb[0] == 0x23 {
            } else if !is_indented && ends_with(tb, colon.as_slice()) {
                current_section = section_of(trim_end_byte(trimmed, 0x3A));
                in_nested_block = false;
            } else if current_section.is_none() {
            } else if !is_indented {
                current_section = None;
            } else if in_nested_block && lb.len() - bytes(trim_start(line)).len() > 2 {
            } else {
                let dev = match current_section {
                    Some(s) => s.is_dev(),
                    None => false,
                };
                match parse_dart_dependency_line(line, line_num, dev) {
                    Some(dep) => {
                        if is_complex_dependency(until_byte(trimmed, 0x23)) {
                            in_nested_block = true;
                        } else if is_flutter_sdk_dependency(dep.name.as_str()) {
                            in_nested_block = false;
                        } else {
                            in_nested_block = false;
                            let ghost before = deps_view(dependencies@);
                            let ghost dm = dep@;
                            dependencies.push(dep);
                            proof {
                                assert(deps_view(dependencies@) =~= before.push(dm));
                            }
                        }
                    },
                    None => {
                        in_nested_block = ends_with(tb, colon.as_slice()) && !contains(
                            tb,
                            space.as_slice(),
                        );
                    },
                }
            }
            proof {
                assert(dart_step(st, sb(line), i as int) == (DartState {
                    section: current_section,
                    nested: in_nested_block,
                    deps: deps_view(dependencies@),
                }));
            }
            p = next;
            i = i + 1;
        }
        proof {
            assert(ls.skip(i as int).len() == 0);
            assert(ls.take(i as int) =~= ls);
        }
        dependencies
    }
}

proof fn lemma_dart_line_covers(line: Seq<u8>, n: u32, dev: bool)
    requires
        line.len() <= u32::MAX,
        dart_line(line, n, dev) is Some,
    ensures
        ({
            let d = dart_line(line, n, dev)->0;
            &&& d.name_span.line == n
            &&& covers(line, d.name_span, d.name)
            &&& covers(line, d.version_span, d.version)
        }),
{
    let t = trim_b(line);
    let cp = find_b(t, 0, 0x3A)->0;
    let name = trim_b(t.subrange(0, cp));
    let vp = trim_b(t.subrange(cp + 1, t.len() as int));
    let v = trim_byte_b(trim_byte_b(dart_strip_comment(vp), 0x22), 0x27);
    let lc = find_b(line, 0, 0x3A)->0;
    lemma_find_b(line, 0, 0x3A);
    lemma_find_s(line, 0, name);
    lemma_find_s(line, lc + 1, v);
}

proof fn lemma_dart_run_covers(ls: Seq<Seq<u8>>)
    requires
        ls.len() <= u32::MAX,
        forall|k: int| 0 <= k < ls.len() ==> (#[trigger] ls[k]).len() <= u32::MAX,
    ensures
        forall|i: int|
            0 <= i < dart_run(ls).deps.len() ==> {
                let d = #[trigger] dart_run(ls).deps[i];
                &&& d.name_span.line < ls.len()
                &&& covers(ls[d.name_span.line as int], d.name_span, d.name)
                &&& covers(ls[d.name_span.line as int], d.version_span, d.version)
            },
    decreases ls.len(),
{
    if ls.len() > 0 {
        let p = ls.drop_last();
        assert forall|k: int| 0 <= k < p.len() implies (#[trigger] p[k]).len() <= u32::MAX by {
            assert(p[k] == ls[k]);
        }
        lemma_dart_run_covers(p);
        let st = dart_run(p);
        let l = ls.last();
        let idx = ls.len() - 1;
        assert(ls[idx] == l);
        if st.section is Some {
            let dev = st.section->0.spec_is_dev();
            if dart_line(l, idx as u32, dev) is Some {
                lemma_dart_line_covers(l, idx as u32, dev);
            }
        }
        assert forall|i: int| 0 <= i < st.deps.len() implies ls[(#[trigger] st.deps[i]).name_span.line as int]
            == p[st.deps[i].name_span.line as int] by {}
    }
}

/// Every dependency of a `pubspec.yaml` names the line it was read from, and
/// its spans cover its name and its version on that line (for files whose
/// line count and line lengths fit in a `u32`).
pub proof fn law_dart_spans_cover_tokens(content: Seq<u8>)
    requires
        lines(content).len() <= u32::MAX,
        forall|k: int| 0 <= k < lines(content).len() ==> (#[trigger] lines(content)[k]).len() <= u32::MAX,
    ensures
        forall|i: int|
            0 <= i < dart_deps(content).len() ==> {
                let d = #[trigger] dart_deps(content)[i];
                &&& d.name_span.line < lines(content).len()
                &&& covers(lines(content)[d.name_span.line as int], d.name_span, d.name)
                &&& covers(lines(content)[d.name_span.line as int], d.version_span, d.version)
            },
{
    lemma_dart_run_covers(lines(content));
}

} // verus!
