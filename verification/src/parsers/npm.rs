//! Parser for npm `package.json` manifests, over the spanned JSON document
//! (as `json-spanned-value` gives it), so that every dependency's name and
//! version spans come straight from the parser, even when a name or version
//! text appears more than once in the file.
//!
//! | JSON key | `dev` | `optional` |
//! |----------|-------|------------|
//! | `dependencies` | `false` | `false` |
//! | `devDependencies` | `true` | `false` |
//! | `peerDependencies` | `false` | `true` |
//! | `optionalDependencies` | `false` | `true` |
//!
//! A value is a version string (`"^1.0"`) or an object with a string
//! `version` (`{ "version": "^1.0" }`) on the same line as the package name.

use vstd::prelude::*;
use crate::parsers::json_spans::{inner_span_of, line_starts, string_inner_span, LineIndex};
use crate::parsers::json_tree::{json_tree, json_tree_of, member_get, node_members, JsonNode, JsonNodeMember, JsonNodeValue};
use crate::parsers::{deps_view, DepModel, Dependency, Parser, Span};
use crate::text::{ob, sb, to_owned_string};

verus! {

/// A dependency value's version and the span of its content: a string, or
/// an object whose `version` member is a string.
pub open spec fn npm_version(v: JsonNode, o: Seq<usize>) -> Option<(Seq<u8>, Span)> {
    match v.value {
        JsonNodeValue::Str(s) => match inner_span_of(o, v.start as int, v.end as int) {
            Some(sp) => Some((ob(&s), sp)),
            None => None,
        },
        JsonNodeValue::Object(_) => match member_get(v, sb("version")) {
            Some(vn) => match vn.value {
                JsonNodeValue::Str(s) => match inner_span_of(o, vn.start as int, vn.end as int) {
                    Some(sp) => Some((ob(&s), sp)),
                    None => None,
                },
                _ => None,
            },
            None => None,
        },
        _ => None,
    }
}

/// Extract a version string and the span of its content from a value that
/// is either a JSON string or an object with a string `version` member.
pub fn extract_version(value: &JsonNode, line_index: &LineIndex) -> (r: Option<(String, Span)>)
    ensures
        match r {
            Some(x) => npm_version(*value, line_index.offsets()) == Some((ob(&x.0), x.1)),
            None => npm_version(*value, line_index.offsets()) is None,
        },
{
    match &value.value {
        JsonNodeValue::Str(s) => match string_inner_span(line_index, value.start, value.end) {
            Some(span) => Some((to_owned_string(s.as_str()), span)),
            None => None,
        },
        JsonNodeValue::Object(_) => match value.get("version") {
            Some(vn) => match &vn.value {
                JsonNodeValue::Str(s) => match string_inner_span(line_index, vn.start, vn.end) {
                    Some(span) => Some((to_owned_string(s.as_str()), span)),
                    None => None,
                },
                _ => None,
            },
            None => None,
        },
        _ => None,
    }
}

/// The dependency a member of a dependency section gives, when its name and
/// version spans lie on one line.
pub open spec fn npm_member_dep(m: JsonNodeMember, o: Seq<usize>, dev: bool, optional: bool) -> Option<DepModel> {
    match (inner_span_of(o, m.key_start as int, m.key_end as int), npm_version(m.value, o)) {
        (Some(ns), Some(v)) => if ns.line != v.1.line {
            None
        } else {
            Some(
                DepModel {
                    name: ob(&m.key),
                    version: v.0,
                    name_span: ns,
                    version_span: v.1,
                    dev,
                    optional,
                    registry: None,
                    resolved_version: None,
                    has_additional_version_constraints: false,
                },
            )
        },
        _ => None,
    }
}

/// The dependencies of some members of a dependency section, in order.
pub open spec fn npm_members(es: Seq<JsonNodeMember>, o: Seq<usize>, dev: bool, optional: bool) -> Seq<DepModel>
    decreases es.len(),
{
    if es.len() == 0 {
        Seq::empty()
    } else {
        let prev = npm_members(es.drop_last(), o, dev, optional);
        match npm_member_dep(es.last(), o, dev, optional) {
            Some(d) => prev.push(d),
            None => prev,
        }
    }
}

/// The dependencies of the section `name` of the root object.
pub open spec fn npm_section(root: JsonNode, name: Seq<u8>, o: Seq<usize>, dev: bool, optional: bool) -> Seq<
    DepModel,
> {
    match member_get(root, name) {
        Some(sec) => match node_members(sec) {
            Some(es) => npm_members(es, o, dev, optional),
            None => Seq::empty(),
        },
        None => Seq::empty(),
    }
}

/// The dependencies of a `package.json` document: `dependencies`,
/// `devDependencies`, `peerDependencies`, then `optionalDependencies`.
pub open spec fn npm_manifest_deps(content: Seq<u8>, root: JsonNode) -> Seq<DepModel> {
    let o = line_starts(content);
    npm_section(root, sb("dependencies"), o, false, false) + npm_section(
        root,
        sb("devDependencies"),
        o,
        true,
        false,
    ) + npm_section(root, sb("peerDependencies"), o, false, true) + npm_section(
        root,
        sb("optionalDependencies"),
        o,
        false,
        true,
    )
}

/// Appends the dependencies of the section `section_name` of the root object;
/// entries whose name and version spans lie on different lines are skipped.
pub fn parse_section(
    root: &JsonNode,
    section_name: &str,
    dev: bool,
    optional: bool,
    line_index: &LineIndex,
    dependencies: &mut Vec<Dependency>,
)
    ensures
        deps_view(final(dependencies)@) == deps_view(old(dependencies)@) + npm_section(
            *root,
            sb(section_name),
            line_index.offsets(),
            dev,
            optional,
        ),
{
    let ghost d0 = deps_view(dependencies@);
    let ghost o = line_index.offsets();
    let section = match root.get(section_name) {
        Some(s) => s,
        None => {
            proof {
                assert(deps_view(dependencies@) =~= d0 + Seq::<DepModel>::empty());
            }
            return;
        },
    };
    let es = match section.as_object() {
        Some(es) => es,
        None => {
            proof {
                assert(deps_view(dependencies@) =~= d0 + Seq::<DepModel>::empty());
            }
            return;
        },
    };
    let mut i: usize = 0;
    while i < es.len()
        invariant
            i <= es@.len(),
            o == line_index.offsets(),
            deps_view(dependencies@) == d0 + npm_members(es@.take(i as int), o, dev, optional),
        decreases es@.len() - i,
    {
        proof {
            assert(es@.take(i + 1).drop_last() =~= es@.take(i as int));
            assert(es@.take(i + 1).last() == es@[i as int]);
        }
        let m = &es[i];
        match (string_inner_span(line_index, m.key_start, m.key_end), extract_version(&m.value, line_index)) {
            (Some(name_span), Some((version, version_span))) => {
                if name_span.line == version_span.line {
                    let dep = Dependency {
                        name: to_owned_string(m.key.as_str()),
                        version,
                        name_span,
                        version_span,
                        dev,
                        optional,
                        registry: None,
                        resolved_version: None,
                        has_additional_version_constraints: false,
                    };
                    let ghost dv = dep@;
                    let ghost o0 = dependencies@;
                    dependencies.push(dep);
                    proof {
                        assert(deps_view(dependencies@) =~= deps_view(o0).push(dv));
                    }
                }
            },
            _ => {},
        }
        i = i + 1;
    }
    proof {
        assert(es@.take(i as int) =~= es@);
    }
}

/// Parser for npm `package.json` dependency files.
#[derive(Debug, Default)]
pub struct NpmParser;

impl NpmParser {
    /// Creates a new [`NpmParser`] instance.
    pub fn new() -> Self {
        NpmParser
    }

    /// The dependencies of a `package.json`: `content` is the text, `root`
    /// its spanned JSON document (a text that is not a JSON object is handed
    /// over as any non-object node, and gives nothing), as [`json_tree`]
    /// gives it.
    pub fn parse_document(&self, content: &str, root: &JsonNode) -> (deps: Vec<Dependency>)
        ensures
            deps_view(deps@) == npm_manifest_deps(sb(content), *root),
    {
        let line_index = LineIndex::new(content);
        let mut dependencies: Vec<Dependency> = Vec::new();
        proof {
            assert(deps_view(dependencies@) =~= Seq::<DepModel>::empty());
        }
        parse_section(root, "dependencies", false, false, &line_index, &mut dependencies);
        parse_section(root, "devDependencies", true, false, &line_index, &mut dependencies);
        parse_section(root, "peerDependencies", false, true, &line_index, &mut dependencies);
        parse_section(root, "optionalDependencies", false, true, &line_index, &mut dependencies);
        dependencies
    }
}

impl Parser for NpmParser {
    /// The dependencies of a `package.json`, read with `json-spanned-value`.
    fn parse(&self, content: &str) -> (deps: Vec<Dependency>)
        ensures
            deps_view(deps@) == npm_manifest_deps(sb(content), json_tree_of(sb(content))),
    {
        let root = json_tree(content);
        self.parse_document(content, &root)
    }
}

proof fn lemma_npm_members_keep(es: Seq<JsonNodeMember>, o: Seq<usize>, dev: bool, optional: bool, i: int)
    requires
        0 <= i < es.len(),
        npm_member_dep(es[i], o, dev, optional) is Some,
    ensures
        npm_members(es, o, dev, optional).contains(npm_member_dep(es[i], o, dev, optional)->0),
    decreases es.len(),
{
    let prev = npm_members(es.drop_last(), o, dev, optional);
    if i < es.len() - 1 {
        assert(es.drop_last()[i] == es[i]);
        lemma_npm_members_keep(es.drop_last(), o, dev, optional, i);
        let k = choose|k: int| 0 <= k < prev.len() && prev[k] == npm_member_dep(es[i], o, dev, optional)->0;
        assert(npm_members(es, o, dev, optional)[k] == prev[k]);
    } else {
        assert(es.last() == es[i]);
        assert(npm_members(es, o, dev, optional)[prev.len() as int] == npm_member_dep(es[i], o, dev, optional)->0);
    }
}

/// A member of a dependency section with a string version, whose key and
/// value each lie on one line, both the same line.
pub open spec fn npm_readable(m: JsonNodeMember, o: Seq<usize>) -> bool {
    &&& m.value.value is Str
    &&& inner_span_of(o, m.key_start as int, m.key_end as int) matches Some(ns)
    &&& inner_span_of(o, m.value.start as int, m.value.end as int) matches Some(vs)
    &&& ns.line == vs.line
}

/// Which of the four sections `s` is (0 to 3 for `dependencies`,
/// `devDependencies`, `peerDependencies`, `optionalDependencies`).
pub open spec fn npm_section_name(s: int) -> Seq<u8> {
    if s == 0 {
        sb("dependencies")
    } else if s == 1 {
        sb("devDependencies")
    } else if s == 2 {
        sb("peerDependencies")
    } else {
        sb("optionalDependencies")
    }
}

/// Every member of each of the four dependency sections of a `package.json`
/// (`dependencies`, `devDependencies`, `peerDependencies`,
/// `optionalDependencies`) with a string version (key and value on one line)
/// is a dependency: named by its key, with the string as its version, dev
/// exactly for `devDependencies`, optional exactly for `peerDependencies`
/// and `optionalDependencies`.
pub proof fn law_npm_sections_read(content: Seq<u8>, root: JsonNode, s: int, es: Seq<JsonNodeMember>, i: int)
    requires
        0 <= s < 4,
        member_get(root, npm_section_name(s)) matches Some(sec) && node_members(sec) == Some(es),
        0 <= i < es.len(),
        npm_readable(es[i], line_starts(content)),
    ensures
        exists|k: int|
            0 <= k < npm_manifest_deps(content, root).len() && (#[trigger] npm_manifest_deps(content, root)[k]).name
                == ob(&es[i].key) && npm_manifest_deps(content, root)[k].version == ob(&es[i].value.value->Str_0)
                && npm_manifest_deps(content, root)[k].dev == (s == 1) && npm_manifest_deps(content, root)[k].optional
                == (s >= 2),
{
    let o = line_starts(content);
    let dev = s == 1;
    let opt = s >= 2;
    lemma_npm_members_keep(es, o, dev, opt, i);
    let d = npm_member_dep(es[i], o, dev, opt)->0;
    let a = npm_section(root, sb("dependencies"), o, false, false);
    let b = npm_section(root, sb("devDependencies"), o, true, false);
    let c = npm_section(root, sb("peerDependencies"), o, false, true);
    let e = npm_section(root, sb("optionalDependencies"), o, false, true);
    let all = npm_manifest_deps(content, root);
    assert(all == a + b + c + e);
    if s == 0 {
        let k = choose|k: int| 0 <= k < a.len() && a[k] == d;
        assert(all[k] == d);
    } else if s == 1 {
        let k = choose|k: int| 0 <= k < b.len() && b[k] == d;
        assert(all[a.len() + k] == d);
    } else if s == 2 {
        let k = choose|k: int| 0 <= k < c.len() && c[k] == d;
        assert(all[a.len() + b.len() + k] == d);
    } else {
        let k = choose|k: int| 0 <= k < e.len() && e[k] == d;
        assert(all[a.len() + b.len() + c.len() + k] == d);
    }
}

} // verus!
