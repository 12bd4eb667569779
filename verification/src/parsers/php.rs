//! Parser for PHP Composer manifests (`composer.json`), over the spanned JSON
//! document (as `json-spanned-value` gives it).
//!
//! | JSON key | `dev` |
//! |----------|-------|
//! | `require` | `false` |
//! | `require-dev` | `true` |
//!
//! Platform requirements (the `php` key and keys starting with `ext-`) are
//! skipped: they are not Packagist packages.

use vstd::prelude::*;
use crate::parsers::json_spans::{inner_span_of, line_starts, string_inner_span, LineIndex};
use crate::parsers::json_tree::{json_tree, json_tree_of, member_get, node_members, JsonNode, JsonNodeMember, JsonNodeValue};
use crate::parsers::{deps_view, DepModel, Dependency, Parser};
use crate::text::{bytes, ob, sb, starts_with, starts_with_b, str_eq, to_owned_string};

verus! {

/// Whether a `require` key names a platform requirement (`php`, `ext-*`).
pub open spec fn platform_key(k: Seq<u8>) -> bool {
    k == sb("php") || starts_with_b(k, sb("ext-"))
}

/// The dependency a member of a `require` section gives: a string version,
/// a name and version on one line, and not a platform requirement.
pub open spec fn php_member_dep(m: JsonNodeMember, o: Seq<usize>, dev: bool) -> Option<DepModel> {
    if platform_key(ob(&m.key)) {
        None
    } else {
        match m.value.value {
            JsonNodeValue::Str(v) => match (
                inner_span_of(o, m.key_start as int, m.key_end as int),
                inner_span_of(o, m.value.start as int, m.value.end as int),
            ) {
                (Some(ns), Some(vs)) => if ns.line != vs.line {
                    None
                } else {
                    Some(
                        DepModel {
                            name: ob(&m.key),
                            version: ob(&v),
                            name_span: ns,
                            version_span: vs,
                            dev,
                            optional: false,
                            registry: None,
                            resolved_version: None,
                            has_additional_version_constraints: false,
                        },
                    )
                },
                _ => None,
            },
            _ => None,
        }
    }
}

/// The dependencies of some members of a `require` section, in order.
pub open spec fn php_members(es: Seq<JsonNodeMember>, o: Seq<usize>, dev: bool) -> Seq<DepModel>
    decreases es.len(),
{
    if es.len() == 0 {
        Seq::empty()
    } else {
        let prev = php_members(es.drop_last(), o, dev);
        match php_member_dep(es.last(), o, dev) {
            Some(d) => prev.push(d),
            None => prev,
        }
    }
}

/// The dependencies of the section `name` of the root object.
pub open spec fn php_section(root: JsonNode, name: Seq<u8>, o: Seq<usize>, dev: bool) -> Seq<DepModel> {
    match member_get(root, name) {
        Some(sec) => match node_members(sec) {
            Some(es) => php_members(es, o, dev),
            None => Seq::empty(),
        },
        None => Seq::empty(),
    }
}

/// The dependencies of a `composer.json` document: `require`, then `require-dev`.
pub open spec fn php_manifest_deps(content: Seq<u8>, root: JsonNode) -> Seq<DepModel> {
    let o = line_starts(content);
    php_section(root, sb("require"), o, false) + php_section(root, sb("require-dev"), o, true)
}

/// Appends the dependencies of the section `section_name` of the root object.
///
/// Platform keys (`php`, `ext-*`), values that are not strings, and entries
/// whose name and version spans lie on different lines are skipped.
pub fn parse_section(
    root: &JsonNode,
    section_name: &str,
    dev: bool,
    line_index: &LineIndex,
    dependencies: &mut Vec<Dependency>,
)
    ensures
        deps_view(final(dependencies)@) == deps_view(old(dependencies)@) + php_section(
            *root,
            sb(section_name),
            line_index.offsets(),
            dev,
        ),
{
    let ghost d0 = deps_view(dependencies@);
    let ghost o = line_index.offsets();
    let section = match root.get(section_name) {
        Some(s) => s,
        None => {
            proof {
                assert(deps_view(dependencies@) =~= d0 + Seq::<DepModel>::empty());
            }
            return;
        },
    };
    let es = match section.as_object() {
        Some(es) => es,
        None => {
            proof {
                assert(deps_view(dependencies@) =~= d0 + Seq::<DepModel>::empty());
            }
            return;
        },
    };
    let mut i: usize = 0;
    while i < es.len()
        invariant
            i <= es@.len(),
            o == line_index.offsets(),
            deps_view(dependencies@) == d0 + php_members(es@.take(i as int), o, dev),
        decreases es@.len() - i,
    {
        proof {
            assert(es@.take(i + 1).drop_last() =~= es@.take(i as int));
            assert(es@.take(i + 1).last() == es@[i as int]);
        }
        let m = &es[i];
        let name = m.key.as_str();
        if !str_eq(name, "php") && !starts_with(bytes(name), bytes("ext-")) {
            match &m.value.value {
                JsonNodeValue::Str(v) => {
                    match (
                        string_inner_span(line_index, m.key_start, m.key_end),
                        string_inner_span(line_index, m.value.start, m.value.end),
                    ) {
                        (Some(name_span), Some(version_span)) => {
                            if name_span.line == version_span.line {
                                let dep = Dependency {
                                    name: to_owned_string(name),
                                    version: to_owned_string(v.as_str()),
                                    name_span,
                                    version_span,
                                    dev,
                                    optional: false,
                                    registry: None,
                                    resolved_version: None,
                                    has_additional_version_constraints: false,
                                };
                                let ghost dv = dep@;
                                let ghost o0 = dependencies@;
                                dependencies.push(dep);
                                proof {
                                    assert(deps_view(dependencies@) =~= deps_view(o0).push(dv));
                                }
                            }
                        },
                        _ => {},
                    }
                },
                _ => {},
            }
        }
        i = i + 1;
    }
    proof {
        assert(es@.take(i as int) =~= es@);
    }
}

/// Parser for PHP `composer.json` dependency files.
#[derive(Debug, Default)]
pub struct PhpParser;

impl PhpParser {
    /// Creates a new [`PhpParser`] instance.
    pub fn new() -> Self {
        PhpParser
    }

    /// The dependencies of a `composer.json`: `content` is the text, `root`
    /// its spanned JSON document (a text that is not a JSON object is handed
    /// over as any non-object node, and gives nothing), as [`json_tree`]
    /// gives it.
    pub fn parse_document(&self, content: &str, root: &JsonNode) -> (deps: Vec<Dependency>)
        ensures
            deps_view(deps@) == php_manifest_deps(sb(content), *root),
    {
        let line_index = LineIndex::new(content);
        let mut dependencies: Vec<Dependency> = Vec::new();
        proof {
            assert(deps_view(dependencies@) =~= Seq::<DepModel>::empty());
        }
        parse_section(root, "require", false, &line_index, &mut dependencies);
        parse_section(root, "require-dev", true, &line_index, &mut dependencies);
        dependencies
    }
}

impl Parser for PhpParser {
    /// The dependencies of a `composer.json`, read with `json-spanned-value`.
    fn parse(&self, content: &str) -> (deps: Vec<Dependency>)
        ensures
            deps_view(deps@) == php_manifest_deps(sb(content), json_tree_of(sb(content))),
    {
        let root = json_tree(content);
        self.parse_document(content, &root)
    }
}

proof fn lemma_php_members_keep(es: Seq<JsonNodeMember>, o: Seq<usize>, dev: bool, i: int)
    requires
        0 <= i < es.len(),
        php_member_dep(es[i], o, dev) is Some,
    ensures
        php_members(es, o, dev).contains(php_member_dep(es[i], o, dev)->0),
    decreases es.len(),
{
    let prev = php_members(es.drop_last(), o, dev);
    if i < es.len() - 1 {
        assert(es.drop_last()[i] == es[i]);
        lemma_php_members_keep(es.drop_last(), o, dev, i);
        let k = choose|k: int| 0 <= k < prev.len() && prev[k] == php_member_dep(es[i], o, dev)->0;
        assert(php_members(es, o, dev)[k] == prev[k]);
    } else {
        assert(es.last() == es[i]);
        assert(php_members(es, o, dev)[prev.len() as int] == php_member_dep(es[i], o, dev)->0);
    }
}

/// A member of a require section that is a package with a string version
/// whose key and value each lie on one line, both the same line.
pub open spec fn php_readable(m: JsonNodeMember, o: Seq<usize>) -> bool {
    &&& ob(&m.key) != sb("php")
    &&& !starts_with_b(ob(&m.key), sb("ext-"))
    &&& m.value.value is Str
    &&& inner_span_of(o, m.key_start as int, m.key_end as int) matches Some(ns)
    &&& inner_span_of(o, m.value.start as int, m.value.end as int) matches Some(vs)
    &&& ns.line == vs.line
}

/// Every package of the `require` object of a `composer.json` with a string
/// version (key and value on one line) is a dependency: named by its key,
/// with the string as its version, not dev.
pub proof fn law_php_require_read(content: Seq<u8>, root: JsonNode, es: Seq<JsonNodeMember>, i: int)
    requires
        member_get(root, sb("require")) matches Some(sec) && node_members(sec) == Some(es),
        0 <= i < es.len(),
        php_readable(es[i], line_starts(content)),
    ensures
        exists|k: int|
            0 <= k < php_manifest_deps(content, root).len() && (#[trigger] php_manifest_deps(content, root)[k]).name
                == ob(&es[i].key) && php_manifest_deps(content, root)[k].version == ob(&es[i].value.value->Str_0)
                && !php_manifest_deps(content, root)[k].dev,
{
    let o = line_starts(content);
    lemma_php_members_keep(es, o, false, i);
    let a = php_section(root, sb("require"), o, false);
    let b = php_section(root, sb("require-dev"), o, true);
    assert(php_manifest_deps(content, root) == a + b);
    let k = choose|k: int| 0 <= k < a.len() && a[k] == php_member_dep(es[i], o, false)->0;
    assert((a + b)[k] == a[k]);
}

/// Every package of the `require-dev` object of a `composer.json` with a
/// string version (key and value on one line) is a dependency: named by its
/// key, with the string as its version, dev.
pub proof fn law_php_require_dev_read(content: Seq<u8>, root: JsonNode, es: Seq<JsonNodeMember>, i: int)
    requires
        member_get(root, sb("require-dev")) matches Some(sec) && node_members(sec) == Some(es),
        0 <= i < es.len(),
        php_readable(es[i], line_starts(content)),
    ensures
        exists|k: int|
            0 <= k < php_manifest_deps(content, root).len() && (#[trigger] php_manifest_deps(content, root)[k]).name
                == ob(&es[i].key) && php_manifest_deps(content, root)[k].version == ob(&es[i].value.value->Str_0)
                && php_manifest_deps(content, root)[k].dev,
{
    let o = line_starts(content);
    lemma_php_members_keep(es, o, true, i);
    let a = php_section(root, sb("require"), o, false);
    let b = php_section(root, sb("require-dev"), o, true);
    assert(php_manifest_deps(content, root) == a + b);
    let k = choose|k: int| 0 <= k < b.len() && b[k] == php_member_dep(es[i], o, true)->0;
    assert((a + b)[a.len() + k] == b[k]);
}

} // verus!
