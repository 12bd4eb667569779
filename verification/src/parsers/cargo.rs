//! Rust `Cargo.toml` manifests: their dependencies, with spans, and the
//! root package's name.

use vstd::prelude::*;
use crate::parsers::toml_value::{toml_doc, toml_get, toml_str, toml_value_of, TomlValue};
use crate::parsers::toml_tree::{
    get_opt, node_get, node_table, opt_get, range_span, range_to_span, table_entries,
    taplo_tree_of, text_line_ranges, text_ranges_from, to_ranges, toml_tree, TextRange, TomlDocument, TomlNode,
    TomlNodeEntry,
};
use crate::parsers::{deps_view, DepModel, Dependency, Parser};
use crate::text::{bytes, contains, contains_b, ob, sb, to_owned_string};

verus! {

/// The `[package].name` of a manifest document, when it is a string.
pub open spec fn root_package_name(doc: TomlValue) -> Option<Seq<u8>> {
    match toml_get(doc, sb("package")) {
        Some(p) => toml_str(toml_get(p, sb("name"))),
        None => None,
    }
}

/// Extract the `[package].name` field from a `Cargo.toml` document.
///
/// Returns `None` for workspace-only manifests (no `[package]`), for a
/// `name` that is not a string, and for a text that does not parse (handed
/// over as an empty table).
pub fn cargo_root_package_name_doc(doc: &TomlValue) -> (r: Option<String>)
    ensures
        match r {
            Some(s) => root_package_name(*doc) == Some(ob(&s)),
            None => root_package_name(*doc) is None,
        },
{
    match doc.get("package") {
        Some(p) => match p.get("name") {
            Some(n) => match n.as_str() {
                Some(s) => Some(to_owned_string(s)),
                None => None,
            },
            None => None,
        },
        None => None,
    }
}

/// Extract the `[package].name` field from the text of a `Cargo.toml`, read
/// with `toml` (see [`cargo_root_package_name_doc`]).
pub fn cargo_root_package_name(manifest_content: &str) -> (r: Option<String>)
    ensures
        match r {
            Some(s) => root_package_name(toml_value_of(sb(manifest_content))) == Some(ob(&s)),
            None => root_package_name(toml_value_of(sb(manifest_content))) is None,
        },
{
    let doc = toml_doc(manifest_content);
    cargo_root_package_name_doc(&doc)
}

/// The range of the content of a string token: one byte in from each end;
/// none when that would cross over or leave `u32`.
pub open spec fn str_content(r: Option<TextRange>) -> Option<TextRange> {
    match r {
        Some(t) => if t.start + 1 > u32::MAX || t.end < 1 || t.start + 1 > t.end - 1 {
            None
        } else {
            Some(TextRange { start: (t.start + 1) as u32, end: (t.end - 1) as u32 })
        },
        None => None,
    }
}

/// The range of the content of a string token (between its quotes).
pub fn str_content_range(range: Option<TextRange>) -> (r: Option<TextRange>)
    ensures
        r == str_content(range),
{
    match range {
        Some(t) => {
            if t.start == 0xFFFF_FFFF || t.end < 1 || t.start + 1 > t.end - 1 {
                None
            } else {
                Some(TextRange { start: t.start + 1, end: t.end - 1 })
            }
        },
        None => None,
    }
}

/// The text of an optional string node.
pub open spec fn node_str(n: Option<TomlNode>) -> Option<Seq<u8>> {
    match n {
        Some(TomlNode::Str { value, range }) => Some(ob(&value)),
        _ => None,
    }
}

/// The token range of an optional string node (none for other nodes).
pub open spec fn node_str_range(n: Option<TomlNode>) -> Option<TextRange> {
    match n {
        Some(TomlNode::Str { value, range }) => range,
        _ => None,
    }
}

/// The dependency a `Cargo.toml` dependency-table entry gives: a plain
/// version string, or a table with a string `version` (and optionally a
/// renaming `package`, a boolean `optional` and a string `registry`). The
/// name span covers the `package` string's content when there is one, else
/// the key; the version span covers the version string's content.
pub open spec fn cargo_entry_dep(e: TomlNodeEntry, lines: Seq<TextRange>, is_dev: bool) -> Option<DepModel> {
    match e.value {
        TomlNode::Str { value, range } => match (e.key_range, str_content(range)) {
            (Some(kr), Some(vr)) => match (range_span(lines, kr), range_span(lines, vr)) {
                (Some(ns), Some(vs)) => Some(
                    DepModel {
                        name: ob(&e.key),
                        version: ob(&value),
                        name_span: ns,
                        version_span: vs,
                        dev: is_dev,
                        optional: false,
                        registry: None,
                        resolved_version: None,
                        has_additional_version_constraints: false,
                    },
                ),
                _ => None,
            },
            _ => None,
        },
        TomlNode::Table(_) => {
            let package = node_get(e.value, sb("package"));
            let version = node_get(e.value, sb("version"));
            let optional = match node_get(e.value, sb("optional")) {
                Some(TomlNode::Bool(b)) => b,
                _ => false,
            };
            let name_range = match node_str(package) {
                Some(_) => match str_content(node_str_range(package)) {
                    Some(r) => Some(r),
                    None => e.key_range,
                },
                None => e.key_range,
            };
            match (node_str(version), name_range, str_content(node_str_range(version))) {
                (Some(v), Some(nr), Some(vr)) => match (range_span(lines, nr), range_span(lines, vr)) {
                    (Some(ns), Some(vs)) => Some(
                        DepModel {
                            name: match node_str(package) {
                                Some(p) => p,
                                None => ob(&e.key),
                            },
                            version: v,
                            name_span: ns,
                            version_span: vs,
                            dev: is_dev,
                            optional,
                            registry: node_str(node_get(e.value, sb("registry"))),
                            resolved_version: None,
                            has_additional_version_constraints: false,
                        },
                    ),
                    _ => None,
                },
                _ => None,
            }
        },
        _ => None,
    }
}

/// Parse one entry of a `Cargo.toml` dependency table.
pub fn parse_dependency(entry: &TomlNodeEntry, lines: &[TextRange], is_dev: bool) -> (r: Option<Dependency>)
    ensures
        match r {
            Some(d) => cargo_entry_dep(*entry, lines@, is_dev) == Some(d@),
            None => cargo_entry_dep(*entry, lines@, is_dev) is None,
        },
{
    match &entry.value {
        TomlNode::Str { value, range } => {
            let kr = match entry.key_range {
                Some(k) => k,
                None => return None,
            };
            let vr = match str_content_range(*range) {
                Some(v) => v,
                None => return None,
            };
            match (range_to_span(kr, lines), range_to_span(vr, lines)) {
                (Some(name_span), Some(version_span)) => Some(
                    Dependency {
                        name: to_owned_string(entry.key.as_str()),
                        version: to_owned_string(value.as_str()),
                        name_span,
                        version_span,
                        dev: is_dev,
                        optional: false,
                        registry: None,
                        resolved_version: None,
                        has_additional_version_constraints: false,
                    },
                ),
                _ => None,
            }
        },
        TomlNode::Table(_) => {
            let node = &entry.value;
            let package = node.get("package");
            let optional = match node.get("optional") {
                Some(TomlNode::Bool(b)) => *b,
                _ => false,
            };
            let (package_name, package_range): (Option<&str>, Option<TextRange>) = match package {
                Some(TomlNode::Str { value, range }) => (Some(value.as_str()), *range),
                _ => (None, None),
            };
            let name_range = match package_name {
                Some(_) => match str_content_range(package_range) {
                    Some(r) => Some(r),
                    None => entry.key_range,
                },
                None => entry.key_range,
            };
            let (version, version_range): (&str, Option<TextRange>) = match node.get("version") {
                Some(TomlNode::Str { value, range }) => (value.as_str(), *range),
                _ => return None,
            };
            let nr = match name_range {
                Some(r) => r,
                None => return None,
            };
            let vr = match str_content_range(version_range) {
                Some(r) => r,
                None => return None,
            };
            let registry = match node.get("registry") {
                Some(TomlNode::Str { value, range }) => Some(to_owned_string(value.as_str())),
                _ => None,
            };
            match (range_to_span(nr, lines), range_to_span(vr, lines)) {
                (Some(name_span), Some(version_span)) => Some(
                    Dependency {
                        name: match package_name {
                            Some(p) => to_owned_string(p),
                            None => to_owned_string(entry.key.as_str()),
                        },
                        version: to_owned_string(version),
                        name_span,
                        version_span,
                        dev: is_dev,
                        optional,
                        registry,
                        resolved_version: None,
                        has_additional_version_constraints: false,
                    },
                ),
                _ => None,
            }
        },
        _ => None,
    }
}

/// The dependencies of the entries of a dependency table, in order.
pub open spec fn cargo_entries(es: Seq<TomlNodeEntry>, lines: Seq<TextRange>, is_dev: bool) -> Seq<DepModel>
    decreases es.len(),
{
    if es.len() == 0 {
        Seq::empty()
    } else {
        let prev = cargo_entries(es.drop_last(), lines, is_dev);
        match cargo_entry_dep(es.last(), lines, is_dev) {
            Some(d) => prev.push(d),
            None => prev,
        }
    }
}

/// The dependencies of an optional dependency-table node.
pub open spec fn cargo_section(n: Option<TomlNode>, lines: Seq<TextRange>, is_dev: bool) -> Seq<DepModel> {
    match node_table(n) {
        Some(es) => cargo_entries(es, lines, is_dev),
        None => Seq::empty(),
    }
}

fn push_cargo_section(n: Option<&TomlNode>, lines: &[TextRange], is_dev: bool, deps: &mut Vec<Dependency>)
    ensures
        deps_view(final(deps)@) == deps_view(old(deps)@) + cargo_section(
            match n {
                Some(y) => Some(*y),
                None => None,
            },
            lines@,
            is_dev,
        ),
{
    let ghost d0 = deps_view(deps@);
    match table_entries(n) {
        Some(es) => {
            let mut i: usize = 0;
            while i < es.len()
                invariant
                    i <= es@.len(),
                    deps_view(deps@) == d0 + cargo_entries(es@.take(i as int), lines@, is_dev),
                decreases es@.len() - i,
            {
                proof {
                    assert(es@.take(i + 1).drop_last() =~= es@.take(i as int));
                    assert(es@.take(i + 1).last() == es@[i as int]);
                }
                match parse_dependency(&es[i], lines, is_dev) {
                    Some(dep) => {
                        let ghost dv = dep@;
                        let ghost o0 = deps@;
                        deps.push(dep);
                        proof {
                            assert(deps_view(deps@) =~= deps_view(o0).push(dv));
                        }
                    },
                    None => {},
                }
                i = i + 1;
            }
            proof {
                assert(es@.take(i as int) =~= es@);
            }
        },
        None => {
            proof {
                assert(deps_view(deps@) =~= d0 + Seq::<DepModel>::empty());
            }
        },
    }
}

/// The three dependency tables of a table node: `dependencies`,
/// `dev-dependencies` (dev) and `build-dependencies`.
pub open spec fn cargo_scopes(t: Option<TomlNode>, lines: Seq<TextRange>) -> Seq<DepModel> {
    cargo_section(opt_get(t, sb("dependencies")), lines, false) + cargo_section(
        opt_get(t, sb("dev-dependencies")),
        lines,
        true,
    ) + cargo_section(opt_get(t, sb("build-dependencies")), lines, false)
}

fn push_cargo_scopes(t: Option<&TomlNode>, lines: &[TextRange], deps: &mut Vec<Dependency>)
    ensures
        deps_view(final(deps)@) == deps_view(old(deps)@) + cargo_scopes(
            match t {
                Some(y) => Some(*y),
                None => None,
            },
            lines@,
        ),
{
    let ghost d0 = deps_view(deps@);
    push_cargo_section(get_opt(t, "dependencies"), lines, false, deps);
    push_cargo_section(get_opt(t, "dev-dependencies"), lines, true, deps);
    push_cargo_section(get_opt(t, "build-dependencies"), lines, false, deps);
    proof {
        let tn = match t {
            Some(y) => Some(*y),
            None => None,
        };
        assert(deps_view(deps@) =~= d0 + cargo_scopes(tn, lines@));
    }
}

/// The dependency scopes of each `[target.<cfg>]` table, in order.
pub open spec fn cargo_targets(ts: Seq<TomlNodeEntry>, lines: Seq<TextRange>) -> Seq<DepModel>
    decreases ts.len(),
{
    if ts.len() == 0 {
        Seq::empty()
    } else {
        cargo_targets(ts.drop_last(), lines) + cargo_scopes(Some(ts.last().value), lines)
    }
}

/// Whether one of the parser's error messages mentions `expected`, which
/// marks a manifest too broken to read.
pub open spec fn critical_errors(errors: Seq<String>) -> bool {
    exists|i: int| 0 <= i < errors.len() && contains_b(ob(&errors[i]), sb("expected"))
}

/// The dependencies of a `Cargo.toml` document: the three scopes at the top
/// level, then those of each `[target.<cfg>]` table, then
/// `[workspace.dependencies]`; none when an error message mentions `expected`.
pub open spec fn cargo_manifest_deps(content: Seq<u8>, doc: TomlDocument) -> Seq<DepModel> {
    if critical_errors(doc.errors@) {
        Seq::empty()
    } else {
        let lines = to_ranges(text_ranges_from(content, 0));
        let root = doc.root;
        let targets = match node_table(node_get(root, sb("target"))) {
            Some(ts) => cargo_targets(ts, lines),
            None => Seq::empty(),
        };
        cargo_scopes(Some(root), lines) + targets + cargo_section(
            opt_get(node_get(root, sb("workspace")), sb("dependencies")),
            lines,
            false,
        )
    }
}

/// Parser for Rust `Cargo.toml` dependency files, over the `taplo` document
/// of the manifest for byte-accurate spans.
///
/// The three dependency scopes (`dependencies`, `dev-dependencies`,
/// `build-dependencies`), their target-specific counterparts
/// (`[target.<cfg>.dependencies]`) and `[workspace.dependencies]` are read in
/// one pass.
#[derive(Debug, Default)]
pub struct CargoParser;

impl CargoParser {
    /// Creates a new [`CargoParser`] instance.
    pub fn new() -> Self {
        CargoParser
    }

    /// The dependencies of a `Cargo.toml`: `content` is the text, `doc` its
    /// `taplo` tree (as [`toml_tree`] gives it).
    pub fn parse_document(&self, content: &str, doc: &TomlDocument) -> (deps: Vec<Dependency>)
        ensures
            deps_view(deps@) == cargo_manifest_deps(sb(content), *doc),
    {
        let mut dependencies: Vec<Dependency> = Vec::new();
        proof {
            assert(deps_view(dependencies@) =~= Seq::<DepModel>::empty());
        }
        let mut k: usize = 0;
        while k < doc.errors.len()
            invariant
                k <= doc.errors@.len(),
                deps_view(dependencies@) == Seq::<DepModel>::empty(),
                forall|j: int| 0 <= j < k ==> !contains_b(ob(&doc.errors@[j]), sb("expected")),
            decreases doc.errors@.len() - k,
        {
            if contains(bytes(doc.errors[k].as_str()), bytes("expected")) {
                return dependencies;
            }
            k = k + 1;
        }
        let line_ranges = text_line_ranges(content);
        let ghost lines = line_ranges@;
        let dom = &doc.root;
        push_cargo_scopes(Some(dom), line_ranges.as_slice(), &mut dependencies);
        let ghost after_top = deps_view(dependencies@);
        match table_entries(dom.get("target")) {
            Some(ts) => {
                let mut i: usize = 0;
                proof {
                    assert(after_top + cargo_targets(ts@.take(0), lines) =~= after_top);
                }
                while i < ts.len()
                    invariant
                        i <= ts@.len(),
                        lines == line_ranges@,
                        deps_view(dependencies@) == after_top + cargo_targets(ts@.take(i as int), lines),
                    decreases ts@.len() - i,
                {
                    proof {
                        assert(ts@.take(i + 1).drop_last() =~= ts@.take(i as int));
                        assert(ts@.take(i + 1).last() == ts@[i as int]);
                    }
                    push_cargo_scopes(Some(&ts[i].value), line_ranges.as_slice(), &mut dependencies);
                    proof {
                        assert(deps_view(dependencies@) =~= after_top + cargo_targets(ts@.take(i + 1), lines));
                    }
                    i = i + 1;
                }
                proof {
                    assert(ts@.take(i as int) =~= ts@);
                }
            },
            None => {
                proof {
                    assert(deps_view(dependencies@) =~= after_top + Seq::<DepModel>::empty());
                }
            },
        }
        push_cargo_section(
            get_opt(dom.get("workspace"), "dependencies"),
            line_ranges.as_slice(),
            false,
            &mut dependencies,
        );
        dependencies
    }
}

impl Parser for CargoParser {
    /// The dependencies of a `Cargo.toml`, read from its `taplo` tree.
    fn parse(&self, content: &str) -> (deps: Vec<Dependency>)
        ensures
            deps_view(deps@) == cargo_manifest_deps(sb(content), taplo_tree_of(sb(content))),
    {
        let doc = toml_tree(content);
        self.parse_document(content, &doc)
    }
}

proof fn lemma_cargo_entries_keep(es: Seq<TomlNodeEntry>, lines: Seq<TextRange>, is_dev: bool, i: int)
    requires
        0 <= i < es.len(),
        cargo_entry_dep(es[i], lines, is_dev) is Some,
    ensures
        cargo_entries(es, lines, is_dev).contains(cargo_entry_dep(es[i], lines, is_dev)->0),
    decreases es.len(),
{
    let prev = cargo_entries(es.drop_last(), lines, is_dev);
    if i < es.len() - 1 {
        lemma_cargo_entries_keep(es.drop_last(), lines, is_dev, i);
        assert(es.drop_last()[i] == es[i]);
        let k = choose|k: int| 0 <= k < prev.len() && prev[k] == cargo_entry_dep(es[i], lines, is_dev)->0;
        assert(cargo_entries(es, lines, is_dev)[k] == prev[k]);
    } else {
        assert(es.last() == es[i]);
        assert(cargo_entries(es, lines, is_dev)[prev.len() as int] == cargo_entry_dep(es[i], lines, is_dev)->0);
    }
}

/// The dependency an entry with a plain string value gives, when its key
/// and the string's content each lie on one line: named by the key, with the
/// string as its version, not optional, with no registry.
proof fn lemma_cargo_string_entry(e: TomlNodeEntry, lines: Seq<TextRange>, is_dev: bool)
    requires
        e.value is Str,
        e.key_range is Some,
        str_content(e.value->range) is Some,
        range_span(lines, e.key_range->0) is Some,
        range_span(lines, str_content(e.value->range)->0) is Some,
    ensures
        cargo_entry_dep(e, lines, is_dev) matches Some(d) && d.name == ob(&e.key) && d.version == ob(
            &e.value->value,
        ) && d.dev == is_dev && !d.optional && d.registry is None,
{
}

proof fn lit_scopes()
    ensures
        sb("dependencies").len() == 12,
        sb("dev-dependencies").len() == 16,
        sb("build-dependencies").len() == 18,
{
    reveal_strlit("dependencies");
    reveal_strlit("dev-dependencies");
    reveal_strlit("build-dependencies");
    assert(vstd::string::is_ascii("dependencies"));
    assert(vstd::string::is_ascii("dev-dependencies"));
    assert(vstd::string::is_ascii("build-dependencies"));
}

/// A scope table of `t` (`dependencies`, `dev-dependencies` or
/// `build-dependencies`) contributes each readable entry to `cargo_scopes`.
proof fn lemma_cargo_scope_keep(t: TomlNode, lines: Seq<TextRange>, scope: Seq<u8>, bs: Seq<TomlNodeEntry>, i: int)
    requires
        scope == sb("dependencies") || scope == sb("dev-dependencies") || scope == sb("build-dependencies"),
        node_table(node_get(t, scope)) == Some(bs),
        0 <= i < bs.len(),
        cargo_entry_dep(bs[i], lines, scope == sb("dev-dependencies")) is Some,
    ensures
        cargo_scopes(Some(t), lines).contains(cargo_entry_dep(bs[i], lines, scope == sb("dev-dependencies"))->0),
{
    let dev = scope == sb("dev-dependencies");
    let d = cargo_entry_dep(bs[i], lines, dev)->0;
    lemma_cargo_entries_keep(bs, lines, dev, i);
    let a = cargo_section(opt_get(Some(t), sb("dependencies")), lines, false);
    let b = cargo_section(opt_get(Some(t), sb("dev-dependencies")), lines, true);
    let c = cargo_section(opt_get(Some(t), sb("build-dependencies")), lines, false);
    lit_scopes();
    assert(cargo_scopes(Some(t), lines) == a + b + c);
    if scope == sb("dependencies") {
        assert(a == cargo_entries(bs, lines, dev));
        let k = choose|k: int| 0 <= k < a.len() && a[k] == d;
        assert((a + b + c)[k] == d);
    } else if scope == sb("dev-dependencies") {
        assert(b == cargo_entries(bs, lines, dev));
        let k = choose|k: int| 0 <= k < b.len() && b[k] == d;
        assert((a + b + c)[a.len() + k] == d);
    } else {
        assert(c == cargo_entries(bs, lines, dev));
        let k = choose|k: int| 0 <= k < c.len() && c[k] == d;
        assert((a + b + c)[a.len() + b.len() + k] == d);
    }
}

/// Every entry with a plain string version in a top-level dependency table
/// of a `Cargo.toml` (`[dependencies]`, `[dev-dependencies]` or
/// `[build-dependencies]`) is one of its dependencies: named by its key, with
/// the string as its version, dev exactly for `[dev-dependencies]` (for a
/// document without critical errors, and an entry whose key and string each
/// lie on one line).
pub proof fn law_cargo_top_level_scopes_read(
    content: Seq<u8>,
    doc: TomlDocument,
    scope: Seq<u8>,
    bs: Seq<TomlNodeEntry>,
    i: int,
)
    requires
        scope == sb("dependencies") || scope == sb("dev-dependencies") || scope == sb("build-dependencies"),
        forall|j: int| 0 <= j < doc.errors@.len() ==> !contains_b(ob(&#[trigger] doc.errors@[j]), sb("expected")),
        node_table(node_get(doc.root, scope)) == Some(bs),
        0 <= i < bs.len(),
        bs[i].value is Str,
        bs[i].key_range is Some,
        str_content(bs[i].value->range) is Some,
        range_span(to_ranges(text_ranges_from(content, 0)), bs[i].key_range->0) is Some,
        range_span(to_ranges(text_ranges_from(content, 0)), str_content(bs[i].value->range)->0) is Some,
    ensures
        exists|k: int|
            0 <= k < cargo_manifest_deps(content, doc).len() && (#[trigger] cargo_manifest_deps(content, doc)[k]).name
                == ob(&bs[i].key) && cargo_manifest_deps(content, doc)[k].version == ob(&bs[i].value->value)
                && cargo_manifest_deps(content, doc)[k].dev == (scope == sb("dev-dependencies")),
{
    let lines = to_ranges(text_ranges_from(content, 0));
    let dev = scope == sb("dev-dependencies");
    lit_scopes();
    lemma_cargo_string_entry(bs[i], lines, dev);
    lemma_cargo_scope_keep(doc.root, lines, scope, bs, i);
    let d = cargo_entry_dep(bs[i], lines, dev)->0;
    assert(!critical_errors(doc.errors@));
    let sc = cargo_scopes(Some(doc.root), lines);
    let k = choose|k: int| 0 <= k < sc.len() && sc[k] == d;
    let targets = match node_table(node_get(doc.root, sb("target"))) {
        Some(ts) => cargo_targets(ts, lines),
        None => Seq::empty(),
    };
    let ws = cargo_section(opt_get(node_get(doc.root, sb("workspace")), sb("dependencies")), lines, false);
    assert(cargo_manifest_deps(content, doc) == sc + targets + ws);
    assert((sc + targets + ws)[k] == d);
}

#[verifier::spinoff_prover]
#[verifier::rlimit(40)]
proof fn lemma_cargo_targets_keep(ts: Seq<TomlNodeEntry>, lines: Seq<TextRange>, t: int, d: DepModel)
    requires
        0 <= t < ts.len(),
        cargo_scopes(Some(ts[t].value), lines).contains(d),
    ensures
        cargo_targets(ts, lines).contains(d),
    decreases ts.len(),
{
    let prev = cargo_targets(ts.drop_last(), lines);
    let last = cargo_scopes(Some(ts.last().value), lines);
    if t < ts.len() - 1 {
        assert(ts.drop_last()[t] == ts[t]);
        lemma_cargo_targets_keep(ts.drop_last(), lines, t, d);
        let k = choose|k: int| 0 <= k < prev.len() && prev[k] == d;
        assert((prev + last)[k] == d);
    } else {
        let k = choose|k: int| 0 <= k < last.len() && last[k] == d;
        assert((prev + last)[prev.len() + k] == d);
    }
}

/// Every entry with a plain string version in a dependency table of a
/// `[target.<cfg>]` table (`dependencies`, `dev-dependencies` or
/// `build-dependencies`) is one of the manifest's dependencies, named by its
/// key, with the string as its version, dev exactly for `dev-dependencies`.
pub proof fn law_cargo_target_scopes_read(
    content: Seq<u8>,
    doc: TomlDocument,
    ts: Seq<TomlNodeEntry>,
    t: int,
    scope: Seq<u8>,
    bs: Seq<TomlNodeEntry>,
    i: int,
)
    requires
        scope == sb("dependencies") || scope == sb("dev-dependencies") || scope == sb("build-dependencies"),
        forall|j: int| 0 <= j < doc.errors@.len() ==> !contains_b(ob(&#[trigger] doc.errors@[j]), sb("expected")),
        node_table(node_get(doc.root, sb("target"))) == Some(ts),
        0 <= t < ts.len(),
        node_table(node_get(ts[t].value, scope)) == Some(bs),
        0 <= i < bs.len(),
        bs[i].value is Str,
        bs[i].key_range is Some,
        str_content(bs[i].value->range) is Some,
        range_span(to_ranges(text_ranges_from(content, 0)), bs[i].key_range->0) is Some,
        range_span(to_ranges(text_ranges_from(content, 0)), str_content(bs[i].value->range)->0) is Some,
    ensures
        exists|k: int|
            0 <= k < cargo_manifest_deps(content, doc).len() && (#[trigger] cargo_manifest_deps(content, doc)[k]).name
                == ob(&bs[i].key) && cargo_manifest_deps(content, doc)[k].version == ob(&bs[i].value->value)
                && cargo_manifest_deps(content, doc)[k].dev == (scope == sb("dev-dependencies")),
{
    let lines = to_ranges(text_ranges_from(content, 0));
    let dev = scope == sb("dev-dependencies");
    lit_scopes();
    lemma_cargo_string_entry(bs[i], lines, dev);
    lemma_cargo_scope_keep(ts[t].value, lines, scope, bs, i);
    let d = cargo_entry_dep(bs[i], lines, dev)->0;
    lemma_cargo_targets_keep(ts, lines, t, d);
    assert(!critical_errors(doc.errors@));
    let sc = cargo_scopes(Some(doc.root), lines);
    let targets = cargo_targets(ts, lines);
    let k = choose|k: int| 0 <= k < targets.len() && targets[k] == d;
    let ws = cargo_section(opt_get(node_get(doc.root, sb("workspace")), sb("dependencies")), lines, false);
    assert(cargo_manifest_deps(content, doc) == sc + targets + ws);
    assert((sc + targets + ws)[sc.len() + k] == d);
}

/// Every entry with a plain string version in `[workspace.dependencies]` is
/// one of the manifest's dependencies, named by its key, with the string as
/// its version, not dev.
pub proof fn law_cargo_workspace_deps_read(
    content: Seq<u8>,
    doc: TomlDocument,
    w: TomlNode,
    bs: Seq<TomlNodeEntry>,
    i: int,
)
    requires
        forall|j: int| 0 <= j < doc.errors@.len() ==> !contains_b(ob(&#[trigger] doc.errors@[j]), sb("expected")),
        node_get(doc.root, sb("workspace")) == Some(w),
        node_table(node_get(w, sb("dependencies"))) == Some(bs),
        0 <= i < bs.len(),
        bs[i].value is Str,
        bs[i].key_range is Some,
        str_content(bs[i].value->range) is Some,
        range_span(to_ranges(text_ranges_from(content, 0)), bs[i].key_range->0) is Some,
        range_span(to_ranges(text_ranges_from(content, 0)), str_content(bs[i].value->range)->0) is Some,
    ensures
        exists|k: int|
            0 <= k < cargo_manifest_deps(content, doc).len() && (#[trigger] cargo_manifest_deps(content, doc)[k]).name
                == ob(&bs[i].key) && cargo_manifest_deps(content, doc)[k].version == ob(&bs[i].value->value)
                && !cargo_manifest_deps(content, doc)[k].dev,
{
    let lines = to_ranges(text_ranges_from(content, 0));
    lemma_cargo_string_entry(bs[i], lines, false);
    lemma_cargo_entries_keep(bs, lines, false, i);
    let d = cargo_entry_dep(bs[i], lines, false)->0;
    assert(!critical_errors(doc.errors@));
    let sc = cargo_scopes(Some(doc.root), lines);
    let targets = match node_table(node_get(doc.root, sb("target"))) {
        Some(ts) => cargo_targets(ts, lines),
        None => Seq::empty(),
    };
    let ws = cargo_section(opt_get(node_get(doc.root, sb("workspace")), sb("dependencies")), lines, false);
    let k = choose|k: int| 0 <= k < ws.len() && ws[k] == d;
    assert(cargo_manifest_deps(content, doc) == sc + targets + ws);
    assert((sc + targets + ws)[sc.len() + targets.len() + k] == d);
}

} // verus!
