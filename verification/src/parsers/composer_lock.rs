//! Parser for `composer.lock` documents: the exact versions locked for PHP
//! (Composer) dependencies, and their dependency graph.

use vstd::prelude::*;
use crate::parsers::json_value::{json_doc, json_value_of, 
    field_array, field_object, field_str, json_field_str, json_members, json_section, JsonMember,
    JsonValue,
};
use crate::parsers::lock_map::{insert_first, lock_map_entries, LockMap};
use crate::parsers::lockfile_graph::{pkgs_view, strings_view, LockfileGraph, LockfilePackage, PkgModel};
use crate::text::{
    bytes, lower_b, ob, sb, starts_with, starts_with_b, str_eq, str_to_lowercase,
    to_lowercase_string, to_owned_string,
};

verus! {

broadcast use vstd::utf8::encode_utf8_decode_utf8;

/// Normalize a Composer package name to lowercase.
///
/// Composer package names are case-insensitive
/// (e.g., `"Vendor/Package"` == `"vendor/package"`).
/// This function ensures consistent lookup between manifest and lockfile entries.
pub fn normalize_composer_name(name: &str) -> (r: String)
    ensures
        r@ == str_to_lowercase(name@),
        ob(&r) == lower_b(sb(name)),
{
    to_lowercase_string(name)
}

/// Resolves versions from `composer.lock` for PHP projects.
/// Composer normalizes package names to lowercase (Vendor/Package → vendor/package).
pub struct PhpResolver;

impl PhpResolver {
    /// The dependency graph of a `composer.lock` document.
    pub fn parse_graph_document(&self, doc: &JsonValue) -> (graph: LockfileGraph)
        ensures
            pkgs_view(graph.packages@) == composer_lock_pkgs(*doc),
    {
        parse_composer_lock_graph_doc(doc)
    }

    /// The dependency graph of the text of a `composer.lock`.
    pub fn parse_graph(&self, lock_content: &str) -> (graph: LockfileGraph)
        ensures
            pkgs_view(graph.packages@) == composer_lock_pkgs(json_value_of(sb(lock_content))),
    {
        parse_composer_lock_graph(lock_content)
    }

    /// The name under which a package is looked up in the lockfile.
    pub fn normalize_name(&self, name: &str) -> (r: String)
        ensures
            r@ == str_to_lowercase(name@),
    {
        normalize_composer_name(name)
    }
}

// ---------------------------------------------------------------------------
// composer.lock → name/version map and graph
// ---------------------------------------------------------------------------

/// The `(name, version)` a `composer.lock` package entry records, its name
/// lowercased, when it has both as strings.
pub open spec fn composer_entry(p: JsonValue) -> Option<(Seq<u8>, Seq<u8>)> {
    match (json_field_str(p, sb("name")), json_field_str(p, sb("version"))) {
        (Some(n), Some(v)) => Some((lower_b(n), v)),
        _ => None,
    }
}

/// `m` with the entries of `ps` added in order, the first version of a name winning.
pub open spec fn composer_fold(m: Map<Seq<u8>, Seq<u8>>, ps: Seq<JsonValue>) -> Map<Seq<u8>, Seq<u8>>
    decreases ps.len(),
{
    if ps.len() == 0 {
        m
    } else {
        let m2 = composer_fold(m, ps.drop_last());
        match composer_entry(ps.last()) {
            Some(e) => insert_first(m2, e.0, e.1),
            None => m2,
        }
    }
}

/// The name → version map of a `composer.lock` document: `packages`, then
/// `packages-dev`.
pub open spec fn composer_lock_map(doc: JsonValue) -> Map<Seq<u8>, Seq<u8>> {
    composer_fold(
        composer_fold(Map::empty(), json_section(doc, sb("packages"))),
        json_section(doc, sb("packages-dev")),
    )
}

fn composer_map_section(map: &mut LockMap, doc: &JsonValue, key: &str)
    ensures
        lock_map_entries(*final(map)) == composer_fold(
            lock_map_entries(*old(map)),
            json_section(*doc, sb(key)),
        ),
{
    let ghost m0 = lock_map_entries(*map);
    match field_array(doc, key) {
        Some(arr) => {
            let mut i: usize = 0;
            while i < arr.len()
                invariant
                    i <= arr@.len(),
                    arr@ == json_section(*doc, sb(key)),
                    lock_map_entries(*map) == composer_fold(m0, arr@.take(i as int)),
                decreases arr@.len() - i,
            {
                proof {
                    assert(arr@.take(i + 1).drop_last() =~= arr@.take(i as int));
                    assert(arr@.take(i + 1).last() == arr@[i as int]);
                }
                match (field_str(&arr[i], "name"), field_str(&arr[i], "version")) {
                    (Some(n), Some(v)) => {
                        map.insert_first_owned(normalize_composer_name(n), to_owned_string(v));
                    },
                    _ => {},
                }
                i = i + 1;
            }
            proof {
                assert(arr@.take(i as int) =~= arr@);
            }
        },
        None => {
            proof {
                assert(json_section(*doc, sb(key)) =~= Seq::<JsonValue>::empty());
            }
        },
    }
}

/// Parse a `composer.lock` document into a map of package name → resolved version.
///
/// Entries of the `packages` array, then of `packages-dev`, with string
/// `name` and `version` fields contribute; names are lowercased (Composer is
/// case-insensitive), versions kept as written (a `v` prefix included), and
/// the first entry for a name wins. A document that is not an object, as an
/// unparsable text is handed over, gives an empty map.
pub fn parse_composer_lock_doc(doc: &JsonValue) -> (r: LockMap)
    ensures
        lock_map_entries(r) == composer_lock_map(*doc),
{
    let mut map = LockMap::new();
    proof {
        assert(lock_map_entries(map) =~= Map::<Seq<u8>, Seq<u8>>::empty());
    }
    composer_map_section(&mut map, doc, "packages");
    composer_map_section(&mut map, doc, "packages-dev");
    map
}

/// Parse the text of a `composer.lock`, read with `serde_json`, into a map
/// of package name → version (see [`parse_composer_lock_doc`]).
pub fn parse_composer_lock(content: &str) -> (r: LockMap)
    ensures
        lock_map_entries(r) == composer_lock_map(json_value_of(sb(content))),
{
    let doc = json_doc(content);
    parse_composer_lock_doc(&doc)
}

/// The dependency names a package's `require` object lists, lowercased, in
/// order, platform requirements (`php`, `ext-*`) left out.
pub open spec fn composer_requires(es: Seq<JsonMember>) -> Seq<Seq<u8>>
    decreases es.len(),
{
    if es.len() == 0 {
        Seq::empty()
    } else {
        let prev = composer_requires(es.drop_last());
        let k = ob(&es.last().key);
        if k != sb("php") && !starts_with_b(k, sb("ext-")) {
            prev.push(lower_b(k))
        } else {
            prev
        }
    }
}

/// The package a `composer.lock` entry contributes to the graph.
pub open spec fn composer_pkg(p: JsonValue) -> Option<PkgModel> {
    match (json_field_str(p, sb("name")), json_field_str(p, sb("version"))) {
        (Some(n), Some(v)) => Some(
            PkgModel {
                name: lower_b(n),
                version: v,
                dependencies: composer_requires(json_members(p, sb("require"))),
                is_root: false,
            },
        ),
        _ => None,
    }
}

/// The packages of some `composer.lock` entries, in order.
pub open spec fn composer_pkgs(ps: Seq<JsonValue>) -> Seq<PkgModel>
    decreases ps.len(),
{
    if ps.len() == 0 {
        Seq::empty()
    } else {
        let prev = composer_pkgs(ps.drop_last());
        match composer_pkg(ps.last()) {
            Some(p) => prev.push(p),
            None => prev,
        }
    }
}

/// The graph packages of a `composer.lock` document.
pub open spec fn composer_lock_pkgs(doc: JsonValue) -> Seq<PkgModel> {
    composer_pkgs(json_section(doc, sb("packages"))) + composer_pkgs(
        json_section(doc, sb("packages-dev")),
    )
}

fn composer_require_names(p: &JsonValue) -> (r: Vec<String>)
    ensures
        strings_view(r@) == composer_requires(json_members(*p, sb("require"))),
{
    let mut out: Vec<String> = Vec::new();
    match field_object(p, "require") {
        Some(es) => {
            let mut i: usize = 0;
            while i < es.len()
                invariant
                    i <= es@.len(),
                    es@ == json_members(*p, sb("require")),
                    strings_view(out@) == composer_requires(es@.take(i as int)),
                decreases es@.len() - i,
            {
                proof {
                    assert(es@.take(i + 1).drop_last() =~= es@.take(i as int));
                    assert(es@.take(i + 1).last() == es@[i as int]);
                }
                let k = es[i].key.as_str();
                if !str_eq(k, "php") && !starts_with(bytes(k), bytes("ext-")) {
                    let ghost o0 = out@;
                    out.push(normalize_composer_name(k));
                    proof {
                        assert(strings_view(out@) =~= strings_view(o0).push(lower_b(sb(k))));
                    }
                }
                i = i + 1;
            }
            proof {
                assert(es@.take(i as int) =~= es@);
            }
        },
        None => {},
    }
    out
}

fn composer_graph_section(packages: &mut Vec<LockfilePackage>, doc: &JsonValue, key: &str)
    ensures
        pkgs_view(final(packages)@) == pkgs_view(old(packages)@) + composer_pkgs(
            json_section(*doc, sb(key)),
        ),
{
    let ghost p0 = pkgs_view(packages@);
    match field_array(doc, key) {
        Some(arr) => {
            let mut i: usize = 0;
            while i < arr.len()
                invariant
                    i <= arr@.len(),
                    arr@ == json_section(*doc, sb(key)),
                    pkgs_view(packages@) == p0 + composer_pkgs(arr@.take(i as int)),
                decreases arr@.len() - i,
            {
                proof {
                    assert(arr@.take(i + 1).drop_last() =~= arr@.take(i as int));
                    assert(arr@.take(i + 1).last() == arr@[i as int]);
                }
                let entry = &arr[i];
                match (field_str(entry, "name"), field_str(entry, "version")) {
                    (Some(n), Some(v)) => {
                        let pkg = LockfilePackage {
                            name: normalize_composer_name(n),
                            version: to_owned_string(v),
                            dependencies: composer_require_names(entry),
                            is_root: false,
                        };
                        let ghost pv = pkg@;
                        let ghost old_pk = packages@;
                        packages.push(pkg);
                        proof {
                            assert(pkgs_view(packages@) =~= pkgs_view(old_pk).push(pv));
                        }
                    },
                    _ => {},
                }
                i = i + 1;
            }
            proof {
                assert(arr@.take(i as int) =~= arr@);
            }
        },
        None => {
            proof {
                assert(json_section(*doc, sb(key)) =~= Seq::<JsonValue>::empty());
            }
        },
    }
}

/// Parse a `composer.lock` document into a full dependency graph: the
/// entries of `packages`, then of `packages-dev`, that have string `name` and
/// `version` fields, names lowercased, each with the keys of its `require`
/// object as edges (lowercased, `php` and `ext-*` platform requirements left
/// out).
pub fn parse_composer_lock_graph_doc(doc: &JsonValue) -> (graph: LockfileGraph)
    ensures
        pkgs_view(graph.packages@) == composer_lock_pkgs(*doc),
{
    let mut packages: Vec<LockfilePackage> = Vec::new();
    proof {
        assert(pkgs_view(packages@) =~= Seq::<PkgModel>::empty());
    }
    composer_graph_section(&mut packages, doc, "packages");
    composer_graph_section(&mut packages, doc, "packages-dev");
    proof {
        assert(pkgs_view(packages@) =~= composer_lock_pkgs(*doc));
    }
    LockfileGraph { packages }
}

/// Parse the text of a `composer.lock`, read with `serde_json`, into a
/// [`LockfileGraph`] (see [`parse_composer_lock_graph_doc`]).
pub fn parse_composer_lock_graph(content: &str) -> (graph: LockfileGraph)
    ensures
        pkgs_view(graph.packages@) == composer_lock_pkgs(json_value_of(sb(content))),
{
    let doc = json_doc(content);
    parse_composer_lock_graph_doc(&doc)
}

proof fn lemma_composer_pkgs_keep(ps: Seq<JsonValue>, i: int)
    requires
        0 <= i < ps.len(),
        composer_pkg(ps[i]) is Some,
    ensures
        exists|k: int| 0 <= k < composer_pkgs(ps).len() && composer_pkgs(ps)[k] == composer_pkg(ps[i])->0,
    decreases ps.len(),
{
    let prev = composer_pkgs(ps.drop_last());
    if i < ps.len() - 1 {
        assert(ps.drop_last()[i] == ps[i]);
        lemma_composer_pkgs_keep(ps.drop_last(), i);
        let k = choose|k: int| 0 <= k < prev.len() && prev[k] == composer_pkg(ps[i])->0;
        assert(composer_pkgs(ps)[k] == prev[k]);
    } else {
        assert(ps.last() == ps[i]);
        assert(composer_pkgs(ps)[prev.len() as int] == composer_pkg(ps[i])->0);
    }
}

/// Every entry of the `packages` array of a `composer.lock` with a string
/// `name` and `version` is a package of its graph: the name lowercased, the
/// version as written, not a root.
pub proof fn law_composer_graph_reads_packages(doc: JsonValue, i: int, n: Seq<u8>, v: Seq<u8>)
    requires
        0 <= i < json_section(doc, sb("packages")).len(),
        json_field_str(json_section(doc, sb("packages"))[i], sb("name")) == Some(n),
        json_field_str(json_section(doc, sb("packages"))[i], sb("version")) == Some(v),
    ensures
        exists|k: int|
            0 <= k < composer_lock_pkgs(doc).len() && (#[trigger] composer_lock_pkgs(doc)[k]).name == lower_b(n)
                && composer_lock_pkgs(doc)[k].version == v && !composer_lock_pkgs(doc)[k].is_root,
{
    let pa = json_section(doc, sb("packages"));
    let da = json_section(doc, sb("packages-dev"));
    lemma_composer_pkgs_keep(pa, i);
    let k = choose|k: int| 0 <= k < composer_pkgs(pa).len() && composer_pkgs(pa)[k] == composer_pkg(pa[i])->0;
    assert(composer_lock_pkgs(doc) == composer_pkgs(pa) + composer_pkgs(da));
    assert(composer_lock_pkgs(doc)[k] == composer_pkgs(pa)[k]);
    assert(composer_lock_pkgs(doc)[k].name == lower_b(n));
}

/// Every entry of the `packages-dev` array of a `composer.lock` with a
/// string `name` and `version` is a package of its graph too (the name
/// lowercased, the version as written, not a root), and it comes after every
/// such entry of `packages`.
pub proof fn law_composer_graph_reads_packages_dev(doc: JsonValue, i: int, n: Seq<u8>, v: Seq<u8>)
    requires
        0 <= i < json_section(doc, sb("packages-dev")).len(),
        json_field_str(json_section(doc, sb("packages-dev"))[i], sb("name")) == Some(n),
        json_field_str(json_section(doc, sb("packages-dev"))[i], sb("version")) == Some(v),
    ensures
        exists|k: int|
            0 <= k < composer_lock_pkgs(doc).len() && (#[trigger] composer_lock_pkgs(doc)[k]).name == lower_b(n)
                && composer_lock_pkgs(doc)[k].version == v && !composer_lock_pkgs(doc)[k].is_root
                && forall|q: int|
                0 <= q < json_section(doc, sb("packages")).len() && json_field_str(
                    #[trigger] json_section(doc, sb("packages"))[q],
                    sb("name"),
                ) is Some && json_field_str(json_section(doc, sb("packages"))[q], sb("version")) is Some
                    ==> exists|k2: int|
                    0 <= k2 < k && (#[trigger] composer_lock_pkgs(doc)[k2]).name == lower_b(
                        json_field_str(json_section(doc, sb("packages"))[q], sb("name"))->0,
                    ) && composer_lock_pkgs(doc)[k2].version == json_field_str(
                        json_section(doc, sb("packages"))[q],
                        sb("version"),
                    )->0,
{
    let pa = json_section(doc, sb("packages"));
    let da = json_section(doc, sb("packages-dev"));
    let all = composer_lock_pkgs(doc);
    assert(all == composer_pkgs(pa) + composer_pkgs(da));
    lemma_composer_pkgs_keep(da, i);
    let kd = choose|kd: int| 0 <= kd < composer_pkgs(da).len() && composer_pkgs(da)[kd] == composer_pkg(da[i])->0;
    let k = composer_pkgs(pa).len() + kd;
    assert(all[k] == composer_pkgs(da)[kd]);
    assert(all[k].name == lower_b(n));
    assert forall|q: int|
        0 <= q < pa.len() && json_field_str(#[trigger] pa[q], sb("name")) is Some && json_field_str(
            pa[q],
            sb("version"),
        ) is Some implies exists|k2: int|
        0 <= k2 < k && (#[trigger] all[k2]).name == lower_b(json_field_str(pa[q], sb("name"))->0)
            && all[k2].version == json_field_str(pa[q], sb("version"))->0 by {
        lemma_composer_pkgs_keep(pa, q);
        let k2 = choose|k2: int| 0 <= k2 < composer_pkgs(pa).len() && composer_pkgs(pa)[k2] == composer_pkg(pa[q])->0;
        assert(all[k2] == composer_pkgs(pa)[k2]);
    }
}

proof fn lemma_composer_fold_concat(m: Map<Seq<u8>, Seq<u8>>, a: Seq<JsonValue>, b: Seq<JsonValue>)
    ensures
        composer_fold(composer_fold(m, a), b) == composer_fold(m, a + b),
    decreases b.len(),
{
    if b.len() > 0 {
        lemma_composer_fold_concat(m, a, b.drop_last());
        assert((a + b).drop_last() =~= a + b.drop_last());
        assert((a + b).last() == b.last());
    } else {
        assert(a + b =~= a);
    }
}

proof fn lemma_composer_fold_entry(m: Map<Seq<u8>, Seq<u8>>, ps: Seq<JsonValue>, i: int)
    requires
        0 <= i < ps.len(),
        composer_entry(ps[i]) is Some,
    ensures
        composer_fold(m, ps).dom().contains((composer_entry(ps[i])->0).0),
        (!m.dom().contains((composer_entry(ps[i])->0).0) && forall|j: int|
            0 <= j < i ==> !(#[trigger] composer_entry(ps[j]) matches Some(f) && f.0 == (composer_entry(ps[i])->0).0))
            ==> composer_fold(m, ps)[(composer_entry(ps[i])->0).0] == (composer_entry(ps[i])->0).1,
    decreases ps.len(),
{
    let e = composer_entry(ps[i])->0;
    let p = ps.drop_last();
    if i < ps.len() - 1 {
        assert(p[i] == ps[i]);
        lemma_composer_fold_entry(m, p, i);
        if !m.dom().contains(e.0) && forall|j: int|
            0 <= j < i ==> !(#[trigger] composer_entry(ps[j]) matches Some(f) && f.0 == e.0) {
            assert forall|j: int| 0 <= j < i implies !(#[trigger] composer_entry(p[j]) matches Some(f) && f.0 == e.0) by {
                assert(p[j] == ps[j]);
            }
        }
    } else {
        assert(ps.last() == ps[i]);
        if !m.dom().contains(e.0) && forall|j: int|
            0 <= j < i ==> !(#[trigger] composer_entry(ps[j]) matches Some(f) && f.0 == e.0) {
            lemma_composer_fold_absent(m, p, e.0);
        }
    }
}

proof fn lemma_composer_fold_absent(m: Map<Seq<u8>, Seq<u8>>, ps: Seq<JsonValue>, key: Seq<u8>)
    requires
        !m.dom().contains(key),
        forall|j: int| 0 <= j < ps.len() ==> !(#[trigger] composer_entry(ps[j]) matches Some(f) && f.0 == key),
    ensures
        !composer_fold(m, ps).dom().contains(key),
    decreases ps.len(),
{
    if ps.len() > 0 {
        let p = ps.drop_last();
        assert forall|j: int| 0 <= j < p.len() implies !(#[trigger] composer_entry(p[j]) matches Some(f) && f.0 == key) by {
            assert(p[j] == ps[j]);
        }
        lemma_composer_fold_absent(m, p, key);
        assert(composer_entry(ps[ps.len() - 1]) == composer_entry(ps.last()));
    }
}

/// Every entry of `packages` or `packages-dev` (taken in that order) with a
/// string `name` and `version` has its lowercased name in the version map,
/// and the first such entry of a name gives its version.
pub proof fn law_composer_map_first_entry(doc: JsonValue, i: int, n: Seq<u8>, v: Seq<u8>)
    requires
        0 <= i < (json_section(doc, sb("packages")) + json_section(doc, sb("packages-dev"))).len(),
        json_field_str((json_section(doc, sb("packages")) + json_section(doc, sb("packages-dev")))[i], sb("name"))
            == Some(n),
        json_field_str((json_section(doc, sb("packages")) + json_section(doc, sb("packages-dev")))[i], sb("version"))
            == Some(v),
    ensures
        composer_lock_map(doc).dom().contains(lower_b(n)),
        (forall|j: int|
            0 <= j < i && json_field_str(
                #[trigger] (json_section(doc, sb("packages")) + json_section(doc, sb("packages-dev")))[j],
                sb("name"),
            ) is Some && json_field_str(
                (json_section(doc, sb("packages")) + json_section(doc, sb("packages-dev")))[j],
                sb("version"),
            ) is Some ==> lower_b(
                json_field_str(
                    (json_section(doc, sb("packages")) + json_section(doc, sb("packages-dev")))[j],
                    sb("name"),
                )->0,
            ) != lower_b(n)) ==> composer_lock_map(doc)[lower_b(n)] == v,
{
    let all = json_section(doc, sb("packages")) + json_section(doc, sb("packages-dev"));
    lemma_composer_fold_concat(Map::empty(), json_section(doc, sb("packages")), json_section(doc, sb("packages-dev")));
    lemma_composer_fold_entry(Map::empty(), all, i);
    if forall|j: int|
        0 <= j < i && json_field_str(#[trigger] all[j], sb("name")) is Some && json_field_str(
            all[j],
            sb("version"),
        ) is Some ==> lower_b(json_field_str(all[j], sb("name"))->0) != lower_b(n) {
        assert forall|j: int| 0 <= j < i implies !(#[trigger] composer_entry(all[j]) matches Some(f) && f.0
            == lower_b(n)) by {
            if json_field_str(all[j], sb("name")) is Some && json_field_str(all[j], sb("version")) is Some {
                assert(lower_b(json_field_str(all[j], sb("name"))->0) != lower_b(n));
            }
        }
    }
}

} // verus!
