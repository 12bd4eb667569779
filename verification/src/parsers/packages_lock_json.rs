//! Parser for `packages.lock.json` documents: the exact versions locked for
//! C# (NuGet) dependencies.

use vstd::prelude::*;
use crate::parsers::json_value::{
    field_object, field_str, json_doc, json_field_str, json_get, json_object, json_value_of, JsonMember,
    JsonValue,
};
use crate::parsers::lock_map::{
    flat_packages, insert_first, lists_pairs, lock_map_entries, pair_pkgs, LockMap,
};
use crate::parsers::lockfile_graph::{pkgs_view, LockfileGraph};
use crate::text::{lower_b, ob, sb, str_to_lowercase, to_lowercase_string, to_owned_string};

verus! {

broadcast use vstd::utf8::encode_utf8_decode_utf8;

/// Normalize a NuGet package name to lowercase.
///
/// NuGet package names are case-insensitive
/// (e.g., `"Newtonsoft.Json"` == `"newtonsoft.json"`).
/// This function ensures consistent lookup between manifest and lockfile entries.
pub fn normalize_nuget_name(name: &str) -> (r: String)
    ensures
        r@ == str_to_lowercase(name@),
        ob(&r) == lower_b(sb(name)),
{
    to_lowercase_string(name)
}

/// `m` with the packages of one target framework added, names lowercased,
/// the first resolved version of a name winning.
pub open spec fn nuget_fold_packages(m: Map<Seq<u8>, Seq<u8>>, es: Seq<JsonMember>) -> Map<
    Seq<u8>,
    Seq<u8>,
>
    decreases es.len(),
{
    if es.len() == 0 {
        m
    } else {
        let m2 = nuget_fold_packages(m, es.drop_last());
        match json_field_str(es.last().value, sb("resolved")) {
            Some(v) => insert_first(m2, lower_b(ob(&es.last().key)), v),
            None => m2,
        }
    }
}

/// `m` with the packages of each target framework added in order.
pub open spec fn nuget_fold_frameworks(m: Map<Seq<u8>, Seq<u8>>, tfms: Seq<JsonMember>) -> Map<
    Seq<u8>,
    Seq<u8>,
>
    decreases tfms.len(),
{
    if tfms.len() == 0 {
        m
    } else {
        let m2 = nuget_fold_frameworks(m, tfms.drop_last());
        match json_object(Some(tfms.last().value)) {
            Some(es) => nuget_fold_packages(m2, es),
            None => m2,
        }
    }
}

/// The name → version map of a `packages.lock.json` document.
pub open spec fn packages_lock_map(doc: JsonValue) -> Map<Seq<u8>, Seq<u8>> {
    match json_object(json_get(doc, sb("dependencies"))) {
        Some(tfms) => nuget_fold_frameworks(Map::empty(), tfms),
        None => Map::empty(),
    }
}

fn nuget_add_framework(map: &mut LockMap, packages: &JsonValue)
    ensures
        lock_map_entries(*final(map)) == match json_object(Some(*packages)) {
            Some(es) => nuget_fold_packages(lock_map_entries(*old(map)), es),
            None => lock_map_entries(*old(map)),
        },
{
    let ghost m0 = lock_map_entries(*map);
    match packages.as_object() {
        Some(es) => {
            let mut i: usize = 0;
            while i < es.len()
                invariant
                    i <= es@.len(),
                    lock_map_entries(*map) == nuget_fold_packages(m0, es@.take(i as int)),
                decreases es@.len() - i,
            {
                proof {
                    assert(es@.take(i + 1).drop_last() =~= es@.take(i as int));
                    assert(es@.take(i + 1).last() == es@[i as int]);
                }
                match field_str(&es[i].value, "resolved") {
                    Some(v) => {
                        map.insert_first_owned(
                            normalize_nuget_name(es[i].key.as_str()),
                            to_owned_string(v),
                        );
                    },
                    None => {},
                }
                i = i + 1;
            }
            proof {
                assert(es@.take(i as int) =~= es@);
            }
        },
        None => {},
    }
}

/// Parse a `packages.lock.json` document into a map of package name →
/// resolved version.
///
/// `dependencies` maps target framework monikers (such as `net8.0`) to
/// objects of packages, each with a `resolved` version; direct and
/// transitive entries are both read. Names are lowercased (NuGet is
/// case-insensitive), and the first entry met in document order wins.
pub fn parse_packages_lock_doc(doc: &JsonValue) -> (r: LockMap)
    ensures
        lock_map_entries(r) == packages_lock_map(*doc),
{
    let mut map = LockMap::new();
    proof {
        assert(lock_map_entries(map) =~= Map::<Seq<u8>, Seq<u8>>::empty());
    }
    match field_object(doc, "dependencies") {
        Some(tfms) => {
            let mut i: usize = 0;
            while i < tfms.len()
                invariant
                    i <= tfms@.len(),
                    lock_map_entries(map) == nuget_fold_frameworks(Map::empty(), tfms@.take(i as int)),
                decreases tfms@.len() - i,
            {
                proof {
                    assert(tfms@.take(i + 1).drop_last() =~= tfms@.take(i as int));
                    assert(tfms@.take(i + 1).last() == tfms@[i as int]);
                }
                nuget_add_framework(&mut map, &tfms[i].value);
                i = i + 1;
            }
            proof {
                assert(tfms@.take(i as int) =~= tfms@);
            }
        },
        None => {},
    }
    map
}

/// Parse the text of a `packages.lock.json`, read with `serde_json`, into a
/// map of lowercased package name → version (see [`parse_packages_lock_doc`]).
pub fn parse_packages_lock(content: &str) -> (r: LockMap)
    ensures
        lock_map_entries(r) == packages_lock_map(json_value_of(sb(content))),
{
    let doc = json_doc(content);
    parse_packages_lock_doc(&doc)
}

/// Resolves versions from `packages.lock.json` for C# / NuGet projects.
/// NuGet normalizes package names to lowercase for lookup.
pub struct CsharpResolver;

impl CsharpResolver {
    /// The flat graph of a `packages.lock.json` document: one package per
    /// locked name, without edges, in the order the map hands them out,
    /// which is not fixed.
    pub fn parse_graph_document(&self, doc: &JsonValue) -> (graph: LockfileGraph)
        ensures
            exists|e: Seq<(Seq<u8>, Seq<u8>)>|
                lists_pairs(e, packages_lock_map(*doc)) && pkgs_view(graph.packages@) == pair_pkgs(e),
    {
        let lock_versions = parse_packages_lock_doc(doc);
        let pairs = lock_versions.into_pairs();
        LockfileGraph { packages: flat_packages(pairs) }
    }

    /// The flat graph of the text of a `packages.lock.json`, read with
    /// `serde_json` (see [`CsharpResolver::parse_graph_document`]).
    pub fn parse_graph(&self, lock_content: &str) -> (graph: LockfileGraph)
        ensures
            exists|e: Seq<(Seq<u8>, Seq<u8>)>|
                lists_pairs(e, packages_lock_map(json_value_of(sb(lock_content))))
                    && pkgs_view(graph.packages@) == pair_pkgs(e),
    {
        let doc = json_doc(lock_content);
        self.parse_graph_document(&doc)
    }

    /// The name under which a package is looked up in the lockfile.
    pub fn normalize_name(&self, name: &str) -> (r: String)
        ensures
            r@ == str_to_lowercase(name@),
    {
        normalize_nuget_name(name)
    }
}

proof fn lemma_nuget_fold_packages_grows(m: Map<Seq<u8>, Seq<u8>>, es: Seq<JsonMember>, k: Seq<u8>)
    requires
        m.dom().contains(k),
    ensures
        nuget_fold_packages(m, es).dom().contains(k),
    decreases es.len(),
{
    if es.len() > 0 {
        lemma_nuget_fold_packages_grows(m, es.drop_last(), k);
    }
}

proof fn lemma_nuget_fold_packages_has(m: Map<Seq<u8>, Seq<u8>>, es: Seq<JsonMember>, i: int)
    requires
        0 <= i < es.len(),
        json_field_str(es[i].value, sb("resolved")) is Some,
    ensures
        nuget_fold_packages(m, es).dom().contains(lower_b(ob(&es[i].key))),
    decreases es.len(),
{
    if i < es.len() - 1 {
        assert(es.drop_last()[i] == es[i]);
        lemma_nuget_fold_packages_has(m, es.drop_last(), i);
        let m2 = nuget_fold_packages(m, es.drop_last());
        if json_field_str(es.last().value, sb("resolved")) is Some {
            assert(insert_first(m2, lower_b(ob(&es.last().key)), json_field_str(es.last().value, sb("resolved"))->0).dom().contains(
                lower_b(ob(&es[i].key)),
            ));
        }
    } else {
        assert(es.last() == es[i]);
    }
}

proof fn lemma_nuget_fold_frameworks_grows(m: Map<Seq<u8>, Seq<u8>>, tfms: Seq<JsonMember>, k: Seq<u8>)
    requires
        m.dom().contains(k),
    ensures
        nuget_fold_frameworks(m, tfms).dom().contains(k),
    decreases tfms.len(),
{
    if tfms.len() > 0 {
        lemma_nuget_fold_frameworks_grows(m, tfms.drop_last(), k);
        let m2 = nuget_fold_frameworks(m, tfms.drop_last());
        if let Some(es) = json_object(Some(tfms.last().value)) {
            lemma_nuget_fold_packages_grows(m2, es, k);
        }
    }
}

/// Every package of every target framework of a `packages.lock.json`, direct
/// or transitive, with a string `resolved` version, has its lowercased name
/// in the version map.
pub proof fn law_packages_lock_reads_every_framework(doc: JsonValue, t: int, es: Seq<JsonMember>, i: int)
    requires
        json_object(json_get(doc, sb("dependencies"))) matches Some(tfms) && 0 <= t < tfms.len() && json_object(
            Some(tfms[t].value),
        ) == Some(es),
        0 <= i < es.len(),
        json_field_str(es[i].value, sb("resolved")) is Some,
    ensures
        packages_lock_map(doc).dom().contains(lower_b(ob(&es[i].key))),
{
    let tfms = json_object(json_get(doc, sb("dependencies")))->0;
    lemma_nuget_frameworks_has(Map::empty(), tfms, t, es, i);
}

proof fn lemma_nuget_frameworks_has(m: Map<Seq<u8>, Seq<u8>>, tfms: Seq<JsonMember>, t: int, es: Seq<JsonMember>, i: int)
    requires
        0 <= t < tfms.len(),
        json_object(Some(tfms[t].value)) == Some(es),
        0 <= i < es.len(),
        json_field_str(es[i].value, sb("resolved")) is Some,
    ensures
        nuget_fold_frameworks(m, tfms).dom().contains(lower_b(ob(&es[i].key))),
    decreases tfms.len(),
{
    let m2 = nuget_fold_frameworks(m, tfms.drop_last());
    if t < tfms.len() - 1 {
        assert(tfms.drop_last()[t] == tfms[t]);
        lemma_nuget_frameworks_has(m, tfms.drop_last(), t, es, i);
        if let Some(es2) = json_object(Some(tfms.last().value)) {
            lemma_nuget_fold_packages_grows(m2, es2, lower_b(ob(&es[i].key)));
        }
    } else {
        assert(tfms.last() == tfms[t]);
        lemma_nuget_fold_packages_has(m2, es, i);
    }
}

} // verus!
