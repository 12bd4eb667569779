//! Parser for `Cargo.lock` documents: the exact versions locked for Cargo
//! dependencies, and their dependency graph.
//!
//! `Cargo.lock` lists `[[package]]` tables with `name`, `version` and an
//! optional `dependencies` array. When several versions of a crate are
//! locked, Cargo writes `"name version"` (v1 files add ` (source)`) in the
//! dependency arrays, which the root package's list uses to pick a version.

use vstd::prelude::*;
use vstd::utf8::valid_utf8;
use crate::parsers::lock_map::{insert_first, lock_map_entries, LockMap};
use crate::parsers::lockfile_graph::{
    pkgs_view, strings_view, LockfileGraph, LockfilePackage, PkgModel,
};
use crate::parsers::toml_value::{
    field_array, field_str, toml_array, toml_field_str, toml_get, toml_section, toml_str,
    toml_doc, toml_value_of, TomlValue,
};
use crate::parsers::{opt_bytes, Dependency};
use crate::text::{
    at_boundary, bytes, find_b, find_byte, lemma_after_ascii, lemma_find_b, ob, sb, slice,
    str_eq, to_owned_string,
};

verus! {

broadcast use vstd::utf8::encode_utf8_valid_utf8, vstd::utf8::encode_utf8_decode_utf8;

/// The `(name, version)` a `[[package]]` table records, when it has both as strings.
pub open spec fn cargo_entry(p: TomlValue) -> Option<(Seq<u8>, Seq<u8>)> {
    match (toml_field_str(p, sb("name")), toml_field_str(p, sb("version"))) {
        (Some(n), Some(v)) => Some((n, v)),
        _ => None,
    }
}

/// `m` with the entries of `ps` added in order, the first version of a name winning.
pub open spec fn cargo_fold(m: Map<Seq<u8>, Seq<u8>>, ps: Seq<TomlValue>) -> Map<Seq<u8>, Seq<u8>>
    decreases ps.len(),
{
    if ps.len() == 0 {
        m
    } else {
        let m2 = cargo_fold(m, ps.drop_last());
        match cargo_entry(ps.last()) {
            Some(e) => insert_first(m2, e.0, e.1),
            None => m2,
        }
    }
}

/// The crate and version a `"name version"` dependency entry pins: the text
/// before the first space, and the text after it up to the next space (which
/// drops a v1 ` (source)` suffix). An entry without a space pins nothing.
pub open spec fn cargo_dep_pin(s: Seq<u8>) -> Option<(Seq<u8>, Seq<u8>)> {
    match find_b(s, 0, 0x20) {
        Some(i) => {
            let e = match find_b(s, i + 1, 0x20) {
                Some(j) => j,
                None => s.len() as int,
            };
            Some((s.subrange(0, i), s.subrange(i + 1, e)))
        },
        None => None,
    }
}

/// Index of the first package table of `ps`, at or after `i`, named `name`.
pub open spec fn first_table_named(ps: Seq<TomlValue>, name: Seq<u8>, i: int) -> Option<int>
    decreases ps.len() - i,
{
    if i < 0 || i >= ps.len() {
        None
    } else if toml_field_str(ps[i], sb("name")) == Some(name) {
        Some(i)
    } else {
        first_table_named(ps, name, i + 1)
    }
}

/// `m` with every version pinned by the string entries of `ds` set, in order.
pub open spec fn apply_pins(m: Map<Seq<u8>, Seq<u8>>, ds: Seq<TomlValue>) -> Map<Seq<u8>, Seq<u8>>
    decreases ds.len(),
{
    if ds.len() == 0 {
        m
    } else {
        let m2 = apply_pins(m, ds.drop_last());
        match toml_str(Some(ds.last())) {
            Some(s) => match cargo_dep_pin(s) {
                Some(pin) => m2.insert(pin.0, pin.1),
                None => m2,
            },
            None => m2,
        }
    }
}

/// The name → version map of a `Cargo.lock` document: the first version of
/// each crate, overridden by the versions the root package's dependencies pin.
pub open spec fn cargo_lock_map(doc: TomlValue, root: Option<Seq<u8>>) -> Map<Seq<u8>, Seq<u8>> {
    let ps = toml_section(doc, sb("package"));
    let base = cargo_fold(Map::empty(), ps);
    match root {
        Some(rn) => match first_table_named(ps, rn, 0) {
            Some(i) => match toml_array(toml_get(ps[i], sb("dependencies"))) {
                Some(ds) => apply_pins(base, ds),
                None => base,
            },
            None => base,
        },
        None => base,
    }
}

/// The pin of a dependency entry, computed.
fn dep_pin(s: &str) -> (r: Option<(&str, &str)>)
    ensures
        match r {
            Some(p) => cargo_dep_pin(sb(s)) == Some((sb(p.0), sb(p.1))),
            None => cargo_dep_pin(sb(s)) is None,
        },
{
    let b = bytes(s);
    let n = b.len();
    match find_byte(b, 0, 0x20) {
        Some(i) => {
            proof {
                lemma_find_b(b@, 0, 0x20);
                lemma_after_ascii(b@, i as int);
                lemma_find_b(b@, i + 1, 0x20);
            }
            let e = match find_byte(b, i + 1, 0x20) {
                Some(j) => j,
                None => n,
            };
            Some((slice(s, 0, i), slice(s, i + 1, e)))
        },
        None => None,
    }
}

/// Sets the version of every crate that a string entry of the root
/// package's `dependencies` pins, in order.
fn apply_root_pins(map: &mut LockMap, root: &TomlValue)
    ensures
        lock_map_entries(*final(map)) == match toml_array(toml_get(*root, sb("dependencies"))) {
            Some(ds) => apply_pins(lock_map_entries(*old(map)), ds),
            None => lock_map_entries(*old(map)),
        },
{
    let ghost base = lock_map_entries(*map);
    match field_array(root, "dependencies") {
        Some(ds) => {
            let mut j: usize = 0;
            while j < ds.len()
                invariant
                    j <= ds@.len(),
                    lock_map_entries(*map) == apply_pins(base, ds@.take(j as int)),
                decreases ds@.len() - j,
            {
                proof {
                    assert(ds@.take(j + 1).drop_last() =~= ds@.take(j as int));
                    assert(ds@.take(j + 1).last() == ds@[j as int]);
                }
                match ds[j].as_str() {
                    Some(s) => match dep_pin(s) {
                        Some((c, v)) => {
                            map.insert(to_owned_string(c), to_owned_string(v));
                        },
                        None => {},
                    },
                    None => {},
                }
                j = j + 1;
            }
            proof {
                assert(ds@.take(j as int) =~= ds@);
            }
        },
        None => {},
    }
}

/// Parse a `Cargo.lock` document into a map of crate name → resolved version.
///
/// Each `[[package]]` with string `name` and `version` contributes, the first
/// entry of a crate winning. When `root_package` names a package, every
/// `"name version"` entry of its `dependencies` sets that crate's version,
/// so that the version the root actually uses wins over the first-found one.
pub fn parse_cargo_lock_doc(doc: &TomlValue, root_package: Option<&str>) -> (r: LockMap)
    ensures
        lock_map_entries(r) == cargo_lock_map(
            *doc,
            match root_package {
                Some(s) => Some(sb(s)),
                None => None,
            },
        ),
{
    let mut map = LockMap::new();
    proof {
        assert(lock_map_entries(map) =~= Map::<Seq<u8>, Seq<u8>>::empty());
    }
    let empty: Vec<TomlValue> = Vec::new();
    let packages = match field_array(doc, "package") {
        Some(a) => a,
        None => &empty,
    };
    let ghost ps = toml_section(*doc, sb("package"));
    proof {
        assert(packages@ =~= ps);
    }
    let mut i: usize = 0;
    while i < packages.len()
        invariant
            i <= packages@.len(),
            packages@ == ps,
            lock_map_entries(map) == cargo_fold(Map::empty(), ps.take(i as int)),
        decreases packages@.len() - i,
    {
        proof {
            assert(ps.take(i + 1).drop_last() =~= ps.take(i as int));
            assert(ps.take(i + 1).last() == ps[i as int]);
        }
        match (field_str(&packages[i], "name"), field_str(&packages[i], "version")) {
            (Some(n), Some(v)) => {
                map.insert_first_owned(to_owned_string(n), to_owned_string(v));
            },
            _ => {},
        }
        i = i + 1;
    }
    proof {
        assert(ps.take(i as int) =~= ps);
    }
    let ghost base = lock_map_entries(map);
    match root_package {
        Some(root_name) => {
            let mut k: usize = 0;
            while k < packages.len()
                invariant
                    k <= packages@.len(),
                    packages@ == ps,
                    first_table_named(ps, sb(root_name), 0) == first_table_named(
                        ps,
                        sb(root_name),
                        k as int,
                    ),
                    root_package == Some(root_name),
                    ps == toml_section(*doc, sb("package")),
                    base == cargo_fold(Map::empty(), ps),
                    lock_map_entries(map) == base,
                decreases packages@.len() - k,
            {
                let is_root = match field_str(&packages[k], "name") {
                    Some(n) => str_eq(n, root_name),
                    None => false,
                };
                if is_root {
                    proof {
                        assert(toml_field_str(ps[k as int], sb("name")) == Some(sb(root_name)));
                        assert(first_table_named(ps, sb(root_name), k as int) == Some(k as int));
                        assert(packages@[k as int] == ps[k as int]);
                    }
                    apply_root_pins(&mut map, &packages[k]);
                    proof {
                        let m = cargo_lock_map(*doc, Some(sb(root_name)));
                        assert(first_table_named(ps, sb(root_name), 0) == Some(k as int));
                        assert(m == match toml_array(toml_get(ps[k as int], sb("dependencies"))) {
                            Some(ds) => apply_pins(base, ds),
                            None => base,
                        });
                        assert(lock_map_entries(map) == m);
                    }
                    return map;
                }
                proof {
                    assert(first_table_named(ps, sb(root_name), k as int) == first_table_named(
                        ps,
                        sb(root_name),
                        k + 1,
                    ));
                }
                k = k + 1;
            }
        },
        None => {},
    }
    map
}

/// Parse the text of a `Cargo.lock`, read with `toml`, into a map of crate
/// name → resolved version (see [`parse_cargo_lock_doc`]); a text that does
/// not parse gives an empty map.
pub fn parse_cargo_lock(content: &str, root_package: Option<&str>) -> (r: LockMap)
    ensures
        lock_map_entries(r) == cargo_lock_map(
            toml_value_of(sb(content)),
            match root_package {
                Some(s) => Some(sb(s)),
                None => None,
            },
        ),
{
    let doc = toml_doc(content);
    parse_cargo_lock_doc(&doc, root_package)
}

/// The string entries of a `dependencies` array, in order.
pub open spec fn cargo_dep_strs(ds: Seq<TomlValue>) -> Seq<Seq<u8>>
    decreases ds.len(),
{
    if ds.len() == 0 {
        Seq::empty()
    } else {
        let prev = cargo_dep_strs(ds.drop_last());
        match toml_str(Some(ds.last())) {
            Some(s) => prev.push(s),
            None => prev,
        }
    }
}

/// The package a `[[package]]` table contributes to the graph.
pub open spec fn cargo_pkg(p: TomlValue) -> Option<PkgModel> {
    match (toml_field_str(p, sb("name")), toml_field_str(p, sb("version"))) {
        (Some(n), Some(v)) => Some(
            PkgModel {
                name: n,
                version: v,
                dependencies: cargo_dep_strs(toml_section(p, sb("dependencies"))),
                is_root: false,
            },
        ),
        _ => None,
    }
}

/// The graph packages of some `[[package]]` tables, in order.
pub open spec fn cargo_pkgs(ps: Seq<TomlValue>) -> Seq<PkgModel>
    decreases ps.len(),
{
    if ps.len() == 0 {
        Seq::empty()
    } else {
        let prev = cargo_pkgs(ps.drop_last());
        match cargo_pkg(ps.last()) {
            Some(p) => prev.push(p),
            None => prev,
        }
    }
}

fn cargo_dep_strings(p: &TomlValue) -> (r: Vec<String>)
    ensures
        strings_view(r@) == cargo_dep_strs(toml_section(*p, sb("dependencies"))),
{
    let mut out: Vec<String> = Vec::new();
    match field_array(p, "dependencies") {
        Some(ds) => {
            let mut j: usize = 0;
            while j < ds.len()
                invariant
                    j <= ds@.len(),
                    ds@ == toml_section(*p, sb("dependencies")),
                    strings_view(out@) == cargo_dep_strs(ds@.take(j as int)),
                decreases ds@.len() - j,
            {
                proof {
                    assert(ds@.take(j + 1).drop_last() =~= ds@.take(j as int));
                    assert(ds@.take(j + 1).last() == ds@[j as int]);
                }
                match ds[j].as_str() {
                    Some(s) => {
                        let ghost o0 = out@;
                        out.push(to_owned_string(s));
                        proof {
                            assert(strings_view(out@) =~= strings_view(o0).push(sb(s)));
                        }
                    },
                    None => {},
                }
                j = j + 1;
            }
            proof {
                assert(ds@.take(j as int) =~= ds@);
            }
        },
        None => {
            proof {
                assert(toml_section(*p, sb("dependencies")) =~= Seq::<TomlValue>::empty());
            }
        },
    }
    out
}

/// Parse a `Cargo.lock` document into a full [`LockfileGraph`]: one package
/// per `[[package]]` with string `name` and `version`, in order, its
/// dependency strings kept as written (`"serde"` or `"serde 1.0.195"`; graph
/// walks use the name alone).
pub fn parse_cargo_lock_graph_doc(doc: &TomlValue) -> (graph: LockfileGraph)
    ensures
        pkgs_view(graph.packages@) == cargo_pkgs(toml_section(*doc, sb("package"))),
{
    let mut packages: Vec<LockfilePackage> = Vec::new();
    match field_array(doc, "package") {
        Some(arr) => {
            let mut i: usize = 0;
            while i < arr.len()
                invariant
                    i <= arr@.len(),
                    arr@ == toml_section(*doc, sb("package")),
                    pkgs_view(packages@) == cargo_pkgs(arr@.take(i as int)),
                decreases arr@.len() - i,
            {
                proof {
                    assert(arr@.take(i + 1).drop_last() =~= arr@.take(i as int));
                    assert(arr@.take(i + 1).last() == arr@[i as int]);
                }
                let entry = &arr[i];
                match (field_str(entry, "name"), field_str(entry, "version")) {
                    (Some(n), Some(v)) => {
                        let pkg = LockfilePackage {
                            name: to_owned_string(n),
                            version: to_owned_string(v),
                            dependencies: cargo_dep_strings(entry),
                            is_root: false,
                        };
                        let ghost pv = pkg@;
                        let ghost old_pk = packages@;
                        packages.push(pkg);
                        proof {
                            assert(pkgs_view(packages@) =~= pkgs_view(old_pk).push(pv));
                        }
                    },
                    _ => {},
                }
                i = i + 1;
            }
            proof {
                assert(arr@.take(i as int) =~= arr@);
            }
        },
        None => {
            proof {
                assert(toml_section(*doc, sb("package")) =~= Seq::<TomlValue>::empty());
                assert(pkgs_view(packages@) =~= Seq::<PkgModel>::empty());
            }
        },
    }
    LockfileGraph { packages }
}

/// Parse the text of a `Cargo.lock`, read with `toml`, into a
/// [`LockfileGraph`] (see [`parse_cargo_lock_graph_doc`]).
pub fn parse_cargo_lock_graph(content: &str) -> (graph: LockfileGraph)
    ensures
        pkgs_view(graph.packages@) == cargo_pkgs(toml_section(toml_value_of(sb(content)), sb("package"))),
{
    let doc = toml_doc(content);
    parse_cargo_lock_graph_doc(&doc)
}

/// Index of the first package of `ps`, at or after `i`, named `name`.
pub open spec fn first_pkg_named(ps: Seq<PkgModel>, name: Seq<u8>, i: int) -> Option<int>
    decreases ps.len() - i,
{
    if i < 0 || i >= ps.len() {
        None
    } else if ps[i].name == name {
        Some(i)
    } else {
        first_pkg_named(ps, name, i + 1)
    }
}

/// The version the first entry of `deps`, at or after `i`, pins for `name`.
pub open spec fn pinned_version(deps: Seq<Seq<u8>>, name: Seq<u8>, i: int) -> Option<Seq<u8>>
    decreases deps.len() - i,
{
    if i < 0 || i >= deps.len() {
        None
    } else {
        match cargo_dep_pin(deps[i]) {
            Some(pin) => if pin.0 == name {
                Some(pin.1)
            } else {
                pinned_version(deps, name, i + 1)
            },
            None => pinned_version(deps, name, i + 1),
        }
    }
}

/// The version the dependencies of the first package named `root` pin for `name`.
pub open spec fn cargo_root_pin(ps: Seq<PkgModel>, root: Option<Seq<u8>>, name: Seq<u8>) -> Option<
    Seq<u8>,
> {
    match root {
        Some(rn) => match first_pkg_named(ps, rn, 0) {
            Some(i) => pinned_version(ps[i].dependencies, name, 0),
            None => None,
        },
        None => None,
    }
}

/// The version `Cargo.lock` locks for the crate `name`: the one the root
/// package pins, else that of the first package of that name.
pub open spec fn cargo_resolve(ps: Seq<PkgModel>, root: Option<Seq<u8>>, name: Seq<u8>) -> Option<
    Seq<u8>,
> {
    match cargo_root_pin(ps, root, name) {
        Some(v) => Some(v),
        None => match first_pkg_named(ps, name, 0) {
            Some(j) => Some(ps[j].version),
            None => None,
        },
    }
}

/// Resolves versions from `Cargo.lock` for a Rust project.
pub struct CargoResolver {
    /// The manifest's `[package].name`, when it has one. When the root
    /// package depends on a specific version of a multi-version crate (Cargo
    /// writes `"name version"` in its dependencies), that version wins over
    /// the first-found entry.
    pub root_package: Option<String>,
}

impl CargoResolver {
    /// The dependency graph of a `Cargo.lock` document.
    pub fn parse_graph_document(&self, doc: &TomlValue) -> (graph: LockfileGraph)
        ensures
            pkgs_view(graph.packages@) == cargo_pkgs(toml_section(*doc, sb("package"))),
    {
        parse_cargo_lock_graph_doc(doc)
    }

    /// The dependency graph of the text of a `Cargo.lock`.
    pub fn parse_graph(&self, lock_content: &str) -> (graph: LockfileGraph)
        ensures
            pkgs_view(graph.packages@) == cargo_pkgs(
                toml_section(toml_value_of(sb(lock_content)), sb("package")),
            ),
    {
        parse_cargo_lock_graph(lock_content)
    }

    /// The version locked for `dep`: the one the root package pins, else
    /// that of the first package with its name.
    pub fn resolve_version(&self, dep: &Dependency, graph: &LockfileGraph) -> (r: Option<String>)
        ensures
            (match r {
                Some(v) => Some(ob(&v)),
                None => None,
            }) == cargo_resolve(
                pkgs_view(graph.packages@),
                opt_bytes(self.root_package),
                ob(&dep.name),
            ),
    {
        let ghost ps = pkgs_view(graph.packages@);
        let ghost rootv = opt_bytes(self.root_package);
        let pinned = match &self.root_package {
            Some(root_name) => root_pin(graph, root_name.as_str(), dep.name.as_str()),
            None => None,
        };
        match pinned {
            Some(v) => {
                return Some(to_owned_string(v));
            },
            None => {},
        }
        let n = graph.packages.len();
        let mut j: usize = 0;
        while j < n
            invariant
                n == graph.packages@.len(),
                ps == pkgs_view(graph.packages@),
                j <= n,
                first_pkg_named(ps, ob(&dep.name), 0) == first_pkg_named(ps, ob(&dep.name), j as int),
                rootv == opt_bytes(self.root_package),
                cargo_root_pin(ps, rootv, ob(&dep.name)) is None,
            decreases n - j,
        {
            if str_eq(graph.packages[j].name.as_str(), dep.name.as_str()) {
                proof {
                    assert(ps[j as int].name == ob(&dep.name));
                    assert(ps[j as int].version == ob(&graph.packages@[j as int].version));
                    assert(first_pkg_named(ps, ob(&dep.name), j as int) == Some(j as int));
                }
                return Some(to_owned_string(graph.packages[j].version.as_str()));
            }
            j = j + 1;
        }
        None
    }
}

/// The version the first package named `root` pins for `name`.
fn root_pin<'a>(graph: &'a LockfileGraph, root: &str, name: &str) -> (r: Option<&'a str>)
    ensures
        (match r {
            Some(v) => Some(sb(v)),
            None => None,
        }) == (match first_pkg_named(pkgs_view(graph.packages@), sb(root), 0) {
            Some(i) => pinned_version(pkgs_view(graph.packages@)[i].dependencies, sb(name), 0),
            None => None,
        }),
{
    let ghost ps = pkgs_view(graph.packages@);
    let n = graph.packages.len();
    let mut i: usize = 0;
    while i < n
        invariant
            n == graph.packages@.len(),
            ps == pkgs_view(graph.packages@),
            i <= n,
            first_pkg_named(ps, sb(root), 0) == first_pkg_named(ps, sb(root), i as int),
        decreases n - i,
    {
        if str_eq(graph.packages[i].name.as_str(), root) {
            proof {
                assert(ps[i as int].name == sb(root));
                assert(first_pkg_named(ps, sb(root), i as int) == Some(i as int));
            }
            let deps = &graph.packages[i].dependencies;
            let ghost dv = strings_view(deps@);
            proof {
                assert(ps[i as int].dependencies == dv);
            }
            let mut j: usize = 0;
            while j < deps.len()
                invariant
                    j <= deps@.len(),
                    dv == strings_view(deps@),
                    ps == pkgs_view(graph.packages@),
                    i < ps.len(),
                    first_pkg_named(ps, sb(root), 0) == Some(i as int),
                    ps[i as int].dependencies == dv,
                    pinned_version(dv, sb(name), 0) == pinned_version(dv, sb(name), j as int),
                decreases deps@.len() - j,
            {
                proof {
                    assert(dv[j as int] == ob(&deps@[j as int]));
                }
                match dep_pin(deps[j].as_str()) {
                    Some((c, v)) => {
                        if str_eq(c, name) {
                            proof {
                                assert(cargo_dep_pin(dv[j as int]) == Some((sb(c), sb(v))));
                                assert(pinned_version(dv, sb(name), j as int) == Some(sb(v)));
                            }
                            return Some(v);
                        }
                        proof {
                            assert(pinned_version(dv, sb(name), j as int) == pinned_version(
                                dv,
                                sb(name),
                                j + 1,
                            ));
                        }
                    },
                    None => {
                        proof {
                            assert(pinned_version(dv, sb(name), j as int) == pinned_version(
                                dv,
                                sb(name),
                                j + 1,
                            ));
                        }
                    },
                }
                j = j + 1;
            }
            proof {
                assert(pinned_version(dv, sb(name), j as int) is None);
            }
            return None;
        }
        i = i + 1;
    }
    None
}

proof fn lemma_cargo_keep(ps: Seq<TomlValue>, i: int)
    requires
        0 <= i < ps.len(),
        cargo_pkg(ps[i]) is Some,
    ensures
        exists|k: int| 0 <= k < cargo_pkgs(ps).len() && cargo_pkgs(ps)[k] == cargo_pkg(ps[i])->0,
    decreases ps.len(),
{
    let prev = cargo_pkgs(ps.drop_last());
    if i < ps.len() - 1 {
        assert(ps.drop_last()[i] == ps[i]);
        lemma_cargo_keep(ps.drop_last(), i);
        let k = choose|k: int| 0 <= k < prev.len() && prev[k] == cargo_pkg(ps[i])->0;
        assert(cargo_pkgs(ps)[k] == prev[k]);
    } else {
        assert(ps.last() == ps[i]);
        assert(cargo_pkgs(ps)[prev.len() as int] == cargo_pkg(ps[i])->0);
    }
}

/// Every `[[package]]` table of a `Cargo.lock` with a string `name` and
/// `version` is a package of its graph: the name as written, the version as
/// written, not a root.
pub proof fn law_cargo_graph_reads_packages(doc: TomlValue, i: int, n: Seq<u8>, v: Seq<u8>)
    requires
        0 <= i < toml_section(doc, sb("package")).len(),
        toml_field_str(toml_section(doc, sb("package"))[i], sb("name")) == Some(n),
        toml_field_str(toml_section(doc, sb("package"))[i], sb("version")) == Some(v),
    ensures
        exists|k: int|
            0 <= k < cargo_pkgs(toml_section(doc, sb("package"))).len() && (#[trigger] cargo_pkgs(
                toml_section(doc, sb("package")),
            )[k]).name == n && cargo_pkgs(toml_section(doc, sb("package")))[k].version == v
                && !cargo_pkgs(toml_section(doc, sb("package")))[k].is_root,
{
    let ps = toml_section(doc, sb("package"));
    lemma_cargo_keep(ps, i);
    let k = choose|k: int| 0 <= k < cargo_pkgs(ps).len() && cargo_pkgs(ps)[k] == cargo_pkg(ps[i])->0;
    assert(cargo_pkgs(ps)[k].name == n);
}

proof fn lemma_cargo_fold_absent(m: Map<Seq<u8>, Seq<u8>>, ps: Seq<TomlValue>, key: Seq<u8>)
    requires
        !m.dom().contains(key),
        forall|j: int| 0 <= j < ps.len() ==> !(#[trigger] cargo_entry(ps[j]) matches Some(f) && f.0 == key),
    ensures
        !cargo_fold(m, ps).dom().contains(key),
    decreases ps.len(),
{
    if ps.len() > 0 {
        let p = ps.drop_last();
        assert forall|j: int| 0 <= j < p.len() implies !(#[trigger] cargo_entry(p[j]) matches Some(f) && f.0 == key) by {
            assert(p[j] == ps[j]);
        }
        lemma_cargo_fold_absent(m, p, key);
        assert(cargo_entry(ps[ps.len() - 1]) == cargo_entry(ps.last()));
    }
}

proof fn lemma_cargo_fold_entry(m: Map<Seq<u8>, Seq<u8>>, ps: Seq<TomlValue>, i: int)
    requires
        0 <= i < ps.len(),
        cargo_entry(ps[i]) is Some,
    ensures
        cargo_fold(m, ps).dom().contains((cargo_entry(ps[i])->0).0),
        (!m.dom().contains((cargo_entry(ps[i])->0).0) && forall|j: int|
            0 <= j < i ==> !(#[trigger] cargo_entry(ps[j]) matches Some(f) && f.0 == (cargo_entry(ps[i])->0).0))
            ==> cargo_fold(m, ps)[(cargo_entry(ps[i])->0).0] == (cargo_entry(ps[i])->0).1,
    decreases ps.len(),
{
    let e = cargo_entry(ps[i])->0;
    let p = ps.drop_last();
    if i < ps.len() - 1 {
        assert(p[i] == ps[i]);
        lemma_cargo_fold_entry(m, p, i);
        if !m.dom().contains(e.0) && forall|j: int|
            0 <= j < i ==> !(#[trigger] cargo_entry(ps[j]) matches Some(f) && f.0 == e.0) {
            assert forall|j: int| 0 <= j < i implies !(#[trigger] cargo_entry(p[j]) matches Some(f) && f.0 == e.0) by {
                assert(p[j] == ps[j]);
            }
        }
    } else {
        assert(ps.last() == ps[i]);
        if !m.dom().contains(e.0) && forall|j: int|
            0 <= j < i ==> !(#[trigger] cargo_entry(ps[j]) matches Some(f) && f.0 == e.0) {
            lemma_cargo_fold_absent(m, p, e.0);
        }
    }
}

proof fn lemma_apply_pins_grows(m: Map<Seq<u8>, Seq<u8>>, ds: Seq<TomlValue>, k: Seq<u8>)
    requires
        m.dom().contains(k),
    ensures
        apply_pins(m, ds).dom().contains(k),
    decreases ds.len(),
{
    if ds.len() > 0 {
        lemma_apply_pins_grows(m, ds.drop_last(), k);
    }
}

/// Every `[[package]]` of a `Cargo.lock` with a string `name` and `version`
/// has its name in the version map, whatever the root package; without a
/// root package the first such entry of a name gives its version.
pub proof fn law_cargo_lock_map_reads_packages(doc: TomlValue, root: Option<Seq<u8>>, i: int, n: Seq<u8>, v: Seq<u8>)
    requires
        0 <= i < toml_section(doc, sb("package")).len(),
        toml_field_str(toml_section(doc, sb("package"))[i], sb("name")) == Some(n),
        toml_field_str(toml_section(doc, sb("package"))[i], sb("version")) == Some(v),
    ensures
        cargo_lock_map(doc, root).dom().contains(n),
        (root is None && forall|j: int|
            0 <= j < i && toml_field_str(#[trigger] toml_section(doc, sb("package"))[j], sb("version")) is Some
                ==> toml_field_str(toml_section(doc, sb("package"))[j], sb("name")) != Some(n))
            ==> cargo_lock_map(doc, root)[n] == v,
{
    let ps = toml_section(doc, sb("package"));
    lemma_cargo_fold_entry(Map::empty(), ps, i);
    let base = cargo_fold(Map::empty(), ps);
    if let Some(rn) = root {
        if let Some(r) = first_table_named(ps, rn, 0) {
            if let Some(ds) = toml_array(toml_get(ps[r], sb("dependencies"))) {
                lemma_apply_pins_grows(base, ds, n);
            }
        }
    }
    if root is None && forall|j: int|
        0 <= j < i && toml_field_str(#[trigger] ps[j], sb("version")) is Some ==> toml_field_str(ps[j], sb("name"))
            != Some(n) {
        assert forall|j: int| 0 <= j < i implies !(#[trigger] cargo_entry(ps[j]) matches Some(f) && f.0 == n) by {
            if toml_field_str(ps[j], sb("version")) is Some {
                assert(toml_field_str(ps[j], sb("name")) != Some(n));
            }
        }
    }
}

proof fn lemma_pin_of(c: Seq<u8>, v: Seq<u8>)
    requires
        !c.contains(0x20u8),
        !v.contains(0x20u8),
    ensures
        cargo_dep_pin(c + seq![0x20u8] + v) == Some((c, v)),
{
    let s = c + seq![0x20u8] + v;
    lemma_find_b(s, 0, 0x20);
    assert(s[c.len() as int] == 0x20u8);
    assert forall|j: int| 0 <= j < c.len() implies s[j] != 0x20u8 by {
        assert(s[j] == c[j]);
    }
    let i = find_b(s, 0, 0x20)->0;
    assert(i == c.len());
    lemma_find_b(s, i + 1, 0x20);
    assert forall|j: int| i + 1 <= j < s.len() implies s[j] != 0x20u8 by {
        assert(s[j] == v[j - i - 1]);
    }
    assert(s.subrange(0, i) =~= c);
    assert(s.subrange(i + 1, s.len() as int) =~= v);
}

proof fn lemma_pin_key(s: Seq<u8>, c: Seq<u8>)
    requires
        cargo_dep_pin(s) matches Some(p) && p.0 == c,
    ensures
        s.len() > c.len() && s.subrange(0, c.len() + 1int) == c + seq![0x20u8],
{
    lemma_find_b(s, 0, 0x20);
    let i = find_b(s, 0, 0x20)->0;
    assert(s.subrange(0, c.len() + 1int) =~= c + seq![0x20u8]);
}

proof fn lemma_apply_pins_last(m: Map<Seq<u8>, Seq<u8>>, ds: Seq<TomlValue>, j: int, c: Seq<u8>, v: Seq<u8>)
    requires
        0 <= j < ds.len(),
        toml_str(Some(ds[j])) matches Some(s) && cargo_dep_pin(s) == Some((c, v)),
        forall|j2: int| j < j2 < ds.len() ==> !(#[trigger] toml_str(Some(ds[j2])) matches Some(s2) && cargo_dep_pin(s2)
            matches Some(p2) && p2.0 == c),
    ensures
        apply_pins(m, ds).dom().contains(c) && apply_pins(m, ds)[c] == v,
    decreases ds.len(),
{
    let p = ds.drop_last();
    if j < ds.len() - 1 {
        assert(p[j] == ds[j]);
        assert forall|j2: int| j < j2 < p.len() implies !(#[trigger] toml_str(Some(p[j2])) matches Some(s2)
            && cargo_dep_pin(s2) matches Some(p2) && p2.0 == c) by {
            assert(p[j2] == ds[j2]);
        }
        lemma_apply_pins_last(m, p, j, c, v);
        assert(ds[ds.len() - 1] == ds.last());
    } else {
        assert(ds.last() == ds[j]);
    }
}

/// When a root package is given, each entry `"c v"` of its `dependencies`
/// (the first table of that name) pins crate `c` to version `v`, unless a
/// later entry of the list names `c` again: the version the root uses wins
/// over the first version found.
pub proof fn law_cargo_lock_root_pins(
    doc: TomlValue,
    rn: Seq<u8>,
    r: int,
    ds: Seq<TomlValue>,
    j: int,
    c: Seq<u8>,
    v: Seq<u8>,
)
    requires
        0 <= r < toml_section(doc, sb("package")).len(),
        toml_field_str(toml_section(doc, sb("package"))[r], sb("name")) == Some(rn),
        forall|q: int| 0 <= q < r ==> toml_field_str(#[trigger] toml_section(doc, sb("package"))[q], sb("name")) != Some(rn),
        toml_array(toml_get(toml_section(doc, sb("package"))[r], sb("dependencies"))) == Some(ds),
        0 <= j < ds.len(),
        toml_str(Some(ds[j])) == Some(c + seq![0x20u8] + v),
        !c.contains(0x20u8),
        !v.contains(0x20u8),
        forall|j2: int| j < j2 < ds.len() ==> !(#[trigger] toml_str(Some(ds[j2])) matches Some(s2) && s2.len() > c.len()
            && s2.subrange(0, c.len() + 1int) == c + seq![0x20u8]),
    ensures
        cargo_lock_map(doc, Some(rn)).dom().contains(c),
        cargo_lock_map(doc, Some(rn))[c] == v,
{
    let ps = toml_section(doc, sb("package"));
    lemma_first_table_named(ps, rn, 0, r);
    lemma_pin_of(c, v);
    assert forall|j2: int| j < j2 < ds.len() implies !(#[trigger] toml_str(Some(ds[j2])) matches Some(s2)
        && cargo_dep_pin(s2) matches Some(p2) && p2.0 == c) by {
        if let Some(s2) = toml_str(Some(ds[j2])) {
            if let Some(p2) = cargo_dep_pin(s2) {
                if p2.0 == c {
                    lemma_pin_key(s2, c);
                }
            }
        }
    }
    lemma_apply_pins_last(cargo_fold(Map::empty(), ps), ds, j, c, v);
}

proof fn lemma_first_table_named(ps: Seq<TomlValue>, rn: Seq<u8>, i: int, r: int)
    requires
        0 <= i <= r < ps.len(),
        toml_field_str(ps[r], sb("name")) == Some(rn),
        forall|q: int| 0 <= q < r ==> toml_field_str(#[trigger] ps[q], sb("name")) != Some(rn),
    ensures
        first_table_named(ps, rn, i) == Some(r),
    decreases r - i,
{
    if i < r {
        lemma_first_table_named(ps, rn, i + 1, r);
    }
}

} // verus!
