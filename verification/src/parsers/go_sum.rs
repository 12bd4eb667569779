//! Parser for Go sum files (`go.sum`): the exact versions locked for Go modules.
//!
//! Each line reads `<module> <version>[/go.mod] <hash>`. Lines whose version
//! ends with `/go.mod` duplicate the module's tree-hash line and are skipped;
//! every other line contributes its version, whatever its hash looks like.

use vstd::prelude::*;
use vstd::utf8::valid_utf8;
use crate::parsers::lock_map::{
    lists_entries, name_lists_entries, push_to_list, NameLists,
};
use crate::parsers::lockfile_graph::{
    named, pkgs_view, strings_view, LockfileGraph, LockfilePackage, PkgModel,
};
use crate::parsers::Dependency;
use crate::text::{
    at_boundary, bytes, ends_with, ends_with_b, find_b, find_byte, lemma_after_ascii,
    lemma_find_b, lines, lines_from, next_line, ob, sb, slice, str_eq, to_owned_string, trim,
    trim_b,
};

verus! {

broadcast use vstd::utf8::encode_utf8_valid_utf8, vstd::utf8::encode_utf8_decode_utf8;

/// End of the version field of a trimmed line whose module ends at `i`.
pub open spec fn go_sum_version_end(t: Seq<u8>, i: int) -> int {
    match find_b(t, i + 1, 0x20) {
        Some(j) => j,
        None => t.len() as int,
    }
}

/// The `(module, version)` a `go.sum` line contributes, if any: the first two
/// space-separated fields of the trimmed line, unless the module is empty,
/// there is no second field, or the version ends with `/go.mod`.
pub open spec fn go_sum_entry(l: Seq<u8>) -> Option<(Seq<u8>, Seq<u8>)> {
    let t = trim_b(l);
    match find_b(t, 0, 0x20) {
        Some(i) => {
            let v = t.subrange(i + 1, go_sum_version_end(t, i));
            if i == 0 || ends_with_b(v, sb("/go.mod")) {
                None
            } else {
                Some((t.subrange(0, i), v))
            }
        },
        None => None,
    }
}

/// Module → versions, after the lines `ls`, each version appended in line order.
pub open spec fn go_sum_run(ls: Seq<Seq<u8>>) -> Map<Seq<u8>, Seq<Seq<u8>>>
    decreases ls.len(),
{
    if ls.len() == 0 {
        Map::empty()
    } else {
        let m = go_sum_run(ls.drop_last());
        match go_sum_entry(ls.last()) {
            Some(e) => push_to_list(m, e.0, e.1),
            None => m,
        }
    }
}

/// The entry of one line, computed.
fn go_sum_line(line: &str) -> (r: Option<(&str, &str)>)
    ensures
        match r {
            Some(e) => go_sum_entry(sb(line)) == Some((sb(e.0), sb(e.1))),
            None => go_sum_entry(sb(line)) is None,
        },
{
    let t = trim(line);
    let tb = bytes(t);
    let tl = tb.len();
    match find_byte(tb, 0, 0x20) {
        Some(i) => {
            proof {
                lemma_find_b(tb@, 0, 0x20);
                lemma_find_b(tb@, i + 1, 0x20);
                lemma_after_ascii(tb@, i as int);
            }
            let ve = match find_byte(tb, i + 1, 0x20) {
                Some(j) => j,
                None => tl,
            };
            if i == 0 {
                return None;
            }
            let module = slice(t, 0, i);
            let version = slice(t, i + 1, ve);
            if ends_with(bytes(version), bytes("/go.mod")) {
                None
            } else {
                Some((module, version))
            }
        },
        None => None,
    }
}

/// Parse a `go.sum` file into a map of module path → all observed versions.
///
/// `/go.mod` lines are skipped; Go 1.17+ may record several versions of one
/// module, and all of them are kept, in file order, so that the caller can
/// choose. Lines with only a module and a version are accepted.
pub fn parse_go_sum(content: &str) -> (r: NameLists)
    ensures
        name_lists_entries(r) == go_sum_run(lines(sb(content))),
{
    let b = bytes(content);
    let n = b.len();
    let ghost ls = lines(b@);
    let mut map = NameLists::new();
    let mut p: usize = 0;
    let mut i: usize = 0;
    proof {
        assert(name_lists_entries(map) =~= Map::<Seq<u8>, Seq<Seq<u8>>>::empty());
    }
    while p < n
        invariant
            n == b@.len(),
            b@ == sb(content),
            valid_utf8(b@),
            ls == lines(b@),
            p <= n,
            at_boundary(b@, p as int),
            i <= ls.len(),
            i <= p,
            lines_from(b@, p as int) == ls.skip(i as int),
            go_sum_run(ls.take(i as int)) == name_lists_entries(map),
        decreases n - p,
    {
        let (ce, next) = next_line(b, p);
        let line = slice(content, p, ce);
        proof {
            assert(ls.skip(i as int).len() >= 1);
            assert(ls.skip(i as int)[0] == sb(line));
            assert(ls.skip(i + 1) =~= ls.skip(i as int).skip(1));
            assert(lines_from(b@, next as int) =~= ls.skip(i as int).skip(1));
            assert(ls.take(i + 1).drop_last() =~= ls.take(i as int));
            assert(ls.take(i + 1).last() == sb(line));
        }
        match go_sum_line(line) {
            Some((module, version)) => {
                map.push(module, to_owned_string(version));
            },
            None => {},
        }
        p = next;
        i = i + 1;
    }
    proof {
        assert(ls.skip(i as int).len() == 0);
        assert(ls.take(i as int) =~= ls);
    }
    map
}

/// One package per version of a module, without edges and not a root.
pub open spec fn go_version_pkgs(name: Seq<u8>, vs: Seq<Seq<u8>>) -> Seq<PkgModel> {
    vs.map_values(
        |v: Seq<u8>| PkgModel { name: name, version: v, dependencies: Seq::empty(), is_root: false },
    )
}

/// The packages of listed `go.sum` entries, entry by entry, version by version.
pub open spec fn go_pkgs(e: Seq<(Seq<u8>, Seq<Seq<u8>>)>) -> Seq<PkgModel>
    decreases e.len(),
{
    if e.len() == 0 {
        Seq::empty()
    } else {
        go_pkgs(e.drop_last()) + go_version_pkgs(e.last().0, e.last().1)
    }
}

/// The versions of the packages named `name`, in order.
pub open spec fn name_versions(ps: Seq<PkgModel>, name: Seq<u8>) -> Seq<Seq<u8>> {
    named(ps, name).map_values(|p: PkgModel| p.version)
}

/// Whether every version of `vs` equals its first.
pub open spec fn all_same(vs: Seq<Seq<u8>>) -> bool {
    forall|j: int| 0 <= j < vs.len() ==> #[trigger] vs[j] == vs[0]
}

/// The version `go.sum` locks for a dependency: the declared version when it
/// is among the candidates, else the single distinct candidate, else none.
pub open spec fn go_resolve(ps: Seq<PkgModel>, name: Seq<u8>, want: Seq<u8>) -> Option<Seq<u8>> {
    let vs = name_versions(ps, name);
    if vs.contains(want) {
        Some(want)
    } else if vs.len() > 0 && all_same(vs) {
        Some(vs[0])
    } else {
        None
    }
}

/// Resolves versions from `go.sum` for Go modules.
///
/// `go.sum` may list several versions of one module (test dependencies,
/// transitive versions), so resolution prefers the declared version when it
/// is a candidate, falls back to the sole distinct candidate, and otherwise
/// leaves the dependency unresolved rather than guess.
pub struct GoResolver;

impl GoResolver {
    /// The packages of `go.sum` content: one per module version, without
    /// edges. Modules come in the order the map hands them out, which is not
    /// fixed; the versions of a module stay in file order.
    pub fn parse_graph(&self, lock_content: &str) -> (graph: LockfileGraph)
        ensures
            exists|e: Seq<(Seq<u8>, Seq<Seq<u8>>)>|
                lists_entries(e, go_sum_run(lines(sb(lock_content)))) && pkgs_view(
                    graph.packages@,
                ) == go_pkgs(e),
    {
        let lock_versions = parse_go_sum(lock_content);
        let entries = lock_versions.entries();
        let ghost ev = crate::parsers::lock_map::entries_view(entries@);
        let mut packages: Vec<LockfilePackage> = Vec::new();
        let mut k: usize = 0;
        while k < entries.len()
            invariant
                ev == crate::parsers::lock_map::entries_view(entries@),
                k <= entries@.len(),
                pkgs_view(packages@) == go_pkgs(ev.take(k as int)),
            decreases entries@.len() - k,
        {
            let name = &entries[k].0;
            let versions = &entries[k].1;
            let ghost base = packages@;
            proof {
                assert(ev[k as int] == (ob(name), strings_view(versions@)));
            }
            let mut j: usize = 0;
            while j < versions.len()
                invariant
                    k < entries@.len(),
                    ev == crate::parsers::lock_map::entries_view(entries@),
                    ev[k as int] == (ob(name), strings_view(versions@)),
                    name == &entries@[k as int].0,
                    versions == &entries@[k as int].1,
                    j <= versions@.len(),
                    packages@.len() == base.len() + j,
                    packages@.take(base.len() as int) == base,
                    pkgs_view(packages@) == pkgs_view(base) + go_version_pkgs(
                        ev[k as int].0,
                        ev[k as int].1.take(j as int),
                    ),
                decreases versions@.len() - j,
            {
                let pkg = LockfilePackage {
                    name: to_owned_string(name.as_str()),
                    version: to_owned_string(versions[j].as_str()),
                    dependencies: Vec::new(),
                    is_root: false,
                };
                let ghost old_pk = packages@;
                let ghost pv = pkg@;
                proof {
                    assert(pv.dependencies =~= Seq::<Seq<u8>>::empty());
                }
                packages.push(pkg);
                proof {
                    assert(pkgs_view(packages@) =~= pkgs_view(old_pk).push(pv));
                    assert(strings_view(versions@)[j as int] == ob(&versions@[j as int]));
                    assert(ev[k as int].1.take(j + 1) =~= ev[k as int].1.take(j as int).push(
                        ob(&versions@[j as int]),
                    ));
                    assert(pkgs_view(packages@) =~= pkgs_view(base) + go_version_pkgs(
                        ev[k as int].0,
                        ev[k as int].1.take(j + 1),
                    ));
                    assert(packages@.take(base.len() as int) =~= base);
                }
                j = j + 1;
            }
            proof {
                assert(ev[k as int].1.take(j as int) =~= ev[k as int].1);
                assert(ev.take(k + 1).drop_last() =~= ev.take(k as int));
                assert(ev.take(k + 1).last() == ev[k as int]);
            }
            k = k + 1;
        }
        proof {
            assert(ev.take(k as int) =~= ev);
        }
        LockfileGraph { packages }
    }

    /// The version locked for `dep`: its declared version when some package
    /// of that name has it, else the only distinct version recorded for the
    /// name, else none (no candidate, or several without a match).
    pub fn resolve_version(&self, dep: &Dependency, graph: &LockfileGraph) -> (r: Option<String>)
        ensures
            (match r {
                Some(v) => Some(ob(&v)),
                None => None,
            }) == go_resolve(pkgs_view(graph.packages@), ob(&dep.name), ob(&dep.version)),
    {
        let cands = graph.find_all(dep.name.as_str());
        let ghost vs = name_versions(pkgs_view(graph.packages@), ob(&dep.name));
        let mut found = false;
        let mut same = true;
        let mut k: usize = 0;
        while k < cands.len()
            invariant
                cands@.map_values(|p: &LockfilePackage| p@) == named(
                    pkgs_view(graph.packages@),
                    ob(&dep.name),
                ),
                vs == name_versions(pkgs_view(graph.packages@), ob(&dep.name)),
                vs.len() == cands@.len(),
                k <= cands@.len(),
                found == vs.take(k as int).contains(ob(&dep.version)),
                same == (forall|j: int| 0 <= j < k ==> #[trigger] vs[j] == vs[0]),
            decreases cands@.len() - k,
        {
            proof {
                assert(vs[k as int] == ob(&cands@[k as int].version));
                assert(vs[0] == ob(&cands@[0].version));
            }
            if str_eq(cands[k].version.as_str(), dep.version.as_str()) {
                found = true;
            }
            if !str_eq(cands[k].version.as_str(), cands[0].version.as_str()) {
                same = false;
            }
            proof {
                let x = ob(&dep.version);
                let t0 = vs.take(k as int);
                let t1 = vs.take(k + 1);
                assert(t1 =~= t0.push(vs[k as int]));
                if vs[k as int] == x {
                    assert(t1[k as int] == x);
                }
                if t0.contains(x) {
                    let w = choose|w: int| 0 <= w < t0.len() && t0[w] == x;
                    assert(t1[w] == x);
                }
                if t1.contains(x) && vs[k as int] != x {
                    let w = choose|w: int| 0 <= w < t1.len() && t1[w] == x;
                    assert(t0[w] == x);
                }
                if !same {
                    if vs[k as int] != vs[0] {
                        assert(!(forall|j: int| 0 <= j < k + 1 ==> #[trigger] vs[j] == vs[0]));
                    }
                }
            }
            k = k + 1;
        }
        proof {
            assert(vs.take(k as int) =~= vs);
        }
        if found {
            Some(to_owned_string(dep.version.as_str()))
        } else if cands.len() > 0 && same {
            proof {
                assert(vs[0] == ob(&cands@[0].version));
            }
            Some(to_owned_string(cands[0].version.as_str()))
        } else {
            None
        }
    }
}

/// Resolution never invents a version: what it returns is a version that
/// `go.sum` lists for the module.
pub proof fn law_go_resolve_listed(ps: Seq<PkgModel>, name: Seq<u8>, want: Seq<u8>)
    ensures
        go_resolve(ps, name, want) matches Some(v) ==> name_versions(ps, name).contains(v),
{
    let vs = name_versions(ps, name);
    if !vs.contains(want) && vs.len() > 0 && all_same(vs) {
        assert(vs[0] == vs[0]);
        assert(vs.contains(vs[0]));
    }
}

/// A declared version that `go.sum` lists is always the resolved one.
pub proof fn law_go_resolve_prefers_declared(ps: Seq<PkgModel>, name: Seq<u8>, want: Seq<u8>)
    requires
        name_versions(ps, name).contains(want),
    ensures
        go_resolve(ps, name, want) == Some(want),
{
}

proof fn lemma_go_sum_run_keeps(ls: Seq<Seq<u8>>, n: int, m: Seq<u8>, k: int)
    requires
        0 <= n <= ls.len(),
        go_sum_run(ls.take(n)).dom().contains(m),
        0 <= k < go_sum_run(ls.take(n))[m].len(),
    ensures
        go_sum_run(ls).dom().contains(m),
        k < go_sum_run(ls)[m].len(),
        go_sum_run(ls)[m][k] == go_sum_run(ls.take(n))[m][k],
    decreases ls.len() - n,
{
    if n < ls.len() {
        let t = ls.take(n + 1);
        assert(t.drop_last() =~= ls.take(n));
        lemma_go_sum_run_keeps(ls, n + 1, m, k);
    } else {
        assert(ls.take(n) =~= ls);
    }
}

/// Every line of a `go.sum` that records a module and a version (not a
/// `/go.mod` hash line) lists that version under the module, and the
/// versions of a module keep the order of their lines.
pub proof fn law_go_sum_lists_every_line(ls: Seq<Seq<u8>>, i: int, m: Seq<u8>, v: Seq<u8>)
    requires
        0 <= i < ls.len(),
        go_sum_entry(ls[i]) == Some((m, v)),
    ensures
        go_sum_run(ls).dom().contains(m),
        go_sum_run(ls)[m].contains(v),
        forall|j: int|
            0 <= j < i && (#[trigger] go_sum_entry(ls[j]) matches Some(e) && e.0 == m) ==> exists|a: int, b: int|
                0 <= a < b < go_sum_run(ls)[m].len() && go_sum_run(ls)[m][a] == (go_sum_entry(ls[j])->0).1
                    && go_sum_run(ls)[m][b] == v,
{
    let p = ls.take(i + 1);
    assert(p.drop_last() =~= ls.take(i));
    assert(p.last() == ls[i]);
    let before = go_sum_run(ls.take(i));
    let kv = if before.dom().contains(m) { before[m].len() as int } else { 0 };
    assert(go_sum_run(p)[m][kv] == v);
    lemma_go_sum_run_keeps(ls, i + 1, m, kv);
    assert(go_sum_run(ls)[m][kv] == v);
    assert forall|j: int|
        0 <= j < i && (#[trigger] go_sum_entry(ls[j]) matches Some(e) && e.0 == m) implies exists|a: int, b: int|
            0 <= a < b < go_sum_run(ls)[m].len() && go_sum_run(ls)[m][a] == (go_sum_entry(ls[j])->0).1
                && go_sum_run(ls)[m][b] == v by {
        let w = (go_sum_entry(ls[j])->0).1;
        let q = ls.take(j + 1);
        assert(q.drop_last() =~= ls.take(j));
        assert(q.last() == ls[j]);
        let bj = go_sum_run(ls.take(j));
        let kw = if bj.dom().contains(m) { bj[m].len() as int } else { 0 };
        assert(go_sum_run(q)[m][kw] == w);
        assert(ls.take(i).take(j + 1) =~= q);
        lemma_go_sum_run_keeps(ls.take(i), j + 1, m, kw);
        assert(kw < before[m].len());
        assert(kw < kv);
        assert(ls.take(i + 1).take(i) =~= ls.take(i));
        lemma_go_sum_run_keeps(ls.take(i + 1), i, m, kw);
        lemma_go_sum_run_keeps(ls, i + 1, m, kw);
    }
}

} // verus!
