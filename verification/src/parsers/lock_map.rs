//! Maps from package name to locked version, as lockfile parsers return them.
//!
//! The map is a `hashbrown::HashMap<String, String>`; its contents are
//! described by [`lock_map_entries`], over the UTF-8 bytes of keys and values.

use vstd::prelude::*;
use crate::text::{ob, sb};
use crate::parsers::lockfile_graph::{pkgs_view, strings_view, LockfilePackage, PkgModel};
use crate::text::to_owned_string;

verus! {

/// Package name → locked version, in a `hashbrown::HashMap`.
#[verifier::external_body]
pub struct LockMap {
    inner: hashbrown::HashMap<String, String>,
}

/// The name → version pairs a [`LockMap`] holds, as UTF-8 bytes.
pub uninterp spec fn lock_map_entries(m: LockMap) -> Map<Seq<u8>, Seq<u8>>;

/// `m` with `k ↦ v` added unless `k` already has a value: the first value wins.
pub open spec fn insert_first(m: Map<Seq<u8>, Seq<u8>>, k: Seq<u8>, v: Seq<u8>) -> Map<
    Seq<u8>,
    Seq<u8>,
> {
    if m.dom().contains(k) {
        m
    } else {
        m.insert(k, v)
    }
}

/// `hashbrown::HashMap::new`: an empty map.
#[verifier::external_body]
fn lock_map_new() -> (r: LockMap)
    ensures
        lock_map_entries(r).dom() == Set::<Seq<u8>>::empty(),
{
    LockMap { inner: hashbrown::HashMap::new() }
}

/// `entry_ref(k).or_insert(v)`: inserts `k ↦ v` only when `k` is absent.
#[verifier::external_body]
fn lock_map_entry_ref_or_insert(m: &mut LockMap, k: &str, v: String)
    ensures
        lock_map_entries(*final(m)) == insert_first(lock_map_entries(*old(m)), sb(k), ob(&v)),
{
    m.inner.entry_ref(k).or_insert(v);
}

/// `entry(k).or_insert(v)`: inserts `k ↦ v` only when `k` is absent.
#[verifier::external_body]
fn lock_map_entry_or_insert(m: &mut LockMap, k: String, v: String)
    ensures
        lock_map_entries(*final(m)) == insert_first(lock_map_entries(*old(m)), ob(&k), ob(&v)),
{
    m.inner.entry(k).or_insert(v);
}

/// `hashbrown::HashMap::insert`: `k ↦ v`, replacing any value `k` had.
#[verifier::external_body]
fn lock_map_insert(m: &mut LockMap, k: String, v: String)
    ensures
        lock_map_entries(*final(m)) == lock_map_entries(*old(m)).insert(ob(&k), ob(&v)),
{
    m.inner.insert(k, v);
}

/// `hashbrown::HashMap::get`.
#[verifier::external_body]
fn lock_map_get<'a>(m: &'a LockMap, k: &str) -> (r: Option<&'a String>)
    ensures
        match r {
            Some(v) => lock_map_entries(*m).dom().contains(sb(k)) && ob(v) == lock_map_entries(
                *m,
            )[sb(k)],
            None => !lock_map_entries(*m).dom().contains(sb(k)),
        },
{
    m.inner.get(k)
}

/// `hashbrown::HashMap::len`.
#[verifier::external_body]
fn lock_map_len(m: &LockMap) -> (r: usize)
    ensures
        r as nat == lock_map_entries(*m).len(),
{
    m.inner.len()
}

/// Whether `e` lists each key of `m` exactly once, with its value.
pub open spec fn lists_pairs(e: Seq<(Seq<u8>, Seq<u8>)>, m: Map<Seq<u8>, Seq<u8>>) -> bool {
    &&& forall|i: int| 0 <= i < e.len() ==> #[trigger] m.dom().contains(e[i].0) && m[e[i].0] == e[i].1
    &&& forall|i: int, j: int| 0 <= i < j < e.len() ==> #[trigger] e[i].0 != #[trigger] e[j].0
    &&& forall|k: Seq<u8>| #[trigger] m.dom().contains(k) ==> exists|i: int| 0 <= i < e.len() && #[trigger] e[i].0 == k
}

/// The abstract value of listed name/version pairs.
pub open spec fn pairs_view(v: Seq<(String, String)>) -> Seq<(Seq<u8>, Seq<u8>)> {
    v.map_values(|x: (String, String)| (ob(&x.0), ob(&x.1)))
}

/// `hashbrown::HashMap::into_iter`, collected. The order is that of the map's
/// buckets, which depends on the hasher's random seed.
#[verifier::external_body]
fn lock_map_into_pairs(m: LockMap) -> (r: Vec<(String, String)>)
    ensures
        lists_pairs(pairs_view(r@), lock_map_entries(m)),
{
    m.inner.into_iter().collect()
}

impl LockMap {
    /// An empty map.
    pub fn new() -> (r: Self)
        ensures
            lock_map_entries(r).dom() == Set::<Seq<u8>>::empty(),
    {
        lock_map_new()
    }

    /// Records `version` for `name` unless `name` already has one.
    pub fn insert_first_ref(&mut self, name: &str, version: String)
        ensures
            lock_map_entries(*final(self)) == insert_first(
                lock_map_entries(*old(self)),
                sb(name),
                ob(&version),
            ),
    {
        lock_map_entry_ref_or_insert(self, name, version)
    }

    /// Records `version` for `name` unless `name` already has one.
    pub fn insert_first_owned(&mut self, name: String, version: String)
        ensures
            lock_map_entries(*final(self)) == insert_first(
                lock_map_entries(*old(self)),
                ob(&name),
                ob(&version),
            ),
    {
        lock_map_entry_or_insert(self, name, version)
    }

    /// Records `version` for `name`, replacing any version it had.
    pub fn insert(&mut self, name: String, version: String)
        ensures
            lock_map_entries(*final(self)) == lock_map_entries(*old(self)).insert(
                ob(&name),
                ob(&version),
            ),
    {
        lock_map_insert(self, name, version)
    }

    /// The version recorded for `name`.
    pub fn get(&self, name: &str) -> (r: Option<&String>)
        ensures
            match r {
                Some(v) => lock_map_entries(*self).dom().contains(sb(name)) && ob(v)
                    == lock_map_entries(*self)[sb(name)],
                None => !lock_map_entries(*self).dom().contains(sb(name)),
            },
    {
        lock_map_get(self, name)
    }

    /// Whether `name` has a recorded version.
    pub fn contains_key(&self, name: &str) -> (r: bool)
        ensures
            r == lock_map_entries(*self).dom().contains(sb(name)),
    {
        lock_map_get(self, name).is_some()
    }

    /// The number of names with a recorded version.
    pub fn len(&self) -> (r: usize)
        ensures
            r as nat == lock_map_entries(*self).len(),
    {
        lock_map_len(self)
    }

    /// Whether no name has a recorded version.
    pub fn is_empty(&self) -> (r: bool)
        ensures
            r == (lock_map_entries(*self).len() == 0),
    {
        lock_map_len(self) == 0
    }

    /// Every name with its version, each name once, in no stated order.
    pub fn into_pairs(self) -> (r: Vec<(String, String)>)
        ensures
            lists_pairs(pairs_view(r@), lock_map_entries(self)),
    {
        lock_map_into_pairs(self)
    }
}

/// Name → list of strings (such as every version recorded for a package, or
/// the direct dependencies that reach it), in a `hashbrown::HashMap`.
#[verifier::external_body]
pub struct NameLists {
    inner: hashbrown::HashMap<String, Vec<String>>,
}

/// The name → list pairs a [`NameLists`] holds, as UTF-8 bytes, each list
/// in the order its strings were added.
pub uninterp spec fn name_lists_entries(m: NameLists) -> Map<Seq<u8>, Seq<Seq<u8>>>;

/// The list `m` records for `k` (empty when `k` is absent).
pub open spec fn list_of(m: Map<Seq<u8>, Seq<Seq<u8>>>, k: Seq<u8>) -> Seq<Seq<u8>> {
    if m.dom().contains(k) {
        m[k]
    } else {
        Seq::empty()
    }
}

/// `m` with `v` appended to the list of `k`.
pub open spec fn push_to_list(m: Map<Seq<u8>, Seq<Seq<u8>>>, k: Seq<u8>, v: Seq<u8>) -> Map<
    Seq<u8>,
    Seq<Seq<u8>>,
> {
    m.insert(k, list_of(m, k).push(v))
}

/// Whether `e` lists each key of `m` exactly once, with its list.
pub open spec fn lists_entries(
    e: Seq<(Seq<u8>, Seq<Seq<u8>>)>,
    m: Map<Seq<u8>, Seq<Seq<u8>>>,
) -> bool {
    &&& forall|i: int| 0 <= i < e.len() ==> #[trigger] m.dom().contains(e[i].0) && m[e[i].0] == e[i].1
    &&& forall|i: int, j: int| 0 <= i < j < e.len() ==> #[trigger] e[i].0 != #[trigger] e[j].0
    &&& forall|k: Seq<u8>| #[trigger] m.dom().contains(k) ==> exists|i: int| 0 <= i < e.len() && #[trigger] e[i].0 == k
}

/// The abstract value of listed entries.
pub open spec fn entries_view(v: Seq<(String, Vec<String>)>) -> Seq<(Seq<u8>, Seq<Seq<u8>>)> {
    v.map_values(|x: (String, Vec<String>)| (ob(&x.0), strings_view(x.1@)))
}

/// `hashbrown::HashMap::new`: an empty map.
#[verifier::external_body]
fn name_lists_new() -> (r: NameLists)
    ensures
        name_lists_entries(r).dom() == Set::<Seq<u8>>::empty(),
{
    NameLists { inner: hashbrown::HashMap::new() }
}

/// `entry_ref(k).or_default().push(v)`: appends `v` to the list of `k`,
/// starting from an empty list when `k` is absent.
#[verifier::external_body]
fn name_lists_push(m: &mut NameLists, k: &str, v: String)
    ensures
        name_lists_entries(*final(m)) == push_to_list(name_lists_entries(*old(m)), sb(k), ob(&v)),
{
    m.inner.entry_ref(k).or_default().push(v);
}

/// `hashbrown::HashMap::insert`: `k ↦ v`, replacing any list `k` had.
#[verifier::external_body]
fn name_lists_insert(m: &mut NameLists, k: String, v: Vec<String>)
    ensures
        name_lists_entries(*final(m)) == name_lists_entries(*old(m)).insert(ob(&k), strings_view(v@)),
{
    m.inner.insert(k, v);
}

/// `hashbrown::HashMap::get`.
#[verifier::external_body]
fn name_lists_get<'a>(m: &'a NameLists, k: &str) -> (r: Option<&'a Vec<String>>)
    ensures
        match r {
            Some(v) => name_lists_entries(*m).dom().contains(sb(k)) && strings_view(v@)
                == name_lists_entries(*m)[sb(k)],
            None => !name_lists_entries(*m).dom().contains(sb(k)),
        },
{
    m.inner.get(k)
}

/// `hashbrown::HashMap::len`.
#[verifier::external_body]
fn name_lists_len(m: &NameLists) -> (r: usize)
    ensures
        r as nat == name_lists_entries(*m).len(),
{
    m.inner.len()
}

/// `hashbrown::HashMap::iter`, each entry copied out. The order is that of the
/// map's buckets, which depends on the hasher's random seed.
#[verifier::external_body]
fn name_lists_iter(m: &NameLists) -> (r: Vec<(String, Vec<String>)>)
    ensures
        lists_entries(entries_view(r@), name_lists_entries(*m)),
{
    m.inner.iter().map(|(k, v)| (k.clone(), v.clone())).collect()
}

impl NameLists {
    /// An empty map.
    pub fn new() -> (r: Self)
        ensures
            name_lists_entries(r).dom() == Set::<Seq<u8>>::empty(),
    {
        name_lists_new()
    }

    /// Appends `version` to the list recorded for `name`.
    pub fn push(&mut self, name: &str, version: String)
        ensures
            name_lists_entries(*final(self)) == push_to_list(
                name_lists_entries(*old(self)),
                sb(name),
                ob(&version),
            ),
    {
        name_lists_push(self, name, version)
    }

    /// Sets the list of `name` to `list`, replacing any it had.
    pub fn insert(&mut self, name: String, list: Vec<String>)
        ensures
            name_lists_entries(*final(self)) == name_lists_entries(*old(self)).insert(
                ob(&name),
                strings_view(list@),
            ),
    {
        name_lists_insert(self, name, list)
    }

    /// The list recorded for `name`.
    pub fn get(&self, name: &str) -> (r: Option<&Vec<String>>)
        ensures
            match r {
                Some(v) => name_lists_entries(*self).dom().contains(sb(name)) && strings_view(
                    v@,
                ) == name_lists_entries(*self)[sb(name)],
                None => !name_lists_entries(*self).dom().contains(sb(name)),
            },
    {
        name_lists_get(self, name)
    }

    /// The number of names with a list.
    pub fn len(&self) -> (r: usize)
        ensures
            r as nat == name_lists_entries(*self).len(),
    {
        name_lists_len(self)
    }

    /// Whether no name has a list.
    pub fn is_empty(&self) -> (r: bool)
        ensures
            r == (name_lists_entries(*self).len() == 0),
    {
        name_lists_len(self) == 0
    }

    /// Every name with its list, each name once, in no stated order.
    pub fn entries(&self) -> (r: Vec<(String, Vec<String>)>)
        ensures
            lists_entries(entries_view(r@), name_lists_entries(*self)),
    {
        name_lists_iter(self)
    }
}

/// One package per listed name/version pair, without edges and not a root.
pub open spec fn pair_pkgs(e: Seq<(Seq<u8>, Seq<u8>)>) -> Seq<PkgModel> {
    e.map_values(
        |x: (Seq<u8>, Seq<u8>)|
            PkgModel { name: x.0, version: x.1, dependencies: Seq::empty(), is_root: false },
    )
}

/// Turns listed name/version pairs into packages without edges.
pub fn flat_packages(pairs: Vec<(String, String)>) -> (r: Vec<LockfilePackage>)
    ensures
        pkgs_view(r@) == pair_pkgs(pairs_view(pairs@)),
{
    let ghost e = pairs_view(pairs@);
    let ghost all = pairs@;
    let len = pairs.len();
    let pairs_v = pairs;
    let mut acc: Vec<LockfilePackage> = Vec::new();
    let mut idx: usize = 0;
    while idx < len
        invariant
            len == all.len(),
            pairs_v@ == all,
            e == pairs_view(all),
            idx <= len,
            pkgs_view(acc@) == pair_pkgs(e.take(idx as int)),
        decreases len - idx,
    {
        let pkg = LockfilePackage {
            name: to_owned_string(pairs_v[idx].0.as_str()),
            version: to_owned_string(pairs_v[idx].1.as_str()),
            dependencies: Vec::new(),
            is_root: false,
        };
        let ghost old_acc = acc@;
        let ghost pv = pkg@;
        proof {
            assert(pv.dependencies =~= Seq::<Seq<u8>>::empty());
        }
        acc.push(pkg);
        proof {
            assert(pkgs_view(acc@) =~= pkgs_view(old_acc).push(pv));
            assert(pair_pkgs(e.take(idx + 1)) =~= pair_pkgs(e.take(idx as int)).push(pv));
        }
        idx = idx + 1;
    }
    proof {
        assert(e.take(idx as int) =~= e);
    }
    acc
}

} // verus!
