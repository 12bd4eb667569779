//! Shared graph representation for lockfile contents.
//!
//! [`LockfileGraph`] stores every package recorded in a lockfile as a flat
//! list of [`LockfilePackage`] nodes with their dependency edges.

use vstd::prelude::*;
use crate::text::{
    bytes, bytes_lt, eq_bytes, first_token, first_word, lemma_lex_total, lemma_lex_trans, lex_lt, ob,
    sb, str_eq, to_owned_string,
};
use crate::parsers::lock_map::{name_lists_entries, NameLists};

verus! {

/// A single package entry in a resolved lockfile.
#[derive(Debug, Clone, PartialEq, Eq)]
pub struct LockfilePackage {
    /// Package name as recorded in the lockfile (may be pre-normalized by the parser).
    pub name: String,
    /// Exact locked version string (e.g., `"1.0.195"` or `"v0.14.0"`).
    pub version: String,
    /// Names of packages directly required by this one (for Cargo possibly
    /// followed by a space and a version).
    pub dependencies: Vec<String>,
    /// `true` when this package is declared directly in the manifest.
    pub is_root: bool,
}

/// The abstract value of a [`LockfilePackage`]: its strings as UTF-8 bytes.
pub ghost struct PkgModel {
    pub name: Seq<u8>,
    pub version: Seq<u8>,
    pub dependencies: Seq<Seq<u8>>,
    pub is_root: bool,
}

/// The UTF-8 bytes of each string of a list.
pub open spec fn strings_view(v: Seq<String>) -> Seq<Seq<u8>> {
    v.map_values(|s: String| ob(&s))
}

impl View for LockfilePackage {
    type V = PkgModel;

    open spec fn view(&self) -> PkgModel {
        PkgModel {
            name: ob(&self.name),
            version: ob(&self.version),
            dependencies: strings_view(self.dependencies@),
            is_root: self.is_root,
        }
    }
}

/// The abstract values of a list of packages.
pub open spec fn pkgs_view(v: Seq<LockfilePackage>) -> Seq<PkgModel> {
    v.map_values(|p: LockfilePackage| p@)
}

/// The full set of packages from a resolved lockfile, with dependency edges.
#[derive(Debug, Clone)]
pub struct LockfileGraph {
    /// All packages present in the lockfile, including transitive dependencies.
    pub packages: Vec<LockfilePackage>,
}

impl Default for LockfileGraph {
    fn default() -> (r: Self)
        ensures
            r.packages@.len() == 0,
    {
        LockfileGraph { packages: Vec::new() }
    }
}

/// The packages of `ps` named `name`, in order.
pub open spec fn named(ps: Seq<PkgModel>, name: Seq<u8>) -> Seq<PkgModel>
    decreases ps.len(),
{
    if ps.len() == 0 {
        Seq::empty()
    } else {
        let prev = named(ps.drop_last(), name);
        if ps.last().name == name {
            prev.push(ps.last())
        } else {
            prev
        }
    }
}

impl LockfileGraph {
    /// Return all packages in the graph that match `name` (0 or more), in order.
    pub fn find_all(&self, name: &str) -> (r: Vec<&LockfilePackage>)
        ensures
            r@.map_values(|p: &LockfilePackage| p@) == named(pkgs_view(self.packages@), sb(name)),
    {
        let nb = bytes(name);
        let mut out: Vec<&LockfilePackage> = Vec::new();
        let mut i: usize = 0;
        while i < self.packages.len()
            invariant
                nb@ == sb(name),
                i <= self.packages@.len(),
                out@.map_values(|p: &LockfilePackage| p@) == named(
                    pkgs_view(self.packages@.take(i as int)),
                    sb(name),
                ),
            decreases self.packages@.len() - i,
        {
            let p = &self.packages[i];
            proof {
                assert(pkgs_view(self.packages@.take(i + 1)).drop_last() =~= pkgs_view(
                    self.packages@.take(i as int),
                ));
                assert(pkgs_view(self.packages@.take(i + 1)).last() == p@);
            }
            if eq_bytes(bytes(p.name.as_str()), nb) {
                out.push(p);
            }
            proof {
                assert(out@.map_values(|p: &LockfilePackage| p@) =~= named(
                    pkgs_view(self.packages@.take(i + 1)),
                    sb(name),
                ));
            }
            i = i + 1;
        }
        proof {
            assert(self.packages@.take(i as int) =~= self.packages@);
        }
        out
    }
}

// ---------------------------------------------------------------------------
// Graph walks
// ---------------------------------------------------------------------------

/// A set of package indices, kept in a `hashbrown::HashSet`.
#[verifier::external_body]
pub struct IndexSet {
    inner: hashbrown::HashSet<usize>,
}

/// The indices an [`IndexSet`] holds.
pub uninterp spec fn index_set_items(s: IndexSet) -> Set<int>;

/// `hashbrown::HashSet::new`: an empty set.
#[verifier::external_body]
fn index_set_new() -> (r: IndexSet)
    ensures
        index_set_items(r) == Set::<int>::empty(),
{
    IndexSet { inner: hashbrown::HashSet::new() }
}

/// `hashbrown::HashSet::insert`: adds `v`; returns whether it was absent before.
#[verifier::external_body]
fn index_set_insert(s: &mut IndexSet, v: usize) -> (r: bool)
    ensures
        index_set_items(*final(s)) == index_set_items(*old(s)).insert(v as int),
        r == !index_set_items(*old(s)).contains(v as int),
{
    s.inner.insert(v)
}

/// `hashbrown::HashSet::is_empty`.
#[verifier::external_body]
fn index_set_is_empty(s: &IndexSet) -> (r: bool)
    ensures
        r == (index_set_items(*s) == Set::<int>::empty()),
{
    s.inner.is_empty()
}

/// Same name and same version: the identity under which packages are de-duplicated.
pub open spec fn same_id(a: PkgModel, b: PkgModel) -> bool {
    a.name == b.name && a.version == b.version
}

/// The package name a dependency entry refers to: its first word, since
/// Cargo may write `"name version"`.
pub open spec fn dep_target(d: Seq<u8>) -> Seq<u8> {
    match first_token(d) {
        Some(t) => t,
        None => d,
    }
}

/// Some dependency entry of `a` refers to the name `nm`.
pub open spec fn names_dep(a: PkgModel, nm: Seq<u8>) -> bool {
    exists|k: int| 0 <= k < a.dependencies.len() && #[trigger] dep_target(a.dependencies[k]) == nm
}

/// Some package named `root` has a dependency entry referring to `nm`.
pub open spec fn root_names(ps: Seq<PkgModel>, root: Seq<u8>, nm: Seq<u8>) -> bool {
    exists|i: int| 0 <= i < ps.len() && ps[i].name == root && #[trigger] names_dep(ps[i], nm)
}

/// `res[m]` is a dependency of a root or of an earlier element of `res`.
pub open spec fn reached_from(ps: Seq<PkgModel>, root: Seq<u8>, res: Seq<PkgModel>, m: int) -> bool {
    ||| root_names(ps, root, res[m].name)
    ||| exists|m2: int| 0 <= m2 < m && #[trigger] names_dep(res[m2], res[m].name)
}

/// The name `nm` is referred to by a root or by an element of `res`.
pub open spec fn named_by(ps: Seq<PkgModel>, root: Seq<u8>, res: Seq<PkgModel>, nm: Seq<u8>) -> bool {
    ||| root_names(ps, root, nm)
    ||| exists|m: int| 0 <= m < res.len() && #[trigger] names_dep(res[m], nm)
}

/// `res` lists, in an order where each entry is reached before it is used,
/// packages of `ps` that are distinct by identity and are not roots.
pub open spec fn walk_sound(ps: Seq<PkgModel>, root: Seq<u8>, res: Seq<PkgModel>) -> bool {
    &&& forall|m: int| 0 <= m < res.len() ==> ps.contains(#[trigger] res[m])
    &&& forall|m1: int, m2: int|
        0 <= m1 < m2 < res.len() ==> !same_id(#[trigger] res[m1], #[trigger] res[m2])
    &&& forall|m: int| 0 <= m < res.len() ==> (#[trigger] res[m]).name != root
    &&& forall|m: int| 0 <= m < res.len() ==> #[trigger] reached_from(ps, root, res, m)
}

/// Every package that a root or an element of `res` depends on is a root or
/// has its identity in `res`.
pub open spec fn walk_closed(ps: Seq<PkgModel>, root: Seq<u8>, res: Seq<PkgModel>) -> bool {
    forall|j: int|
        0 <= j < ps.len() && #[trigger] named_by(ps, root, res, ps[j].name) ==> ps[j].name == root
            || exists|m: int| 0 <= m < res.len() && same_id(#[trigger] res[m], ps[j])
}

/// `res` is the set of packages transitively required by the packages named
/// `root`, each identity once, roots excluded.
pub open spec fn transitive_result(ps: Seq<PkgModel>, root: Seq<u8>, res: Seq<PkgModel>) -> bool {
    walk_sound(ps, root, res) && walk_closed(ps, root, res)
}

/// The abstract values of a list of package references.
pub open spec fn refs_view(v: Seq<&LockfilePackage>) -> Seq<PkgModel> {
    v.map_values(|p: &LockfilePackage| p@)
}

/// The index of the first package with the identity of `ps[j]`, searching from `i`.
pub open spec fn first_id(ps: Seq<PkgModel>, j: int, i: int) -> int
    decreases j - i,
{
    if i >= j {
        j
    } else if same_id(ps[i], ps[j]) {
        i
    } else {
        first_id(ps, j, i + 1)
    }
}

/// The index of the first package with the identity of `ps[j]`.
pub open spec fn canon(ps: Seq<PkgModel>, j: int) -> int {
    first_id(ps, j, 0)
}

proof fn lemma_first_id(ps: Seq<PkgModel>, j: int, i: int)
    requires
        0 <= i <= j < ps.len(),
    ensures
        i <= first_id(ps, j, i) <= j,
        same_id(ps[first_id(ps, j, i)], ps[j]),
        forall|q: int| i <= q < first_id(ps, j, i) ==> !same_id(ps[q], ps[j]),
    decreases j - i,
{
    if i < j && !same_id(ps[i], ps[j]) {
        lemma_first_id(ps, j, i + 1);
    }
}

proof fn lemma_canon(ps: Seq<PkgModel>, j: int)
    requires
        0 <= j < ps.len(),
    ensures
        0 <= canon(ps, j) <= j,
        same_id(ps[canon(ps, j)], ps[j]),
        canon(ps, canon(ps, j)) == canon(ps, j),
        forall|b: int| 0 <= b < ps.len() && same_id(ps[b], ps[j]) ==> canon(ps, b) == canon(ps, j),
{
    lemma_first_id(ps, j, 0);
    let c = canon(ps, j);
    assert forall|b: int| 0 <= b < ps.len() && same_id(ps[b], ps[j]) implies canon(ps, b) == c by {
        lemma_first_id(ps, b, 0);
        let cb = canon(ps, b);
        if cb < c {
            assert(!same_id(ps[cb], ps[j]));
        }
        if c < cb {
            assert(!same_id(ps[c], ps[b]));
        }
    }
    lemma_first_id(ps, c, 0);
}

/// How many of the indices `0..k` are in `v`.
pub open spec fn count_in(v: Set<int>, k: int) -> int
    decreases k,
{
    if k <= 0 {
        0
    } else {
        count_in(v, k - 1) + if v.contains(k - 1) {
            1int
        } else {
            0int
        }
    }
}

proof fn lemma_count_bound(v: Set<int>, k: int)
    requires
        0 <= k,
    ensures
        0 <= count_in(v, k) <= k,
    decreases k,
{
    if k > 0 {
        lemma_count_bound(v, k - 1);
    }
}

proof fn lemma_count_insert(v: Set<int>, k: int, c: int)
    requires
        0 <= c < k,
        !v.contains(c),
    ensures
        count_in(v.insert(c), k) == count_in(v, k) + 1,
    decreases k,
{
    if k - 1 > c {
        lemma_count_insert(v, k - 1, c);
    } else {
        lemma_count_same(v, c, c);
    }
}

proof fn lemma_count_same(v: Set<int>, k: int, c: int)
    requires
        0 <= k <= c,
    ensures
        count_in(v.insert(c), k) == count_in(v, k),
    decreases k,
{
    if k > 0 {
        lemma_count_same(v, k - 1, c);
    }
}

/// The walk's pass for a popped name `nm` over the packages from index `j`
/// on: each package named `nm` whose identity is not yet visited is visited
/// (its identity marked, the package appended to `out`, its dependency
/// names pushed on the stack), in package order.
pub open spec fn visit_pass(
    ps: Seq<PkgModel>,
    nm: Seq<u8>,
    j: int,
    v: Set<int>,
    out: Seq<PkgModel>,
    st: Seq<Seq<u8>>,
) -> (Set<int>, Seq<PkgModel>, Seq<Seq<u8>>)
    decreases ps.len() - j,
{
    if j < 0 || j >= ps.len() {
        (v, out, st)
    } else if ps[j].name == nm && !v.contains(canon(ps, j)) {
        visit_pass(ps, nm, j + 1, v.insert(canon(ps, j)), out.push(ps[j]), st + dep_targets(ps[j]))
    } else {
        visit_pass(ps, nm, j + 1, v, out, st)
    }
}

proof fn lemma_visit_pass(
    ps: Seq<PkgModel>,
    nm: Seq<u8>,
    j: int,
    v: Set<int>,
    out: Seq<PkgModel>,
    st: Seq<Seq<u8>>,
)
    requires
        0 <= j <= ps.len(),
    ensures
        count_in(visit_pass(ps, nm, j, v, out, st).0, ps.len() as int) >= count_in(v, ps.len() as int),
        count_in(visit_pass(ps, nm, j, v, out, st).0, ps.len() as int) == count_in(v, ps.len() as int)
            ==> visit_pass(ps, nm, j, v, out, st).2 == st,
    decreases ps.len() - j,
{
    if j < ps.len() {
        if ps[j].name == nm && !v.contains(canon(ps, j)) {
            lemma_canon(ps, j);
            lemma_count_insert(v, ps.len() as int, canon(ps, j));
            lemma_visit_pass(ps, nm, j + 1, v.insert(canon(ps, j)), out.push(ps[j]), st + dep_targets(ps[j]));
        } else {
            lemma_visit_pass(ps, nm, j + 1, v, out, st);
        }
    }
}

/// The depth-first walk from the state (visited identities `v`, output
/// `out`, stack `st`): pop the last name, visit the packages of that name,
/// and go on until the stack is empty.
pub open spec fn walk_from(ps: Seq<PkgModel>, v: Set<int>, out: Seq<PkgModel>, st: Seq<Seq<u8>>) -> Seq<PkgModel>
    decreases ps.len() - count_in(v, ps.len() as int), st.len(),
    via walk_from_decreases
{
    if st.len() == 0 {
        out
    } else {
        let r = visit_pass(ps, st.last(), 0, v, out, st.drop_last());
        walk_from(ps, r.0, r.1, r.2)
    }
}

#[via_fn]
proof fn walk_from_decreases(ps: Seq<PkgModel>, v: Set<int>, out: Seq<PkgModel>, st: Seq<Seq<u8>>) {
    if st.len() > 0 {
        lemma_visit_pass(ps, st.last(), 0, v, out, st.drop_last());
        let r = visit_pass(ps, st.last(), 0, v, out, st.drop_last());
        lemma_count_bound(r.0, ps.len() as int);
        lemma_count_bound(v, ps.len() as int);
    }
}

/// The walk's start from the packages `ps[..j]` named `root`: their
/// identities marked, their dependency names pushed, in package order.
pub open spec fn walk_seed(ps: Seq<PkgModel>, root: Seq<u8>, j: int) -> (Set<int>, Seq<Seq<u8>>)
    decreases j,
{
    if j <= 0 {
        (Set::empty(), Seq::empty())
    } else {
        let s = walk_seed(ps, root, j - 1);
        if ps[j - 1].name == root {
            (s.0.insert(canon(ps, j - 1)), s.1 + dep_targets(ps[j - 1]))
        } else {
            s
        }
    }
}

/// The packages a walk from `root` discovers, in the order it discovers
/// them: seeded with the packages named `root`, then depth-first, popping
/// the most recently pushed name and visiting its packages in package order.
pub open spec fn walk_order(ps: Seq<PkgModel>, root: Seq<u8>) -> Seq<PkgModel> {
    let s = walk_seed(ps, root, ps.len() as int);
    walk_from(ps, s.0, Seq::empty(), s.1)
}

proof fn lemma_seed_empty(ps: Seq<PkgModel>, root: Seq<u8>, j: int)
    requires
        0 <= j <= ps.len(),
    ensures
        walk_seed(ps, root, j).0 =~= Set::<int>::empty() ==> walk_seed(ps, root, j).1 =~= Seq::<Seq<u8>>::empty(),
    decreases j,
{
    if j > 0 {
        lemma_seed_empty(ps, root, j - 1);
        if ps[j - 1].name == root {
            assert(walk_seed(ps, root, j).0.contains(canon(ps, j - 1)));
        }
    }
}

/// The walks from each of `direct`, in order.
pub open spec fn walk_orders(ps: Seq<PkgModel>, direct: Seq<Seq<u8>>) -> Seq<Seq<PkgModel>> {
    Seq::new(direct.len(), |k: int| walk_order(ps, direct[k]))
}

/// The names of a list of string slices, as bytes.
pub open spec fn names_view(v: Seq<&str>) -> Seq<Seq<u8>> {
    v.map_values(|s: &str| sb(s))
}

/// `nm` is one of the names in `st`.
pub open spec fn on_stack(st: Seq<Seq<u8>>, nm: Seq<u8>) -> bool {
    exists|t: int| 0 <= t < st.len() && #[trigger] st[t] == nm
}

/// Every package named `nm` has its identity in `v`.
pub open spec fn all_seen(ps: Seq<PkgModel>, v: Set<int>, nm: Seq<u8>) -> bool {
    forall|j: int| 0 <= j < ps.len() && ps[j].name == nm ==> #[trigger] v.contains(canon(ps, j))
}

/// `v` holds exactly the identities of the roots and of the packages in `out`.
pub open spec fn seen_ok(ps: Seq<PkgModel>, root: Seq<u8>, v: Set<int>, out: Seq<PkgModel>) -> bool {
    forall|c: int|
        #[trigger] v.contains(c) <==> (0 <= c < ps.len() && canon(ps, c) == c && (ps[c].name == root
            || exists|m: int| 0 <= m < out.len() && same_id(#[trigger] out[m], ps[c])))
}

/// Each name on the stack is a dependency of a root or of a package in `out`.
pub open spec fn stack_ok(ps: Seq<PkgModel>, root: Seq<u8>, out: Seq<PkgModel>, st: Seq<Seq<u8>>) -> bool {
    forall|t: int| 0 <= t < st.len() ==> #[trigger] named_by(ps, root, out, st[t])
}

/// Every name referred to by a root or by `out` is on the stack, fully seen, or `skip`.
pub open spec fn closed_but(
    ps: Seq<PkgModel>,
    root: Seq<u8>,
    v: Set<int>,
    out: Seq<PkgModel>,
    st: Seq<Seq<u8>>,
    skip: Option<Seq<u8>>,
) -> bool {
    forall|nm: Seq<u8>|
        #[trigger] named_by(ps, root, out, nm) ==> on_stack(st, nm) || all_seen(ps, v, nm) || skip
            == Some(nm)
}

impl LockfileGraph {
    /// The index of the first package with the identity of package `j`.
    fn identity_index(&self, j: usize) -> (c: usize)
        requires
            j < self.packages@.len(),
        ensures
            c as int == canon(pkgs_view(self.packages@), j as int),
    {
        let ghost ps = pkgs_view(self.packages@);
        let p = &self.packages[j];
        let mut i: usize = 0;
        while i < j
            invariant
                ps == pkgs_view(self.packages@),
                j < ps.len(),
                p@ == ps[j as int],
                i <= j,
                first_id(ps, j as int, 0) == first_id(ps, j as int, i as int),
            decreases j - i,
        {
            let q = &self.packages[i];
            assert(q@ == ps[i as int]);
            if eq_bytes(bytes(q.name.as_str()), bytes(p.name.as_str())) && eq_bytes(
                bytes(q.version.as_str()),
                bytes(p.version.as_str()),
            ) {
                return i;
            }
            i = i + 1;
        }
        j
    }
}

/// The dependency targets of `p`, in order.
pub open spec fn dep_targets(p: PkgModel) -> Seq<Seq<u8>> {
    p.dependencies.map_values(|d: Seq<u8>| dep_target(d))
}

/// The name a dependency entry refers to.
fn dep_name_of(d: &str) -> (r: &str)
    ensures
        sb(r) == dep_target(sb(d)),
{
    match first_word(d) {
        Some(w) => w,
        None => d,
    }
}

/// Pushes the dependency targets of `p` onto `stack`.
fn push_dep_names<'a>(p: &'a LockfilePackage, stack: &mut Vec<&'a str>)
    ensures
        names_view(final(stack)@) == names_view(old(stack)@) + dep_targets(p@),
{
    let mut k: usize = 0;
    while k < p.dependencies.len()
        invariant
            k <= p.dependencies@.len(),
            names_view(stack@) == names_view(old(stack)@) + dep_targets(p@).take(k as int),
        decreases p.dependencies@.len() - k,
    {
        let t = dep_name_of(p.dependencies[k].as_str());
        let ghost prev = names_view(stack@);
        stack.push(t);
        proof {
            assert(names_view(stack@) =~= prev.push(sb(t)));
            assert(p@.dependencies[k as int] == ob(&p.dependencies@[k as int]));
            assert(dep_targets(p@).take(k + 1) =~= dep_targets(p@).take(k as int).push(sb(t)));
            assert(names_view(stack@) =~= names_view(old(stack)@) + dep_targets(p@).take(
                k + 1,
            ));
        }
        k = k + 1;
    }
    proof {
        assert(dep_targets(p@).take(k as int) =~= dep_targets(p@));
    }
}

/// Visiting a new identity keeps the walk's invariants.
proof fn lemma_visit(
    ps: Seq<PkgModel>,
    root: Seq<u8>,
    v: Set<int>,
    out: Seq<PkgModel>,
    st: Seq<Seq<u8>>,
    nm: Seq<u8>,
    j: int,
)
    requires
        0 <= j < ps.len(),
        ps[j].name == nm,
        !v.contains(canon(ps, j)),
        seen_ok(ps, root, v, out),
        walk_sound(ps, root, out),
        stack_ok(ps, root, out, st),
        closed_but(ps, root, v, out, st, Some(nm)),
        named_by(ps, root, out, nm),
    ensures
        seen_ok(ps, root, v.insert(canon(ps, j)), out.push(ps[j])),
        walk_sound(ps, root, out.push(ps[j])),
        stack_ok(ps, root, out.push(ps[j]), st + dep_targets(ps[j])),
        closed_but(ps, root, v.insert(canon(ps, j)), out.push(ps[j]), st + dep_targets(ps[j]), Some(nm)),
        named_by(ps, root, out.push(ps[j]), nm),
{
    lemma_canon(ps, j);
    let c = canon(ps, j);
    let x = ps[j];
    let out2 = out.push(x);
    let v2 = v.insert(c);
    let st2 = st + dep_targets(x);
    assert forall|m: int| 0 <= m < out.len() implies !same_id(out[m], x) by {
        if same_id(out[m], x) {
            assert(same_id(out[m], ps[c]));
            assert(v.contains(c));
        }
    }
    assert(x.name != root) by {
        if x.name == root {
            assert(ps[c].name == root);
            assert(v.contains(c));
        }
    }
    // named_by only grows with the list
    assert forall|q: Seq<u8>| named_by(ps, root, out, q) implies #[trigger] named_by(
        ps,
        root,
        out2,
        q,
    ) by {
        if !root_names(ps, root, q) {
            let m = choose|m: int| 0 <= m < out.len() && #[trigger] names_dep(out[m], q);
            assert(out2[m] == out[m]);
        }
    }
    assert(named_by(ps, root, out2, nm));
    assert forall|c2: int| #[trigger] v2.contains(c2) <==> (0 <= c2 < ps.len() && canon(ps, c2)
        == c2 && (ps[c2].name == root || exists|m: int|
        0 <= m < out2.len() && same_id(#[trigger] out2[m], ps[c2]))) by {
        if 0 <= c2 < ps.len() && canon(ps, c2) == c2 {
            if exists|m: int| 0 <= m < out2.len() && same_id(#[trigger] out2[m], ps[c2]) {
                let m = choose|m: int| 0 <= m < out2.len() && same_id(#[trigger] out2[m], ps[c2]);
                if m == out.len() {
                    lemma_canon(ps, c2);
                    assert(same_id(ps[c2], ps[j]));
                    assert(c2 == c);
                } else {
                    assert(out2[m] == out[m]);
                }
            }
            if v.contains(c2) && ps[c2].name != root {
                let m = choose|m: int| 0 <= m < out.len() && same_id(#[trigger] out[m], ps[c2]);
                assert(out2[m] == out[m]);
            }
        }
        if c2 == c {
            assert(out2[out.len() as int] == x);
            assert(same_id(out2[out.len() as int], ps[c2]));
        }
    }
    assert forall|m: int| 0 <= m < out2.len() implies ps.contains(#[trigger] out2[m]) by {
        if m == out.len() {
            assert(ps[j] == out2[m]);
        } else {
            assert(out2[m] == out[m]);
        }
    }
    assert forall|m1: int, m2: int| 0 <= m1 < m2 < out2.len() implies !same_id(
        #[trigger] out2[m1],
        #[trigger] out2[m2],
    ) by {
        assert(out2[m1] == out[m1]);
        if m2 < out.len() {
            assert(out2[m2] == out[m2]);
        }
    }
    assert forall|m: int| 0 <= m < out2.len() implies (#[trigger] out2[m]).name != root by {
        if m < out.len() {
            assert(out2[m] == out[m]);
        }
    }
    assert forall|m: int| 0 <= m < out2.len() implies #[trigger] reached_from(
        ps,
        root,
        out2,
        m,
    ) by {
        if m == out.len() {
            if !root_names(ps, root, nm) {
                let m2 = choose|m2: int| 0 <= m2 < out.len() && #[trigger] names_dep(out[m2], nm);
                assert(out2[m2] == out[m2]);
                assert(names_dep(out2[m2], out2[m].name));
            }
        } else {
            assert(out2[m] == out[m]);
            assert(reached_from(ps, root, out, m));
            if !root_names(ps, root, out[m].name) {
                let m2 = choose|m2: int| 0 <= m2 < m && #[trigger] names_dep(out[m2], out[m].name);
                assert(out2[m2] == out[m2]);
            }
        }
    }
    assert forall|t: int| 0 <= t < st2.len() implies #[trigger] named_by(ps, root, out2, st2[t]) by {
        if t < st.len() {
            assert(st2[t] == st[t]);
            assert(named_by(ps, root, out, st[t]));
        } else {
            let k = t - st.len();
            assert(st2[t] == dep_target(x.dependencies[k]));
            assert(names_dep(out2[out.len() as int], st2[t]));
        }
    }
    assert forall|q: Seq<u8>| #[trigger] named_by(ps, root, out2, q) implies on_stack(st2, q)
        || all_seen(ps, v2, q) || Some(nm) == Some(q) by {
        if !root_names(ps, root, q) {
            let m = choose|m: int| 0 <= m < out2.len() && #[trigger] names_dep(out2[m], q);
            if m == out.len() {
                let k = choose|k: int| 0 <= k < x.dependencies.len() && #[trigger] dep_target(
                    x.dependencies[k],
                ) == q;
                assert(st2[st.len() + k] == q);
            } else {
                assert(out2[m] == out[m]);
                assert(named_by(ps, root, out, q));
            }
        }
        if named_by(ps, root, out, q) {
            if on_stack(st, q) {
                let t = choose|t: int| 0 <= t < st.len() && #[trigger] st[t] == q;
                assert(st2[t] == q);
            }
            if all_seen(ps, v, q) {
                assert forall|j2: int| 0 <= j2 < ps.len() && ps[j2].name == q implies #[trigger] v2.contains(
                    canon(ps, j2),
                ) by {
                    assert(v.contains(canon(ps, j2)));
                }
            }
        }
    }
}

impl LockfileGraph {
    /// Walks from the packages named `root_name` to everything they require.
    ///
    /// Returns unique transitive packages (by identity `(name, version)`),
    /// excluding the roots themselves, in the order a depth-first walk
    /// discovers them ([`walk_order`]); cycles are safe. Dependency strings may
    /// be `"name"` or `"name version"` (Cargo multi-version format): the name
    /// alone resolves an edge, and every package with that name is followed.
    pub fn transitive_deps_of(&self, root_name: &str) -> (r: Vec<&LockfilePackage>)
        ensures
            transitive_result(pkgs_view(self.packages@), sb(root_name), refs_view(r@)),
            refs_view(r@) == walk_order(pkgs_view(self.packages@), sb(root_name)),
    {
        let ghost ps = pkgs_view(self.packages@);
        let ghost root = sb(root_name);
        let ghost target = walk_order(ps, root);
        let n = self.packages.len();
        let rb = bytes(root_name);
        let mut visited = index_set_new();
        let mut stack: Vec<&str> = Vec::new();
        let mut out: Vec<&LockfilePackage> = Vec::new();
        // Seed with every package named `root_name` (several versions are possible).
        let mut j: usize = 0;
        while j < n
            invariant
                ps == pkgs_view(self.packages@),
                n == ps.len(),
                root == sb(root_name),
                rb@ == root,
                j <= n,
                out@.len() == 0,
                walk_seed(ps, root, j as int) == (index_set_items(visited), names_view(stack@)),
                forall|c: int| #[trigger]
                    index_set_items(visited).contains(c) <==> (0 <= c < j && canon(ps, c) == c
                        && ps[c].name == root),
                forall|t: int| 0 <= t < names_view(stack@).len() ==> #[trigger] root_names(
                    ps,
                    root,
                    names_view(stack@)[t],
                ),
                forall|q: Seq<u8>|
                    (exists|i: int| 0 <= i < j && ps[i].name == root && #[trigger] names_dep(ps[i], q))
                        ==> on_stack(names_view(stack@), q),
            decreases n - j,
        {
            let p = &self.packages[j];
            proof {
                assert(p@ == ps[j as int]);
                lemma_canon(ps, j as int);
            }
            if eq_bytes(bytes(p.name.as_str()), rb) {
                let c = self.identity_index(j);
                let ghost st0 = names_view(stack@);
                let ghost v0 = index_set_items(visited);
                index_set_insert(&mut visited, c);
                push_dep_names(p, &mut stack);
                proof {
                    assert(walk_seed(ps, root, j + 1) == (v0.insert(c as int), st0 + dep_targets(ps[j as int])));
                    let st1 = names_view(stack@);
                    assert forall|c2: int| #[trigger] index_set_items(visited).contains(c2) <==> (
                    0 <= c2 < j + 1 && canon(ps, c2) == c2 && ps[c2].name == root) by {
                        if c2 == j && canon(ps, c2) == c2 {
                            assert(c2 == c);
                        }
                        if c2 == c {
                            lemma_canon(ps, c2);
                        }
                    }
                    assert forall|t: int| 0 <= t < st1.len() implies #[trigger] root_names(
                        ps,
                        root,
                        st1[t],
                    ) by {
                        if t < st0.len() {
                            assert(st1[t] == st0[t]);
                        } else {
                            let k = t - st0.len();
                            assert(st1[t] == dep_target(ps[j as int].dependencies[k]));
                            assert(names_dep(ps[j as int], st1[t]));
                        }
                    }
                    assert forall|q: Seq<u8>|
                        (exists|i: int| 0 <= i < j + 1 && ps[i].name == root && #[trigger] names_dep(
                            ps[i],
                            q,
                        )) implies on_stack(st1, q) by {
                        let i = choose|i: int| 0 <= i < j + 1 && ps[i].name == root && #[trigger] names_dep(ps[i], q);
                        if i == j {
                            let k = choose|k: int| 0 <= k < ps[i].dependencies.len() && #[trigger] dep_target(ps[i].dependencies[k]) == q;
                            assert(st1[st0.len() + k] == q);
                        } else {
                            assert(on_stack(st0, q));
                            let t = choose|t: int| 0 <= t < st0.len() && #[trigger] st0[t] == q;
                            assert(st1[t] == q);
                        }
                    }
                }
            } else {
                proof {
                    assert forall|q: Seq<u8>|
                        (exists|i: int| 0 <= i < j + 1 && ps[i].name == root && #[trigger] names_dep(
                            ps[i],
                            q,
                        )) implies on_stack(names_view(stack@), q) by {
                        let i = choose|i: int| 0 <= i < j + 1 && ps[i].name == root && #[trigger] names_dep(ps[i], q);
                        assert(i < j);
                    }
                }
            }
            j = j + 1;
        }
        proof {
            let v = index_set_items(visited);
            let e = Seq::<PkgModel>::empty();
            assert(refs_view(out@) =~= e);
            assert forall|c: int| #[trigger] v.contains(c) <==> (0 <= c < ps.len() && canon(ps, c) == c
                && (ps[c].name == root || exists|m: int| 0 <= m < e.len() && same_id(#[trigger] e[m], ps[c]))) by {}
            assert forall|q: Seq<u8>| #[trigger] named_by(ps, root, e, q) implies on_stack(names_view(stack@), q)
                || all_seen(ps, v, q) || None::<Seq<u8>> == Some(q) by {
                let i = choose|i: int| 0 <= i < ps.len() && ps[i].name == root && #[trigger] names_dep(ps[i], q);
                assert(0 <= i < j);
            }
            assert forall|t: int| 0 <= t < names_view(stack@).len() implies #[trigger] named_by(
                ps,
                root,
                e,
                names_view(stack@)[t],
            ) by {
                assert(root_names(ps, root, names_view(stack@)[t]));
            }
        }
        proof {
            lemma_seed_empty(ps, root, n as int);
            assert(refs_view(out@) =~= Seq::<PkgModel>::empty());
        }
        if index_set_is_empty(&visited) {
            proof {
                assert(names_view(stack@) =~= Seq::<Seq<u8>>::empty());
                let e = Seq::<PkgModel>::empty();
                assert forall|j2: int| 0 <= j2 < ps.len() && #[trigger] named_by(ps, root, e, ps[j2].name)
                    implies ps[j2].name == root || exists|m: int| 0 <= m < e.len() && same_id(#[trigger] e[m], ps[j2]) by {
                    let i = choose|i: int| 0 <= i < ps.len() && ps[i].name == root && #[trigger] names_dep(ps[i], ps[j2].name);
                    lemma_canon(ps, i);
                    assert(index_set_items(visited).contains(canon(ps, i)));
                }
            }
            return out;
        }
        while stack.len() > 0
            invariant
                ps == pkgs_view(self.packages@),
                n == ps.len(),
                root == sb(root_name),
                seen_ok(ps, root, index_set_items(visited), refs_view(out@)),
                walk_sound(ps, root, refs_view(out@)),
                stack_ok(ps, root, refs_view(out@), names_view(stack@)),
                closed_but(ps, root, index_set_items(visited), refs_view(out@), names_view(stack@), None),
                walk_from(ps, index_set_items(visited), refs_view(out@), names_view(stack@)) == target,
            decreases n - count_in(index_set_items(visited), n as int), stack@.len(),
        {
            proof {
                lemma_count_bound(index_set_items(visited), n as int);
            }
            let ghost c0 = count_in(index_set_items(visited), n as int);
            let ghost st_before = names_view(stack@);
            let nm = match stack.pop() {
                Some(x) => x,
                None => {
                    return out;
                },
            };
            let nb = bytes(nm);
            let ghost nmb = sb(nm);
            let ghost len_after = stack@.len();
            let ghost pass = visit_pass(ps, nmb, 0, index_set_items(visited), refs_view(out@), names_view(stack@));
            proof {
                let st = names_view(stack@);
                assert(st_before =~= st.push(nmb));
                assert(st_before.drop_last() =~= st);
                assert(walk_from(ps, index_set_items(visited), refs_view(out@), st_before) == walk_from(ps, pass.0, pass.1, pass.2));
                assert(named_by(ps, root, refs_view(out@), st_before[st.len() as int]));
                assert forall|t: int| 0 <= t < st.len() implies #[trigger] named_by(ps, root, refs_view(out@), st[t]) by {
                    assert(st[t] == st_before[t]);
                }
                assert forall|q: Seq<u8>| #[trigger] named_by(ps, root, refs_view(out@), q) implies on_stack(st, q)
                    || all_seen(ps, index_set_items(visited), q) || Some(nmb) == Some(q) by {
                    if on_stack(st_before, q) && q != nmb {
                        let t = choose|t: int| 0 <= t < st_before.len() && #[trigger] st_before[t] == q;
                        assert(st[t] == q);
                    }
                }
            }
            let mut j: usize = 0;
            while j < n
                invariant
                    ps == pkgs_view(self.packages@),
                    n == ps.len(),
                    root == sb(root_name),
                    nb@ == nmb,
                    j <= n,
                    seen_ok(ps, root, index_set_items(visited), refs_view(out@)),
                    walk_sound(ps, root, refs_view(out@)),
                    stack_ok(ps, root, refs_view(out@), names_view(stack@)),
                    closed_but(ps, root, index_set_items(visited), refs_view(out@), names_view(stack@), Some(nmb)),
                    named_by(ps, root, refs_view(out@), nmb),
                    forall|j2: int| 0 <= j2 < j && ps[j2].name == nmb ==> #[trigger] index_set_items(visited).contains(canon(ps, j2)),
                    c0 <= count_in(index_set_items(visited), n as int),
                    count_in(index_set_items(visited), n as int) == c0 ==> stack@.len() == len_after,
                    visit_pass(ps, nmb, j as int, index_set_items(visited), refs_view(out@), names_view(stack@)) == pass,
                    walk_from(ps, pass.0, pass.1, pass.2) == target,
                decreases n - j,
            {
                let p = &self.packages[j];
                proof {
                    assert(p@ == ps[j as int]);
                    lemma_canon(ps, j as int);
                }
                if eq_bytes(bytes(p.name.as_str()), nb) {
                    let c = self.identity_index(j);
                    let ghost v0 = index_set_items(visited);
                    let ghost o0 = refs_view(out@);
                    let ghost s0 = names_view(stack@);
                    if index_set_insert(&mut visited, c) {
                        proof {
                            lemma_visit(ps, root, v0, o0, s0, nmb, j as int);
                            lemma_count_insert(v0, n as int, c as int);
                        }
                        out.push(p);
                        push_dep_names(p, &mut stack);
                        proof {
                            assert(refs_view(out@) =~= o0.push(ps[j as int]));
                            assert(names_view(stack@) == s0 + dep_targets(ps[j as int]));
                        }
                    } else {
                        proof {
                            assert(v0.insert(c as int) =~= v0);
                        }
                    }
                }
                j = j + 1;
            }
            proof {
                assert(visit_pass(ps, nmb, n as int, index_set_items(visited), refs_view(out@), names_view(stack@))
                    == (index_set_items(visited), refs_view(out@), names_view(stack@)));
                assert(all_seen(ps, index_set_items(visited), nmb));
                lemma_count_bound(index_set_items(visited), n as int);
            }
        }
        proof {
            let v = index_set_items(visited);
            let o = refs_view(out@);
            assert forall|j2: int| 0 <= j2 < ps.len() && #[trigger] named_by(ps, root, o, ps[j2].name)
                implies ps[j2].name == root || exists|m: int| 0 <= m < o.len() && same_id(#[trigger] o[m], ps[j2]) by {
                assert(all_seen(ps, v, ps[j2].name));
                lemma_canon(ps, j2);
                let c = canon(ps, j2);
                assert(v.contains(c));
                if ps[c].name != root {
                    let m = choose|m: int| 0 <= m < o.len() && same_id(#[trigger] o[m], ps[c]);
                    assert(same_id(o[m], ps[j2]));
                }
            }
        }
        out
    }
}

// ---------------------------------------------------------------------------
// Transitive-only packages
// ---------------------------------------------------------------------------

/// Some package of `s` has the identity of `x`.
pub open spec fn has_id(s: Seq<PkgModel>, x: PkgModel) -> bool {
    exists|m: int| 0 <= m < s.len() && same_id(#[trigger] s[m], x)
}

/// `out` with `x` appended, unless its name is a direct dependency or its
/// identity is already in `out`.
pub open spec fn add_transitive(out: Seq<PkgModel>, direct: Seq<Seq<u8>>, x: PkgModel) -> Seq<
    PkgModel,
> {
    if direct.contains(x.name) || has_id(out, x) {
        out
    } else {
        out.push(x)
    }
}

/// The packages of `xs` that are not direct dependencies, each identity once,
/// in order of first appearance.
pub open spec fn collect_transitives(direct: Seq<Seq<u8>>, xs: Seq<PkgModel>) -> Seq<PkgModel>
    decreases xs.len(),
{
    if xs.len() == 0 {
        Seq::empty()
    } else {
        add_transitive(collect_transitives(direct, xs.drop_last()), direct, xs.last())
    }
}

/// The walks `rs`, one after the other.
pub open spec fn flatten_walks(rs: Seq<Seq<PkgModel>>) -> Seq<PkgModel>
    decreases rs.len(),
{
    if rs.len() == 0 {
        Seq::empty()
    } else {
        flatten_walks(rs.drop_last()) + rs.last()
    }
}

/// `rs` holds, for each direct dependency in order, a transitive walk from it.
pub open spec fn walks_of(ps: Seq<PkgModel>, direct: Seq<Seq<u8>>, rs: Seq<Seq<PkgModel>>) -> bool {
    &&& rs.len() == direct.len()
    &&& forall|k: int| 0 <= k < rs.len() ==> transitive_result(ps, direct[k], #[trigger] rs[k])
}

/// Whether one of `names` is `name`.
fn names_contain(names: &[String], name: &str) -> (r: bool)
    ensures
        r == strings_view(names@).contains(sb(name)),
{
    let mut k: usize = 0;
    while k < names.len()
        invariant
            k <= names@.len(),
            forall|j: int| 0 <= j < k ==> strings_view(names@)[j] != sb(name),
        decreases names@.len() - k,
    {
        if str_eq(names[k].as_str(), name) {
            proof {
                assert(strings_view(names@)[k as int] == sb(name));
            }
            return true;
        }
        k = k + 1;
    }
    false
}

/// Whether some package of `out` has the identity of `p`.
fn refs_have_id(out: &Vec<&LockfilePackage>, p: &LockfilePackage) -> (r: bool)
    ensures
        r == has_id(refs_view(out@), p@),
{
    let mut k: usize = 0;
    while k < out.len()
        invariant
            k <= out@.len(),
            forall|j: int| 0 <= j < k ==> !same_id(#[trigger] refs_view(out@)[j], p@),
        decreases out@.len() - k,
    {
        if str_eq(out[k].name.as_str(), p.name.as_str()) && str_eq(
            out[k].version.as_str(),
            p.version.as_str(),
        ) {
            proof {
                assert(same_id(refs_view(out@)[k as int], p@));
            }
            return true;
        }
        k = k + 1;
    }
    false
}

impl LockfileGraph {
    /// Packages reachable from some manifest dependency that are not
    /// themselves declared in the manifest (pure transitives), each identity
    /// `(name, version)` once, in order of first discovery by the walks from
    /// the manifest dependencies in turn ([`walk_orders`]). Packages that no
    /// direct dependency reaches, such as those of unrelated workspace
    /// members, are left out.
    pub fn transitives_only(&self, manifest_deps: &[String]) -> (r: Vec<&LockfilePackage>)
        ensures
            walks_of(
                pkgs_view(self.packages@),
                strings_view(manifest_deps@),
                walk_orders(pkgs_view(self.packages@), strings_view(manifest_deps@)),
            ),
            refs_view(r@) == collect_transitives(
                strings_view(manifest_deps@),
                flatten_walks(walk_orders(pkgs_view(self.packages@), strings_view(manifest_deps@))),
            ),
    {
        let ghost ps = pkgs_view(self.packages@);
        let ghost direct = strings_view(manifest_deps@);
        let ghost mut rs: Seq<Seq<PkgModel>> = Seq::empty();
        let mut out: Vec<&LockfilePackage> = Vec::new();
        let mut k: usize = 0;
        while k < manifest_deps.len()
            invariant
                ps == pkgs_view(self.packages@),
                direct == strings_view(manifest_deps@),
                k <= manifest_deps@.len(),
                rs.len() == k,
                forall|q: int| 0 <= q < k ==> transitive_result(ps, direct[q], #[trigger] rs[q]),
                forall|q: int| 0 <= q < k ==> #[trigger] rs[q] == walk_order(ps, direct[q]),
                refs_view(out@) == collect_transitives(direct, flatten_walks(rs)),
            decreases manifest_deps@.len() - k,
        {
            let res = self.transitive_deps_of(manifest_deps[k].as_str());
            let ghost cur = refs_view(res@);
            let ghost base = flatten_walks(rs);
            let mut j: usize = 0;
            while j < res.len()
                invariant
                    direct == strings_view(manifest_deps@),
                    cur == refs_view(res@),
                    j <= res@.len(),
                    refs_view(out@) == collect_transitives(direct, base + cur.take(j as int)),
                decreases res@.len() - j,
            {
                let p = res[j];
                let skip = names_contain(manifest_deps, p.name.as_str()) || refs_have_id(&out, p);
                proof {
                    let pre = base + cur.take(j as int);
                    assert(base + cur.take(j + 1) =~= pre.push(cur[j as int]));
                    assert(pre.push(cur[j as int]).drop_last() =~= pre);
                    assert(cur[j as int] == p@);
                }
                if !skip {
                    let ghost o0 = refs_view(out@);
                    out.push(p);
                    proof {
                        assert(refs_view(out@) =~= o0.push(p@));
                    }
                }
                j = j + 1;
            }
            proof {
                assert(cur.take(j as int) =~= cur);
                assert(rs.push(cur).drop_last() =~= rs);
                assert(direct[k as int] == ob(&manifest_deps@[k as int]));
                rs = rs.push(cur);
            }
            k = k + 1;
        }
        proof {
            assert(rs =~= walk_orders(ps, direct));
            assert(walks_of(ps, direct, rs));
        }
        out
    }
}

// ---------------------------------------------------------------------------
// Reverse index: transitive name → direct dependencies reaching it
// ---------------------------------------------------------------------------

/// Strictly increasing in the byte-wise order: sorted, without repeats.
pub open spec fn sorted_strict(v: Seq<Seq<u8>>) -> bool {
    forall|i: int, j: int| 0 <= i < j < v.len() ==> lex_lt(#[trigger] v[i], #[trigger] v[j])
}

/// Adds `x` to a strictly sorted list, keeping it strictly sorted (a list
/// that already holds `x` is left as it is).
fn insert_sorted(v: &mut Vec<String>, x: String)
    requires
        sorted_strict(strings_view(old(v)@)),
    ensures
        sorted_strict(strings_view(final(v)@)),
        forall|s: Seq<u8>| #[trigger]
            strings_view(final(v)@).contains(s) <==> (strings_view(old(v)@).contains(s) || s
                == ob(&x)),
{
    let ghost sv = strings_view(v@);
    let ghost xs = ob(&x);
    let mut i: usize = 0;
    while i < v.len() && bytes_lt(bytes(v[i].as_str()), bytes(x.as_str()))
        invariant
            sv == strings_view(v@),
            xs == ob(&x),
            i <= v@.len(),
            forall|j: int| 0 <= j < i ==> lex_lt(#[trigger] sv[j], xs),
        decreases v@.len() - i,
    {
        proof {
            assert(sv[i as int] == ob(&v@[i as int]));
        }
        i = i + 1;
    }
    if i < v.len() && str_eq(v[i].as_str(), x.as_str()) {
        proof {
            assert(sv[i as int] == xs);
            assert forall|s: Seq<u8>| #[trigger] sv.contains(s) <==> (sv.contains(s) || s == xs) by {
                if s == xs {
                    assert(sv[i as int] == s);
                }
            }
        }
        return;
    }
    proof {
        if i < sv.len() {
            assert(sv[i as int] == ob(&v@[i as int]));
            assert(!lex_lt(sv[i as int], xs));
            assert(sv[i as int] != xs);
            lemma_lex_total(sv[i as int], xs);
        }
        assert forall|j: int| i <= j < sv.len() implies lex_lt(xs, #[trigger] sv[j]) by {
            if j > i {
                lemma_lex_trans(xs, sv[i as int], sv[j]);
            }
        }
    }
    v.insert(i, x);
    proof {
        let w = strings_view(v@);
        assert(w =~= sv.insert(i as int, xs));
        assert forall|p: int, q: int| 0 <= p < q < w.len() implies lex_lt(#[trigger] w[p], #[trigger] w[q]) by {
            if q < i {
            } else if q == i {
            } else if p < i {
                lemma_lex_trans(sv[p], xs, sv[q - 1]);
            } else if p == i {
            } else {
            }
        }
        assert forall|s: Seq<u8>| #[trigger] w.contains(s) <==> (sv.contains(s) || s == xs) by {
            if w.contains(s) {
                let t = choose|t: int| 0 <= t < w.len() && w[t] == s;
                if t < i {
                    assert(sv[t] == s);
                } else if t > i {
                    assert(sv[t - 1] == s);
                }
            }
            if sv.contains(s) {
                let t = choose|t: int| 0 <= t < sv.len() && sv[t] == s;
                if t < i {
                    assert(w[t] == s);
                } else {
                    assert(w[t + 1] == s);
                }
            }
            if s == xs {
                assert(w[i as int] == s);
            }
        }
    }
}

/// The walk `rs[k]` reaches a package named `name`.
pub open spec fn walk_reaches(rs: Seq<Seq<PkgModel>>, k: int, name: Seq<u8>) -> bool {
    exists|m: int| 0 <= m < rs[k].len() && #[trigger] rs[k][m].name == name
}

/// Some walk of `rs` reaches a package named `name`.
pub open spec fn reached(rs: Seq<Seq<PkgModel>>, name: Seq<u8>) -> bool {
    exists|k: int| 0 <= k < rs.len() && #[trigger] walk_reaches(rs, k, name)
}

/// `d` is a direct dependency whose walk reaches a package named `name`.
pub open spec fn is_parent(
    direct: Seq<Seq<u8>>,
    rs: Seq<Seq<PkgModel>>,
    name: Seq<u8>,
    d: Seq<u8>,
) -> bool {
    exists|k: int| 0 <= k < rs.len() && direct[k] == d && #[trigger] walk_reaches(rs, k, name)
}

/// `m` maps each name some walk reaches to the direct dependencies whose
/// walks reach it, sorted byte-wise and without repeats.
pub open spec fn is_reverse_index(
    direct: Seq<Seq<u8>>,
    rs: Seq<Seq<PkgModel>>,
    m: Map<Seq<u8>, Seq<Seq<u8>>>,
) -> bool {
    &&& forall|name: Seq<u8>| #[trigger] m.dom().contains(name) <==> reached(rs, name)
    &&& forall|name: Seq<u8>| #[trigger]
        m.dom().contains(name) ==> sorted_strict(m[name]) && forall|d: Seq<u8>| #[trigger]
            m[name].contains(d) <==> is_parent(direct, rs, name, d)
}

proof fn lemma_reach_empty(direct: Seq<Seq<u8>>, rs: Seq<Seq<PkgModel>>)
    ensures
        forall|name: Seq<u8>| #[trigger]
            reached(rs.push(Seq::empty()), name) <==> reached(rs, name),
        forall|name: Seq<u8>, d: Seq<u8>| #[trigger]
            is_parent(direct, rs.push(Seq::empty()), name, d) <==> is_parent(direct, rs, name, d),
{
    let rs2 = rs.push(Seq::<PkgModel>::empty());
    assert forall|k: int, name: Seq<u8>| 0 <= k < rs2.len() implies #[trigger] walk_reaches(rs2, k, name) <==> (k < rs.len() && walk_reaches(rs, k, name)) by {
        assert(rs2[k] == if k < rs.len() { rs[k] } else { Seq::<PkgModel>::empty() });
    }
    assert forall|name: Seq<u8>| #[trigger] reached(rs2, name) <==> reached(rs, name) by {
        if reached(rs, name) {
            let k = choose|k: int| 0 <= k < rs.len() && #[trigger] walk_reaches(rs, k, name);
            assert(walk_reaches(rs2, k, name));
        }
    }
    assert forall|name: Seq<u8>, d: Seq<u8>| #[trigger] is_parent(direct, rs2, name, d) <==> is_parent(direct, rs, name, d) by {
        if is_parent(direct, rs, name, d) {
            let k = choose|k: int| 0 <= k < rs.len() && direct[k] == d && #[trigger] walk_reaches(rs, k, name);
            assert(walk_reaches(rs2, k, name));
        }
    }
}

proof fn lemma_reach_step(direct: Seq<Seq<u8>>, rs: Seq<Seq<PkgModel>>, cur: Seq<PkgModel>, j: int)
    requires
        0 <= j < cur.len(),
    ensures
        forall|name: Seq<u8>| #[trigger]
            reached(rs.push(cur.take(j + 1)), name) <==> (reached(rs.push(cur.take(j)), name)
                || name == cur[j].name),
        forall|name: Seq<u8>, d: Seq<u8>| #[trigger]
            is_parent(direct, rs.push(cur.take(j + 1)), name, d) <==> (is_parent(
                direct,
                rs.push(cur.take(j)),
                name,
                d,
            ) || (name == cur[j].name && d == direct[rs.len() as int])),
{
    let a = rs.push(cur.take(j));
    let b = rs.push(cur.take(j + 1));
    let l = rs.len() as int;
    assert(b[l] =~= a[l].push(cur[j]));
    assert forall|k: int, name: Seq<u8>| 0 <= k < b.len() implies #[trigger] walk_reaches(b, k, name) <==> (walk_reaches(a, k, name) || (k == l && name == cur[j].name)) by {
        if k < l {
            assert(b[k] == a[k]);
        } else {
            if walk_reaches(b, k, name) {
                let m = choose|m: int| 0 <= m < b[k].len() && #[trigger] b[k][m].name == name;
                if m < a[k].len() {
                    assert(a[k][m].name == name);
                }
            }
            if walk_reaches(a, k, name) {
                let m = choose|m: int| 0 <= m < a[k].len() && #[trigger] a[k][m].name == name;
                assert(b[k][m].name == name);
            }
            if name == cur[j].name {
                assert(b[k][j].name == name);
            }
        }
    }
    assert forall|name: Seq<u8>| #[trigger] reached(b, name) <==> (reached(a, name) || name == cur[j].name) by {
        if reached(b, name) {
            let k = choose|k: int| 0 <= k < b.len() && #[trigger] walk_reaches(b, k, name);
            assert(walk_reaches(a, k, name) || name == cur[j].name);
        }
        if reached(a, name) {
            let k = choose|k: int| 0 <= k < a.len() && #[trigger] walk_reaches(a, k, name);
            assert(walk_reaches(b, k, name));
        }
        if name == cur[j].name {
            assert(walk_reaches(b, l, name));
        }
    }
    assert forall|name: Seq<u8>, d: Seq<u8>| #[trigger] is_parent(direct, b, name, d) <==> (is_parent(direct, a, name, d) || (name == cur[j].name && d == direct[l])) by {
        if is_parent(direct, b, name, d) {
            let k = choose|k: int| 0 <= k < b.len() && direct[k] == d && #[trigger] walk_reaches(b, k, name);
            assert(walk_reaches(a, k, name) || (k == l && name == cur[j].name));
        }
        if is_parent(direct, a, name, d) {
            let k = choose|k: int| 0 <= k < a.len() && direct[k] == d && #[trigger] walk_reaches(a, k, name);
            assert(walk_reaches(b, k, name));
        }
        if name == cur[j].name && d == direct[l] {
            assert(walk_reaches(b, l, name));
        }
    }
}

/// The position of `name` in `names`.
fn position_of(names: &Vec<String>, name: &str) -> (r: Option<usize>)
    ensures
        match r {
            Some(a) => a < names@.len() && ob(&names@[a as int]) == sb(name),
            None => !strings_view(names@).contains(sb(name)),
        },
{
    let mut k: usize = 0;
    while k < names.len()
        invariant
            k <= names@.len(),
            forall|j: int| 0 <= j < k ==> strings_view(names@)[j] != sb(name),
        decreases names@.len() - k,
    {
        if str_eq(names[k].as_str(), name) {
            return Some(k);
        }
        k = k + 1;
    }
    None
}

impl LockfileGraph {
    /// An inverse index: for each package name reached from some manifest
    /// dependency, the manifest dependencies whose walk reaches it, sorted
    /// and without repeats. Names that no direct dependency reaches have no
    /// entry.
    pub fn reverse_index(&self, manifest_deps: &[String]) -> (r: NameLists)
        ensures
            walks_of(
                pkgs_view(self.packages@),
                strings_view(manifest_deps@),
                walk_orders(pkgs_view(self.packages@), strings_view(manifest_deps@)),
            ),
            is_reverse_index(
                strings_view(manifest_deps@),
                walk_orders(pkgs_view(self.packages@), strings_view(manifest_deps@)),
                name_lists_entries(r),
            ),
    {
        let ghost ps = pkgs_view(self.packages@);
        let ghost direct = strings_view(manifest_deps@);
        let ghost mut rs: Seq<Seq<PkgModel>> = Seq::empty();
        let mut names: Vec<String> = Vec::new();
        let mut lists: Vec<Vec<String>> = Vec::new();
        let mut k: usize = 0;
        while k < manifest_deps.len()
            invariant
                ps == pkgs_view(self.packages@),
                direct == strings_view(manifest_deps@),
                k <= manifest_deps@.len(),
                rs.len() == k,
                forall|q: int| 0 <= q < k ==> transitive_result(ps, direct[q], #[trigger] rs[q]),
                forall|q: int| 0 <= q < k ==> #[trigger] rs[q] == walk_order(ps, direct[q]),
                names@.len() == lists@.len(),
                forall|a: int, b: int|
                    0 <= a < b < names@.len() ==> ob(#[trigger] &names@[a]) != ob(
                        #[trigger] &names@[b],
                    ),
                forall|name: Seq<u8>| #[trigger]
                    strings_view(names@).contains(name) <==> reached(rs, name),
                forall|a: int|
                    0 <= a < lists@.len() ==> sorted_strict(strings_view(#[trigger] lists@[a]@)),
                forall|a: int, d: Seq<u8>|
                    0 <= a < lists@.len() ==> (#[trigger] strings_view(lists@[a]@).contains(d)
                        <==> is_parent(direct, rs, ob(&names@[a]), d)),
            decreases manifest_deps@.len() - k,
        {
            let res = self.transitive_deps_of(manifest_deps[k].as_str());
            let ghost cur = refs_view(res@);
            proof {
                lemma_reach_empty(direct, rs);
                assert(cur.take(0) =~= Seq::<PkgModel>::empty());
            }
            let mut j: usize = 0;
            while j < res.len()
                invariant
                    direct == strings_view(manifest_deps@),
                    k < manifest_deps@.len(),
                    rs.len() == k,
                    cur == refs_view(res@),
                    j <= res@.len(),
                    names@.len() == lists@.len(),
                    forall|a: int, b: int|
                        0 <= a < b < names@.len() ==> ob(#[trigger] &names@[a]) != ob(
                            #[trigger] &names@[b],
                        ),
                    forall|name: Seq<u8>| #[trigger]
                        strings_view(names@).contains(name) <==> reached(
                            rs.push(cur.take(j as int)),
                            name,
                        ),
                    forall|a: int|
                        0 <= a < lists@.len() ==> sorted_strict(strings_view(#[trigger] lists@[a]@)),
                    forall|a: int, d: Seq<u8>|
                        0 <= a < lists@.len() ==> (#[trigger] strings_view(lists@[a]@).contains(d)
                            <==> is_parent(direct, rs.push(cur.take(j as int)), ob(&names@[a]), d)),
                decreases res@.len() - j,
            {
                let nm = res[j].name.as_str();
                let dk = to_owned_string(manifest_deps[k].as_str());
                proof {
                    lemma_reach_step(direct, rs, cur, j as int);
                    assert(cur[j as int].name == sb(nm));
                    assert(direct[k as int] == ob(&dk));
                }
                let ghost n0 = names@;
                let ghost l0 = lists@;
                match position_of(&names, nm) {
                    Some(a) => {
                        insert_sorted(&mut lists[a], dk);
                        proof {
                            assert forall|a2: int| 0 <= a2 < lists@.len() && a2 != a implies #[trigger] lists@[a2] == l0[a2] by {}
                            let rs0 = rs.push(cur.take(j as int));
                            let rs1 = rs.push(cur.take(j + 1));
                            assert forall|a2: int, d: Seq<u8>| 0 <= a2 < lists@.len() implies (#[trigger] strings_view(lists@[a2]@).contains(d)
                                <==> is_parent(direct, rs1, ob(&names@[a2]), d)) by {
                                assert(is_parent(direct, rs1, ob(&names@[a2]), d) <==> (is_parent(direct, rs0, ob(&names@[a2]), d)
                                    || (ob(&names@[a2]) == sb(nm) && d == direct[k as int])));
                                if a2 != a {
                                    assert(lists@[a2] == l0[a2]);
                                    if a2 < a {
                                        assert(ob(&names@[a2]) != ob(&names@[a as int]));
                                    } else {
                                        assert(ob(&names@[a as int]) != ob(&names@[a2]));
                                    }
                                    assert(strings_view(l0[a2]@).contains(d) <==> is_parent(direct, rs0, ob(&n0[a2]), d));
                                } else {
                                    assert(strings_view(l0[a2]@).contains(d) <==> is_parent(direct, rs0, ob(&n0[a2]), d));
                                }
                            }
                            assert forall|name: Seq<u8>| #[trigger] strings_view(names@).contains(name) <==> reached(rs.push(cur.take(j + 1)), name) by {
                                if name == sb(nm) {
                                    assert(strings_view(names@)[a as int] == name);
                                }
                            }
                        }
                    },
                    None => {
                        names.push(to_owned_string(nm));
                        lists.push(vec![dk]);
                        proof {
                            let sl = strings_view(lists@[lists@.len() - 1]@);
                            assert(sl =~= seq![direct[k as int]]);
                            assert forall|d: Seq<u8>| #[trigger] sl.contains(d) <==> d == direct[k as int] by {
                                if d == direct[k as int] {
                                    assert(sl[0] == d);
                                }
                            }
                            assert(strings_view(names@) =~= strings_view(n0).push(sb(nm)));
                            assert forall|name: Seq<u8>| #[trigger] strings_view(names@).contains(name) <==> reached(rs.push(cur.take(j + 1)), name) by {
                                if strings_view(names@).contains(name) && name != sb(nm) {
                                    let t = choose|t: int| 0 <= t < strings_view(names@).len() && strings_view(names@)[t] == name;
                                    assert(strings_view(n0)[t] == name);
                                }
                                if strings_view(n0).contains(name) {
                                    let t = choose|t: int| 0 <= t < strings_view(n0).len() && strings_view(n0)[t] == name;
                                    assert(strings_view(names@)[t] == name);
                                }
                                if name == sb(nm) {
                                    assert(strings_view(names@)[n0.len() as int] == name);
                                }
                            }
                            assert forall|d: Seq<u8>| !is_parent(direct, rs.push(cur.take(j as int)), sb(nm), d) by {
                                if is_parent(direct, rs.push(cur.take(j as int)), sb(nm), d) {
                                    let kk = choose|kk: int| 0 <= kk < rs.push(cur.take(j as int)).len() && direct[kk] == d && #[trigger] walk_reaches(rs.push(cur.take(j as int)), kk, sb(nm));
                                    assert(reached(rs.push(cur.take(j as int)), sb(nm)));
                                }
                            }
                            assert forall|a2: int, b2: int| 0 <= a2 < b2 < names@.len() implies ob(#[trigger] &names@[a2]) != ob(#[trigger] &names@[b2]) by {
                                if b2 == n0.len() {
                                    assert(strings_view(n0)[a2] == ob(&names@[a2]));
                                }
                            }
                            let rs0 = rs.push(cur.take(j as int));
                            let rs1 = rs.push(cur.take(j + 1));
                            assert forall|a2: int, d: Seq<u8>| 0 <= a2 < lists@.len() implies (#[trigger] strings_view(lists@[a2]@).contains(d)
                                <==> is_parent(direct, rs1, ob(&names@[a2]), d)) by {
                                assert(is_parent(direct, rs1, ob(&names@[a2]), d) <==> (is_parent(direct, rs0, ob(&names@[a2]), d)
                                    || (ob(&names@[a2]) == sb(nm) && d == direct[k as int])));
                                if a2 < n0.len() {
                                    assert(lists@[a2] == l0[a2]);
                                    assert(names@[a2] == n0[a2]);
                                    assert(strings_view(n0)[a2] == ob(&n0[a2]));
                                    assert(ob(&names@[a2]) != sb(nm));
                                    assert(strings_view(l0[a2]@).contains(d) <==> is_parent(direct, rs0, ob(&n0[a2]), d));
                                } else {
                                    assert(ob(&names@[a2]) == sb(nm));
                                    assert(strings_view(lists@[a2]@) == sl);
                                }
                            }
                        }
                    },
                }
                j = j + 1;
            }
            proof {
                assert(cur.take(j as int) =~= cur);
                assert(direct[k as int] == ob(&manifest_deps@[k as int]));
                rs = rs.push(cur);
            }
            k = k + 1;
        }
        let mut map = NameLists::new();
        let mut i: usize = 0;
        while i < names.len()
            invariant
                direct == strings_view(manifest_deps@),
                i <= names@.len(),
                names@.len() == lists@.len(),
                forall|a: int, b: int|
                    0 <= a < b < names@.len() ==> ob(#[trigger] &names@[a]) != ob(
                        #[trigger] &names@[b],
                    ),
                forall|a: int|
                    0 <= a < i ==> name_lists_entries(map).dom().contains(ob(#[trigger] &names@[a]))
                        && name_lists_entries(map)[ob(&names@[a])] == strings_view(lists@[a]@),
                forall|n: Seq<u8>| #[trigger]
                    name_lists_entries(map).dom().contains(n) ==> exists|a: int|
                        0 <= a < i && ob(#[trigger] &names@[a]) == n,
            decreases names@.len() - i,
        {
            let key = to_owned_string(names[i].as_str());
            let val = copy_strings(&lists[i]);
            let ghost m0 = name_lists_entries(map);
            map.insert(key, val);
            proof {
                let m1 = name_lists_entries(map);
                assert forall|a: int| 0 <= a < i + 1 implies m1.dom().contains(ob(#[trigger] &names@[a]))
                    && m1[ob(&names@[a])] == strings_view(lists@[a]@) by {
                    if a < i {
                        assert(ob(&names@[a]) != ob(&names@[i as int]));
                    }
                }
                assert forall|n: Seq<u8>| #[trigger] m1.dom().contains(n) implies exists|a: int|
                    0 <= a < i + 1 && ob(#[trigger] &names@[a]) == n by {
                    if n == ob(&names@[i as int]) {
                        assert(ob(&names@[i as int]) == n);
                    } else {
                        assert(m0.dom().contains(n));
                    }
                }
            }
            i = i + 1;
        }
        proof {
            let m = name_lists_entries(map);
            assert forall|name: Seq<u8>| #[trigger] m.dom().contains(name) <==> reached(rs, name) by {
                if m.dom().contains(name) {
                    let a = choose|a: int| 0 <= a < i && ob(#[trigger] &names@[a]) == name;
                    assert(strings_view(names@)[a] == name);
                    assert(strings_view(names@).contains(name));
                }
                if reached(rs, name) {
                    assert(strings_view(names@).contains(name));
                    let a = choose|a: int| 0 <= a < strings_view(names@).len() && strings_view(names@)[a] == name;
                    assert(ob(&names@[a]) == name);
                }
            }
            assert forall|name: Seq<u8>| #[trigger] m.dom().contains(name) implies sorted_strict(m[name]) && forall|d: Seq<u8>| #[trigger]
                m[name].contains(d) <==> is_parent(direct, rs, name, d) by {
                let a = choose|a: int| 0 <= a < i && ob(#[trigger] &names@[a]) == name;
                assert(m[name] == strings_view(lists@[a]@));
                assert forall|d: Seq<u8>| #[trigger] m[name].contains(d) <==> is_parent(direct, rs, name, d) by {
                    assert(strings_view(lists@[a]@).contains(d) <==> is_parent(direct, rs, ob(&names@[a]), d));
                }
            }
            assert(rs =~= walk_orders(ps, direct));
            assert(walks_of(ps, direct, rs));
            assert(is_reverse_index(direct, rs, m));
        }
        map
    }
}

/// A copy of a list of strings.
fn copy_strings(v: &Vec<String>) -> (r: Vec<String>)
    ensures
        strings_view(r@) == strings_view(v@),
{
    let mut out: Vec<String> = Vec::new();
    let mut k: usize = 0;
    while k < v.len()
        invariant
            k <= v@.len(),
            strings_view(out@) == strings_view(v@).take(k as int),
        decreases v@.len() - k,
    {
        let s = to_owned_string(v[k].as_str());
        let ghost o0 = out@;
        out.push(s);
        proof {
            assert(strings_view(out@) =~= strings_view(o0).push(ob(&v@[k as int])));
            assert(strings_view(v@).take(k + 1) =~= strings_view(v@).take(k as int).push(ob(&v@[k as int])));
        }
        k = k + 1;
    }
    proof {
        assert(strings_view(v@).take(k as int) =~= strings_view(v@));
    }
    out
}

/// A walk from a name that no package carries finds nothing.
pub proof fn law_transitive_unknown_root(ps: Seq<PkgModel>, root: Seq<u8>, res: Seq<PkgModel>)
    requires
        transitive_result(ps, root, res),
        forall|i: int| 0 <= i < ps.len() ==> ps[i].name != root,
    ensures
        res.len() == 0,
{
    if res.len() > 0 {
        assert(reached_from(ps, root, res, 0));
    }
}

/// Every package a walk returns is in the graph, appears once by identity,
/// and is not one of the roots.
pub proof fn law_transitive_sound(ps: Seq<PkgModel>, root: Seq<u8>, res: Seq<PkgModel>, m: int)
    requires
        transitive_result(ps, root, res),
        0 <= m < res.len(),
    ensures
        ps.contains(res[m]),
        res[m].name != root,
        forall|m2: int| 0 <= m2 < res.len() && m2 != m ==> !same_id(res[m2], res[m]),
{
    assert forall|m2: int| 0 <= m2 < res.len() && m2 != m implies !same_id(res[m2], res[m]) by {
        if m2 < m {
            assert(!same_id(res[m2], res[m]));
        } else {
            assert(!same_id(res[m], res[m2]));
        }
    }
}

/// A direct dependency of a root is returned by the walk unless it is itself
/// a root: nothing the roots require is missed.
pub proof fn law_transitive_complete(ps: Seq<PkgModel>, root: Seq<u8>, res: Seq<PkgModel>, i: int, j: int)
    requires
        transitive_result(ps, root, res),
        0 <= i < ps.len(),
        0 <= j < ps.len(),
        ps[i].name == root,
        names_dep(ps[i], ps[j].name),
        ps[j].name != root,
    ensures
        exists|m: int| 0 <= m < res.len() && same_id(res[m], ps[j]),
{
    assert(root_names(ps, root, ps[j].name));
    assert(named_by(ps, root, res, ps[j].name));
}

/// What a returned package depends on is returned too, unless it is a root:
/// together with [`law_transitive_complete`], the walk returns every package
/// reachable from the roots by one or more edges, and by
/// [`law_transitive_sound`] nothing else.
pub proof fn law_transitive_closed(ps: Seq<PkgModel>, root: Seq<u8>, res: Seq<PkgModel>, m: int, j: int)
    requires
        transitive_result(ps, root, res),
        0 <= m < res.len(),
        0 <= j < ps.len(),
        names_dep(res[m], ps[j].name),
        ps[j].name != root,
    ensures
        exists|m2: int| 0 <= m2 < res.len() && same_id(res[m2], ps[j]),
{
    assert(named_by(ps, root, res, ps[j].name));
}

} // verus!
