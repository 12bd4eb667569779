//! The RustSec advisory cache: the result of `OSV GET /vulns/{id}` kept per
//! advisory ID, so that the same advisory is not fetched again.
//!
//! This module holds the cache's entries and rules: the in-memory layer
//! (insertion, expiry, removal, statistics), how a read from the persistent
//! layer is copied back into memory, and how the layers are set up from the
//! configuration. Time is passed in explicitly, as nanoseconds on a
//! monotonic clock; the clock itself, the persistent (SQLite) layer and the
//! sharing between tasks belong to the caller.

use vstd::prelude::*;
use crate::config::AdvisoryCacheConfig;
use crate::text::to_owned_string;

verus! {

/// Declares `std::time::SystemTime` to the verifier as an opaque type: fetch
/// times are only carried through, never inspected.
#[verifier::external_type_specification]
#[verifier::external_body]
pub struct ExSystemTime(std::time::SystemTime);

/// `SystemTime::clone`: `SystemTime` is `Copy`, so its `clone` (which the
/// derived `Clone` of [`CachedAdvisory`] calls) returns the same instant.
pub assume_specification[ <std::time::SystemTime as Clone>::clone ](t: &std::time::SystemTime) -> (r:
    std::time::SystemTime)
    ensures
        r == *t,
;

/// Nanoseconds in a second.
pub const NANOS_PER_SEC: u128 = 1_000_000_000;

/// Default TTL for cached advisory entries (24 hours), in nanoseconds.
pub const DEFAULT_ADVISORY_TTL_NANOS: u128 = 86_400_000_000_000;

/// Cached classification of a single OSV advisory.
#[derive(Clone, Debug, PartialEq)]
pub enum AdvisoryKind {
    /// Advisory exists at OSV; the parts needed are recorded.
    Found { summary: Option<String>, unmaintained: bool },
    /// Advisory ID returned 404 from OSV.
    NotFound,
}

/// One cache entry: an advisory ID plus its classification and fetch time.
#[derive(Clone, Debug, PartialEq)]
pub struct CachedAdvisory {
    pub id: String,
    pub kind: AdvisoryKind,
    pub fetched_at: std::time::SystemTime,
}

/// The abstract value of a [`CachedAdvisory`].
pub ghost struct AdvisoryModel {
    pub id: Seq<char>,
    pub found: bool,
    pub summary: Option<Seq<char>>,
    pub unmaintained: bool,
    pub fetched_at: std::time::SystemTime,
}

impl View for CachedAdvisory {
    type V = AdvisoryModel;

    open spec fn view(&self) -> AdvisoryModel {
        AdvisoryModel {
            id: self.id@,
            found: self.kind is Found,
            summary: match &self.kind {
                AdvisoryKind::Found { summary: Some(s), .. } => Some(s@),
                _ => None,
            },
            unmaintained: match &self.kind {
                AdvisoryKind::Found { unmaintained, .. } => *unmaintained,
                _ => false,
            },
            fetched_at: self.fetched_at,
        }
    }
}

fn copy_advisory(a: &CachedAdvisory) -> (r: CachedAdvisory)
    ensures
        r@ == a@,
{
    let kind = match &a.kind {
        AdvisoryKind::Found { summary, unmaintained } => AdvisoryKind::Found {
            summary: match summary {
                Some(s) => Some(to_owned_string(s.as_str())),
                None => None,
            },
            unmaintained: *unmaintained,
        },
        AdvisoryKind::NotFound => AdvisoryKind::NotFound,
    };
    CachedAdvisory { id: to_owned_string(a.id.as_str()), kind, fetched_at: a.fetched_at }
}

// ---------------------------------------------------------------------------
// The in-memory layer
// ---------------------------------------------------------------------------

/// An entry of the in-memory layer: the advisory, when it was stored and
/// for how long it stays fresh (nanoseconds).
pub ghost struct EntryModel {
    pub advisory: AdvisoryModel,
    pub inserted_at: int,
    pub ttl: int,
}

struct MemoryAdvisoryEntry {
    advisory: CachedAdvisory,
    inserted_at: u128,
    ttl: u128,
}

impl View for MemoryAdvisoryEntry {
    type V = EntryModel;

    closed spec fn view(&self) -> EntryModel {
        EntryModel {
            advisory: self.advisory@,
            inserted_at: self.inserted_at as int,
            ttl: self.ttl as int,
        }
    }
}

/// Whether an entry is stale at time `now`: more than its TTL has passed
/// since it was stored.
pub open spec fn is_expired(e: EntryModel, now: int) -> bool {
    let elapsed = if now >= e.inserted_at {
        now - e.inserted_at
    } else {
        0
    };
    elapsed > e.ttl
}

/// The entries without the one for `id`.
pub open spec fn without_id(s: Seq<EntryModel>, id: Seq<char>) -> Seq<EntryModel>
    decreases s.len(),
{
    if s.len() == 0 {
        s
    } else if s.last().advisory.id == id {
        without_id(s.drop_last(), id)
    } else {
        without_id(s.drop_last(), id).push(s.last())
    }
}

/// The entries still fresh at time `now`.
pub open spec fn fresh_at(s: Seq<EntryModel>, now: int) -> Seq<EntryModel>
    decreases s.len(),
{
    if s.len() == 0 {
        s
    } else if is_expired(s.last(), now) {
        fresh_at(s.drop_last(), now)
    } else {
        fresh_at(s.drop_last(), now).push(s.last())
    }
}

/// The entry stored for `id`, if any.
pub open spec fn entry_for(s: Seq<EntryModel>, id: Seq<char>) -> Option<EntryModel>
    decreases s.len(),
{
    if s.len() == 0 {
        None
    } else if s.last().advisory.id == id {
        Some(s.last())
    } else {
        entry_for(s.drop_last(), id)
    }
}

/// No two entries share an ID.
pub open spec fn ids_unique(s: Seq<EntryModel>) -> bool {
    forall|i: int, j: int|
        0 <= i < j < s.len() ==> #[trigger] s[i].advisory.id != #[trigger] s[j].advisory.id
}

/// What a read of `id` at time `now` returns: the stored advisory while it
/// is fresh.
pub open spec fn read_at(s: Seq<EntryModel>, id: Seq<char>, now: int) -> Option<AdvisoryModel> {
    match entry_for(s, id) {
        Some(e) => if is_expired(e, now) {
            None
        } else {
            Some(e.advisory)
        },
        None => None,
    }
}

/// The entries after storing `e`: it replaces any entry with its ID.
pub open spec fn store(s: Seq<EntryModel>, e: EntryModel) -> Seq<EntryModel> {
    without_id(s, e.advisory.id).push(e)
}

/// The number of stale entries at time `now`.
pub open spec fn expired_count(s: Seq<EntryModel>, now: int) -> int
    decreases s.len(),
{
    if s.len() == 0 {
        0
    } else {
        expired_count(s.drop_last(), now) + if is_expired(s.last(), now) {
            1int
        } else {
            0int
        }
    }
}

proof fn lemma_entry_for_absent(s: Seq<EntryModel>, id: Seq<char>)
    requires
        forall|i: int| 0 <= i < s.len() ==> #[trigger] s[i].advisory.id != id,
    ensures
        entry_for(s, id) is None,
    decreases s.len(),
{
    if s.len() > 0 {
        lemma_entry_for_absent(s.drop_last(), id);
    }
}

proof fn lemma_without_id_members(s: Seq<EntryModel>, id: Seq<char>)
    ensures
        forall|i: int|
            0 <= i < without_id(s, id).len() ==> #[trigger] without_id(s, id)[i].advisory.id != id,
        forall|i: int|
            0 <= i < without_id(s, id).len() ==> s.contains(#[trigger] without_id(s, id)[i]),
        without_id(s, id).len() <= s.len(),
    decreases s.len(),
{
    if s.len() > 0 {
        lemma_without_id_members(s.drop_last(), id);
        let w = without_id(s.drop_last(), id);
        assert forall|i: int| 0 <= i < without_id(s, id).len() implies s.contains(
            #[trigger] without_id(s, id)[i],
        ) by {
            if i < w.len() {
                let j = choose|j: int| 0 <= j < s.drop_last().len() && s.drop_last()[j] == w[i];
                assert(s[j] == w[i]);
            } else {
                assert(s[s.len() - 1] == s.last());
            }
        }
    }
}

proof fn lemma_subseq_unique(s: Seq<EntryModel>, id: Seq<char>)
    requires
        ids_unique(s),
    ensures
        ids_unique(without_id(s, id)),
    decreases s.len(),
{
    if s.len() > 0 {
        lemma_subseq_unique(s.drop_last(), id);
        lemma_without_id_members(s.drop_last(), id);
        let w = without_id(s.drop_last(), id);
        if s.last().advisory.id != id {
            assert forall|i: int, j: int| 0 <= i < j < w.push(s.last()).len() implies #[trigger] w.push(
                s.last(),
            )[i].advisory.id != #[trigger] w.push(s.last())[j].advisory.id by {
                if j == w.len() {
                    let k = choose|k: int| 0 <= k < s.drop_last().len() && s.drop_last()[k] == w[i];
                    assert(s[k] == w[i]);
                    assert(s[s.len() - 1] == s.last());
                }
            }
        }
    }
}

proof fn lemma_store_unique(s: Seq<EntryModel>, e: EntryModel)
    requires
        ids_unique(s),
    ensures
        ids_unique(store(s, e)),
{
    lemma_subseq_unique(s, e.advisory.id);
    lemma_without_id_members(s, e.advisory.id);
}

proof fn lemma_fresh_members(s: Seq<EntryModel>, now: int)
    ensures
        forall|i: int| 0 <= i < fresh_at(s, now).len() ==> s.contains(#[trigger] fresh_at(s, now)[i]),
        forall|i: int| 0 <= i < fresh_at(s, now).len() ==> !is_expired(#[trigger] fresh_at(s, now)[i], now),
        fresh_at(s, now).len() + expired_count(s, now) == s.len(),
        expired_count(s, now) >= 0,
    decreases s.len(),
{
    if s.len() > 0 {
        lemma_fresh_members(s.drop_last(), now);
        let w = fresh_at(s.drop_last(), now);
        assert forall|i: int| 0 <= i < fresh_at(s, now).len() implies s.contains(
            #[trigger] fresh_at(s, now)[i],
        ) by {
            if i < w.len() {
                let j = choose|j: int| 0 <= j < s.drop_last().len() && s.drop_last()[j] == w[i];
                assert(s[j] == w[i]);
            } else {
                assert(s[s.len() - 1] == s.last());
            }
        }
    }
}

proof fn lemma_fresh_unique(s: Seq<EntryModel>, now: int)
    requires
        ids_unique(s),
    ensures
        ids_unique(fresh_at(s, now)),
    decreases s.len(),
{
    if s.len() > 0 {
        lemma_fresh_unique(s.drop_last(), now);
        lemma_fresh_members(s.drop_last(), now);
        let w = fresh_at(s.drop_last(), now);
        if !is_expired(s.last(), now) {
            assert forall|i: int, j: int| 0 <= i < j < w.push(s.last()).len() implies #[trigger] w.push(
                s.last(),
            )[i].advisory.id != #[trigger] w.push(s.last())[j].advisory.id by {
                if j == w.len() {
                    let k = choose|k: int| 0 <= k < s.drop_last().len() && s.drop_last()[k] == w[i];
                    assert(s[k] == w[i]);
                    assert(s[s.len() - 1] == s.last());
                }
            }
        }
    }
}

/// The in-memory layer's abstract value: its entries and the TTL given to
/// fresh inserts (nanoseconds; zero means caching is disabled).
pub ghost struct MemoryModel {
    pub entries: Seq<EntryModel>,
    pub ttl: int,
}

/// The in-memory advisory cache (L1 layer).
pub struct MemoryAdvisoryCache {
    entries: Vec<MemoryAdvisoryEntry>,
    ttl: u128,
}

/// Snapshot statistics for an advisory cache.
#[derive(Clone, Copy, Debug, PartialEq, Eq)]
pub struct AdvisoryCacheStats {
    pub total: usize,
    pub expired: usize,
    pub valid: usize,
}

impl View for MemoryAdvisoryCache {
    type V = MemoryModel;

    closed spec fn view(&self) -> MemoryModel {
        MemoryModel { entries: self.entries@.map_values(|e: MemoryAdvisoryEntry| e@), ttl: self.ttl as int }
    }
}

impl MemoryAdvisoryCache {
    /// The layer's invariant: one entry per ID.
    #[verifier::type_invariant]
    spec fn inv(self) -> bool {
        ids_unique(self@.entries)
    }

    /// A cache with the default 24-hour TTL.
    pub fn new() -> (r: Self)
        ensures
            r@.entries == Seq::<EntryModel>::empty(),
            r@.ttl == DEFAULT_ADVISORY_TTL_NANOS,
    {
        Self::with_ttl(DEFAULT_ADVISORY_TTL_NANOS)
    }

    /// A cache with a custom TTL in nanoseconds (zero disables it).
    pub fn with_ttl(ttl: u128) -> (r: Self)
        ensures
            r@.entries == Seq::<EntryModel>::empty(),
            r@.ttl == ttl,
    {
        let r = MemoryAdvisoryCache { entries: Vec::new(), ttl };
        proof {
            assert(r@.entries =~= Seq::<EntryModel>::empty());
        }
        r
    }

    /// The TTL applied to fresh inserts, in nanoseconds.
    pub fn ttl(&self) -> (r: u128)
        ensures
            r == self@.ttl,
    {
        self.ttl
    }

    /// The number of entries, fresh or stale.
    pub fn len(&self) -> (r: usize)
        ensures
            r == self@.entries.len(),
    {
        self.entries.len()
    }

    /// Whether the layer holds no entry.
    pub fn is_empty(&self) -> (r: bool)
        ensures
            r == (self@.entries.len() == 0),
    {
        self.entries.len() == 0
    }

    fn copy_entry(e: &MemoryAdvisoryEntry) -> (r: MemoryAdvisoryEntry)
        ensures
            r@ == e@,
    {
        MemoryAdvisoryEntry { advisory: copy_advisory(&e.advisory), inserted_at: e.inserted_at, ttl: e.ttl }
    }

    /// The entries without the one for `id`.
    fn entries_without(entries: &Vec<MemoryAdvisoryEntry>, id: &str) -> (r: Vec<MemoryAdvisoryEntry>)
        ensures
            r@.map_values(|e: MemoryAdvisoryEntry| e@) == without_id(
                entries@.map_values(|e: MemoryAdvisoryEntry| e@),
                id@,
            ),
    {
        let ghost src = entries@.map_values(|e: MemoryAdvisoryEntry| e@);
        let mut out: Vec<MemoryAdvisoryEntry> = Vec::new();
        let mut i: usize = 0;
        while i < entries.len()
            invariant
                i <= entries@.len(),
                src == entries@.map_values(|e: MemoryAdvisoryEntry| e@),
                out@.map_values(|e: MemoryAdvisoryEntry| e@) == without_id(src.take(i as int), id@),
            decreases entries@.len() - i,
        {
            let e = &entries[i];
            proof {
                assert(e@ == src[i as int]);
                assert(src.take(i + 1).drop_last() =~= src.take(i as int));
                assert(src.take(i + 1).last() == src[i as int]);
            }
            let keep = !crate::text::str_eq(e.advisory.id.as_str(), id);
            let ghost before = out@;
            if keep {
                out.push(Self::copy_entry(e));
                proof {
                    assert(out@.map_values(|e: MemoryAdvisoryEntry| e@) =~= before.map_values(
                        |e: MemoryAdvisoryEntry| e@,
                    ).push(src[i as int]));
                }
            }
            i = i + 1;
        }
        proof {
            assert(src.take(entries@.len() as int) =~= src);
        }
        out
    }

    /// Store an advisory at time `now` with the cache-wide TTL, replacing
    /// any entry with its ID. A zero TTL marks the cache as disabled and
    /// drops the write.
    pub fn insert(&mut self, advisory: CachedAdvisory, now: u128)
        ensures
            final(self)@.ttl == old(self)@.ttl,
            final(self)@.entries == (if old(self)@.ttl == 0 {
                old(self)@.entries
            } else {
                store(
                    old(self)@.entries,
                    EntryModel { advisory: advisory@, inserted_at: now as int, ttl: old(self)@.ttl },
                )
            }),
    {
        if self.ttl == 0 {
            return;
        }
        let ttl = self.ttl;
        self.store_entry(advisory, now, ttl);
    }

    /// Store an advisory with an explicit TTL instead of the cache-wide one
    /// (used when copying an entry back from the persistent layer, so that
    /// it keeps only the rest of its lifetime). A zero TTL drops the write.
    pub fn insert_with_remaining_ttl(&mut self, advisory: CachedAdvisory, remaining: u128, now: u128)
        ensures
            final(self)@.ttl == old(self)@.ttl,
            final(self)@.entries == (if remaining == 0 {
                old(self)@.entries
            } else {
                store(
                    old(self)@.entries,
                    EntryModel { advisory: advisory@, inserted_at: now as int, ttl: remaining as int },
                )
            }),
    {
        if remaining == 0 {
            return;
        }
        self.store_entry(advisory, now, remaining);
    }

    fn store_entry(&mut self, advisory: CachedAdvisory, now: u128, ttl: u128)
        ensures
            final(self)@.ttl == old(self)@.ttl,
            final(self)@.entries == store(
                old(self)@.entries,
                EntryModel { advisory: advisory@, inserted_at: now as int, ttl: ttl as int },
            ),
    {
        proof {
            use_type_invariant(&*self);
        }
        let ghost old_entries = self@.entries;
        let mut kept = Self::entries_without(&self.entries, advisory.id.as_str());
        let entry = MemoryAdvisoryEntry { advisory, inserted_at: now, ttl };
        let ghost e = entry@;
        let ghost before = kept@;
        kept.push(entry);
        proof {
            assert(kept@.map_values(|x: MemoryAdvisoryEntry| x@) =~= before.map_values(
                |x: MemoryAdvisoryEntry| x@,
            ).push(e));
            lemma_store_unique(old_entries, e);
        }
        self.entries = kept;
    }

    /// The advisory stored for `id`, while it is fresh at time `now`.
    pub fn get(&self, advisory_id: &str, now: u128) -> (r: Option<CachedAdvisory>)
        ensures
            match read_at(self@.entries, advisory_id@, now as int) {
                Some(a) => r matches Some(x) && x@ == a,
                None => r is None,
            },
    {
        let ghost s = self@.entries;
        let mut i = self.entries.len();
        proof {
            assert(s.take(i as int) =~= s);
        }
        while i > 0
            invariant
                i <= self.entries@.len(),
                s == self@.entries,
                entry_for(s, advisory_id@) == entry_for(s.take(i as int), advisory_id@),
            decreases i,
        {
            let e = &self.entries[i - 1];
            proof {
                assert(s.take(i as int).drop_last() =~= s.take(i - 1));
                assert(s.take(i as int).last() == e@);
            }
            if crate::text::str_eq(e.advisory.id.as_str(), advisory_id) {
                let elapsed = if now >= e.inserted_at {
                    now - e.inserted_at
                } else {
                    0
                };
                if elapsed > e.ttl {
                    return None;
                }
                return Some(copy_advisory(&e.advisory));
            }
            i = i - 1;
        }
        None
    }

    /// Remove the entry for `id`.
    pub fn remove(&mut self, advisory_id: &str)
        ensures
            final(self)@.ttl == old(self)@.ttl,
            final(self)@.entries == without_id(old(self)@.entries, advisory_id@),
    {
        proof {
            use_type_invariant(&*self);
        }
        let ghost old_entries = self@.entries;
        let kept = Self::entries_without(&self.entries, advisory_id);
        proof {
            lemma_subseq_unique(old_entries, advisory_id@);
        }
        self.entries = kept;
    }

    /// Remove every entry.
    pub fn clear(&mut self)
        ensures
            final(self)@.ttl == old(self)@.ttl,
            final(self)@.entries == Seq::<EntryModel>::empty(),
    {
        self.entries = Vec::new();
        proof {
            assert(self@.entries =~= Seq::<EntryModel>::empty());
        }
    }

    /// Remove every entry that is stale at time `now`; returns how many.
    pub fn cleanup_expired(&mut self, now: u128) -> (r: usize)
        ensures
            final(self)@.ttl == old(self)@.ttl,
            final(self)@.entries == fresh_at(old(self)@.entries, now as int),
            r == expired_count(old(self)@.entries, now as int),
    {
        proof {
            use_type_invariant(&*self);
        }
        let ghost src = self@.entries;
        let mut out: Vec<MemoryAdvisoryEntry> = Vec::new();
        let mut i: usize = 0;
        let mut removed: usize = 0;
        while i < self.entries.len()
            invariant
                i <= self.entries@.len(),
                src == self@.entries,
                out@.map_values(|e: MemoryAdvisoryEntry| e@) == fresh_at(src.take(i as int), now as int),
                removed == expired_count(src.take(i as int), now as int),
                removed <= i,
            decreases self.entries@.len() - i,
        {
            let e = &self.entries[i];
            proof {
                assert(e@ == src[i as int]);
                assert(src.take(i + 1).drop_last() =~= src.take(i as int));
                assert(src.take(i + 1).last() == src[i as int]);
            }
            let elapsed = if now >= e.inserted_at {
                now - e.inserted_at
            } else {
                0
            };
            let ghost before = out@;
            if elapsed > e.ttl {
                removed = removed + 1;
            } else {
                out.push(Self::copy_entry(e));
                proof {
                    assert(out@.map_values(|e: MemoryAdvisoryEntry| e@) =~= before.map_values(
                        |e: MemoryAdvisoryEntry| e@,
                    ).push(src[i as int]));
                }
            }
            i = i + 1;
        }
        proof {
            assert(src.take(src.len() as int) =~= src);
            lemma_fresh_unique(src, now as int);
        }
        self.entries = out;
        removed
    }

    /// Statistics at time `now`: all entries, the stale ones, the fresh ones.
    pub fn stats(&self, now: u128) -> (r: AdvisoryCacheStats)
        ensures
            r.total == self@.entries.len(),
            r.expired == expired_count(self@.entries, now as int),
            r.valid == r.total - r.expired,
    {
        let ghost s = self@.entries;
        let mut expired: usize = 0;
        let mut i: usize = 0;
        while i < self.entries.len()
            invariant
                i <= self.entries@.len(),
                s == self@.entries,
                expired == expired_count(s.take(i as int), now as int),
                expired <= i,
            decreases self.entries@.len() - i,
        {
            let e = &self.entries[i];
            proof {
                assert(s.take(i + 1).drop_last() =~= s.take(i as int));
                assert(s.take(i + 1).last() == e@);
            }
            let elapsed = if now >= e.inserted_at {
                now - e.inserted_at
            } else {
                0
            };
            if elapsed > e.ttl {
                expired = expired + 1;
            }
            i = i + 1;
        }
        proof {
            assert(s.take(i as int) =~= s);
        }
        let total = self.entries.len();
        AdvisoryCacheStats { total, expired, valid: total - expired }
    }
}

/// The remaining lifetime of an entry copied back from the persistent
/// layer: the memory TTL less the time since the advisory was fetched, or
/// zero when that time is unknown (a fetch time in the future).
pub open spec fn remaining_ttl(ttl: int, since_fetch: Option<u128>) -> int {
    match since_fetch {
        Some(e) => if e >= ttl {
            0
        } else {
            ttl - e
        },
        None => 0,
    }
}

impl MemoryAdvisoryCache {
    /// Copy an advisory read from the persistent layer back into memory at
    /// time `now`, with only the rest of its lifetime (so that a read never
    /// extends it); nothing is stored when none is left.
    pub fn backfill(&mut self, advisory: CachedAdvisory, since_fetch: Option<u128>, now: u128)
        ensures
            final(self)@.ttl == old(self)@.ttl,
            final(self)@.entries == (if remaining_ttl(old(self)@.ttl, since_fetch) == 0 {
                old(self)@.entries
            } else {
                store(
                    old(self)@.entries,
                    EntryModel {
                        advisory: advisory@,
                        inserted_at: now as int,
                        ttl: remaining_ttl(old(self)@.ttl, since_fetch),
                    },
                )
            }),
    {
        let remaining = match since_fetch {
            Some(e) => self.ttl.saturating_sub(e),
            None => 0,
        };
        self.insert_with_remaining_ttl(advisory, remaining, now);
    }
}

/// The no-op cache used when caching is disabled: every read misses and
/// every write is dropped.
#[derive(Clone, Copy, Debug, Default)]
pub struct NullAdvisoryCache;

/// How a two-tier advisory cache is laid out: the TTL of its memory layer
/// (seconds; zero makes every read miss) and whether it has a persistent
/// layer.
#[derive(Clone, Copy, Debug, PartialEq, Eq)]
pub struct HybridLayers {
    pub memory_ttl_secs: u64,
    pub persistent: bool,
}

/// The layers of the positive cache: disabled, a zero-TTL memory layer
/// alone; enabled, the configured TTL and the persistent layer.
pub fn hybrid_layers(config: &AdvisoryCacheConfig) -> (r: HybridLayers)
    ensures
        r.memory_ttl_secs == (if config.enabled {
            config.ttl_secs
        } else {
            0
        }),
        r.persistent == config.enabled,
{
    if !config.enabled {
        return HybridLayers { memory_ttl_secs: 0, persistent: false };
    }
    HybridLayers { memory_ttl_secs: config.ttl_secs, persistent: true }
}

/// The layers of the negative cache (404 answers): memory only, with the
/// negative TTL, or a zero TTL when caching is disabled.
pub fn negative_hybrid_layers(config: &AdvisoryCacheConfig) -> (r: HybridLayers)
    ensures
        r.memory_ttl_secs == (if config.enabled {
            config.negative_ttl_secs
        } else {
            0
        }),
        !r.persistent,
{
    if !config.enabled {
        return HybridLayers { memory_ttl_secs: 0, persistent: false };
    }
    HybridLayers { memory_ttl_secs: config.negative_ttl_secs, persistent: false }
}

// ---------------------------------------------------------------------------
// Laws of the in-memory layer
// ---------------------------------------------------------------------------

proof fn lemma_entry_for_without(s: Seq<EntryModel>, id: Seq<char>, k: Seq<char>)
    ensures
        entry_for(without_id(s, id), k) == (if k == id {
            None
        } else {
            entry_for(s, k)
        }),
    decreases s.len(),
{
    if s.len() > 0 {
        let p = s.drop_last();
        lemma_entry_for_without(p, id, k);
        let w = without_id(p, id);
        assert(w.push(s.last()).drop_last() =~= w);
        assert(w.push(s.last()).last() == s.last());
    }
}

/// A read gives back what a write stored, for as long as the entry's TTL
/// has not run out.
pub proof fn law_read_after_write(s: Seq<EntryModel>, a: AdvisoryModel, now: int, ttl: int, later: int)
    requires
        now <= later <= now + ttl,
    ensures
        read_at(store(s, EntryModel { advisory: a, inserted_at: now, ttl }), a.id, later) == Some(a),
{
}

/// Once the TTL has run out, the entry is no longer read.
pub proof fn law_read_after_expiry(s: Seq<EntryModel>, a: AdvisoryModel, now: int, ttl: int, later: int)
    requires
        later > now + ttl,
    ensures
        read_at(store(s, EntryModel { advisory: a, inserted_at: now, ttl }), a.id, later) is None,
{
}

/// A write leaves the entries of other IDs as they were.
pub proof fn law_write_keeps_others(s: Seq<EntryModel>, e: EntryModel, k: Seq<char>, t: int)
    requires
        k != e.advisory.id,
    ensures
        read_at(store(s, e), k, t) == read_at(s, k, t),
{
    lemma_entry_for_without(s, e.advisory.id, k);
    let w = without_id(s, e.advisory.id);
    assert(w.push(e).drop_last() =~= w);
    assert(w.push(e).last() == e);
    assert(entry_for(store(s, e), k) == entry_for(w, k));
}

/// After a removal the ID is no longer read, and the others are as they
/// were.
pub proof fn law_read_after_remove(s: Seq<EntryModel>, id: Seq<char>, k: Seq<char>, t: int)
    ensures
        read_at(without_id(s, id), id, t) is None,
        k != id ==> read_at(without_id(s, id), k, t) == read_at(s, k, t),
{
    lemma_entry_for_without(s, id, id);
    lemma_entry_for_without(s, id, k);
}

/// A second write of an ID replaces the first.
pub proof fn law_second_write_wins(s: Seq<EntryModel>, e1: EntryModel, e2: EntryModel, t: int)
    requires
        e1.advisory.id == e2.advisory.id,
    ensures
        entry_for(store(store(s, e1), e2), e2.advisory.id) == Some(e2),
{
}

proof fn lemma_entry_for_fresh(s: Seq<EntryModel>, k: Seq<char>, now: int)
    requires
        ids_unique(s),
    ensures
        entry_for(fresh_at(s, now), k) == (match entry_for(s, k) {
            Some(e) => if is_expired(e, now) {
                None
            } else {
                Some(e)
            },
            None => None,
        }),
    decreases s.len(),
{
    if s.len() > 0 {
        let p = s.drop_last();
        assert(ids_unique(p)) by {
            assert forall|i: int, j: int| 0 <= i < j < p.len() implies #[trigger] p[i].advisory.id
                != #[trigger] p[j].advisory.id by {
                assert(s[i] == p[i] && s[j] == p[j]);
            }
        }
        lemma_entry_for_fresh(p, k, now);
        let w = fresh_at(p, now);
        assert(w.push(s.last()).drop_last() =~= w);
        assert(w.push(s.last()).last() == s.last());
        if s.last().advisory.id == k {
            assert forall|i: int| 0 <= i < p.len() implies #[trigger] p[i].advisory.id != k by {
                assert(s[i] == p[i]);
                assert(s[s.len() - 1] == s.last());
            }
            lemma_entry_for_absent(p, k);
            lemma_fresh_members(p, now);
            assert forall|i: int| 0 <= i < fresh_at(p, now).len() implies #[trigger] fresh_at(
                p,
                now,
            )[i].advisory.id != k by {
                let x = fresh_at(p, now)[i];
                assert(p.contains(x));
                let j = choose|j: int| 0 <= j < p.len() && p[j] == x;
            }
            lemma_entry_for_absent(fresh_at(p, now), k);
        }
    }
}

/// Dropping stale entries never changes what a read at that time returns.
pub proof fn law_cleanup_keeps_reads(s: Seq<EntryModel>, k: Seq<char>, now: int)
    requires
        ids_unique(s),
    ensures
        read_at(fresh_at(s, now), k, now) == read_at(s, k, now),
{
    lemma_entry_for_fresh(s, k, now);
}

/// The fresh and the stale entries together are all of them.
pub proof fn law_stats_partition(s: Seq<EntryModel>, now: int)
    ensures
        fresh_at(s, now).len() + expired_count(s, now) == s.len(),
        0 <= expired_count(s, now) <= s.len(),
{
    lemma_fresh_members(s, now);
}

/// Two-tier advisory cache: the in-memory layer in front of an optional
/// persistent layer `P` (SQLite in the server). Reads and writes of the
/// persistent layer are the caller's: a read that misses here goes there,
/// and a hit there is copied back with [`HybridAdvisoryCache::backfill`].
pub struct HybridAdvisoryCache<P> {
    memory: MemoryAdvisoryCache,
    persistent: Option<P>,
}

impl<P> HybridAdvisoryCache<P> {
    /// The in-memory layer's abstract value.
    pub closed spec fn memory_view(&self) -> MemoryModel {
        self.memory@
    }

    /// The persistent layer.
    pub closed spec fn persistent_layer(&self) -> Option<P> {
        self.persistent
    }

    /// A cache with the default memory TTL in front of `persistent` (the
    /// server passes the default SQLite store when it could be opened, and
    /// `None` when it could not).
    pub fn new(persistent: Option<P>) -> (r: Self)
        ensures
            r.memory_view().entries == Seq::<EntryModel>::empty(),
            r.memory_view().ttl == DEFAULT_ADVISORY_TTL_NANOS,
            r.persistent_layer() == persistent,
    {
        Self::from_parts(MemoryAdvisoryCache::new(), persistent)
    }

    /// A cache from prepared layers.
    pub fn from_parts(memory: MemoryAdvisoryCache, persistent: Option<P>) -> (r: Self)
        ensures
            r.memory_view() == memory@,
            r.persistent_layer() == persistent,
    {
        HybridAdvisoryCache { memory, persistent }
    }

    /// The positive cache of a configuration (see [`hybrid_layers`]): when
    /// caching is disabled, a zero-TTL memory layer alone, so every read
    /// misses; otherwise the configured TTL, in front of `persistent`.
    pub fn from_config(config: &AdvisoryCacheConfig, persistent: Option<P>) -> (r: Self)
        ensures
            r.memory_view().entries == Seq::<EntryModel>::empty(),
            r.memory_view().ttl == (if config.enabled {
                config.ttl_secs * NANOS_PER_SEC
            } else {
                0
            }),
            r.persistent_layer() == (if config.enabled {
                persistent
            } else {
                None
            }),
    {
        let layers = hybrid_layers(config);
        let ttl = (layers.memory_ttl_secs as u128) * NANOS_PER_SEC;
        if layers.persistent {
            Self::from_parts(MemoryAdvisoryCache::with_ttl(ttl), persistent)
        } else {
            Self::from_parts(MemoryAdvisoryCache::with_ttl(ttl), None)
        }
    }

    /// The negative cache of a configuration (404 answers; see
    /// [`negative_hybrid_layers`]): memory only, with the negative TTL, or a
    /// zero TTL when caching is disabled.
    pub fn negative_from_config(config: &AdvisoryCacheConfig) -> (r: Self)
        ensures
            r.memory_view().entries == Seq::<EntryModel>::empty(),
            r.memory_view().ttl == (if config.enabled {
                config.negative_ttl_secs * NANOS_PER_SEC
            } else {
                0
            }),
            r.persistent_layer() is None,
    {
        let layers = negative_hybrid_layers(config);
        let ttl = (layers.memory_ttl_secs as u128) * NANOS_PER_SEC;
        Self::from_parts(MemoryAdvisoryCache::with_ttl(ttl), None)
    }

    /// The persistent layer, if any.
    pub fn persistent(&self) -> (r: Option<&P>)
        ensures
            match r {
                Some(p) => self.persistent_layer() == Some(*p),
                None => self.persistent_layer() is None,
            },
    {
        match &self.persistent {
            Some(p) => Some(p),
            None => None,
        }
    }

    /// A read of the in-memory layer alone at time `now`. The two-tier read,
    /// which goes on to the persistent layer on a miss, is
    /// [`HybridAdvisoryCache::read_through`].
    pub fn get(&self, advisory_id: &str, now: u128) -> (r: Option<CachedAdvisory>)
        ensures
            match read_at(self.memory_view().entries, advisory_id@, now as int) {
                Some(a) => r matches Some(x) && x@ == a,
                None => r is None,
            },
    {
        self.memory.get(advisory_id, now)
    }

    /// Whether a read of `advisory_id` at time `now` has to ask the
    /// persistent layer: the memory layer misses and there is a persistent
    /// layer.
    pub fn needs_persistent_read(&self, advisory_id: &str, now: u128) -> (r: bool)
        ensures
            r == (read_at(self.memory_view().entries, advisory_id@, now as int) is None
                && self.persistent_layer() is Some),
    {
        self.memory.get(advisory_id, now).is_none() && self.persistent.is_some()
    }

    /// A two-tier read of `advisory_id` at time `now`, given what the
    /// persistent layer answered (`persistent_answer`, asked only when
    /// [`HybridAdvisoryCache::needs_persistent_read`] says so) and, for that
    /// answer, the time since it was fetched (`None` when its fetch time lies
    /// in the future).
    ///
    /// A fresh memory entry is returned as it is. Otherwise a persistent hit
    /// is returned and copied back into memory with only the rest of its
    /// lifetime, `ttl - since_fetch` (nothing is copied when none is left).
    /// Otherwise the read misses. Nothing else changes.
    pub fn read_through(
        &mut self,
        advisory_id: &str,
        persistent_answer: Option<CachedAdvisory>,
        since_fetch: Option<u128>,
        now: u128,
    ) -> (r: Option<CachedAdvisory>)
        ensures
            final(self).persistent_layer() == old(self).persistent_layer(),
            final(self).memory_view().ttl == old(self).memory_view().ttl,
            match read_at(old(self).memory_view().entries, advisory_id@, now as int) {
                Some(a) => r matches Some(x) && x@ == a && final(self).memory_view().entries
                    == old(self).memory_view().entries,
                None => match (old(self).persistent_layer(), persistent_answer) {
                    (Some(_), Some(v)) => r matches Some(x) && x@ == v@
                        && final(self).memory_view().entries == (if remaining_ttl(
                        old(self).memory_view().ttl,
                        since_fetch,
                    ) == 0 {
                        old(self).memory_view().entries
                    } else {
                        store(
                            old(self).memory_view().entries,
                            EntryModel {
                                advisory: v@,
                                inserted_at: now as int,
                                ttl: remaining_ttl(old(self).memory_view().ttl, since_fetch),
                            },
                        )
                    }),
                    _ => r is None && final(self).memory_view().entries == old(
                        self,
                    ).memory_view().entries,
                },
            },
    {
        match self.memory.get(advisory_id, now) {
            Some(hit) => Some(hit),
            None => {
                if self.persistent.is_none() {
                    return None;
                }
                match persistent_answer {
                    Some(v) => {
                        let copy = copy_advisory(&v);
                        self.memory.backfill(copy, since_fetch, now);
                        Some(v)
                    },
                    None => None,
                }
            },
        }
    }

    /// Copy a hit of the persistent layer back into memory (see
    /// [`MemoryAdvisoryCache::backfill`]).
    pub fn backfill(&mut self, advisory: CachedAdvisory, since_fetch: Option<u128>, now: u128)
        ensures
            final(self).persistent_layer() == old(self).persistent_layer(),
            final(self).memory_view().ttl == old(self).memory_view().ttl,
            final(self).memory_view().entries == (if remaining_ttl(
                old(self).memory_view().ttl,
                since_fetch,
            ) == 0 {
                old(self).memory_view().entries
            } else {
                store(
                    old(self).memory_view().entries,
                    EntryModel {
                        advisory: advisory@,
                        inserted_at: now as int,
                        ttl: remaining_ttl(old(self).memory_view().ttl, since_fetch),
                    },
                )
            }),
    {
        self.memory.backfill(advisory, since_fetch, now);
    }

    /// Store an advisory in memory at time `now` (the caller writes it to
    /// the persistent layer too).
    pub fn insert(&mut self, advisory: CachedAdvisory, now: u128)
        ensures
            final(self).persistent_layer() == old(self).persistent_layer(),
            final(self).memory_view().ttl == old(self).memory_view().ttl,
            final(self).memory_view().entries == (if old(self).memory_view().ttl == 0 {
                old(self).memory_view().entries
            } else {
                store(
                    old(self).memory_view().entries,
                    EntryModel {
                        advisory: advisory@,
                        inserted_at: now as int,
                        ttl: old(self).memory_view().ttl,
                    },
                )
            }),
    {
        self.memory.insert(advisory, now);
    }

    /// Remove an advisory from memory (the caller removes it from the
    /// persistent layer too).
    pub fn remove(&mut self, advisory_id: &str)
        ensures
            final(self).persistent_layer() == old(self).persistent_layer(),
            final(self).memory_view().ttl == old(self).memory_view().ttl,
            final(self).memory_view().entries == without_id(old(self).memory_view().entries, advisory_id@),
    {
        self.memory.remove(advisory_id);
    }

    /// Remove every advisory from memory (the caller clears the persistent
    /// layer too).
    pub fn clear(&mut self)
        ensures
            final(self).persistent_layer() == old(self).persistent_layer(),
            final(self).memory_view().ttl == old(self).memory_view().ttl,
            final(self).memory_view().entries == Seq::<EntryModel>::empty(),
    {
        self.memory.clear();
    }
}

/// Read access to an advisory cache, at a given time (nanoseconds).
pub trait AdvisoryReadCache {
    /// What a read of `advisory_id` at time `now` gives, in the cache's own
    /// terms.
    spec fn read_model(&self, advisory_id: Seq<char>, now: int) -> Option<AdvisoryModel>;

    /// The cached advisory, or `None` on a miss or an expired entry.
    fn get(&self, advisory_id: &str, now: u128) -> (r: Option<CachedAdvisory>)
        ensures
            match self.read_model(advisory_id@, now as int) {
                Some(a) => r matches Some(x) && x@ == a,
                None => r is None,
            },
    ;

    /// Whether a read of the advisory hits.
    fn contains(&self, advisory_id: &str, now: u128) -> (r: bool)
        ensures
            r == self.read_model(advisory_id@, now as int) is Some,
    {
        self.get(advisory_id, now).is_some()
    }
}

/// Write access to an advisory cache; an advisory's `id` is its key.
pub trait AdvisoryWriteCache: AdvisoryReadCache {
    /// Insert (or replace) an advisory at time `now`.
    fn insert(&mut self, advisory: CachedAdvisory, now: u128);

    /// Remove one advisory.
    fn remove(&mut self, advisory_id: &str);

    /// Remove every advisory.
    fn clear(&mut self);
}

impl AdvisoryReadCache for MemoryAdvisoryCache {
    open spec fn read_model(&self, advisory_id: Seq<char>, now: int) -> Option<AdvisoryModel> {
        read_at(self@.entries, advisory_id, now)
    }

    fn get(&self, advisory_id: &str, now: u128) -> (r: Option<CachedAdvisory>) {
        MemoryAdvisoryCache::get(self, advisory_id, now)
    }
}

impl AdvisoryWriteCache for MemoryAdvisoryCache {
    fn insert(&mut self, advisory: CachedAdvisory, now: u128)
        ensures
            final(self)@.ttl == old(self)@.ttl,
            final(self)@.entries == (if old(self)@.ttl == 0 {
                old(self)@.entries
            } else {
                store(
                    old(self)@.entries,
                    EntryModel { advisory: advisory@, inserted_at: now as int, ttl: old(self)@.ttl },
                )
            }),
    {
        MemoryAdvisoryCache::insert(self, advisory, now)
    }

    fn remove(&mut self, advisory_id: &str)
        ensures
            final(self)@.ttl == old(self)@.ttl,
            final(self)@.entries == without_id(old(self)@.entries, advisory_id@),
    {
        MemoryAdvisoryCache::remove(self, advisory_id)
    }

    fn clear(&mut self)
        ensures
            final(self)@.ttl == old(self)@.ttl,
            final(self)@.entries == Seq::<EntryModel>::empty(),
    {
        MemoryAdvisoryCache::clear(self)
    }
}

impl AdvisoryReadCache for NullAdvisoryCache {
    open spec fn read_model(&self, advisory_id: Seq<char>, now: int) -> Option<AdvisoryModel> {
        None
    }

    fn get(&self, advisory_id: &str, now: u128) -> (r: Option<CachedAdvisory>) {
        None
    }
}

impl AdvisoryWriteCache for NullAdvisoryCache {
    fn insert(&mut self, advisory: CachedAdvisory, now: u128) {
    }

    fn remove(&mut self, advisory_id: &str) {
    }

    fn clear(&mut self) {
    }
}

impl<P> AdvisoryReadCache for HybridAdvisoryCache<P> {
    open spec fn read_model(&self, advisory_id: Seq<char>, now: int) -> Option<AdvisoryModel> {
        read_at(self.memory_view().entries, advisory_id, now)
    }

    fn get(&self, advisory_id: &str, now: u128) -> (r: Option<CachedAdvisory>) {
        HybridAdvisoryCache::get(self, advisory_id, now)
    }
}

impl<P> AdvisoryWriteCache for HybridAdvisoryCache<P> {
    fn insert(&mut self, advisory: CachedAdvisory, now: u128)
        ensures
            final(self).persistent_layer() == old(self).persistent_layer(),
            final(self).memory_view().ttl == old(self).memory_view().ttl,
            final(self).memory_view().entries == (if old(self).memory_view().ttl == 0 {
                old(self).memory_view().entries
            } else {
                store(
                    old(self).memory_view().entries,
                    EntryModel {
                        advisory: advisory@,
                        inserted_at: now as int,
                        ttl: old(self).memory_view().ttl,
                    },
                )
            }),
    {
        HybridAdvisoryCache::insert(self, advisory, now)
    }

    fn remove(&mut self, advisory_id: &str)
        ensures
            final(self).persistent_layer() == old(self).persistent_layer(),
            final(self).memory_view().ttl == old(self).memory_view().ttl,
            final(self).memory_view().entries == without_id(old(self).memory_view().entries, advisory_id@),
    {
        HybridAdvisoryCache::remove(self, advisory_id)
    }

    fn clear(&mut self)
        ensures
            final(self).persistent_layer() == old(self).persistent_layer(),
            final(self).memory_view().ttl == old(self).memory_view().ttl,
            final(self).memory_view().entries == Seq::<EntryModel>::empty(),
    {
        HybridAdvisoryCache::clear(self)
    }
}

/// The entries after inserting `writes` (advisory and time) in order into a
/// layer whose TTL is `ttl`.
pub open spec fn insert_all(s: Seq<EntryModel>, ttl: int, writes: Seq<(AdvisoryModel, int)>) -> Seq<EntryModel>
    decreases writes.len(),
{
    if writes.len() == 0 {
        s
    } else {
        let prev = insert_all(s, ttl, writes.drop_last());
        if ttl == 0 {
            prev
        } else {
            store(prev, EntryModel { advisory: writes.last().0, inserted_at: writes.last().1, ttl })
        }
    }
}

/// With caching disabled (a zero TTL, as [`HybridAdvisoryCache::from_config`]
/// builds it), a cache that starts empty misses on every read, whatever was
/// written to it.
pub proof fn law_disabled_cache_always_misses(writes: Seq<(AdvisoryModel, int)>, id: Seq<char>, t: int)
    ensures
        insert_all(Seq::<EntryModel>::empty(), 0, writes) == Seq::<EntryModel>::empty(),
        read_at(insert_all(Seq::<EntryModel>::empty(), 0, writes), id, t) is None,
    decreases writes.len(),
{
    if writes.len() > 0 {
        law_disabled_cache_always_misses(writes.drop_last(), id, t);
    }
}

/// A read that goes through to the persistent layer never lengthens an
/// advisory's life: the copy kept in memory lives exactly as long as the
/// memory TTL measured from when it was fetched, and is read back until then.
pub proof fn law_backfill_keeps_fetch_deadline(
    s: Seq<EntryModel>,
    a: AdvisoryModel,
    ttl: int,
    since_fetch: u128,
    now: int,
    later: int,
)
    requires
        remaining_ttl(ttl, Some(since_fetch)) > 0,
        now <= later <= now + remaining_ttl(ttl, Some(since_fetch)),
    ensures
        since_fetch + remaining_ttl(ttl, Some(since_fetch)) == ttl,
        read_at(
            store(s, EntryModel { advisory: a, inserted_at: now, ttl: remaining_ttl(ttl, Some(since_fetch)) }),
            a.id,
            later,
        ) == Some(a),
        read_at(
            store(s, EntryModel { advisory: a, inserted_at: now, ttl: remaining_ttl(ttl, Some(since_fetch)) }),
            a.id,
            now + (ttl - since_fetch) + 1,
        ) is None,
{
}

} // verus!
