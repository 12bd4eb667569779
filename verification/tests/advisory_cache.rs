use depsy_lsp::cache::advisory::{
    hybrid_layers, negative_hybrid_layers, AdvisoryReadCache, AdvisoryWriteCache,
    HybridAdvisoryCache, AdvisoryCacheStats, AdvisoryKind, CachedAdvisory,
    HybridLayers, MemoryAdvisoryCache, NullAdvisoryCache, DEFAULT_ADVISORY_TTL_NANOS,
    NANOS_PER_SEC,
};
use depsy_lsp::config::AdvisoryCacheConfig;
use std::time::SystemTime;

fn sample_found(id: &str) -> CachedAdvisory {
    CachedAdvisory {
        id: id.to_string(),
        kind: AdvisoryKind::Found { summary: Some("unmaintained".to_string()), unmaintained: true },
        fetched_at: SystemTime::UNIX_EPOCH,
    }
}

fn sample_not_found(id: &str) -> CachedAdvisory {
    CachedAdvisory { id: id.to_string(), kind: AdvisoryKind::NotFound, fetched_at: SystemTime::UNIX_EPOCH }
}

#[test]
fn memory_insert_and_get_round_trip() {
    let mut cache = MemoryAdvisoryCache::new();
    assert_eq!(cache.ttl(), DEFAULT_ADVISORY_TTL_NANOS);
    cache.insert(sample_found("RUSTSEC-2020-0036"), 10);
    assert_eq!(cache.get("RUSTSEC-2020-0036", 10), Some(sample_found("RUSTSEC-2020-0036")));
    assert_eq!(cache.get("RUSTSEC-9999-9999", 10), None);
}

#[test]
fn memory_entry_expires_after_ttl() {
    let mut cache = MemoryAdvisoryCache::with_ttl(5 * NANOS_PER_SEC);
    cache.insert(sample_found("A"), 0);
    assert!(cache.get("A", 5 * NANOS_PER_SEC).is_some());
    assert!(cache.get("A", 5 * NANOS_PER_SEC + 1).is_none());
}

#[test]
fn memory_second_insert_overwrites_first() {
    let mut cache = MemoryAdvisoryCache::new();
    cache.insert(sample_found("A"), 0);
    cache.insert(sample_not_found("A"), 1);
    assert_eq!(cache.len(), 1);
    assert_eq!(cache.get("A", 2), Some(sample_not_found("A")));
}

#[test]
fn memory_zero_ttl_drops_writes() {
    let mut cache = MemoryAdvisoryCache::with_ttl(0);
    cache.insert(sample_found("A"), 0);
    assert!(cache.is_empty());
    assert!(cache.get("A", 0).is_none());
}

#[test]
fn memory_remove_and_clear() {
    let mut cache = MemoryAdvisoryCache::new();
    cache.insert(sample_found("A"), 0);
    cache.insert(sample_found("B"), 0);
    cache.remove("A");
    assert!(cache.get("A", 0).is_none());
    assert!(cache.get("B", 0).is_some());
    cache.clear();
    assert!(cache.is_empty());
}

#[test]
fn memory_cleanup_and_stats() {
    let mut cache = MemoryAdvisoryCache::with_ttl(10);
    cache.insert(sample_found("old"), 0);
    cache.insert(sample_found("new"), 15);
    assert_eq!(cache.stats(20), AdvisoryCacheStats { total: 2, expired: 1, valid: 1 });
    assert_eq!(cache.cleanup_expired(20), 1);
    assert_eq!(cache.len(), 1);
    assert!(cache.get("new", 20).is_some());
    assert_eq!(cache.stats(20), AdvisoryCacheStats { total: 1, expired: 0, valid: 1 });
}

#[test]
fn memory_remaining_ttl_insert() {
    let mut cache = MemoryAdvisoryCache::with_ttl(100);
    cache.insert_with_remaining_ttl(sample_found("A"), 0, 0);
    assert!(cache.is_empty());
    cache.insert_with_remaining_ttl(sample_found("A"), 10, 0);
    assert!(cache.get("A", 10).is_some());
    assert!(cache.get("A", 11).is_none());
}

#[test]
fn backfill_keeps_only_remaining_lifetime() {
    let mut cache = MemoryAdvisoryCache::with_ttl(100);
    cache.backfill(sample_found("A"), Some(60), 1000);
    assert!(cache.get("A", 1040).is_some());
    assert!(cache.get("A", 1041).is_none());
    cache.backfill(sample_found("B"), Some(100), 1000);
    assert!(cache.get("B", 1000).is_none());
    cache.backfill(sample_found("C"), None, 1000);
    assert!(cache.get("C", 1000).is_none());
}

#[test]
fn null_cache_always_misses() {
    let mut cache = NullAdvisoryCache;
    AdvisoryWriteCache::insert(&mut cache, sample_found("A"), 0);
    assert!(AdvisoryReadCache::get(&cache, "A", 0).is_none());
    assert!(!cache.contains("A", 0));
}

#[test]
fn caches_behind_the_traits() {
    fn exercise(cache: &mut dyn AdvisoryWriteCache) -> (bool, bool) {
        cache.insert(sample_found("A"), 0);
        let hit = cache.contains("A", 1);
        cache.remove("A");
        (hit, cache.contains("A", 1))
    }
    let mut memory = MemoryAdvisoryCache::new();
    assert_eq!(exercise(&mut memory), (true, false));
    let mut null = NullAdvisoryCache;
    assert_eq!(exercise(&mut null), (false, false));
    let mut hybrid: HybridAdvisoryCache<()> =
        HybridAdvisoryCache::from_parts(MemoryAdvisoryCache::new(), None);
    assert_eq!(exercise(&mut hybrid), (true, false));
    hybrid.insert(sample_found("B"), 0);
    AdvisoryWriteCache::clear(&mut hybrid);
    assert!(!hybrid.contains("B", 0));
}

#[test]
fn layers_from_config() {
    let mut config = AdvisoryCacheConfig::default();
    assert_eq!(hybrid_layers(&config), HybridLayers { memory_ttl_secs: 86_400, persistent: true });
    assert_eq!(
        negative_hybrid_layers(&config),
        HybridLayers { memory_ttl_secs: 3_600, persistent: false }
    );
    config.enabled = false;
    assert_eq!(hybrid_layers(&config), HybridLayers { memory_ttl_secs: 0, persistent: false });
    assert_eq!(negative_hybrid_layers(&config), HybridLayers { memory_ttl_secs: 0, persistent: false });
}

#[test]
fn hybrid_from_config_disabled_always_misses() {
    let config = AdvisoryCacheConfig { enabled: false, ..AdvisoryCacheConfig::default() };
    let mut cache: HybridAdvisoryCache<Vec<CachedAdvisory>> =
        HybridAdvisoryCache::from_config(&config, Some(Vec::new()));
    assert!(cache.persistent().is_none());
    cache.insert(sample_found("A"), 0);
    assert!(cache.get("A", 0).is_none());
}

#[test]
fn hybrid_from_config_enabled_uses_configured_ttl() {
    let config = AdvisoryCacheConfig { ttl_secs: 2, ..AdvisoryCacheConfig::default() };
    let mut cache: HybridAdvisoryCache<Vec<CachedAdvisory>> =
        HybridAdvisoryCache::from_config(&config, Some(Vec::new()));
    assert!(cache.persistent().is_some());
    cache.insert(sample_found("A"), 0);
    assert!(cache.get("A", 2 * NANOS_PER_SEC).is_some());
    assert!(cache.get("A", 2 * NANOS_PER_SEC + 1).is_none());
}

#[test]
fn hybrid_negative_cache_is_memory_only() {
    let config = AdvisoryCacheConfig::default();
    let mut cache: HybridAdvisoryCache<Vec<CachedAdvisory>> =
        HybridAdvisoryCache::negative_from_config(&config);
    assert!(cache.persistent().is_none());
    cache.insert(sample_not_found("X"), 0);
    assert!(cache.get("X", 3_600 * NANOS_PER_SEC).is_some());
    assert!(cache.get("X", 3_600 * NANOS_PER_SEC + 1).is_none());
}

#[test]
fn hybrid_backfill_then_hit_and_remove() {
    let memory = MemoryAdvisoryCache::with_ttl(100);
    let mut cache: HybridAdvisoryCache<Vec<CachedAdvisory>> =
        HybridAdvisoryCache::from_parts(memory, None);
    assert!(cache.get("A", 0).is_none());
    cache.backfill(sample_found("A"), Some(30), 0);
    assert_eq!(cache.get("A", 70), Some(sample_found("A")));
    assert!(cache.get("A", 71).is_none());
    cache.remove("A");
    assert!(cache.get("A", 0).is_none());
    cache.insert(sample_found("B"), 0);
    cache.clear();
    assert!(cache.get("B", 0).is_none());
}

const MS: u128 = 1_000_000;

#[test]
fn hybrid_l1_hit_returns_without_consulting_l2() {
    let mut memory = MemoryAdvisoryCache::new();
    let advisory = sample_found("RUSTSEC-2020-0036");
    memory.insert(advisory.clone(), 0);
    let mut hybrid: HybridAdvisoryCache<Vec<CachedAdvisory>> =
        HybridAdvisoryCache::from_parts(memory, Some(Vec::new()));
    assert!(!hybrid.needs_persistent_read("RUSTSEC-2020-0036", 0));
    assert_eq!(hybrid.read_through("RUSTSEC-2020-0036", None, None, 0), Some(advisory));
}

#[test]
fn hybrid_l2_hit_backfills_l1() {
    let mut hybrid: HybridAdvisoryCache<Vec<CachedAdvisory>> =
        HybridAdvisoryCache::new(Some(Vec::new()));
    let advisory = sample_found("RUSTSEC-2020-0036");
    assert!(hybrid.needs_persistent_read(&advisory.id, 5));
    assert_eq!(
        hybrid.read_through(&advisory.id, Some(advisory.clone()), Some(0), 5),
        Some(advisory.clone())
    );
    assert_eq!(hybrid.get(&advisory.id, 5), Some(advisory.clone()));
    assert!(!hybrid.needs_persistent_read(&advisory.id, 5));
}

#[test]
fn hybrid_l2_backfill_preserves_remaining_ttl() {
    let memory = MemoryAdvisoryCache::with_ttl(50 * MS);
    let mut hybrid: HybridAdvisoryCache<Vec<CachedAdvisory>> =
        HybridAdvisoryCache::from_parts(memory, Some(Vec::new()));
    let advisory = CachedAdvisory {
        id: "RUSTSEC-2020-0036".to_string(),
        kind: AdvisoryKind::Found { summary: None, unmaintained: false },
        fetched_at: SystemTime::UNIX_EPOCH,
    };
    let now = 1_000 * MS;
    assert_eq!(
        hybrid.read_through(&advisory.id, Some(advisory.clone()), Some(40 * MS), now),
        Some(advisory.clone())
    );
    assert!(hybrid.get(&advisory.id, now).is_some());
    assert!(hybrid.get(&advisory.id, now + 10 * MS).is_some());
    assert!(
        hybrid.get(&advisory.id, now + 30 * MS).is_none(),
        "L1 backfill must not extend effective TTL past fetched_at + memory_ttl"
    );
}

#[test]
fn hybrid_l2_backfill_skips_when_remaining_ttl_is_zero() {
    let memory = MemoryAdvisoryCache::with_ttl(10 * MS);
    let mut hybrid: HybridAdvisoryCache<Vec<CachedAdvisory>> =
        HybridAdvisoryCache::from_parts(memory, Some(Vec::new()));
    let advisory = sample_not_found("RUSTSEC-2020-0036");
    assert_eq!(
        hybrid.read_through(&advisory.id, Some(advisory.clone()), Some(60_000 * MS), 0),
        Some(advisory.clone())
    );
    assert!(hybrid.get(&advisory.id, 0).is_none());
    assert_eq!(hybrid.read_through(&advisory.id, Some(advisory.clone()), None, 0), Some(advisory.clone()));
    assert!(hybrid.get(&advisory.id, 0).is_none());
}

#[test]
fn hybrid_double_miss_returns_none() {
    let mut hybrid: HybridAdvisoryCache<Vec<CachedAdvisory>> =
        HybridAdvisoryCache::new(Some(Vec::new()));
    assert!(hybrid.needs_persistent_read("RUSTSEC-1990-0001", 0));
    assert!(hybrid.read_through("RUSTSEC-1990-0001", None, None, 0).is_none());
}

#[test]
fn hybrid_with_no_sqlite_falls_back_to_memory_only() {
    let mut hybrid: HybridAdvisoryCache<Vec<CachedAdvisory>> = HybridAdvisoryCache::new(None);
    let advisory = sample_found("RUSTSEC-2020-0036");
    assert!(!hybrid.needs_persistent_read(&advisory.id, 0));
    assert!(hybrid.read_through(&advisory.id, Some(advisory.clone()), Some(0), 0).is_none());
    hybrid.insert(advisory.clone(), 0);
    assert_eq!(hybrid.read_through(&advisory.id, None, None, 0), Some(advisory));
}
