use bytes::Bytes;
use colander_cache::fifo::FifoCache;
use colander_cache::sieve::SieveCache;
use colander_cache::traits::{CachePolicy, CachedResponse};

const NOW_MS: u64 = 200_000;

fn resp(ttl_secs: u64) -> CachedResponse {
    CachedResponse {
        status: 200,
        headers: vec![],
        body: Bytes::from_static(b"test"),
        inserted_at_ms: NOW_MS,
        ttl_ms: ttl_secs * 1000,
    }
}

#[test]
fn sieve_basic_insert_and_get() {
    let mut cache = SieveCache::new(3);
    cache.insert("a".into(), resp(60), NOW_MS);
    cache.insert("b".into(), resp(60), NOW_MS);
    cache.insert("c".into(), resp(60), NOW_MS);

    assert!(cache.get("a", NOW_MS).is_some());
    assert!(cache.get("b", NOW_MS).is_some());
    assert!(cache.get("c", NOW_MS).is_some());
    assert!(cache.get("d", NOW_MS).is_none());
}

#[test]
fn evicts_unvisited_from_tail() {
    let mut cache = SieveCache::new(3);
    cache.insert("a".into(), resp(60), NOW_MS);
    cache.insert("b".into(), resp(60), NOW_MS);
    cache.insert("c".into(), resp(60), NOW_MS);

    cache.insert("d".into(), resp(60), NOW_MS);

    assert!(cache.get("a", NOW_MS).is_none());
    assert!(cache.get("b", NOW_MS).is_some());
    assert!(cache.get("c", NOW_MS).is_some());
    assert!(cache.get("d", NOW_MS).is_some());
}

#[test]
fn retains_visited_objects_in_place() {
    let mut cache = SieveCache::new(3);
    cache.insert("a".into(), resp(60), NOW_MS);
    cache.insert("b".into(), resp(60), NOW_MS);
    cache.insert("c".into(), resp(60), NOW_MS);

    cache.get("a", NOW_MS);

    cache.insert("d".into(), resp(60), NOW_MS);

    assert!(cache.get("a", NOW_MS).is_some());
    assert!(cache.get("b", NOW_MS).is_none());
    assert!(cache.get("c", NOW_MS).is_some());
    assert!(cache.get("d", NOW_MS).is_some());
}

#[test]
fn hand_continues_from_last_position() {
    let mut cache = SieveCache::new(3);
    cache.insert("a".into(), resp(60), NOW_MS);
    cache.insert("b".into(), resp(60), NOW_MS);
    cache.insert("c".into(), resp(60), NOW_MS);

    cache.get("a", NOW_MS);
    cache.get("b", NOW_MS);

    cache.insert("d".into(), resp(60), NOW_MS);
    assert!(cache.get("c", NOW_MS).is_none());

    cache.get("b", NOW_MS);

    cache.insert("e".into(), resp(60), NOW_MS);
    assert!(cache.get("a", NOW_MS).is_none());
    assert!(cache.get("b", NOW_MS).is_some());
    assert!(cache.get("d", NOW_MS).is_some());
    assert!(cache.get("e", NOW_MS).is_some());
}

#[test]
fn no_list_mutation_on_hit() {
    let mut cache = SieveCache::new(3);
    cache.insert("a".into(), resp(60), NOW_MS);
    cache.insert("b".into(), resp(60), NOW_MS);
    cache.insert("c".into(), resp(60), NOW_MS);

    cache.get("a", NOW_MS);
    cache.get("a", NOW_MS);
    cache.get("a", NOW_MS);

    cache.insert("d".into(), resp(60), NOW_MS);

    assert!(cache.get("a", NOW_MS).is_some());
    assert!(cache.get("b", NOW_MS).is_none());
}

#[test]
fn sieve_vs_fifo_advantage() {
    let mut sieve = SieveCache::new(3);
    let mut fifo = FifoCache::new(3);

    for key in &["a", "b", "c"] {
        sieve.insert(key.to_string(), resp(60), NOW_MS);
        fifo.insert(key.to_string(), resp(60), NOW_MS);
    }

    for _ in 0..10 {
        sieve.get("a", NOW_MS);
        fifo.get("a", NOW_MS);
    }

    sieve.insert("d".into(), resp(60), NOW_MS);
    fifo.insert("d".into(), resp(60), NOW_MS);

    assert!(sieve.get("a", NOW_MS).is_some(), "SIEVE should retain popular 'a'");
    assert!(fifo.get("a", NOW_MS).is_none(), "FIFO should evict oldest 'a'");
}

#[test]
fn sieve_explicit_remove() {
    let mut cache = SieveCache::new(3);
    cache.insert("a".into(), resp(60), NOW_MS);
    assert!(cache.remove("a"));
    assert!(cache.get("a", NOW_MS).is_none());
    assert_eq!(cache.len(), 0);
}

#[test]
fn remove_hand_target() {
    let mut cache = SieveCache::new(3);
    cache.insert("a".into(), resp(60), NOW_MS);
    cache.insert("b".into(), resp(60), NOW_MS);
    cache.insert("c".into(), resp(60), NOW_MS);

    cache.get("a", NOW_MS);
    cache.insert("d".into(), resp(60), NOW_MS);

    cache.remove("a");
    assert_eq!(cache.len(), 2);

    cache.insert("e".into(), resp(60), NOW_MS);
    cache.insert("f".into(), resp(60), NOW_MS);
    assert_eq!(cache.len(), 3);
}

#[test]
fn sieve_ttl_expiration() {
    let mut cache = SieveCache::new(3);
    cache.insert(
        "expired".into(),
        CachedResponse {
            status: 200,
            headers: vec![],
            body: Bytes::from_static(b"old"),
            inserted_at_ms: NOW_MS - 120_000,
            ttl_ms: 60_000,
        },
        NOW_MS,
    );

    assert!(cache.get("expired", NOW_MS).is_none());
}

#[test]
fn evict_expired_regardless_of_visited() {
    // Insert "a" fresh, mark it visited by a hit, then let it age past its
    // TTL before the eviction scan runs: the scan must evict it even though
    // its visited bit is set.
    let mut cache = SieveCache::new(2);
    cache.insert(
        "a".into(),
        CachedResponse {
            status: 200,
            headers: vec![],
            body: Bytes::from_static(b"old"),
            inserted_at_ms: NOW_MS - 120_000,
            ttl_ms: 60_000,
        },
        NOW_MS - 120_000,
    );
    cache.get("a", NOW_MS - 120_000);

    cache.insert("b".into(), resp(60), NOW_MS);

    cache.insert("c".into(), resp(60), NOW_MS);
    assert_eq!(cache.len(), 2);
    assert!(cache.get("a", NOW_MS).is_none());
}

#[test]
fn sieve_stats_tracking() {
    let mut cache = SieveCache::new(2);
    cache.insert("a".into(), resp(60), NOW_MS);
    cache.get("a", NOW_MS);
    cache.get("z", NOW_MS);
    cache.insert("b".into(), resp(60), NOW_MS);
    cache.insert("c".into(), resp(60), NOW_MS);

    let stats = cache.stats();
    assert_eq!(stats.hits, 1);
    assert_eq!(stats.misses, 1);
    assert_eq!(stats.evictions, 1);
}

#[test]
fn sieve_reinsert_same_key() {
    let mut cache = SieveCache::new(2);
    cache.insert("a".into(), resp(60), NOW_MS);
    cache.insert("b".into(), resp(60), NOW_MS);
    cache.insert("a".into(), resp(60), NOW_MS);

    assert_eq!(cache.len(), 2);
    assert!(cache.get("a", NOW_MS).is_some());
    assert!(cache.get("b", NOW_MS).is_some());
}

#[test]
fn full_wrap_around() {
    let mut cache = SieveCache::new(3);
    cache.insert("a".into(), resp(60), NOW_MS);
    cache.insert("b".into(), resp(60), NOW_MS);
    cache.insert("c".into(), resp(60), NOW_MS);

    cache.get("a", NOW_MS);
    cache.get("b", NOW_MS);
    cache.get("c", NOW_MS);

    cache.insert("d".into(), resp(60), NOW_MS);
    assert_eq!(cache.len(), 3);
    let alive: Vec<&str> = ["a", "b", "c", "d"]
        .iter()
        .filter(|k| cache.get(k, NOW_MS).is_some())
        .copied()
        .collect();
    assert_eq!(alive.len(), 3);
    assert!(alive.contains(&"d"));
}
