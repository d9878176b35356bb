use bytes::Bytes;
use colander_cache::fifo::FifoCache;
use colander_cache::traits::{CachePolicy, CachedResponse};

const NOW_MS: u64 = 200_000;

fn resp(ttl_secs: u64) -> CachedResponse {
    CachedResponse {
        status: 200,
        headers: vec![],
        body: Bytes::from_static(b"test"),
        inserted_at_ms: NOW_MS,
        ttl_ms: ttl_secs * 1000,
    }
}

#[test]
fn fifo_basic_insert_and_get() {
    let mut cache = FifoCache::new(3);
    cache.insert("a".into(), resp(60), NOW_MS);
    cache.insert("b".into(), resp(60), NOW_MS);
    cache.insert("c".into(), resp(60), NOW_MS);

    assert!(cache.get("a", NOW_MS).is_some());
    assert!(cache.get("b", NOW_MS).is_some());
    assert!(cache.get("c", NOW_MS).is_some());
    assert!(cache.get("d", NOW_MS).is_none());
}

#[test]
fn evicts_oldest_on_overflow() {
    let mut cache = FifoCache::new(2);
    cache.insert("a".into(), resp(60), NOW_MS);
    cache.insert("b".into(), resp(60), NOW_MS);
    cache.insert("c".into(), resp(60), NOW_MS);

    assert!(cache.get("a", NOW_MS).is_none());
    assert!(cache.get("b", NOW_MS).is_some());
    assert!(cache.get("c", NOW_MS).is_some());
}

#[test]
fn no_promotion_on_hit() {
    let mut cache = FifoCache::new(2);
    cache.insert("a".into(), resp(60), NOW_MS);
    cache.insert("b".into(), resp(60), NOW_MS);

    cache.get("a", NOW_MS);

    cache.insert("c".into(), resp(60), NOW_MS);
    assert!(cache.get("a", NOW_MS).is_none());
}

#[test]
fn fifo_explicit_remove() {
    let mut cache = FifoCache::new(3);
    cache.insert("a".into(), resp(60), NOW_MS);
    assert!(cache.remove("a"));
    assert!(!cache.remove("a"));
    assert!(cache.get("a", NOW_MS).is_none());
    assert_eq!(cache.len(), 0);
}

#[test]
fn fifo_ttl_expiration() {
    let mut cache = FifoCache::new(3);
    cache.insert(
        "expired".into(),
        CachedResponse {
            status: 200,
            headers: vec![],
            body: Bytes::from_static(b"old"),
            inserted_at_ms: NOW_MS - 120_000,
            ttl_ms: 60_000,
        },
        NOW_MS,
    );

    assert!(cache.get("expired", NOW_MS).is_none());
}

#[test]
fn fifo_stats_tracking() {
    let mut cache = FifoCache::new(2);
    cache.insert("a".into(), resp(60), NOW_MS);
    cache.get("a", NOW_MS);
    cache.get("b", NOW_MS);
    cache.insert("b".into(), resp(60), NOW_MS);
    cache.insert("c".into(), resp(60), NOW_MS);

    let stats = cache.stats();
    assert_eq!(stats.hits, 1);
    assert_eq!(stats.misses, 1);
    assert_eq!(stats.evictions, 1);
    assert_eq!(stats.current_size, 2);
    assert_eq!(stats.capacity, 2);
}

#[test]
fn fifo_reinsert_same_key() {
    let mut cache = FifoCache::new(2);
    cache.insert("a".into(), resp(60), NOW_MS);
    cache.insert("b".into(), resp(60), NOW_MS);
    cache.insert("a".into(), resp(60), NOW_MS);

    assert_eq!(cache.len(), 2);
    assert!(cache.get("a", NOW_MS).is_some());
    assert!(cache.get("b", NOW_MS).is_some());
}
