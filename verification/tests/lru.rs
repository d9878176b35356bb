use bytes::Bytes;
use colander_cache::lru::LruCache;
use colander_cache::traits::{CachePolicy, CachedResponse};

const NOW_MS: u64 = 200_000;

fn resp(ttl_secs: u64) -> CachedResponse {
    CachedResponse {
        status: 200,
        headers: vec![],
        body: Bytes::from_static(b"test"),
        inserted_at_ms: NOW_MS,
        ttl_ms: ttl_secs * 1000,
    }
}

#[test]
fn lru_basic_insert_and_get() {
    let mut cache = LruCache::new(3);
    cache.insert("a".into(), resp(60), NOW_MS);
    cache.insert("b".into(), resp(60), NOW_MS);
    cache.insert("c".into(), resp(60), NOW_MS);

    assert!(cache.get("a", NOW_MS).is_some());
    assert!(cache.get("b", NOW_MS).is_some());
    assert!(cache.get("c", NOW_MS).is_some());
}

#[test]
fn evicts_lru_on_overflow() {
    let mut cache = LruCache::new(2);
    cache.insert("a".into(), resp(60), NOW_MS);
    cache.insert("b".into(), resp(60), NOW_MS);

    cache.get("a", NOW_MS);

    cache.insert("c".into(), resp(60), NOW_MS);
    assert!(cache.get("a", NOW_MS).is_some());
    assert!(cache.get("b", NOW_MS).is_none());
    assert!(cache.get("c", NOW_MS).is_some());
}

#[test]
fn promotion_on_hit() {
    let mut cache = LruCache::new(3);
    cache.insert("a".into(), resp(60), NOW_MS);
    cache.insert("b".into(), resp(60), NOW_MS);
    cache.insert("c".into(), resp(60), NOW_MS);

    cache.get("a", NOW_MS);

    cache.insert("d".into(), resp(60), NOW_MS);
    assert!(cache.get("b", NOW_MS).is_none());

    cache.insert("e".into(), resp(60), NOW_MS);
    assert!(cache.get("c", NOW_MS).is_none());
    assert!(cache.get("a", NOW_MS).is_some());
}

#[test]
fn lru_explicit_remove() {
    let mut cache = LruCache::new(3);
    cache.insert("a".into(), resp(60), NOW_MS);
    assert!(cache.remove("a"));
    assert!(cache.get("a", NOW_MS).is_none());
    assert_eq!(cache.len(), 0);
}

#[test]
fn lru_ttl_expiration() {
    let mut cache = LruCache::new(3);
    cache.insert(
        "expired".into(),
        CachedResponse {
            status: 200,
            headers: vec![],
            body: Bytes::from_static(b"old"),
            inserted_at_ms: NOW_MS - 120_000,
            ttl_ms: 60_000,
        },
        NOW_MS,
    );

    assert!(cache.get("expired", NOW_MS).is_none());
}

#[test]
fn lru_stats_tracking() {
    let mut cache = LruCache::new(2);
    cache.insert("a".into(), resp(60), NOW_MS);
    cache.get("a", NOW_MS);
    cache.get("z", NOW_MS);
    cache.insert("b".into(), resp(60), NOW_MS);
    cache.insert("c".into(), resp(60), NOW_MS);

    let stats = cache.stats();
    assert_eq!(stats.hits, 1);
    assert_eq!(stats.misses, 1);
    assert_eq!(stats.evictions, 1);
}

#[test]
fn lru_reinsert_same_key() {
    let mut cache = LruCache::new(2);
    cache.insert("a".into(), resp(60), NOW_MS);
    cache.insert("b".into(), resp(60), NOW_MS);
    cache.insert("a".into(), resp(60), NOW_MS);

    assert_eq!(cache.len(), 2);
    assert!(cache.get("a", NOW_MS).is_some());
    assert!(cache.get("b", NOW_MS).is_some());
}
