use bytes::Bytes;
use colander_cache::fifo::FifoCache;
use colander_cache::lru::LruCache;
use colander_cache::sharded::ShardedCache;
use colander_cache::sieve::SieveCache;
use colander_cache::traits::CachedResponse;

const NOW_MS: u64 = 200_000;

fn resp() -> CachedResponse {
    CachedResponse {
        status: 200,
        headers: vec![],
        body: Bytes::from_static(b"test"),
        inserted_at_ms: NOW_MS,
        ttl_ms: 60_000,
    }
}

fn assert_send_sync<T: Send + Sync>() {}

#[test]
fn sharded_sieve_basic() {
    let mut cache = ShardedCache::new(1024, SieveCache::new);

    cache.insert("hello".into(), resp(), NOW_MS);
    assert!(cache.get("hello", NOW_MS).is_some());
    assert!(cache.get("missing", NOW_MS).is_none());
    assert_eq!(cache.name(), "SIEVE");
}

#[test]
fn sharded_lru_basic() {
    let mut cache = ShardedCache::new(1024, LruCache::new);

    cache.insert("hello".into(), resp(), NOW_MS);
    assert!(cache.get("hello", NOW_MS).is_some());
    assert!(cache.get("missing", NOW_MS).is_none());
    assert_eq!(cache.name(), "LRU");
}

#[test]
fn sharded_fifo_basic() {
    let mut cache = ShardedCache::new(1024, FifoCache::new);

    cache.insert("hello".into(), resp(), NOW_MS);
    assert!(cache.get("hello", NOW_MS).is_some());
    assert_eq!(cache.name(), "FIFO");
}

#[test]
fn distributes_across_shards() {
    let mut cache = ShardedCache::new(640, SieveCache::new);

    for i in 0..200 {
        cache.insert(format!("key-{}", i), resp(), NOW_MS);
    }

    assert_eq!(cache.len(), 200);

    // With 640 total slots each shard holds at most 10 entries, so a count
    // of 200 live entries is only possible when the keys landed on many
    // different shards.
    assert!(cache.len() > 640 / 64, "expected keys distributed across multiple shards");
}

#[test]
fn remove_works() {
    let mut cache = ShardedCache::new(1024, SieveCache::new);

    cache.insert("a".into(), resp(), NOW_MS);
    assert!(cache.get("a", NOW_MS).is_some());
    assert!(cache.remove("a"));
    assert!(cache.get("a", NOW_MS).is_none());
    assert!(!cache.remove("a"));
}

#[test]
fn stats_aggregate() {
    let mut cache = ShardedCache::new(1024, SieveCache::new);

    cache.insert("a".into(), resp(), NOW_MS);
    cache.insert("b".into(), resp(), NOW_MS);
    cache.get("a", NOW_MS);
    cache.get("z", NOW_MS);

    let stats = cache.stats();
    assert_eq!(stats.hits, 1);
    assert_eq!(stats.misses, 1);
    assert_eq!(stats.current_size, 2);
}

#[test]
fn eviction_within_shard() {
    let mut cache = ShardedCache::new(64, SieveCache::new);

    for i in 0..500 {
        cache.insert(format!("key-{}", i), resp(), NOW_MS);
    }

    assert!(
        cache.len() <= cache.capacity(),
        "len {} exceeded capacity {}",
        cache.len(),
        cache.capacity()
    );

    let stats = cache.stats();
    assert!(stats.evictions > 0, "expected evictions to occur");
}

#[test]
fn ttl_expiration_through_sharded() {
    let mut cache = ShardedCache::new(1024, SieveCache::new);

    cache.insert(
        "expired".into(),
        CachedResponse {
            status: 200,
            headers: vec![],
            body: Bytes::from_static(b"old"),
            inserted_at_ms: NOW_MS - 120_000,
            ttl_ms: 60_000,
        },
        NOW_MS,
    );

    assert!(cache.get("expired", NOW_MS).is_none());
}

#[test]
fn is_send_and_sync() {
    assert_send_sync::<ShardedCache<SieveCache>>();
    assert_send_sync::<ShardedCache<LruCache>>();
    assert_send_sync::<ShardedCache<FifoCache>>();
}

#[test]
fn sharded_is_empty_and_capacity() {
    let mut cache = ShardedCache::new(1024, SieveCache::new);
    assert!(cache.is_empty());
    assert_eq!(cache.capacity(), 1024);
    cache.insert("x".into(), resp(), NOW_MS);
    assert!(!cache.is_empty());
    assert_eq!(cache.len(), 1);
}
