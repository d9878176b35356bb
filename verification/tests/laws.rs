use bytes::Bytes;
use colander_cache::fifo::FifoCache;
use colander_cache::lru::LruCache;
use colander_cache::sieve::SieveCache;
use colander_cache::traits::{CachePolicy, CachedResponse};

const NOW_MS: u64 = 200_000;

fn resp_with(body: &'static [u8]) -> CachedResponse {
    CachedResponse {
        status: 200,
        headers: vec![],
        body: Bytes::from_static(body),
        inserted_at_ms: NOW_MS,
        ttl_ms: 60_000,
    }
}

fn resp() -> CachedResponse {
    resp_with(b"test")
}

#[test]
fn len_never_exceeds_capacity() {
    let mut sieve = SieveCache::new(10);
    let mut lru = LruCache::new(10);
    let mut fifo = FifoCache::new(10);
    for i in 0..100 {
        let key = format!("key-{}", i % 37);
        sieve.insert(key.clone(), resp(), NOW_MS);
        lru.insert(key.clone(), resp(), NOW_MS);
        fifo.insert(key.clone(), resp(), NOW_MS);
        sieve.get(&format!("key-{}", i % 11), NOW_MS);
        assert!(sieve.len() <= sieve.capacity());
        assert!(lru.len() <= lru.capacity());
        assert!(fifo.len() <= fifo.capacity());
    }
}

#[test]
fn counters_never_decrease() {
    let mut cache = SieveCache::new(4);
    let mut last = cache.stats();
    for i in 0..50 {
        match i % 4 {
            0 => {
                cache.insert(format!("k{}", i % 9), resp(), NOW_MS);
            },
            1 => {
                cache.get(&format!("k{}", i % 13), NOW_MS);
            },
            2 => {
                cache.remove(&format!("k{}", i % 7));
            },
            _ => {
                cache.get(&format!("k{}", i % 5), NOW_MS);
            },
        }
        let now = cache.stats();
        assert!(now.hits >= last.hits);
        assert!(now.misses >= last.misses);
        assert!(now.evictions >= last.evictions);
        last = now;
    }
}

#[test]
fn every_get_is_a_hit_or_a_miss() {
    let mut cache = LruCache::new(4);
    cache.insert("a".into(), resp(), NOW_MS);
    for i in 0..20 {
        let before = cache.stats();
        cache.get(&format!("k{}", i % 3), NOW_MS);
        let after = cache.stats();
        assert_eq!(after.hits + after.misses, before.hits + before.misses + 1);
    }
}

#[test]
fn insert_then_get_returns_the_value() {
    let mut sieve = SieveCache::new(2);
    sieve.insert("a".into(), resp_with(b"alpha"), NOW_MS);
    sieve.insert("b".into(), resp_with(b"beta"), NOW_MS);
    sieve.insert("c".into(), resp_with(b"gamma"), NOW_MS);
    let got = sieve.get("c", NOW_MS).expect("just-inserted key must be present");
    assert_eq!(&got.body[..], b"gamma");

    let mut lru = LruCache::new(1);
    lru.insert("x".into(), resp_with(b"ex"), NOW_MS);
    lru.insert("y".into(), resp_with(b"why"), NOW_MS);
    let got = lru.get("y", NOW_MS).expect("just-inserted key must be present");
    assert_eq!(&got.body[..], b"why");
}

#[test]
fn remove_then_get_misses_and_len_drops() {
    let mut cache = FifoCache::new(4);
    cache.insert("a".into(), resp(), NOW_MS);
    cache.insert("b".into(), resp(), NOW_MS);
    let before = cache.len();
    assert!(cache.remove("a"));
    assert_eq!(cache.len(), before - 1);
    assert!(cache.get("a", NOW_MS).is_none());
}

#[test]
fn second_remove_reports_false() {
    let mut sieve = SieveCache::new(4);
    sieve.insert("a".into(), resp(), NOW_MS);
    assert!(sieve.remove("a"));
    assert!(!sieve.remove("a"));

    let mut lru = LruCache::new(4);
    lru.insert("a".into(), resp(), NOW_MS);
    assert!(lru.remove("a"));
    assert!(!lru.remove("a"));
}

#[test]
fn reinsert_preserves_len_on_all_policies() {
    let mut sieve = SieveCache::new(3);
    let mut lru = LruCache::new(3);
    let mut fifo = FifoCache::new(3);
    sieve.insert("a".into(), resp(), NOW_MS);
    sieve.insert("b".into(), resp(), NOW_MS);
    sieve.insert("a".into(), resp_with(b"new"), NOW_MS);
    assert_eq!(sieve.len(), 2);
    assert_eq!(&sieve.get("a", NOW_MS).unwrap().body[..], b"new");

    lru.insert("a".into(), resp(), NOW_MS);
    lru.insert("a".into(), resp(), NOW_MS);
    assert_eq!(lru.len(), 1);

    fifo.insert("a".into(), resp(), NOW_MS);
    fifo.insert("a".into(), resp(), NOW_MS);
    assert_eq!(fifo.len(), 1);
}

#[test]
fn returned_values_are_never_expired() {
    let mut cache = SieveCache::new(4);
    cache.insert("fresh".into(), resp(), NOW_MS);
    cache.insert(
        "stale".into(),
        CachedResponse {
            status: 200,
            headers: vec![],
            body: Bytes::from_static(b"old"),
            inserted_at_ms: NOW_MS - 120_000,
            ttl_ms: 60_000,
        },
        NOW_MS,
    );
    for key in ["fresh", "stale", "absent"] {
        if let Some(v) = cache.get(key, NOW_MS) {
            assert!(!v.is_expired(NOW_MS));
        }
    }
}
