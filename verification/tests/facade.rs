use bytes::Bytes;
use colander_cache::cache_layer::{CacheLayer, CacheMode, parse_cache_control, should_cache_response};
use colander_cache::config::{Config, plan_reload, secs_to_ms};
use colander_cache::traits::CachedResponse;

const NOW_MS: u64 = 200_000;

fn resp(body: &'static [u8]) -> CachedResponse {
    CachedResponse {
        status: 200,
        headers: vec![("content-type".to_string(), "text/plain".to_string())],
        body: Bytes::from_static(body),
        inserted_at_ms: NOW_MS,
        ttl_ms: 60_000,
    }
}

#[test]
fn layer_insert_and_get_round_trip() {
    let mut layer = CacheLayer::new("sieve", Some("lru"), 1024, 60_000, 1_048_576);
    layer.insert("k".to_string(), resp(b"payload"), NOW_MS);

    let lookup = layer.get("k", NOW_MS);
    assert!(lookup.is_hit());
    let v = lookup.value.unwrap();
    assert_eq!(v.status, 200);
    assert_eq!(&v.body[..], b"payload");
    // The comparison cache saw the same insert, so it reports a hit too.
    assert!(lookup.comparison_hit);
}

#[test]
fn layer_bench_mode_skips_comparison() {
    let mut layer = CacheLayer::new("sieve", Some("fifo"), 1024, 60_000, 1_048_576);
    layer.set_mode(CacheMode::Bench);
    assert!(!layer.is_demo_mode());
    assert_eq!(layer.mode(), CacheMode::Bench);

    layer.insert("k".to_string(), resp(b"x"), NOW_MS);
    let lookup = layer.get("k", NOW_MS);
    assert!(lookup.is_hit());
    assert!(!lookup.comparison_hit);

    let comp = layer.comparison_stats().unwrap();
    assert_eq!(comp.current_size, 0);
}

#[test]
fn layer_names() {
    let layer = CacheLayer::new("sieve", Some("lru"), 1024, 60_000, 1_048_576);
    assert_eq!(layer.primary_name(), "SIEVE");
    assert_eq!(layer.comparison_name(), Some("LRU"));

    let bare = CacheLayer::new("fifo", None, 64, 1000, 10);
    assert_eq!(bare.primary_name(), "FIFO");
    assert_eq!(bare.comparison_name(), None);
    assert!(bare.comparison_stats().is_none());
}

#[test]
fn layer_raw_round_trip() {
    let mut layer = CacheLayer::new("sieve", None, 1024, 60_000, 1_048_576);
    layer.insert_raw("raw".to_string(), Bytes::from_static(b"bytes!"), Some(30_000), NOW_MS);

    let got = layer.get_raw("raw", NOW_MS).unwrap();
    assert_eq!(&got[..], b"bytes!");

    let remaining = layer.ttl_remaining("raw", NOW_MS + 10_000).unwrap();
    assert_eq!(remaining, 20_000);

    assert!(layer.get_raw("absent", NOW_MS).is_none());
    assert!(layer.ttl_remaining("absent", NOW_MS).is_none());
}

#[test]
fn layer_ttl_defaults_and_expiry() {
    let mut layer = CacheLayer::new("sieve", None, 1024, 5_000, 1_048_576);
    layer.insert_raw("d".to_string(), Bytes::from_static(b"v"), None, NOW_MS);
    // Default TTL of five seconds: gone six seconds later.
    assert!(layer.get_raw("d", NOW_MS + 6_000).is_none());

    layer.set_default_ttl(60_000);
    layer.insert_raw("e".to_string(), Bytes::from_static(b"v"), None, NOW_MS);
    assert!(layer.get_raw("e", NOW_MS + 6_000).is_some());
}

#[test]
fn layer_remove_twice() {
    let mut layer = CacheLayer::new("lru", Some("fifo"), 1024, 60_000, 1_048_576);
    layer.insert("k".to_string(), resp(b"x"), NOW_MS);
    assert!(layer.remove("k"));
    assert!(!layer.remove("k"));
    assert!(!layer.get("k", NOW_MS).is_hit());
}

#[test]
fn layer_build_response() {
    let layer = CacheLayer::new("sieve", None, 1024, 42_000, 1_048_576);
    let r = layer.build_response(204, vec![], Bytes::from_static(b""), None, NOW_MS);
    assert_eq!(r.status, 204);
    assert_eq!(r.ttl_ms, 42_000);
    assert_eq!(r.inserted_at_ms, NOW_MS);

    let r2 = layer.build_response(200, vec![], Bytes::from_static(b"b"), Some(7), NOW_MS);
    assert_eq!(r2.ttl_ms, 7);
}

#[test]
fn cache_control_directives() {
    assert!(!parse_cache_control("no-store").cacheable);
    assert!(!parse_cache_control("no-cache").cacheable);
    assert!(!parse_cache_control("private").cacheable);
    assert!(parse_cache_control("public").cacheable);
    assert!(parse_cache_control("").cacheable);
}

#[test]
fn cache_control_max_age() {
    let cc = parse_cache_control("max-age=60");
    assert!(cc.cacheable);
    assert_eq!(cc.max_age_secs, Some(60));

    let cc = parse_cache_control("public, max-age=300");
    assert!(cc.cacheable);
    assert_eq!(cc.max_age_secs, Some(300));

    let cc = parse_cache_control("s-maxage=10, max-age=5");
    assert_eq!(cc.max_age_secs, Some(5));

    let cc = parse_cache_control("no-store, max-age=15");
    assert!(!cc.cacheable);
    assert_eq!(cc.max_age_secs, Some(15));
}

#[test]
fn cache_control_case_and_space() {
    let cc = parse_cache_control("  No-Store ,  MAX-AGE=9  ");
    assert!(!cc.cacheable);
    assert_eq!(cc.max_age_secs, Some(9));

    let cc = parse_cache_control("max-age= 12");
    assert_eq!(cc.max_age_secs, Some(12));

    let cc = parse_cache_control("max-age=+7");
    assert_eq!(cc.max_age_secs, Some(7));
}

#[test]
fn cache_control_rejects_bad_ages() {
    assert_eq!(parse_cache_control("max-age=abc").max_age_secs, None);
    assert_eq!(parse_cache_control("max-age=").max_age_secs, None);
    assert_eq!(parse_cache_control("max-age=-5").max_age_secs, None);
    assert_eq!(parse_cache_control("max-age=99999999999999999999999").max_age_secs, None);
    assert_eq!(parse_cache_control("max-age=18446744073709551615").max_age_secs, Some(u64::MAX));
}

#[test]
fn config_defaults() {
    let cfg = Config::default_config();
    assert_eq!(cfg.server.listen_addr, "0.0.0.0:8080");
    assert_eq!(cfg.server.metrics_addr, "0.0.0.0:9090");
    assert_eq!(cfg.upstream.url, "http://127.0.0.1:3000");
    assert_eq!(cfg.upstream.timeout_ms, 5000);
    assert_eq!(cfg.cache.capacity, 10000);
    assert_eq!(cfg.cache.default_ttl_seconds, 60);
    assert_eq!(cfg.cache.max_body_size_bytes, 1_048_576);
    assert_eq!(cfg.cache.eviction_policy, "sieve");
    assert_eq!(cfg.cache.comparison_policy.as_deref(), Some("lru"));
    assert!(cfg.resp.enabled);
    assert_eq!(cfg.resp.listen_addr, "0.0.0.0:6379");
}

#[test]
fn reload_plan_decisions() {
    let old_cfg = Config::default_config();

    let mut same = Config::default_config();
    same.server.listen_addr = "0.0.0.0:1".to_string();
    let plan = plan_reload(&old_cfg, &same);
    assert!(!plan.warn_capacity_change);
    assert_eq!(plan.set_default_ttl_ms, None);
    assert!(!plan.rebuild);

    let mut ttl_changed = Config::default_config();
    ttl_changed.cache.default_ttl_seconds = 90;
    let plan = plan_reload(&old_cfg, &ttl_changed);
    assert_eq!(plan.set_default_ttl_ms, Some(90_000));
    assert!(!plan.rebuild);

    let mut policy_changed = Config::default_config();
    policy_changed.cache.eviction_policy = "lru".to_string();
    let plan = plan_reload(&old_cfg, &policy_changed);
    assert!(plan.rebuild);

    let mut comparison_dropped = Config::default_config();
    comparison_dropped.cache.comparison_policy = None;
    let plan = plan_reload(&old_cfg, &comparison_dropped);
    assert!(plan.rebuild);

    let mut capacity_changed = Config::default_config();
    capacity_changed.cache.capacity = 20000;
    let plan = plan_reload(&old_cfg, &capacity_changed);
    assert!(plan.warn_capacity_change);
    assert!(!plan.rebuild);
}

#[test]
fn seconds_widen_saturating() {
    assert_eq!(secs_to_ms(0), 0);
    assert_eq!(secs_to_ms(61), 61_000);
    assert_eq!(secs_to_ms(u64::MAX), u64::MAX);
}

#[test]
fn cache_admission_decision() {
    assert!(should_cache_response(true, 200, 10, 100, None));
    assert!(!should_cache_response(false, 200, 10, 100, None));
    assert!(!should_cache_response(true, 404, 10, 100, None));
    assert!(!should_cache_response(true, 200, 101, 100, None));
    assert!(!should_cache_response(true, 200, 10, 100, Some("no-store")));
    assert!(should_cache_response(true, 200, 10, 100, Some("max-age=30")));
}
