//! Configuration model and the hot-reload decision.
//!
//! The structures mirror the proxy's TOML configuration; reading the file and
//! deserializing it are I/O and stay outside the library. What is verified
//! here is the default configuration and the rule that decides, between an
//! old and a new configuration, which changes are applied live: a TTL change
//! is adopted in place, a policy change rebuilds the cache (with the old,
//! immutable capacity), and a capacity change is only warned about.

use vstd::prelude::*;

use crate::cache_layer::str_eq;

verus! {

pub struct ServerConfig {
    pub listen_addr: String,
    pub metrics_addr: String,
}

pub struct UpstreamConfig {
    pub url: String,
    pub timeout_ms: u64,
}

pub struct CacheConfig {
    pub capacity: usize,
    pub default_ttl_seconds: u64,
    pub max_body_size_bytes: usize,
    pub eviction_policy: String,
    pub comparison_policy: Option<String>,
}

pub struct RespConfig {
    pub enabled: bool,
    pub listen_addr: String,
}

pub struct Config {
    pub server: ServerConfig,
    pub upstream: UpstreamConfig,
    pub cache: CacheConfig,
    pub resp: RespConfig,
}

pub fn default_listen_addr() -> (r: String)
    ensures
        r@ == "0.0.0.0:8080"@,
{
    "0.0.0.0:8080".to_owned()
}

pub fn default_metrics_addr() -> (r: String)
    ensures
        r@ == "0.0.0.0:9090"@,
{
    "0.0.0.0:9090".to_owned()
}

pub fn default_timeout_ms() -> (r: u64)
    ensures
        r == 5000,
{
    5000
}

pub fn default_capacity() -> (r: usize)
    ensures
        r == 10000,
{
    10000
}

pub fn default_ttl() -> (r: u64)
    ensures
        r == 60,
{
    60
}

pub fn default_max_body_size() -> (r: usize)
    ensures
        r == 1048576,
{
    1048576
}

pub fn default_eviction_policy() -> (r: String)
    ensures
        r@ == "sieve"@,
{
    "sieve".to_owned()
}

pub fn default_resp_enabled() -> (r: bool)
    ensures
        r,
{
    true
}

pub fn default_resp_addr() -> (r: String)
    ensures
        r@ == "0.0.0.0:6379"@,
{
    "0.0.0.0:6379".to_owned()
}

impl Default for ServerConfig {
    fn default() -> (r: Self)
        ensures
            r.listen_addr@ == "0.0.0.0:8080"@,
            r.metrics_addr@ == "0.0.0.0:9090"@,
    {
        ServerConfig { listen_addr: default_listen_addr(), metrics_addr: default_metrics_addr() }
    }
}

impl Default for CacheConfig {
    fn default() -> (r: Self)
        ensures
            r.capacity == 10000,
            r.default_ttl_seconds == 60,
            r.max_body_size_bytes == 1048576,
            r.eviction_policy@ == "sieve"@,
            r.comparison_policy matches Some(p) && p@ == "lru"@,
    {
        CacheConfig {
            capacity: default_capacity(),
            default_ttl_seconds: default_ttl(),
            max_body_size_bytes: default_max_body_size(),
            eviction_policy: default_eviction_policy(),
            comparison_policy: Some("lru".to_owned()),
        }
    }
}

impl Default for RespConfig {
    fn default() -> (r: Self)
        ensures
            r.enabled,
            r.listen_addr@ == "0.0.0.0:6379"@,
    {
        RespConfig { enabled: default_resp_enabled(), listen_addr: default_resp_addr() }
    }
}

impl Config {
    /// The configuration used when no file is present.
    pub fn default_config() -> (r: Self)
        ensures
            r.upstream.url@ == "http://127.0.0.1:3000"@,
            r.upstream.timeout_ms == 5000,
            r.cache.capacity == 10000,
            r.cache.default_ttl_seconds == 60,
            r.cache.eviction_policy@ == "sieve"@,
            r.cache.comparison_policy matches Some(p) && p@ == "lru"@,
            r.resp.enabled,
    {
        Config {
            server: ServerConfig::default(),
            upstream: UpstreamConfig { url: "http://127.0.0.1:3000".to_owned(), timeout_ms: 5000 },
            cache: CacheConfig::default(),
            resp: RespConfig::default(),
        }
    }
}

/// What a configuration reload may do at runtime.
pub struct ReloadPlan {
    /// A capacity change was requested; it cannot be applied live and is
    /// only reported.
    pub warn_capacity_change: bool,
    /// The TTL changed: adopt this value, in milliseconds, in place.
    pub set_default_ttl_ms: Option<u64>,
    /// A policy changed: rebuild the cache layer, clearing its contents,
    /// keeping the old capacity.
    pub rebuild: bool,
}

/// Seconds widened to milliseconds, clamped to the 64-bit range.
pub open spec fn spec_secs_to_ms(secs: u64) -> u64 {
    if secs * 1000 > u64::MAX {
        u64::MAX
    } else {
        (secs * 1000) as u64
    }
}

/// Executable widening of seconds to milliseconds, saturating.
pub fn secs_to_ms(secs: u64) -> (r: u64)
    ensures
        r == spec_secs_to_ms(secs),
{
    if secs > u64::MAX / 1000 {
        proof {
            assert(secs * 1000 > u64::MAX) by (nonlinear_arith)
                requires secs > u64::MAX / 1000,
            ;
        }
        u64::MAX
    } else {
        proof {
            assert(secs * 1000 <= u64::MAX) by (nonlinear_arith)
                requires secs <= u64::MAX / 1000,
            ;
        }
        secs * 1000
    }
}

/// Whether two optional policy names agree.
fn opt_policy_eq(a: &Option<String>, b: &Option<String>) -> (r: bool)
    ensures
        r == (match (a, b) {
            (Some(x), Some(y)) => x@ == y@,
            (None, None) => true,
            _ => false,
        }),
{
    match (a, b) {
        (Some(x), Some(y)) => str_eq(x.as_str(), y.as_str()),
        (None, None) => true,
        _ => false,
    }
}

/// Compare an old and a new configuration and decide which changes are
/// applied live: warn on a capacity change, adopt a changed TTL atomically,
/// rebuild the cache when an eviction or comparison policy changed.
pub fn plan_reload(old_cfg: &Config, new_cfg: &Config) -> (r: ReloadPlan)
    ensures
        r.warn_capacity_change == (old_cfg.cache.capacity != new_cfg.cache.capacity),
        r.set_default_ttl_ms == (if old_cfg.cache.default_ttl_seconds != new_cfg.cache.default_ttl_seconds {
            Some(spec_secs_to_ms(new_cfg.cache.default_ttl_seconds))
        } else {
            None::<u64>
        }),
        r.rebuild == (old_cfg.cache.eviction_policy@ != new_cfg.cache.eviction_policy@
            || !(match (old_cfg.cache.comparison_policy, new_cfg.cache.comparison_policy) {
                (Some(x), Some(y)) => x@ == y@,
                (None, None) => true,
                _ => false,
            })),
{
    let warn_capacity_change = old_cfg.cache.capacity != new_cfg.cache.capacity;
    let set_default_ttl_ms = if old_cfg.cache.default_ttl_seconds != new_cfg.cache.default_ttl_seconds {
        Some(secs_to_ms(new_cfg.cache.default_ttl_seconds))
    } else {
        None
    };
    let same_policy = str_eq(old_cfg.cache.eviction_policy.as_str(), new_cfg.cache.eviction_policy.as_str());
    let same_comparison = opt_policy_eq(&old_cfg.cache.comparison_policy, &new_cfg.cache.comparison_policy);
    let rebuild = !same_policy || !same_comparison;
    ReloadPlan { warn_capacity_change, set_default_ttl_ms, rebuild }
}

} // verus!
