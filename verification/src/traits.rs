//! The cached value, the statistics snapshot, and the policy interface.

use vstd::prelude::*;

use std::sync::Arc;

use crate::model::PolicyModel;
use crate::model::opt_resp_matches;

verus! {

/// The reference-counted byte buffer of the `bytes` crate. Declared so that a
/// cached body can be stored and handed back without copying; its content is
/// visible to specifications only through [`bytes_view`].
#[verifier::external_type_specification]
#[verifier::external_body]
pub struct ExBytes(bytes::Bytes);

/// The byte content of a `bytes::Bytes` buffer.
pub uninterp spec fn bytes_view(b: bytes::Bytes) -> Seq<u8>;

/// Relies on `bytes::Bytes::clone`: the clone is a shallow handle to the same
/// shared storage, so it holds the same bytes.
pub assume_specification[ <bytes::Bytes as Clone>::clone ](b: &bytes::Bytes) -> (res: bytes::Bytes)
    ensures
        bytes_view(res) == bytes_view(*b),
;

/// Relies on `bytes::Bytes::new`: a fresh buffer holds no bytes.
#[verifier::external_body]
pub fn empty_bytes() -> (r: bytes::Bytes)
    ensures
        bytes_view(r) == Seq::<u8>::empty(),
{
    bytes::Bytes::new()
}

/// Mathematical image of a [`CachedResponse`]: every field as a plain value.
#[verifier::ext_equal]
pub ghost struct RespView {
    pub status: u16,
    pub headers: Seq<(Seq<char>, Seq<char>)>,
    pub body: Seq<u8>,
    pub inserted_at_ms: u64,
    pub ttl_ms: u64,
}

/// A response is expired once strictly more than `ttl_ms` milliseconds have
/// passed since it was inserted.
pub open spec fn resp_expired(v: RespView, now_ms: u64) -> bool {
    now_ms > v.inserted_at_ms + v.ttl_ms
}

/// Cached HTTP response stored in the cache. Immutable once inserted.
///
/// Timestamps are milliseconds on a monotonic scale chosen by the caller;
/// the library itself never reads a clock.
#[derive(Debug)]
pub struct CachedResponse {
    pub status: u16,
    pub headers: Vec<(String, String)>,
    pub body: bytes::Bytes,
    pub inserted_at_ms: u64,
    pub ttl_ms: u64,
}

impl View for CachedResponse {
    type V = RespView;

    open spec fn view(&self) -> RespView {
        RespView {
            status: self.status,
            headers: Seq::new(self.headers@.len(), |i: int| (self.headers@[i].0@, self.headers@[i].1@)),
            body: bytes_view(self.body),
            inserted_at_ms: self.inserted_at_ms,
            ttl_ms: self.ttl_ms,
        }
    }
}

/// Milliseconds of life a response has left, clamped to the 64-bit range.
pub open spec fn spec_remaining_ttl(v: RespView, now_ms: u64) -> u64 {
    if v.inserted_at_ms + v.ttl_ms - now_ms > u64::MAX {
        u64::MAX
    } else {
        (v.inserted_at_ms + v.ttl_ms - now_ms) as u64
    }
}

impl CachedResponse {
    /// Lazy TTL check against a caller-supplied monotonic timestamp.
    pub fn is_expired(&self, now_ms: u64) -> (r: bool)
        ensures
            r == resp_expired(self@, now_ms),
    {
        if now_ms <= self.inserted_at_ms {
            false
        } else {
            now_ms - self.inserted_at_ms > self.ttl_ms
        }
    }

    /// A handle to this response's body bytes, without copying them.
    pub fn body_bytes(&self) -> (r: bytes::Bytes)
        ensures
            bytes_view(r) == self@.body,
    {
        self.body.clone()
    }

    /// How long this response stays fresh from `now_ms` on.
    pub fn remaining_ttl_ms(&self, now_ms: u64) -> (r: u64)
        requires
            !resp_expired(self@, now_ms),
        ensures
            r == spec_remaining_ttl(self@, now_ms),
    {
        if self.ttl_ms > u64::MAX - self.inserted_at_ms {
            let excess = self.ttl_ms - (u64::MAX - self.inserted_at_ms);
            if now_ms < excess {
                u64::MAX
            } else {
                u64::MAX - (now_ms - excess)
            }
        } else {
            self.inserted_at_ms + self.ttl_ms - now_ms
        }
    }
}

impl Clone for CachedResponse {
    /// A clone carries the same view: same status, headers, bytes and times.
    fn clone(&self) -> (res: Self)
        ensures
            res@ == self@,
    {
        let mut headers: Vec<(String, String)> = Vec::new();
        let mut i: usize = 0;
        while i < self.headers.len()
            invariant
                i <= self.headers.len(),
                headers@.len() == i as int,
                forall|j: int| 0 <= j < i ==> headers@[j] == self.headers@[j],
            decreases self.headers.len() - i,
        {
            let pair = &self.headers[i];
            headers.push((pair.0.clone(), pair.1.clone()));
            i = i + 1;
        }
        let res = CachedResponse {
            status: self.status,
            headers,
            body: self.body.clone(),
            inserted_at_ms: self.inserted_at_ms,
            ttl_ms: self.ttl_ms,
        };
        proof {
            assert(res@.headers =~= self@.headers);
            assert(res@ =~= self@);
        }
        res
    }
}

/// Snapshot of cache statistics.
#[derive(Clone, Debug, Default)]
pub struct CacheStats {
    pub hits: u64,
    pub misses: u64,
    pub evictions: u64,
    pub current_size: usize,
    pub capacity: usize,
}

/// Common interface for all cache eviction policies.
///
/// Implementations: SIEVE, LRU, FIFO. Each implementation supplies the pure
/// step functions that say exactly what its operations do to the ghost model,
/// and every method is specified against them. All methods take `&mut self`;
/// exclusion across threads is the concurrent wrapper's business, outside
/// this library.
pub trait CachePolicy: View<V = PolicyModel> + Sized {
    /// The representation invariant tying the executable state to `self@`.
    spec fn inv(&self) -> bool;

    /// Human-readable policy name, as a sequence of characters.
    spec fn spec_name() -> Seq<char>;

    /// What `get` does to the model, and what it returns.
    spec fn step_get(m: PolicyModel, key: Seq<char>, now_ms: u64) -> (PolicyModel, Option<RespView>);

    /// What `insert` does to the model.
    spec fn step_insert(m: PolicyModel, key: Seq<char>, value: RespView, now_ms: u64) -> PolicyModel;

    /// What `remove` does to the model, and whether the key was present.
    spec fn step_remove(m: PolicyModel, key: Seq<char>) -> (PolicyModel, bool);

    /// Every step preserves well-formedness and the capacity, and never
    /// decreases a statistics counter.
    proof fn lemma_steps_wf(m: PolicyModel, key: Seq<char>, value: RespView, now_ms: u64)
        requires
            m.wf(),
        ensures
            ({
                let (mg, _) = Self::step_get(m, key, now_ms);
                mg.wf() && mg.cap == m.cap && mg.hits >= m.hits && mg.misses >= m.misses
                    && mg.evictions >= m.evictions
            }),
            ({
                let mi = Self::step_insert(m, key, value, now_ms);
                mi.wf() && mi.cap == m.cap && mi.hits >= m.hits && mi.misses >= m.misses
                    && mi.evictions >= m.evictions
            }),
            ({
                let (mr, _) = Self::step_remove(m, key);
                mr.wf() && mr.cap == m.cap && mr.hits >= m.hits && mr.misses >= m.misses
                    && mr.evictions >= m.evictions
            }),
    ;

    /// The invariant implies a well-formed model; in particular the number of
    /// entries never exceeds the capacity.
    proof fn lemma_inv_wf(&self)
        requires
            self.inv(),
        ensures
            self@.wf(),
    ;

    /// Look up a key. Returns the cached response if present and not expired;
    /// updates exactly one of the hit or miss counters.
    fn get(&mut self, key: &str, now_ms: u64) -> (r: Option<Arc<CachedResponse>>)
        requires
            old(self).inv(),
        ensures
            final(self).inv(),
            ({
                let (m2, v) = Self::step_get(old(self)@, key@, now_ms);
                final(self)@ == m2 && opt_resp_matches(r, v)
            }),
    ;

    /// Insert a key-value pair. May trigger eviction if at capacity.
    fn insert(&mut self, key: String, value: CachedResponse, now_ms: u64)
        requires
            old(self).inv(),
        ensures
            final(self).inv(),
            final(self)@ == Self::step_insert(old(self)@, key@, value@, now_ms),
    ;

    /// Remove a key explicitly. Returns whether it was present.
    fn remove(&mut self, key: &str) -> (r: bool)
        requires
            old(self).inv(),
        ensures
            final(self).inv(),
            ({
                let (m2, b) = Self::step_remove(old(self)@, key@);
                final(self)@ == m2 && r == b
            }),
    ;

    /// Number of entries currently in the cache; never above the capacity.
    fn len(&self) -> (r: usize)
        requires
            self.inv(),
        ensures
            r as nat == self@.len(),
            r as nat <= self@.cap,
    ;

    /// Whether the cache is empty.
    fn is_empty(&self) -> (r: bool)
        requires
            self.inv(),
        ensures
            r == (self@.len() == 0),
    {
        self.len() == 0
    }

    /// Maximum number of entries.
    fn capacity(&self) -> (r: usize)
        requires
            self.inv(),
        ensures
            r as nat == self@.cap,
    ;

    /// Human-readable name of the eviction policy.
    fn name(&self) -> (r: &'static str)
        ensures
            r@ == Self::spec_name(),
    ;

    /// Current statistics snapshot.
    fn stats(&self) -> (r: CacheStats)
        requires
            self.inv(),
        ensures
            r.hits == self@.hits,
            r.misses == self@.misses,
            r.evictions == self@.evictions,
            r.current_size as nat == self@.len(),
            r.capacity as nat == self@.cap,
    ;
}

} // verus!
