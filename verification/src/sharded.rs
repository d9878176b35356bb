//! Sharded cache wrapper.
//!
//! Keys are partitioned across 64 independent policy instances, so that
//! concurrent callers contend only on the shard their key hashes to. This
//! module holds the verified core of that wrapper: shard selection and the
//! per-operation delegation, specified shard-by-shard against the policy's
//! own step functions. The locking that lets threads share the
//! wrapper is plain glue and lives outside the library.
//!
//! Shard selection hashes the key bytes with a fixed-seed FNV-1a-style keyed
//! hash and keeps the low six bits; the spec-level hash function makes the
//! key-to-shard mapping a pure function of the key.

use vstd::prelude::*;

use vstd::string::StringSliceAdditionalSpecFns;

use std::sync::Arc;

use crate::model::PolicyModel;
use crate::model::opt_resp_matches;
use crate::traits::CachePolicy;
use crate::traits::CacheStats;
use crate::traits::CachedResponse;

verus! {

/// Number of shards. A power of two, so the mask below replaces a modulo.
pub const SHARD_COUNT: usize = 64;

/// Offset basis of the keyed hash, seed material baked in at build time.
pub const HASH_SEED: u64 = 0xcbf29ce484222325;

/// The FNV-1a multiplier.
pub const HASH_PRIME: u64 = 0x100000001b3;

/// The shard-selection hash over the key's UTF-8 bytes: a fixed-seed FNV-1a
/// fold, one byte at a time.
pub open spec fn spec_hash_bytes(bytes: Seq<u8>) -> u64
    decreases bytes.len(),
{
    if bytes.len() == 0 {
        HASH_SEED
    } else {
        (spec_hash_bytes(bytes.drop_last()) ^ (bytes.last() as u64)).wrapping_mul(HASH_PRIME)
    }
}

/// Which shard a key lives in: the low six bits of the key hash.
pub open spec fn spec_shard_of(key: Seq<char>) -> int {
    (spec_hash_bytes(vstd::utf8::encode_utf8(key)) & 63) as int
}

/// Per-shard capacity: the total split 64 ways, floored at one entry.
pub open spec fn spec_per_shard(total_capacity: usize) -> usize {
    if total_capacity / 64 == 0 {
        1usize
    } else {
        (total_capacity / 64) as usize
    }
}

/// Total number of entries across a sequence of shard models.
pub open spec fn sum_len(models: Seq<PolicyModel>) -> nat
    decreases models.len(),
{
    if models.len() == 0 {
        0
    } else {
        sum_len(models.drop_last()) + models.last().entries.len()
    }
}

/// Total capacity across a sequence of shard models.
pub open spec fn sum_cap(models: Seq<PolicyModel>) -> nat
    decreases models.len(),
{
    if models.len() == 0 {
        0
    } else {
        sum_cap(models.drop_last()) + models.last().cap
    }
}

/// Saturating addition on counters.
pub open spec fn sat_add(a: u64, b: u64) -> u64 {
    if a + b > u64::MAX {
        u64::MAX
    } else {
        (a + b) as u64
    }
}

/// Aggregated hit counter, saturating.
pub open spec fn sum_hits(models: Seq<PolicyModel>) -> u64
    decreases models.len(),
{
    if models.len() == 0 {
        0
    } else {
        sat_add(sum_hits(models.drop_last()), models.last().hits)
    }
}

/// Aggregated miss counter, saturating.
pub open spec fn sum_misses(models: Seq<PolicyModel>) -> u64
    decreases models.len(),
{
    if models.len() == 0 {
        0
    } else {
        sat_add(sum_misses(models.drop_last()), models.last().misses)
    }
}

/// Aggregated eviction counter, saturating.
pub open spec fn sum_evictions(models: Seq<PolicyModel>) -> u64
    decreases models.len(),
{
    if models.len() == 0 {
        0
    } else {
        sat_add(sum_evictions(models.drop_last()), models.last().evictions)
    }
}

/// Executable saturating addition.
fn sat_add_counter(a: u64, b: u64) -> (r: u64)
    ensures
        r == sat_add(a, b),
{
    if a > u64::MAX - b {
        u64::MAX
    } else {
        a + b
    }
}

/// When every shard holds at most `c` entries, the total is bounded by
/// `models.len() * c`.
proof fn lemma_sum_len_bound(models: Seq<PolicyModel>, c: nat)
    requires
        forall|i: int| 0 <= i < models.len() ==> (#[trigger] models[i]).entries.len() <= c,
    ensures
        sum_len(models) <= models.len() * c,
    decreases models.len(),
{
    if models.len() > 0 {
        lemma_sum_len_bound(models.drop_last(), c);
        assert(models.drop_last().len() * c + c == models.len() * c) by (nonlinear_arith)
            requires models.len() >= 1,
        ;
    }
}

/// When every shard has capacity `c`, the total capacity is exactly
/// `models.len() * c`.
proof fn lemma_sum_cap_exact(models: Seq<PolicyModel>, c: nat)
    requires
        forall|i: int| 0 <= i < models.len() ==> (#[trigger] models[i]).cap == c,
    ensures
        sum_cap(models) == models.len() * c,
    decreases models.len(),
{
    if models.len() > 0 {
        lemma_sum_cap_exact(models.drop_last(), c);
        assert(models.drop_last().len() * c + c == models.len() * c) by (nonlinear_arith)
            requires models.len() >= 1,
        ;
    }
}

/// Thread-safe sharded cache core: 64 independent policy instances, with
/// each key served by the shard its hash selects.
pub struct ShardedCache<T> {
    shards: Vec<T>,
}

impl<T: CachePolicy> ShardedCache<T> {
    /// The models of all shards, in order.
    pub closed spec fn models(&self) -> Seq<PolicyModel> {
        Seq::new(self.shards@.len() as nat, |i: int| self.shards@[i]@)
    }

    /// The capacity every shard was built with.
    pub closed spec fn shard_cap(&self) -> nat {
        self.shards@[0]@.cap
    }

    /// 64 shards, each holding its policy invariant, all with the same
    /// capacity, small enough that the aggregate counts fit in a `usize`.
    pub closed spec fn inv(&self) -> bool {
        &&& self.shards@.len() == SHARD_COUNT
        &&& forall|i: int| 0 <= i < self.shards@.len() ==> (#[trigger] self.shards@[i]).inv()
        &&& forall|i: int| 0 <= i < self.shards@.len() ==> (#[trigger] self.shards@[i])@.cap == self.shard_cap()
        &&& 64 * self.shard_cap() <= usize::MAX as nat
    }

    /// Hash a key and return the shard index.
    fn shard_index(key: &str) -> (r: usize)
        ensures
            r as int == spec_shard_of(key@),
            r < 64,
    {
        let bytes = key.as_bytes();
        let mut h: u64 = HASH_SEED;
        let mut i: usize = 0;
        while i < bytes.len()
            invariant
                i <= bytes.len(),
                bytes@ == key.spec_bytes(),
                h == spec_hash_bytes(bytes@.take(i as int)),
            decreases bytes.len() - i,
        {
            let b = bytes[i];
            h = (h ^ (b as u64)).wrapping_mul(HASH_PRIME);
            proof {
                assert(bytes@.take(i + 1).drop_last() =~= bytes@.take(i as int));
                assert(bytes@.take(i + 1).last() == bytes@[i as int]);
            }
            i = i + 1;
        }
        proof {
            assert(bytes@.take(bytes@.len() as int) =~= bytes@);
        }
        let r = (h & 63) as usize;
        proof {
            assert((h & 63) < 64) by (bit_vector);
        }
        r
    }

    /// Create a new sharded cache. `make_shard` is called 64 times with the
    /// per-shard capacity (total divided by 64, floored at one).
    pub fn new<F: Fn(usize) -> T>(total_capacity: usize, make_shard: F) -> (r: Self)
        requires
            call_requires(make_shard, (spec_per_shard(total_capacity),)),
            forall|c: usize, t: T| #[trigger] call_ensures(make_shard, (c,), t) ==> t.inv()
                && t@ == PolicyModel::fresh(c as nat),
        ensures
            r.inv(),
            r.shard_cap() == spec_per_shard(total_capacity) as nat,
            r.models() == Seq::new(SHARD_COUNT as nat, |i: int|
                PolicyModel::fresh(spec_per_shard(total_capacity) as nat)),
    {
        let mut per_shard = total_capacity / 64;
        if per_shard == 0 {
            per_shard = 1;
        }
        let mut shards: Vec<T> = Vec::new();
        let mut k: usize = 0;
        while k < 64
            invariant
                k <= 64,
                shards@.len() == k as int,
                per_shard == spec_per_shard(total_capacity),
                call_requires(make_shard, (spec_per_shard(total_capacity),)),
                forall|c: usize, t: T| #[trigger] call_ensures(make_shard, (c,), t) ==> t.inv()
                    && t@ == PolicyModel::fresh(c as nat),
                forall|i: int| 0 <= i < k ==> (#[trigger] shards@[i]).inv()
                    && shards@[i]@ == PolicyModel::fresh(per_shard as nat),
            decreases 64 - k,
        {
            let shard = make_shard(per_shard);
            shards.push(shard);
            k = k + 1;
        }
        let r = ShardedCache { shards };
        proof {
            assert(r.shards@[0]@ == PolicyModel::fresh(per_shard as nat));
            assert(r.shard_cap() == per_shard as nat);
            assert(64 * (per_shard as nat) <= usize::MAX as nat) by {
                if total_capacity / 64 == 0 {
                    assert(per_shard == 1);
                } else {
                    vstd::arithmetic::div_mod::lemma_fundamental_div_mod(total_capacity as int, 64);
                }
            }
            assert(r.models() =~= Seq::new(SHARD_COUNT as nat, |i: int|
                PolicyModel::fresh(spec_per_shard(total_capacity) as nat)));
        }
        r
    }

    /// Look up a key in the shard it hashes to.
    pub fn get(&mut self, key: &str, now_ms: u64) -> (r: Option<Arc<CachedResponse>>)
        requires
            old(self).inv(),
        ensures
            final(self).inv(),
            ({
                let i = spec_shard_of(key@);
                let (m2, v) = T::step_get(old(self).models()[i], key@, now_ms);
                final(self).models() == old(self).models().update(i, m2) && opt_resp_matches(r, v)
                    && final(self).shard_cap() == old(self).shard_cap()
            }),
    {
        let idx = Self::shard_index(key);
        let shard = &mut self.shards[idx];
        let r = shard.get(key, now_ms);
        proof {
            old(self).shards@[idx as int].lemma_inv_wf();
            T::lemma_steps_wf(old(self).models()[idx as int], key@, old(self).models()[idx as int].entries[0].value, now_ms);
            assert(self.models() =~= old(self).models().update(idx as int, self.shards@[idx as int]@));
            assert forall|i: int| 0 <= i < self.shards@.len() implies (#[trigger] self.shards@[i]).inv() by {
                if i != idx {
                    assert(self.shards@[i] == old(self).shards@[i]);
                }
            }
        }
        r
    }

    /// Insert a key-value pair into the shard it hashes to.
    pub fn insert(&mut self, key: String, value: CachedResponse, now_ms: u64)
        requires
            old(self).inv(),
        ensures
            final(self).inv(),
            ({
                let i = spec_shard_of(key@);
                let m2 = T::step_insert(old(self).models()[i], key@, value@, now_ms);
                final(self).models() == old(self).models().update(i, m2)
                    && final(self).shard_cap() == old(self).shard_cap()
            }),
    {
        let idx = Self::shard_index(key.as_str());
        let ghost key_view = key@;
        let ghost value_view = value@;
        let shard = &mut self.shards[idx];
        shard.insert(key, value, now_ms);
        proof {
            old(self).shards@[idx as int].lemma_inv_wf();
            T::lemma_steps_wf(old(self).models()[idx as int], key_view, value_view, now_ms);
            assert(self.models() =~= old(self).models().update(idx as int, self.shards@[idx as int]@));
            assert forall|i: int| 0 <= i < self.shards@.len() implies (#[trigger] self.shards@[i]).inv() by {
                if i != idx {
                    assert(self.shards@[i] == old(self).shards@[i]);
                }
            }
        }
    }

    /// Remove a key from the shard it hashes to; reports whether it existed.
    pub fn remove(&mut self, key: &str) -> (r: bool)
        requires
            old(self).inv(),
        ensures
            final(self).inv(),
            ({
                let i = spec_shard_of(key@);
                let (m2, b) = T::step_remove(old(self).models()[i], key@);
                final(self).models() == old(self).models().update(i, m2) && r == b
                    && final(self).shard_cap() == old(self).shard_cap()
            }),
    {
        let idx = Self::shard_index(key);
        let shard = &mut self.shards[idx];
        let r = shard.remove(key);
        proof {
            old(self).shards@[idx as int].lemma_inv_wf();
            T::lemma_steps_wf(old(self).models()[idx as int], key@, old(self).models()[idx as int].entries[0].value, 0);
            assert(self.models() =~= old(self).models().update(idx as int, self.shards@[idx as int]@));
            assert forall|i: int| 0 <= i < self.shards@.len() implies (#[trigger] self.shards@[i]).inv() by {
                if i != idx {
                    assert(self.shards@[i] == old(self).shards@[i]);
                }
            }
        }
        r
    }

    /// Total number of entries across all shards.
    pub fn len(&self) -> (r: usize)
        requires
            self.inv(),
        ensures
            r as nat == sum_len(self.models()),
            r as nat <= sum_cap(self.models()),
    {
        let mut total: usize = 0;
        let mut k: usize = 0;
        proof {
            assert(self.models().len() == SHARD_COUNT as nat);
        }
        while k < self.shards.len()
            invariant
                self.inv(),
                k <= self.shards@.len(),
                total as nat == sum_len(self.models().take(k as int)),
                total as nat <= k as nat * self.shard_cap(),
            decreases self.shards@.len() - k,
        {
            let shard = &self.shards[k];
            let n = shard.len();
            proof {
                self.shards@[k as int].lemma_inv_wf();
                assert(self.models().take(k + 1).drop_last() =~= self.models().take(k as int));
                assert(self.models().take(k + 1).last() == self.models()[k as int]);
                assert((k as nat) * self.shard_cap() + self.shard_cap() == (k + 1) as nat * self.shard_cap())
                    by (nonlinear_arith);
                assert((k + 1) as nat * self.shard_cap() <= 64 * self.shard_cap()) by (nonlinear_arith)
                    requires k + 1 <= 64,
                ;
            }
            total = total + n;
            k = k + 1;
        }
        proof {
            assert(self.models().take(self.models().len() as int) =~= self.models());
            assert forall|i: int| 0 <= i < self.models().len() implies
                (#[trigger] self.models()[i]).entries.len() <= self.shard_cap()
                && self.models()[i].cap == self.shard_cap() by {
                assert(self.shards@[i].inv());
                self.shards@[i].lemma_inv_wf();
            }
            lemma_sum_cap_exact(self.models(), self.shard_cap());
            lemma_sum_len_bound(self.models(), self.shard_cap());
        }
        total
    }

    /// Whether every shard is empty.
    pub fn is_empty(&self) -> (r: bool)
        requires
            self.inv(),
        ensures
            r == (sum_len(self.models()) == 0),
    {
        let mut all_empty = true;
        let mut k: usize = 0;
        while k < self.shards.len()
            invariant
                self.inv(),
                k <= self.shards@.len(),
                all_empty == (sum_len(self.models().take(k as int)) == 0),
            decreases self.shards@.len() - k,
        {
            let shard = &self.shards[k];
            let e = shard.is_empty();
            proof {
                assert(self.models().take(k + 1).drop_last() =~= self.models().take(k as int));
                assert(self.models().take(k + 1).last() == self.models()[k as int]);
            }
            all_empty = all_empty && e;
            k = k + 1;
        }
        proof {
            assert(self.models().take(self.models().len() as int) =~= self.models());
        }
        all_empty
    }

    /// Total capacity across all shards.
    pub fn capacity(&self) -> (r: usize)
        requires
            self.inv(),
        ensures
            r as nat == sum_cap(self.models()),
    {
        let mut total: usize = 0;
        let mut k: usize = 0;
        while k < self.shards.len()
            invariant
                self.inv(),
                k <= self.shards@.len(),
                total as nat == sum_cap(self.models().take(k as int)),
                total as nat == k as nat * self.shard_cap(),
            decreases self.shards@.len() - k,
        {
            let shard = &self.shards[k];
            let c = shard.capacity();
            proof {
                assert(self.models().take(k + 1).drop_last() =~= self.models().take(k as int));
                assert(self.models().take(k + 1).last() == self.models()[k as int]);
                assert((k as nat) * self.shard_cap() + self.shard_cap() == (k + 1) as nat * self.shard_cap())
                    by (nonlinear_arith);
                assert((k + 1) as nat * self.shard_cap() <= 64 * self.shard_cap()) by (nonlinear_arith)
                    requires k + 1 <= 64,
                ;
            }
            total = total + c;
            k = k + 1;
        }
        proof {
            assert(self.models().take(self.models().len() as int) =~= self.models());
        }
        total
    }

    /// Name of the underlying eviction policy.
    pub fn name(&self) -> (r: &'static str)
        requires
            self.inv(),
        ensures
            r@ == T::spec_name(),
    {
        let shard = &self.shards[0];
        shard.name()
    }

    /// Aggregate statistics across all shards. Counters saturate rather than
    /// wrap when the 64-bit totals overflow.
    pub fn stats(&self) -> (r: CacheStats)
        requires
            self.inv(),
        ensures
            r.hits == sum_hits(self.models()),
            r.misses == sum_misses(self.models()),
            r.evictions == sum_evictions(self.models()),
            r.current_size as nat == sum_len(self.models()),
            r.capacity as nat == sum_cap(self.models()),
    {
        let mut hits: u64 = 0;
        let mut misses: u64 = 0;
        let mut evictions: u64 = 0;
        let mut current_size: usize = 0;
        let mut capacity: usize = 0;
        let mut k: usize = 0;
        while k < self.shards.len()
            invariant
                self.inv(),
                k <= self.shards@.len(),
                hits == sum_hits(self.models().take(k as int)),
                misses == sum_misses(self.models().take(k as int)),
                evictions == sum_evictions(self.models().take(k as int)),
                current_size as nat == sum_len(self.models().take(k as int)),
                capacity as nat == sum_cap(self.models().take(k as int)),
                current_size as nat <= k as nat * self.shard_cap(),
                capacity as nat == k as nat * self.shard_cap(),
            decreases self.shards@.len() - k,
        {
            let shard = &self.shards[k];
            let s = shard.stats();
            proof {
                self.shards@[k as int].lemma_inv_wf();
                assert(self.models().take(k + 1).drop_last() =~= self.models().take(k as int));
                assert(self.models().take(k + 1).last() == self.models()[k as int]);
                assert((k as nat) * self.shard_cap() + self.shard_cap() == (k + 1) as nat * self.shard_cap())
                    by (nonlinear_arith);
                assert((k + 1) as nat * self.shard_cap() <= 64 * self.shard_cap()) by (nonlinear_arith)
                    requires k + 1 <= 64,
                ;
            }
            hits = sat_add_counter(hits, s.hits);
            misses = sat_add_counter(misses, s.misses);
            evictions = sat_add_counter(evictions, s.evictions);
            current_size = current_size + s.current_size;
            capacity = capacity + s.capacity;
            k = k + 1;
        }
        proof {
            assert(self.models().take(self.models().len() as int) =~= self.models());
        }
        CacheStats { hits, misses, evictions, current_size, capacity }
    }
}

} // verus!
