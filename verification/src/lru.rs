//! LRU (Least Recently Used) cache eviction policy.
//!
//! On every fresh hit the accessed node moves to the head of the list;
//! evictions take the tail (the least recently used entry). Unlike SIEVE, a
//! hit mutates the list, which is exactly the scalability cost this policy
//! exists to demonstrate.

use vstd::prelude::*;

use std::sync::Arc;
use vstd::hash_map::StringHashMap;

use crate::arena::Arena;
use crate::arena::Node;
use crate::model::PolicyModel;
use crate::model::arena_entries;
use crate::model::bump;
use crate::model::bump_counter;
use crate::model::find_entry;
use crate::model::insert_with_tail_eviction;
use crate::model::lemma_entries_after_push;
use crate::model::lemma_entries_after_remove;
use crate::model::lemma_find_entry;
use crate::model::lemma_synced_after_push;
use crate::model::lemma_synced_after_remove;
use crate::model::lemma_after_move_to_head;
use crate::model::lemma_synced_lookup;
use crate::model::remove_step;
use crate::model::synced;
use crate::traits::CachePolicy;
use crate::traits::CacheStats;
use crate::traits::CachedResponse;
use crate::traits::RespView;
use crate::traits::resp_expired;

verus! {

pub struct LruCache {
    arena: Arena,
    map: StringHashMap<u32>,
    capacity: usize,
    hits: u64,
    misses: u64,
    evictions: u64,
}

/// What LRU's `get` does. A miss or an expired entry counts as a miss (the
/// expired entry is dropped); a fresh entry counts as a hit and moves to the
/// head of the list.
pub open spec fn lru_step_get(m: PolicyModel, key: Seq<char>, now_ms: u64) -> (PolicyModel, Option<RespView>) {
    let f = find_entry(m.entries, key);
    if f < 0 {
        (PolicyModel { misses: bump(m.misses), ..m }, None)
    } else if resp_expired(m.entries[f].value, now_ms) {
        (PolicyModel { misses: bump(m.misses), ..m.remove_at(f) }, None)
    } else {
        (PolicyModel {
            entries: seq![m.entries[f]] + m.entries.remove(f),
            hits: bump(m.hits),
            ..m
        }, Some(m.entries[f].value))
    }
}

impl LruCache {
    pub fn new(capacity: usize) -> (c: Self)
        requires
            1 <= capacity,
            capacity < u32::MAX as usize,
        ensures
            c.inv(),
            c@ == PolicyModel::fresh(capacity as nat),
    {
        let c = LruCache {
            arena: Arena::new(capacity),
            map: StringHashMap::with_capacity(capacity),
            capacity,
            hits: 0,
            misses: 0,
            evictions: 0,
        };
        proof {
            assert(arena_entries(&c.arena) =~= Seq::<crate::model::CacheEntry>::empty());
            assert(c@ =~= PolicyModel::fresh(capacity as nat));
        }
        c
    }
}

impl View for LruCache {
    type V = PolicyModel;

    closed spec fn view(&self) -> PolicyModel {
        PolicyModel {
            entries: arena_entries(&self.arena),
            hand: -1,
            cap: self.capacity as nat,
            hits: self.hits,
            misses: self.misses,
            evictions: self.evictions,
        }
    }
}

impl CachePolicy for LruCache {
    closed spec fn inv(&self) -> bool {
        &&& self.arena.wf()
        &&& self.arena.cap() == self.capacity
        &&& 1 <= self.capacity
        &&& (self.capacity as int) < u32::MAX as int
        &&& synced(&self.arena, self.map@)
    }

    open spec fn spec_name() -> Seq<char> {
        "LRU"@
    }

    open spec fn step_get(m: PolicyModel, key: Seq<char>, now_ms: u64) -> (PolicyModel, Option<RespView>) {
        lru_step_get(m, key, now_ms)
    }

    open spec fn step_insert(m: PolicyModel, key: Seq<char>, value: RespView, now_ms: u64) -> PolicyModel {
        insert_with_tail_eviction(m, key, value)
    }

    open spec fn step_remove(m: PolicyModel, key: Seq<char>) -> (PolicyModel, bool) {
        remove_step(m, key)
    }

    proof fn lemma_steps_wf(m: PolicyModel, key: Seq<char>, value: RespView, now_ms: u64) {
        lemma_find_entry(m.entries, key);
        let f = find_entry(m.entries, key);
        if f >= 0 {
            crate::model::lemma_remove_at_wf(m, f);
            if !resp_expired(m.entries[f].value, now_ms) {
                let es = seq![m.entries[f]] + m.entries.remove(f);
                assert forall|i: int, j: int| 0 <= i < j < es.len() implies
                    es[i].key != es[j].key by {
                    let i0: int = if i == 0 { f } else if i - 1 < f { i - 1 } else { i };
                    let j0: int = if j - 1 < f { j - 1 } else { j };
                    assert(es[i] == m.entries[i0] && es[j] == m.entries[j0]);
                    if i0 < j0 {
                    } else {
                        assert(m.entries[j0].key != m.entries[i0].key);
                    }
                }
            }
        }
        crate::model::lemma_tail_insert_wf(m, key, value);
        crate::model::lemma_remove_step_wf(m, key);
    }

    proof fn lemma_inv_wf(&self) {
        self.arena.lemma_structure();
        lemma_synced_lookup(&self.arena, self.map@, Seq::empty());
    }

    fn get(&mut self, key: &str, now_ms: u64) -> (r: Option<Arc<CachedResponse>>) {
        proof {
            old(self).arena.lemma_structure();
            old(self).arena.lemma_pos();
            lemma_synced_lookup(&old(self).arena, old(self).map@, key@);
            lemma_find_entry(arena_entries(&old(self).arena), key@);
        }
        let ghost m0 = old(self)@;
        let found: Option<u32> = match self.map.get(key) {
            Some(i) => Some(*i),
            None => None,
        };
        match found {
            None => {
                self.misses = bump_counter(self.misses);
                proof {
                    assert(self@ =~= lru_step_get(m0, key@, now_ms).0);
                }
                None
            },
            Some(index) => {
                let ghost f = find_entry(m0.entries, key@);
                proof {
                    assert(self.arena.occupied(index));
                }
                let node = self.arena.get(index).unwrap();
                let ghost nd = *node;
                let expired = node.value.is_expired(now_ms);
                if expired {
                    self.misses = bump_counter(self.misses);
                    self.map.remove(key);
                    let removed = self.arena.remove(index);
                    proof {
                        assert(removed is Some);
                        lemma_entries_after_remove(&old(self).arena, &self.arena, index, f);
                        lemma_synced_after_remove(&old(self).arena, &self.arena, index, f, old(self).map@);
                        assert(self.map@ == old(self).map@.remove(key@));
                        assert(self@ =~= lru_step_get(m0, key@, now_ms).0);
                    }
                    None
                } else {
                    self.arena.move_to_head(index);
                    proof {
                        lemma_after_move_to_head(&old(self).arena, &self.arena, index, f, old(self).map@);
                    }
                    let node = self.arena.get(index).unwrap();
                    let result = Arc::clone(&node.value);
                    self.hits = bump_counter(self.hits);
                    proof {
                        assert(result@ == m0.entries[f].value);
                        assert(self@ =~= lru_step_get(m0, key@, now_ms).0);
                    }
                    Some(result)
                }
            },
        }
    }

    fn insert(&mut self, key: String, value: CachedResponse, now_ms: u64) {
        proof {
            old(self).arena.lemma_structure();
            old(self).arena.lemma_pos();
            lemma_synced_lookup(&old(self).arena, old(self).map@, key@);
            lemma_find_entry(arena_entries(&old(self).arena), key@);
        }
        let ghost m0 = old(self)@;
        let ghost f = find_entry(m0.entries, key@);
        let found: Option<u32> = match self.map.get(key.as_str()) {
            Some(i) => Some(*i),
            None => None,
        };
        if let Some(old_index) = found {
            let removed = self.arena.remove(old_index);
            self.map.remove(key.as_str());
            proof {
                assert(removed is Some);
                lemma_entries_after_remove(&old(self).arena, &self.arena, old_index, f);
                lemma_synced_after_remove(&old(self).arena, &self.arena, old_index, f, old(self).map@);
            }
        }
        let ghost m1 = if f >= 0 { m0.remove_at(f) } else { m0 };
        proof {
            assert(arena_entries(&self.arena) =~= m1.entries);
            assert(synced(&self.arena, self.map@));
            assert(!self.map@.contains_key(key@));
            self.arena.lemma_structure();
            old(self).lemma_inv_wf();
            if f >= 0 {
                crate::model::lemma_remove_at_wf(m0, f);
            }
            assert(m1.entries.len() <= m1.cap);
        }
        while self.arena.len() >= self.capacity
            invariant
                self.arena.wf(),
                self.arena.cap() == self.capacity,
                1 <= self.capacity,
                (self.capacity as int) < u32::MAX as int,
                synced(&self.arena, self.map@),
                !self.map@.contains_key(key@),
                self.capacity == old(self).capacity,
                self.hits == old(self).hits,
                self.misses == old(self).misses,
                arena_entries(&self.arena).len() <= self.capacity,
                (arena_entries(&self.arena) == m1.entries && self.evictions == m1.evictions)
                    || (m1.entries.len() >= m1.cap && arena_entries(&self.arena) == m1.entries.drop_last()
                        && self.evictions == bump(m1.evictions)),
                m1.cap == self.capacity as nat,
                m1.entries.len() <= m1.cap,
            ensures
                self.arena.order().len() < self.capacity,
            decreases self.arena.order().len(),
        {
            proof {
                self.arena.lemma_structure();
            }
            let ghost pre = self.arena;
            let ghost map_top = self.map@;
            let popped = self.arena.pop_tail();
            if let Some((idx, evicted)) = popped {
                self.map.remove(evicted.key.as_str());
                self.evictions = bump_counter(self.evictions);
                proof {
                    let n0 = pre.order().len() as int;
                    assert(pre.pos(idx) == n0 - 1) by {
                        pre.lemma_pos();
                    }
                    assert(pre.order().remove(n0 - 1) =~= pre.order().drop_last());
                    lemma_entries_after_remove(&pre, &self.arena, idx, n0 - 1);
                    lemma_synced_after_remove(&pre, &self.arena, idx, n0 - 1, map_top);
                    assert(self.map@ == map_top.remove(pre.node(idx).key@));
                    assert(arena_entries(&self.arena) =~= arena_entries(&pre).remove(n0 - 1));
                    assert(arena_entries(&self.arena) =~= arena_entries(&pre).drop_last());
                    assert(arena_entries(&pre) == m1.entries) by {
                        if arena_entries(&pre) != m1.entries {
                            assert(arena_entries(&pre).len() < m1.cap);
                            assert(false);
                        }
                    }
                    assert(m1.entries.len() >= m1.cap);
                    assert(arena_entries(&self.arena) == m1.entries.drop_last());
                    assert(self.evictions == bump(m1.evictions));
                }
            } else {
                proof {
                    assert(false);
                }
                break;
            }
        }
        proof {
            assert(self.arena.order().len() < self.capacity) by {
                self.arena.lemma_structure();
            }
        }
        let node = Node::new(key.clone(), value);
        let ghost pre = self.arena;
        let r = self.arena.push_head(node);
        match r {
            Some(index) => {
                let ghost map_pre = self.map@;
                let ghost node_snap = node;
                self.map.insert(key, index);
                proof {
                    lemma_entries_after_push(&pre, &self.arena, index, node_snap);
                    lemma_synced_after_push(&pre, &self.arena, index, node_snap, map_pre);
                    crate::model::lemma_tail_insert_wf(m0, key@, value@);
                    assert(arena_entries(&self.arena) =~= insert_with_tail_eviction(m0, key@, value@).entries);
                    assert(self@ =~= insert_with_tail_eviction(m0, key@, value@));
                }
            },
            None => {
                proof {
                    pre.lemma_structure();
                    assert(false);
                }
            },
        }
    }

    fn remove(&mut self, key: &str) -> (r: bool) {
        proof {
            old(self).arena.lemma_structure();
            old(self).arena.lemma_pos();
            lemma_synced_lookup(&old(self).arena, old(self).map@, key@);
            lemma_find_entry(arena_entries(&old(self).arena), key@);
        }
        let ghost m0 = old(self)@;
        let ghost f = find_entry(m0.entries, key@);
        let found: Option<u32> = match self.map.get(key) {
            Some(i) => Some(*i),
            None => None,
        };
        match found {
            Some(index) => {
                self.map.remove(key);
                let removed = self.arena.remove(index);
                proof {
                    assert(removed is Some);
                    lemma_entries_after_remove(&old(self).arena, &self.arena, index, f);
                    lemma_synced_after_remove(&old(self).arena, &self.arena, index, f, old(self).map@);
                    assert(self@ =~= remove_step(m0, key@).0);
                }
                true
            },
            None => {
                false
            },
        }
    }

    fn len(&self) -> (r: usize) {
        proof {
            self.lemma_inv_wf();
        }
        self.arena.len()
    }

    fn capacity(&self) -> (r: usize) {
        self.capacity
    }

    fn name(&self) -> (r: &'static str) {
        "LRU"
    }

    fn stats(&self) -> (r: CacheStats) {
        CacheStats {
            hits: self.hits,
            misses: self.misses,
            evictions: self.evictions,
            current_size: self.arena.len(),
            capacity: self.capacity,
        }
    }
}

/// Every value `get` hands back is unexpired at the instant of the call.
pub proof fn lemma_lru_get_fresh(m: PolicyModel, key: Seq<char>, now_ms: u64)
    ensures
        ({
            let (_, v) = lru_step_get(m, key, now_ms);
            v matches Some(vv) ==> !resp_expired(vv, now_ms)
        }),
{
}

/// An unexpired value just inserted is returned by an immediate lookup.
pub proof fn lemma_lru_insert_then_get(m: PolicyModel, key: Seq<char>, value: RespView, now_ms: u64)
    requires
        m.wf(),
        !resp_expired(value, now_ms),
    ensures
        ({
            let mi = insert_with_tail_eviction(m, key, value);
            lru_step_get(mi, key, now_ms).1 == Some(value)
        }),
{
    crate::model::lemma_tail_insert_wf(m, key, value);
    let mi = insert_with_tail_eviction(m, key, value);
    lemma_find_entry(mi.entries, key);
    assert(mi.entries[0].key == key);
    assert(find_entry(mi.entries, key) == 0);
}

/// Re-inserting an existing key preserves the entry count.
pub proof fn lemma_lru_reinsert_len(m: PolicyModel, key: Seq<char>, value: RespView)
    requires
        m.wf(),
        m.contains_key(key),
    ensures
        insert_with_tail_eviction(m, key, value).entries.len() == m.entries.len(),
{
    crate::model::lemma_tail_insert_preserves_len(m, key, value);
}

/// After a successful removal an immediate lookup misses and the count
/// dropped by one.
pub proof fn lemma_lru_remove_then_get(m: PolicyModel, key: Seq<char>, now_ms: u64)
    requires
        m.wf(),
    ensures
        ({
            let (m2, existed) = remove_step(m, key);
            existed ==> lru_step_get(m2, key, now_ms).1 is None
                && m2.entries.len() == m.entries.len() - 1
        }),
{
    crate::model::lemma_remove_then_absent(m, key);
}

/// The second of two removals of the same key never reports a removal.
pub proof fn lemma_lru_remove_twice(m: PolicyModel, key: Seq<char>)
    requires
        m.wf(),
    ensures
        !remove_step(remove_step(m, key).0, key).1,
{
    crate::model::lemma_remove_twice(m, key);
}

} // verus!
