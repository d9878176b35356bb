//! SIEVE cache eviction policy.
//!
//! A roving "hand" walks from the tail toward the head looking for an
//! eviction candidate. A visited entry is retained in place — only its bit is
//! cleared — while an unvisited or expired entry is swept out. New entries
//! always go to the head, and a hit only sets the entry's visited bit: no
//! list mutation on the hot path.
//!
//! Keeping retained entries in place (instead of re-linking them at the head
//! as CLOCK-style policies do) separates fresh insertions from proven-popular
//! entries, which is what lets one-hit wonders be demoted quickly.

use vstd::prelude::*;

use std::sync::Arc;
use vstd::hash_map::StringHashMap;

use crate::arena::Arena;
use crate::arena::NIL;
use crate::arena::Node;
use crate::model::CacheEntry;
use crate::model::PolicyModel;
use crate::model::ScanOut;
use crate::model::arena_entries;
use crate::model::bump;
use crate::model::bump_counter;
use crate::model::count_visited;
use crate::model::entry_of_node;
use crate::model::find_entry;
use crate::model::lemma_after_set_visited;
use crate::model::lemma_count_visited_clear;
use crate::model::lemma_entries_after_push;
use crate::model::lemma_entries_after_remove;
use crate::model::lemma_find_entry;
use crate::model::lemma_hand_tracks_push;
use crate::model::lemma_hand_tracks_removal;
use crate::model::lemma_no_key_after_find_remove;
use crate::model::lemma_remove_at_wf;
use crate::model::lemma_remove_step_wf;
use crate::model::lemma_sieve_scan;
use crate::model::lemma_synced_after_push;
use crate::model::lemma_synced_after_remove;
use crate::model::lemma_synced_lookup;
use crate::model::remove_step;
use crate::model::sieve_scan;
use crate::model::synced;
use crate::traits::CachePolicy;
use crate::traits::CacheStats;
use crate::traits::CachedResponse;
use crate::traits::RespView;
use crate::traits::resp_expired;

verus! {

pub struct SieveCache {
    arena: Arena,
    map: StringHashMap<u32>,
    hand: u32,
    capacity: usize,
    hits: u64,
    misses: u64,
    evictions: u64,
}

/// What SIEVE's `get` does. A miss or an expired entry counts as a miss (the
/// expired entry is dropped, with the hand rewritten if it aimed there); a
/// fresh entry counts as a hit and only gains its visited bit.
pub open spec fn sieve_step_get(m: PolicyModel, key: Seq<char>, now_ms: u64) -> (PolicyModel, Option<RespView>) {
    let f = find_entry(m.entries, key);
    if f < 0 {
        (PolicyModel { misses: bump(m.misses), ..m }, None)
    } else if resp_expired(m.entries[f].value, now_ms) {
        (PolicyModel { misses: bump(m.misses), ..m.remove_at(f) }, None)
    } else {
        (PolicyModel {
            entries: m.entries.update(f, (CacheEntry { visited: true, ..m.entries[f] })),
            hits: bump(m.hits),
            ..m
        }, Some(m.entries[f].value))
    }
}

/// One run of the eviction scan: on an empty cache nothing happens; otherwise
/// the scan starts at the hand (or at the tail when the hand is parked),
/// sweeps exactly one entry out and leaves the hand on its predecessor.
pub open spec fn sieve_evict_model(m: PolicyModel, now_ms: u64) -> PolicyModel {
    if m.entries.len() == 0 {
        m
    } else {
        let start = if m.hand < 0 { m.entries.len() - 1 } else { m.hand };
        let out = sieve_scan(m.entries, start, now_ms);
        PolicyModel { entries: out.entries, hand: out.hand, evictions: bump(m.evictions), ..m }
    }
}

/// What SIEVE's `insert` does: drop an existing entry for the key (rewriting
/// an aliased hand first), run the eviction scan while at capacity, then push
/// the new entry unvisited at the head.
pub open spec fn sieve_step_insert(m: PolicyModel, key: Seq<char>, value: RespView, now_ms: u64) -> PolicyModel {
    let f = find_entry(m.entries, key);
    let m1 = if f >= 0 {
        m.remove_at(f)
    } else {
        m
    };
    let m2 = if m1.entries.len() >= m1.cap {
        sieve_evict_model(m1, now_ms)
    } else {
        m1
    };
    m2.push_front(key, value)
}

/// The eviction scan keeps the model well-formed: it removes exactly one
/// entry, keeps every surviving key (a subset of the old keys), and parks the
/// hand on a valid position or `-1`.
pub proof fn lemma_sieve_evict_wf(m: PolicyModel, now_ms: u64)
    requires
        m.wf(),
    ensures
        ({
            let me = sieve_evict_model(m, now_ms);
            &&& me.wf()
            &&& me.cap == m.cap
            &&& me.hits == m.hits
            &&& me.misses == m.misses
            &&& me.evictions == m.evictions || me.evictions == bump(m.evictions)
            &&& m.entries.len() > 0 ==> me.entries.len() == m.entries.len() - 1
            &&& m.entries.len() == 0 ==> me == m
            &&& forall|q: int| 0 <= q < me.entries.len() ==> exists|j: int|
                0 <= j < m.entries.len() && (#[trigger] me.entries[q].key) == m.entries[j].key
        }),
{
    if m.entries.len() == 0 {
    } else {
        let start = if m.hand < 0 { m.entries.len() - 1 } else { m.hand };
        lemma_sieve_scan(m.entries, start, now_ms);
    }
}

/// The insert step keeps the model well-formed, the capacity fixed and the
/// counters monotone; afterwards the key stands unvisited at the head.
pub proof fn lemma_sieve_insert_wf(m: PolicyModel, key: Seq<char>, value: RespView, now_ms: u64)
    requires
        m.wf(),
    ensures
        ({
            let mi = sieve_step_insert(m, key, value, now_ms);
            &&& mi.wf()
            &&& mi.cap == m.cap
            &&& mi.hits == m.hits
            &&& mi.misses == m.misses
            &&& mi.evictions == m.evictions || mi.evictions == bump(m.evictions)
            &&& mi.entries.len() >= 1
            &&& mi.entries[0] == (CacheEntry { key, value, visited: false })
        }),
{
    lemma_find_entry(m.entries, key);
    let f = find_entry(m.entries, key);
    let m1 = if f >= 0 {
        m.remove_at(f)
    } else {
        m
    };
    if f >= 0 {
        lemma_remove_at_wf(m, f);
    }
    lemma_no_key_after_find_remove(m, key);
    let m2 = if m1.entries.len() >= m1.cap {
        sieve_evict_model(m1, now_ms)
    } else {
        m1
    };
    lemma_sieve_evict_wf(m1, now_ms);
    assert forall|q: int| 0 <= q < m2.entries.len() implies (#[trigger] m2.entries[q].key) != key by {
        if m1.entries.len() >= m1.cap {
            let j = choose|j: int| 0 <= j < m1.entries.len() && m2.entries[q].key == m1.entries[j].key;
            assert(m1.entries[j].key != key);
        }
    }
    let mi = m2.push_front(key, value);
    assert(m2.entries.len() < m.cap);
    assert forall|i: int, j: int| 0 <= i < j < mi.entries.len() implies
        mi.entries[i].key != mi.entries[j].key by {
        if i == 0 {
            assert(mi.entries[j] == m2.entries[j - 1]);
        } else {
            assert(mi.entries[i] == m2.entries[i - 1] && mi.entries[j] == m2.entries[j - 1]);
        }
    }
    assert(mi.wf());
}

impl SieveCache {
    pub fn new(capacity: usize) -> (c: Self)
        requires
            1 <= capacity,
            capacity < u32::MAX as usize,
        ensures
            c.inv(),
            c@ == PolicyModel::fresh(capacity as nat),
    {
        let c = SieveCache {
            arena: Arena::new(capacity),
            map: StringHashMap::with_capacity(capacity),
            hand: NIL,
            capacity,
            hits: 0,
            misses: 0,
            evictions: 0,
        };
        proof {
            assert(arena_entries(&c.arena) =~= Seq::<CacheEntry>::empty());
            assert(c@ =~= PolicyModel::fresh(capacity as nat));
        }
        c
    }

    /// The hand as a position into the entries, `-1` when parked.
    closed spec fn hand_pos(&self) -> int {
        if self.hand == NIL {
            -1
        } else {
            self.arena.pos(self.hand)
        }
    }

    /// The SIEVE eviction scan.
    ///
    /// Starting from the hand (or the tail when the hand is parked), walk
    /// toward the head: a visited entry survives with its bit cleared, an
    /// unvisited or expired entry is evicted. Walking past the head wraps
    /// back to the tail; on an empty cache nothing happens.
    fn evict_one(&mut self, now_ms: u64)
        requires
            old(self).inv(),
        ensures
            final(self).inv(),
            final(self)@ == sieve_evict_model(old(self)@, now_ms),
    {
        proof {
            old(self).arena.lemma_structure();
            old(self).arena.lemma_pos();
        }
        let ghost m0 = old(self)@;
        if self.hand == NIL {
            self.hand = self.arena.tail_index();
        }
        if self.hand == NIL {
            proof {
                assert(m0.entries.len() == 0);
                assert(self@ =~= sieve_evict_model(m0, now_ms));
            }
            return;
        }
        let ghost start0 = if m0.hand < 0 { m0.entries.len() - 1 } else { m0.hand };
        proof {
            assert(0 <= start0 < m0.entries.len());
            assert(self.hand_pos() == start0);
        }
        loop
            invariant
                self.arena.wf(),
                self.arena.cap() == self.capacity,
                1 <= self.capacity,
                (self.capacity as int) < u32::MAX as int,
                synced(&self.arena, self.map@),
                self.map@ == old(self).map@,
                self.hits == old(self).hits,
                self.misses == old(self).misses,
                self.evictions == old(self).evictions,
                self.capacity == old(self).capacity,
                self.hand == NIL || self.arena.occupied(self.hand),
                arena_entries(&self.arena).len() == m0.entries.len(),
                m0.entries.len() > 0,
                m0 == old(self)@,
                start0 == (if m0.hand < 0 { m0.entries.len() - 1 } else { m0.hand }),
                0 <= start0 < m0.entries.len(),
                ({
                    let cur = arena_entries(&self.arena);
                    let cs = if self.hand_pos() < 0 { cur.len() - 1 } else { self.hand_pos() };
                    sieve_scan(cur, cs, now_ms) == sieve_scan(m0.entries, start0, now_ms)
                }),
            decreases count_visited(arena_entries(&self.arena)),
        {
            proof {
                self.arena.lemma_structure();
                self.arena.lemma_pos();
            }
            let ghost cs_inv = if self.hand_pos() < 0 { arena_entries(&self.arena).len() - 1 } else { self.hand_pos() };
            if self.hand == NIL {
                self.hand = self.arena.tail_index();
            }
            let index = self.hand;
            let ghost pre = self.arena;
            let ghost cur = arena_entries(&self.arena);
            let ghost cs = self.arena.pos(index);
            proof {
                assert(self.arena.occupied(index));
                assert(cs == cs_inv) by {
                    if self.hand == self.arena.spec_tail() && cs_inv == cur.len() - 1 {
                        assert(self.arena.order().last() == self.arena.spec_tail());
                        assert(self.arena.pos(self.arena.order()[cur.len() - 1]) == cur.len() - 1);
                    }
                }
                assert(0 <= cs < cur.len());
                assert(cur[cs] == entry_of_node(self.arena.node(index)));
                assert(sieve_scan(cur, cs, now_ms) == sieve_scan(m0.entries, start0, now_ms));
            }
            let node = self.arena.get(index).unwrap();
            let prev = node.prev;
            let ghost nd = *node;
            let expired = node.value.is_expired(now_ms);
            let vis = node.is_visited();
            proof {
                if cs == 0 {
                    assert(prev == NIL);
                } else {
                    assert(pre.node(pre.order()[cs - 1]).next == pre.order()[cs]);
                    assert(prev == pre.order()[cs - 1]);
                    assert(pre.occupied(prev));
                }
            }
            if expired || !vis {
                self.hand = prev;
                let evicted = self.arena.remove(index).unwrap();
                self.map.remove(evicted.key.as_str());
                self.evictions = bump_counter(self.evictions);
                proof {
                    let out = sieve_scan(cur, cs, now_ms);
                    assert(out == (ScanOut { entries: cur.remove(cs), hand: cs - 1, victim: cur[cs] }));
                    lemma_entries_after_remove(&pre, &self.arena, index, cs);
                    lemma_synced_after_remove(&pre, &self.arena, index, cs, old(self).map@);
                    assert(arena_entries(&self.arena) == cur.remove(cs));
                    self.arena.lemma_pos();
                    if cs > 0 {
                        assert(self.arena.order() == pre.order().remove(cs));
                        assert(self.arena.order()[cs - 1] == pre.order()[cs - 1]);
                        assert(self.arena.pos(self.arena.order()[cs - 1]) == cs - 1);
                        assert(self.arena.pos(prev) == cs - 1);
                        assert(self.hand_pos() == cs - 1);
                    } else {
                        assert(self.hand == NIL);
                        assert(self.hand_pos() == -1);
                    }
                    assert(self@.entries == out.entries);
                    assert(self@.hand == out.hand);
                    assert(self@ =~= sieve_evict_model(m0, now_ms));
                }
                return;
            } else {
                self.arena.set_visited(index, false);
                self.hand = prev;
                proof {
                    lemma_after_set_visited(&pre, &self.arena, index, false, old(self).map@);
                    let cur2 = arena_entries(&self.arena);
                    assert(cur2 == cur.update(cs, (CacheEntry { visited: false, ..cur[cs] })));
                    let p2 = if cs == 0 { cur.len() - 1 } else { cs - 1 };
                    assert(sieve_scan(cur, cs, now_ms) == sieve_scan(cur2, p2, now_ms));
                    self.arena.lemma_pos();
                    if cs > 0 {
                        assert(self.arena.order() == pre.order());
                        assert(self.arena.order()[cs - 1] == prev);
                        assert(self.arena.pos(self.arena.order()[cs - 1]) == cs - 1);
                        assert(self.arena.pos(prev) == cs - 1);
                        assert(self.hand_pos() == cs - 1);
                        assert(p2 == (if self.hand_pos() < 0 { cur2.len() - 1 } else { self.hand_pos() }));
                    } else {
                        assert(self.hand == NIL);
                        assert(p2 == cur2.len() - 1);
                    }
                    lemma_count_visited_clear(cur, cs);
                }
            }
        }
    }
}

impl View for SieveCache {
    type V = PolicyModel;

    closed spec fn view(&self) -> PolicyModel {
        PolicyModel {
            entries: arena_entries(&self.arena),
            hand: self.hand_pos(),
            cap: self.capacity as nat,
            hits: self.hits,
            misses: self.misses,
            evictions: self.evictions,
        }
    }
}

impl CachePolicy for SieveCache {
    closed spec fn inv(&self) -> bool {
        &&& self.arena.wf()
        &&& self.arena.cap() == self.capacity
        &&& 1 <= self.capacity
        &&& (self.capacity as int) < u32::MAX as int
        &&& synced(&self.arena, self.map@)
        &&& self.hand == NIL || self.arena.occupied(self.hand)
    }

    open spec fn spec_name() -> Seq<char> {
        "SIEVE"@
    }

    open spec fn step_get(m: PolicyModel, key: Seq<char>, now_ms: u64) -> (PolicyModel, Option<RespView>) {
        sieve_step_get(m, key, now_ms)
    }

    open spec fn step_insert(m: PolicyModel, key: Seq<char>, value: RespView, now_ms: u64) -> PolicyModel {
        sieve_step_insert(m, key, value, now_ms)
    }

    open spec fn step_remove(m: PolicyModel, key: Seq<char>) -> (PolicyModel, bool) {
        remove_step(m, key)
    }

    proof fn lemma_steps_wf(m: PolicyModel, key: Seq<char>, value: RespView, now_ms: u64) {
        lemma_find_entry(m.entries, key);
        let f = find_entry(m.entries, key);
        if f >= 0 {
            lemma_remove_at_wf(m, f);
            if !resp_expired(m.entries[f].value, now_ms) {
                let es = m.entries.update(f, (CacheEntry { visited: true, ..m.entries[f] }));
                assert forall|i: int, j: int| 0 <= i < j < es.len() implies
                    es[i].key != es[j].key by {
                    assert(es[i].key == m.entries[i].key && es[j].key == m.entries[j].key);
                }
            }
        }
        lemma_sieve_insert_wf(m, key, value, now_ms);
        lemma_remove_step_wf(m, key);
    }

    proof fn lemma_inv_wf(&self) {
        self.arena.lemma_structure();
        self.arena.lemma_pos();
        lemma_synced_lookup(&self.arena, self.map@, Seq::empty());
        if self.hand != NIL {
            assert(self.arena.occupied(self.hand));
        }
    }

    fn get(&mut self, key: &str, now_ms: u64) -> (r: Option<Arc<CachedResponse>>) {
        proof {
            old(self).arena.lemma_structure();
            old(self).arena.lemma_pos();
            lemma_synced_lookup(&old(self).arena, old(self).map@, key@);
            lemma_find_entry(arena_entries(&old(self).arena), key@);
        }
        let ghost m0 = old(self)@;
        let found: Option<u32> = match self.map.get(key) {
            Some(i) => Some(*i),
            None => None,
        };
        match found {
            None => {
                self.misses = bump_counter(self.misses);
                proof {
                    assert(self@ =~= sieve_step_get(m0, key@, now_ms).0);
                }
                None
            },
            Some(index) => {
                let ghost f = find_entry(m0.entries, key@);
                proof {
                    assert(self.arena.occupied(index));
                }
                let node = self.arena.get(index).unwrap();
                let ghost nd = *node;
                let prev = node.prev;
                let expired = node.value.is_expired(now_ms);
                if expired {
                    self.misses = bump_counter(self.misses);
                    self.map.remove(key);
                    if self.hand == index {
                        self.hand = prev;
                    }
                    let ghost pre = self.arena;
                    let removed = self.arena.remove(index);
                    proof {
                        assert(removed is Some);
                        lemma_entries_after_remove(&old(self).arena, &self.arena, index, f);
                        lemma_synced_after_remove(&old(self).arena, &self.arena, index, f, old(self).map@);
                        self.arena.lemma_pos();
                        lemma_hand_tracks_removal(&pre, &self.arena, index, f, old(self).hand, self.hand);
                        assert(self@ =~= sieve_step_get(m0, key@, now_ms).0);
                    }
                    None
                } else {
                    let result = Arc::clone(&node.value);
                    let ghost pre = self.arena;
                    self.arena.set_visited(index, true);
                    self.hits = bump_counter(self.hits);
                    proof {
                        lemma_after_set_visited(&pre, &self.arena, index, true, old(self).map@);
                        self.arena.lemma_pos();
                        if self.hand != NIL {
                            assert(self.arena.occupied(self.hand));
                            assert(self.arena.pos(self.hand) == pre.pos(self.hand));
                        }
                        assert(self@ =~= sieve_step_get(m0, key@, now_ms).0);
                        assert(result@ == m0.entries[f].value);
                    }
                    Some(result)
                }
            },
        }
    }

    fn insert(&mut self, key: String, value: CachedResponse, now_ms: u64) {
        proof {
            old(self).arena.lemma_structure();
            old(self).arena.lemma_pos();
            lemma_synced_lookup(&old(self).arena, old(self).map@, key@);
            lemma_find_entry(arena_entries(&old(self).arena), key@);
        }
        let ghost m0 = old(self)@;
        let ghost f = find_entry(m0.entries, key@);
        let found: Option<u32> = match self.map.get(key.as_str()) {
            Some(i) => Some(*i),
            None => None,
        };
        if let Some(old_index) = found {
            if self.hand == old_index {
                let node = self.arena.get(old_index).unwrap();
                self.hand = node.prev;
            }
            let ghost pre = self.arena;
            let ghost hand_pre = old(self).hand;
            let removed = self.arena.remove(old_index);
            self.map.remove(key.as_str());
            proof {
                assert(removed is Some);
                lemma_entries_after_remove(&old(self).arena, &self.arena, old_index, f);
                lemma_synced_after_remove(&old(self).arena, &self.arena, old_index, f, old(self).map@);
                self.arena.lemma_pos();
                lemma_hand_tracks_removal(&pre, &self.arena, old_index, f, hand_pre, self.hand);
            }
        }
        let ghost m1 = if f >= 0 { m0.remove_at(f) } else { m0 };
        proof {
            assert(arena_entries(&self.arena) =~= m1.entries);
            assert(self@ =~= m1);
            assert(!self.map@.contains_key(key@));
            self.arena.lemma_structure();
            old(self).lemma_inv_wf();
            if f >= 0 {
                lemma_remove_at_wf(m0, f);
            }
            assert(m1.wf());
            lemma_no_key_after_find_remove(m0, key@);
        }
        while self.arena.len() >= self.capacity
            invariant
                self.inv(),
                self.capacity == old(self).capacity,
                !self.map@.contains_key(key@),
                self.hits == old(self).hits,
                self.misses == old(self).misses,
                (self@ == m1 || (m1.entries.len() >= m1.cap && self@ == sieve_evict_model(m1, now_ms))),
                m1.wf(),
                m1.cap == self.capacity as nat,
                forall|q: int| 0 <= q < m1.entries.len() ==> (#[trigger] m1.entries[q].key) != key@,
            ensures
                self.arena.order().len() < self.capacity,
                (self@ == m1 && m1.entries.len() < m1.cap)
                    || (m1.entries.len() >= m1.cap && self@ == sieve_evict_model(m1, now_ms)),
            decreases self.arena.order().len(),
        {
            proof {
                self.arena.lemma_structure();
                if self@ != m1 {
                    lemma_sieve_evict_wf(m1, now_ms);
                    assert(self@.entries.len() < m1.cap);
                    assert(false);
                }
            }
            self.evict_one(now_ms);
            proof {
                lemma_sieve_evict_wf(m1, now_ms);
                self.arena.lemma_structure();
                assert(!self.map@.contains_key(key@)) by {
                    if self.map@.contains_key(key@) {
                        let p = choose|p: int| 0 <= p < self.arena.order().len()
                            && self.arena.node(#[trigger] self.arena.order()[p]).key@ == key@;
                        assert(arena_entries(&self.arena)[p].key == key@);
                        assert(self@.entries[p].key == key@);
                        let j = choose|j: int| 0 <= j < m1.entries.len()
                            && self@.entries[p].key == m1.entries[j].key;
                        assert(m1.entries[j].key != key@);
                        assert(false);
                    }
                }
            }
        }
        proof {
            assert(!self.map@.contains_key(key@));
        }
        let ghost m2 = if m1.entries.len() >= m1.cap { sieve_evict_model(m1, now_ms) } else { m1 };
        proof {
            assert(self@ == m2);
        }
        let node = Node::new(key.clone(), value);
        let ghost pre = self.arena;
        let ghost hand_pre = self.hand;
        let r = self.arena.push_head(node);
        match r {
            Some(index) => {
                let ghost map_pre = self.map@;
                let ghost node_snap = node;
                self.map.insert(key, index);
                proof {
                    lemma_entries_after_push(&pre, &self.arena, index, node_snap);
                    lemma_synced_after_push(&pre, &self.arena, index, node_snap, map_pre);
                    self.arena.lemma_pos();
                    lemma_hand_tracks_push(&pre, &self.arena, index, hand_pre);
                    assert(self.hand == hand_pre);
                    assert(arena_entries(&self.arena) =~= m2.push_front(key@, value@).entries);
                    assert(self@ =~= sieve_step_insert(m0, key@, value@, now_ms));
                }
            },
            None => {
                proof {
                    pre.lemma_structure();
                    assert(false);
                }
            },
        }
    }

    fn remove(&mut self, key: &str) -> (r: bool) {
        proof {
            old(self).arena.lemma_structure();
            old(self).arena.lemma_pos();
            lemma_synced_lookup(&old(self).arena, old(self).map@, key@);
            lemma_find_entry(arena_entries(&old(self).arena), key@);
        }
        let ghost m0 = old(self)@;
        let ghost f = find_entry(m0.entries, key@);
        let found: Option<u32> = match self.map.get(key) {
            Some(i) => Some(*i),
            None => None,
        };
        match found {
            Some(index) => {
                if self.hand == index {
                    let node = self.arena.get(index).unwrap();
                    self.hand = node.prev;
                }
                let ghost pre = self.arena;
                let ghost hand_pre = old(self).hand;
                self.map.remove(key);
                let removed = self.arena.remove(index);
                proof {
                    assert(removed is Some);
                    lemma_entries_after_remove(&old(self).arena, &self.arena, index, f);
                    lemma_synced_after_remove(&old(self).arena, &self.arena, index, f, old(self).map@);
                    self.arena.lemma_pos();
                    lemma_hand_tracks_removal(&pre, &self.arena, index, f, hand_pre, self.hand);
                    assert(self@ =~= remove_step(m0, key@).0);
                }
                true
            },
            None => {
                false
            },
        }
    }

    fn len(&self) -> (r: usize) {
        proof {
            self.lemma_inv_wf();
        }
        self.arena.len()
    }

    fn capacity(&self) -> (r: usize) {
        self.capacity
    }

    fn name(&self) -> (r: &'static str) {
        "SIEVE"
    }

    fn stats(&self) -> (r: CacheStats) {
        CacheStats {
            hits: self.hits,
            misses: self.misses,
            evictions: self.evictions,
            current_size: self.arena.len(),
            capacity: self.capacity,
        }
    }
}

/// Every value `get` hands back is unexpired at the instant of the call.
pub proof fn lemma_sieve_get_fresh(m: PolicyModel, key: Seq<char>, now_ms: u64)
    ensures
        ({
            let (_, v) = sieve_step_get(m, key, now_ms);
            v matches Some(vv) ==> !resp_expired(vv, now_ms)
        }),
{
}

/// An unexpired value just inserted is returned by an immediate lookup.
pub proof fn lemma_sieve_insert_then_get(m: PolicyModel, key: Seq<char>, value: RespView, now_ms: u64)
    requires
        m.wf(),
        !resp_expired(value, now_ms),
    ensures
        ({
            let mi = sieve_step_insert(m, key, value, now_ms);
            sieve_step_get(mi, key, now_ms).1 == Some(value)
        }),
{
    lemma_sieve_insert_wf(m, key, value, now_ms);
    let mi = sieve_step_insert(m, key, value, now_ms);
    lemma_find_entry(mi.entries, key);
    assert(mi.entries[0].key == key);
    assert(find_entry(mi.entries, key) == 0);
}

/// Re-inserting an existing key preserves the entry count: the old entry
/// leaves, the scan does not fire, and the new entry takes the head.
pub proof fn lemma_sieve_reinsert_len(m: PolicyModel, key: Seq<char>, value: RespView, now_ms: u64)
    requires
        m.wf(),
        m.contains_key(key),
    ensures
        sieve_step_insert(m, key, value, now_ms).entries.len() == m.entries.len(),
{
    lemma_find_entry(m.entries, key);
}

/// After a successful removal an immediate lookup misses and the count
/// dropped by one.
pub proof fn lemma_sieve_remove_then_get(m: PolicyModel, key: Seq<char>, now_ms: u64)
    requires
        m.wf(),
    ensures
        ({
            let (m2, existed) = remove_step(m, key);
            existed ==> sieve_step_get(m2, key, now_ms).1 is None
                && m2.entries.len() == m.entries.len() - 1
        }),
{
    crate::model::lemma_remove_then_absent(m, key);
}

/// The second of two removals of the same key never reports a removal.
pub proof fn lemma_sieve_remove_twice(m: PolicyModel, key: Seq<char>)
    requires
        m.wf(),
    ensures
        !remove_step(remove_step(m, key).0, key).1,
{
    crate::model::lemma_remove_twice(m, key);
}

impl SieveCache {
    /// The SIEVE hand invariant: the hand is parked, or aims at an entry
    /// that currently lives in the cache.
    pub proof fn lemma_hand_parked_or_live(&self)
        requires
            self.inv(),
        ensures
            -1 <= self@.hand < self@.entries.len(),
    {
        self.lemma_inv_wf();
    }
}

} // verus!
