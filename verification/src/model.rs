//! Ghost model shared by the three eviction policies.
//!
//! A policy state is modelled as a sequence of entries ordered from the head
//! of the intrusive list (most recently inserted) to its tail, together with
//! the roving hand (a position into that sequence, `-1` when parked), the
//! capacity and the three statistics counters. The executable caches carry a
//! view into this model, and each operation is specified as a pure function
//! from model to model.

use vstd::prelude::*;

use std::sync::Arc;

use crate::arena::Arena;
use crate::arena::Node;
use crate::traits::CachedResponse;
use crate::traits::RespView;
use crate::traits::resp_expired;

verus! {

/// One cached entry as the model sees it: the key, the response value and the
/// visited bit consulted by the SIEVE hand.
#[verifier::ext_equal]
pub ghost struct CacheEntry {
    pub key: Seq<char>,
    pub value: RespView,
    pub visited: bool,
}

/// The model of one policy instance. `entries[0]` is the list head (newest
/// insertion), `entries[len - 1]` the tail. `hand` is a position into
/// `entries`, or `-1` when the hand is parked.
#[verifier::ext_equal]
pub ghost struct PolicyModel {
    pub entries: Seq<CacheEntry>,
    pub hand: int,
    pub cap: nat,
    pub hits: u64,
    pub misses: u64,
    pub evictions: u64,
}

/// Saturating increment: statistics counters never decrease and never wrap.
pub open spec fn bump(c: u64) -> u64 {
    if c == u64::MAX {
        c
    } else {
        (c + 1) as u64
    }
}

/// No two entries share a key.
pub open spec fn keys_distinct(es: Seq<CacheEntry>) -> bool {
    forall|i: int, j: int| 0 <= i < j < es.len() ==> es[i].key != es[j].key
}

/// Position of the entry holding `key`, or `-1` when absent.
pub open spec fn find_entry(es: Seq<CacheEntry>, key: Seq<char>) -> int {
    if exists|i: int| 0 <= i < es.len() && es[i].key == key {
        choose|i: int| 0 <= i < es.len() && es[i].key == key
    } else {
        -1
    }
}

/// How a stable hand position moves when the entry at `p` is removed: the
/// hand is rewritten to the removed entry's predecessor when it aims at `p`,
/// and otherwise keeps aiming at the same entry.
pub open spec fn hand_after_remove(h: int, p: int) -> int {
    if h == p {
        p - 1
    } else if h > p {
        h - 1
    } else {
        h
    }
}

impl PolicyModel {
    /// Number of live entries.
    pub open spec fn len(self) -> nat {
        self.entries.len()
    }

    pub open spec fn find(self, key: Seq<char>) -> int {
        find_entry(self.entries, key)
    }

    pub open spec fn contains_key(self, key: Seq<char>) -> bool {
        self.find(key) >= 0
    }

    /// Well-formedness: positive capacity never exceeded, unique keys, and a
    /// hand that is parked or aims at a live entry.
    pub open spec fn wf(self) -> bool {
        &&& self.cap >= 1
        &&& self.entries.len() <= self.cap
        &&& keys_distinct(self.entries)
        &&& -1 <= self.hand < self.entries.len()
    }

    /// The model of a freshly constructed cache.
    pub open spec fn fresh(cap: nat) -> PolicyModel {
        PolicyModel { entries: Seq::empty(), hand: -1, cap, hits: 0, misses: 0, evictions: 0 }
    }

    /// Removal of the entry at position `p`, with the hand kept stable.
    pub open spec fn remove_at(self, p: int) -> PolicyModel {
        PolicyModel { entries: self.entries.remove(p), hand: hand_after_remove(self.hand, p), ..self }
    }

    /// A new unvisited entry at the head; the hand keeps aiming at the same
    /// entry, whose position grew by one.
    pub open spec fn push_front(self, key: Seq<char>, value: RespView) -> PolicyModel {
        PolicyModel {
            entries: self.entries.insert(0, CacheEntry { key, value, visited: false }),
            hand: if self.hand >= 0 { self.hand + 1 } else { -1 },
            ..self
        }
    }
}

/// The returned handle carries exactly the value the model predicts.
pub open spec fn opt_resp_matches(r: Option<Arc<CachedResponse>>, v: Option<RespView>) -> bool {
    match r {
        Some(a) => v is Some && a@ == v.unwrap(),
        None => v is None,
    }
}

/// The entry a stored node stands for.
pub open spec fn entry_of_node(n: Node) -> CacheEntry {
    CacheEntry { key: n.key@, value: n.value@, visited: n.visited }
}

/// The entries of an arena's list, head first.
pub open spec fn arena_entries(a: &Arena) -> Seq<CacheEntry> {
    Seq::new(a.order().len(), |p: int| entry_of_node(a.node(a.order()[p])))
}

/// The key index agrees with the arena: every listed node's key maps to its
/// slot index, every mapped key names a listed node, and keys are unique.
pub open spec fn synced(a: &Arena, m: Map<Seq<char>, u32>) -> bool {
    &&& forall|p: int| 0 <= p < a.order().len() ==> {
        let key = a.node(#[trigger] a.order()[p]).key@;
        m.contains_key(key) && m[key] == a.order()[p]
    }
    &&& forall|k: Seq<char>| #[trigger] m.contains_key(k) ==> exists|p: int|
        0 <= p < a.order().len() && a.node(#[trigger] a.order()[p]).key@ == k
    &&& forall|p: int, q: int| 0 <= p < q < a.order().len() ==>
        a.node(#[trigger] a.order()[p]).key@ != a.node(#[trigger] a.order()[q]).key@
}

/// Saturating increment, executable form.
pub fn bump_counter(c: u64) -> (r: u64)
    ensures
        r == bump(c),
{
    if c == u64::MAX {
        c
    } else {
        c + 1
    }
}

/// Facts about `find_entry` that every proof needs: the result is a valid
/// position holding the key, or `-1` when the key is absent, and under
/// distinct keys it is the only such position.
pub proof fn lemma_find_entry(es: Seq<CacheEntry>, key: Seq<char>)
    ensures
        find_entry(es, key) >= 0 ==> 0 <= find_entry(es, key) < es.len() && es[find_entry(es, key)].key == key,
        find_entry(es, key) == -1 ==> forall|i: int| 0 <= i < es.len() ==> es[i].key != key,
        find_entry(es, key) >= 0 || find_entry(es, key) == -1,
        keys_distinct(es) ==> forall|i: int|
            0 <= i < es.len() && es[i].key == key ==> i == find_entry(es, key),
{
    if exists|i: int| 0 <= i < es.len() && es[i].key == key {
        let w = choose|i: int| 0 <= i < es.len() && es[i].key == key;
        assert(0 <= w < es.len() && es[w].key == key);
    }
}

/// Shared `insert` step for the two policies that evict from the tail (FIFO
/// and LRU): drop an existing entry for the key, pop the tail when at
/// capacity, then push the new entry at the head.
pub open spec fn insert_with_tail_eviction(m: PolicyModel, key: Seq<char>, value: RespView) -> PolicyModel {
    let f = find_entry(m.entries, key);
    let m1 = if f >= 0 {
        m.remove_at(f)
    } else {
        m
    };
    let m2 = if m1.entries.len() >= m1.cap && m1.entries.len() > 0 {
        PolicyModel {
            entries: m1.entries.drop_last(),
            hand: hand_after_remove(m1.hand, m1.entries.len() - 1),
            evictions: bump(m1.evictions),
            ..m1
        }
    } else {
        m1
    };
    m2.push_front(key, value)
}

/// Shared `remove` step: drop the entry for the key if present, keeping the
/// hand stable, and report whether it was there.
pub open spec fn remove_step(m: PolicyModel, key: Seq<char>) -> (PolicyModel, bool) {
    let f = find_entry(m.entries, key);
    if f >= 0 {
        (m.remove_at(f), true)
    } else {
        (m, false)
    }
}

/// Ties a key lookup in the index to a position in the arena's list.
pub proof fn lemma_synced_lookup(a: &Arena, m: Map<Seq<char>, u32>, key: Seq<char>)
    requires
        a.wf(),
        synced(a, m),
    ensures
        keys_distinct(arena_entries(a)),
        m.contains_key(key) ==> ({
            let f = find_entry(arena_entries(a), key);
            &&& 0 <= f < a.order().len()
            &&& a.order()[f] == m[key]
            &&& a.occupied(m[key])
            &&& a.node(m[key]).key@ == key
            &&& a.pos(m[key]) == f
            &&& arena_entries(a)[f] == entry_of_node(a.node(m[key]))
        }),
        !m.contains_key(key) ==> find_entry(arena_entries(a), key) == -1,
{
    let es = arena_entries(a);
    a.lemma_structure();
    a.lemma_pos();
    assert forall|p: int| 0 <= p < es.len() implies #[trigger] es[p].key == a.node(a.order()[p]).key@ by {}
    lemma_find_entry(es, key);
    if m.contains_key(key) {
        let p = choose|p: int| 0 <= p < a.order().len() && a.node(#[trigger] a.order()[p]).key@ == key;
        assert(es[p].key == key);
        let f = find_entry(es, key);
        assert(f == p);
        assert(m[key] == a.order()[p]);
        assert(a.occupied(a.order()[p]));
        assert(a.pos(a.order()[p]) == p);
    } else {
        let f = find_entry(es, key);
        if f >= 0 {
            assert(es[f].key == key);
            assert(m.contains_key(a.node(a.order()[f]).key@));
            assert(false);
        }
    }
}

/// After an unlink, the list's entries are the old entries with one position
/// removed.
pub proof fn lemma_entries_after_remove(pre: &Arena, post: &Arena, index: u32, p: int)
    requires
        pre.wf(),
        0 <= p < pre.order().len(),
        pre.order()[p] == index,
        post.order() == pre.order().remove(p),
        forall|j: u32| pre.occupied(j) && j != index ==> #[trigger] post.occupied(j)
            && crate::arena::same_core(post.node(j), pre.node(j)),
    ensures
        arena_entries(post) == arena_entries(pre).remove(p),
{
    pre.lemma_structure();
    pre.lemma_pos();
    let es0 = arena_entries(pre);
    let es1 = arena_entries(post);
    assert forall|q: int| 0 <= q < es1.len() implies es1[q] == es0.remove(p)[q] by {
        let j = post.order()[q];
        if q < p {
            assert(j == pre.order()[q]);
            assert(pre.pos(pre.order()[q]) == q && pre.pos(pre.order()[p]) == p);
            assert(j != index);
        } else {
            assert(j == pre.order()[q + 1]);
            assert(pre.pos(pre.order()[q + 1]) == q + 1 && pre.pos(pre.order()[p]) == p);
            assert(j != index);
        }
        assert(pre.occupied(j));
        assert(post.occupied(j));
        assert(crate::arena::same_core(post.node(j), pre.node(j)));
    }
    assert(es1 =~= es0.remove(p));
}

/// After a push at the head, the list's entries are the new node's entry in
/// front of the old entries.
pub proof fn lemma_entries_after_push(pre: &Arena, post: &Arena, index: u32, n: Node)
    requires
        pre.wf(),
        !pre.occupied(index),
        post.order() == seq![index] + pre.order(),
        crate::arena::same_core(post.node(index), n),
        forall|j: u32| pre.occupied(j) ==> #[trigger] post.occupied(j)
            && crate::arena::same_core(post.node(j), pre.node(j)),
    ensures
        arena_entries(post) == seq![entry_of_node(n)] + arena_entries(pre),
{
    pre.lemma_structure();
    let es0 = arena_entries(pre);
    let es1 = arena_entries(post);
    assert forall|q: int| 0 <= q < es1.len() implies es1[q] == (seq![entry_of_node(n)] + es0)[q] by {
        if q == 0 {
            assert(post.order()[0] == index);
            assert(crate::arena::same_core(post.node(index), n));
        } else {
            let j = pre.order()[q - 1];
            assert(post.order()[q] == j);
            assert(pre.occupied(j));
            assert(post.occupied(j));
            assert(crate::arena::same_core(post.node(j), pre.node(j)));
        }
    }
    assert(es1 =~= seq![entry_of_node(n)] + es0);
}

/// Unlinking a node keeps the index in sync once its key is dropped from the
/// map.
pub proof fn lemma_synced_after_remove(pre: &Arena, post: &Arena, index: u32, p: int, m: Map<Seq<char>, u32>)
    requires
        pre.wf(),
        synced(pre, m),
        0 <= p < pre.order().len(),
        pre.order()[p] == index,
        post.order() == pre.order().remove(p),
        forall|j: u32| pre.occupied(j) && j != index ==> #[trigger] post.occupied(j)
            && crate::arena::same_core(post.node(j), pre.node(j)),
    ensures
        synced(post, m.remove(pre.node(index).key@)),
{
    pre.lemma_structure();
    pre.lemma_pos();
    let kr = pre.node(index).key@;
    let m2 = m.remove(kr);
    let ord0 = pre.order();
    let ord1 = post.order();
    assert(pre.occupied(index));
    assert forall|q: int| 0 <= q < ord1.len() implies ({
        let key = post.node(#[trigger] ord1[q]).key@;
        m2.contains_key(key) && m2[key] == ord1[q]
    }) by {
        let q0: int = if q < p { q } else { q + 1 };
        let j = ord0[q0];
        assert(ord1[q] == j);
        assert(pre.pos(ord0[q0]) == q0 && pre.pos(ord0[p]) == p);
        assert(j != index);
        assert(pre.occupied(j));
        assert(post.occupied(j));
        assert(crate::arena::same_core(post.node(j), pre.node(j)));
        let key = pre.node(ord0[q0]).key@;
        if q0 < p {
            assert(key != pre.node(ord0[p]).key@);
        } else {
            assert(pre.node(ord0[p]).key@ != key);
        }
        assert(m.contains_key(key) && m[key] == j);
    }
    assert forall|k: Seq<char>| #[trigger] m2.contains_key(k) implies exists|q: int|
        0 <= q < ord1.len() && post.node(#[trigger] ord1[q]).key@ == k by {
        assert(m.contains_key(k));
        let q0 = choose|q0: int| 0 <= q0 < ord0.len() && pre.node(#[trigger] ord0[q0]).key@ == k;
        assert(k != kr);
        assert(q0 != p);
        let q: int = if q0 < p { q0 } else { q0 - 1 };
        let j = ord0[q0];
        assert(ord1[q] == j);
        assert(pre.pos(ord0[q0]) == q0 && pre.pos(ord0[p]) == p);
        assert(j != index);
        assert(post.occupied(j));
        assert(crate::arena::same_core(post.node(j), pre.node(j)));
        assert(post.node(ord1[q]).key@ == k);
    }
    assert forall|x: int, y: int| 0 <= x < y < ord1.len() implies
        post.node(#[trigger] ord1[x]).key@ != post.node(#[trigger] ord1[y]).key@ by {
        let x0: int = if x < p { x } else { x + 1 };
        let y0: int = if y < p { y } else { y + 1 };
        assert(ord1[x] == ord0[x0] && ord1[y] == ord0[y0]);
        assert(pre.pos(ord0[x0]) == x0 && pre.pos(ord0[y0]) == y0 && pre.pos(ord0[p]) == p);
        assert(ord0[x0] != index && ord0[y0] != index);
        assert(pre.occupied(ord0[x0]) && pre.occupied(ord0[y0]));
        assert(post.occupied(ord0[x0]) && post.occupied(ord0[y0]));
        assert(crate::arena::same_core(post.node(ord0[x0]), pre.node(ord0[x0])));
        assert(crate::arena::same_core(post.node(ord0[y0]), pre.node(ord0[y0])));
        assert(pre.node(ord0[x0]).key@ != pre.node(ord0[y0]).key@);
    }
}

/// Linking a fresh node at the head keeps the index in sync once its key is
/// added to the map.
pub proof fn lemma_synced_after_push(pre: &Arena, post: &Arena, index: u32, n: Node, m: Map<Seq<char>, u32>)
    requires
        pre.wf(),
        synced(pre, m),
        !m.contains_key(n.key@),
        !pre.occupied(index),
        post.order() == seq![index] + pre.order(),
        crate::arena::same_core(post.node(index), n),
        forall|j: u32| pre.occupied(j) ==> #[trigger] post.occupied(j)
            && crate::arena::same_core(post.node(j), pre.node(j)),
    ensures
        synced(post, m.insert(n.key@, index)),
{
    pre.lemma_structure();
    pre.lemma_pos();
    let m2 = m.insert(n.key@, index);
    let ord0 = pre.order();
    let ord1 = post.order();
    assert forall|q: int| 0 <= q < ord0.len() implies pre.node(#[trigger] ord0[q]).key@ != n.key@ by {
        assert(m.contains_key(pre.node(ord0[q]).key@));
    }
    assert forall|q: int| 0 <= q < ord1.len() implies ({
        let key = post.node(#[trigger] ord1[q]).key@;
        m2.contains_key(key) && m2[key] == ord1[q]
    }) by {
        if q == 0 {
            assert(ord1[0] == index);
            assert(post.node(index).key@ == n.key@);
        } else {
            let j = ord0[q - 1];
            assert(ord1[q] == j);
            assert(pre.occupied(j));
            assert(post.occupied(j));
            assert(crate::arena::same_core(post.node(j), pre.node(j)));
            assert(pre.node(j).key@ != n.key@);
            assert(m.contains_key(pre.node(j).key@) && m[pre.node(j).key@] == j);
        }
    }
    assert forall|k: Seq<char>| #[trigger] m2.contains_key(k) implies exists|q: int|
        0 <= q < ord1.len() && post.node(#[trigger] ord1[q]).key@ == k by {
        if k == n.key@ {
            assert(post.node(ord1[0]).key@ == k);
        } else {
            assert(m.contains_key(k));
            let q0 = choose|q0: int| 0 <= q0 < ord0.len() && pre.node(#[trigger] ord0[q0]).key@ == k;
            let j = ord0[q0];
            assert(pre.occupied(j));
            assert(post.occupied(j));
            assert(crate::arena::same_core(post.node(j), pre.node(j)));
            assert(post.node(ord1[q0 + 1]).key@ == k);
        }
    }
    assert forall|x: int, y: int| 0 <= x < y < ord1.len() implies
        post.node(#[trigger] ord1[x]).key@ != post.node(#[trigger] ord1[y]).key@ by {
        if x == 0 {
            let j = ord0[y - 1];
            assert(pre.occupied(j));
            assert(post.occupied(j));
            assert(crate::arena::same_core(post.node(j), pre.node(j)));
            assert(pre.node(j).key@ != n.key@);
        } else {
            let jx = ord0[x - 1];
            let jy = ord0[y - 1];
            assert(pre.occupied(jx) && pre.occupied(jy));
            assert(post.occupied(jx));
            assert(crate::arena::same_core(post.node(jx), pre.node(jx)));
            assert(post.occupied(jy));
            assert(crate::arena::same_core(post.node(jy), pre.node(jy)));
            assert(pre.node(jx).key@ != pre.node(jy).key@);
        }
    }
}

/// Re-linking a node at the head permutes the entries and leaves the key
/// index untouched: no slot index changed hands.
pub proof fn lemma_after_move_to_head(pre: &Arena, post: &Arena, index: u32, p: int, m: Map<Seq<char>, u32>)
    requires
        pre.wf(),
        synced(pre, m),
        0 <= p < pre.order().len(),
        pre.order()[p] == index,
        post.order() == seq![index] + pre.order().remove(p),
        forall|j: u32| #[trigger] post.occupied(j) <==> pre.occupied(j),
        forall|j: u32| pre.occupied(j) ==> crate::arena::same_core(#[trigger] post.node(j), pre.node(j)),
    ensures
        arena_entries(post) == seq![arena_entries(pre)[p]] + arena_entries(pre).remove(p),
        synced(post, m),
{
    pre.lemma_structure();
    pre.lemma_pos();
    let es0 = arena_entries(pre);
    let es1 = arena_entries(post);
    let ord0 = pre.order();
    let ord1 = post.order();
    assert forall|q: int| 0 <= q < es1.len() implies es1[q] == (seq![es0[p]] + es0.remove(p))[q] by {
        if q == 0 {
            assert(ord1[0] == index);
            assert(pre.occupied(index));
            assert(post.occupied(index));
            assert(crate::arena::same_core(post.node(index), pre.node(index)));
        } else {
            let q0: int = if q - 1 < p { q - 1 } else { q };
            let j = ord0[q0];
            assert(ord1[q] == j);
            assert(pre.occupied(j));
            assert(post.occupied(j));
            assert(crate::arena::same_core(post.node(j), pre.node(j)));
        }
    }
    assert(es1 =~= seq![es0[p]] + es0.remove(p));
    assert forall|q: int| 0 <= q < ord1.len() implies ({
        let key = post.node(#[trigger] ord1[q]).key@;
        m.contains_key(key) && m[key] == ord1[q]
    }) by {
        let q0: int = if q == 0 { p } else if q - 1 < p { q - 1 } else { q };
        let j = ord0[q0];
        assert(ord1[q] == j);
        assert(pre.occupied(j));
        assert(post.occupied(j));
        assert(crate::arena::same_core(post.node(j), pre.node(j)));
        assert(m.contains_key(pre.node(j).key@) && m[pre.node(j).key@] == j);
    }
    assert forall|k: Seq<char>| #[trigger] m.contains_key(k) implies exists|q: int|
        0 <= q < ord1.len() && post.node(#[trigger] ord1[q]).key@ == k by {
        let q0 = choose|q0: int| 0 <= q0 < ord0.len() && pre.node(#[trigger] ord0[q0]).key@ == k;
        let j = ord0[q0];
        let q: int = if q0 == p { 0 } else if q0 < p { q0 + 1 } else { q0 };
        assert(ord1[q] == j);
        assert(pre.occupied(j));
        assert(post.occupied(j));
        assert(crate::arena::same_core(post.node(j), pre.node(j)));
        assert(post.node(ord1[q]).key@ == k);
    }
    assert forall|x: int, y: int| 0 <= x < y < ord1.len() implies
        post.node(#[trigger] ord1[x]).key@ != post.node(#[trigger] ord1[y]).key@ by {
        let x0: int = if x == 0 { p } else if x - 1 < p { x - 1 } else { x };
        let y0: int = if y == 0 { p } else if y - 1 < p { y - 1 } else { y };
        assert(ord1[x] == ord0[x0] && ord1[y] == ord0[y0]);
        assert(x0 != y0);
        assert(pre.occupied(ord0[x0]) && pre.occupied(ord0[y0]));
        assert(post.occupied(ord0[x0]) && post.occupied(ord0[y0]));
        assert(crate::arena::same_core(post.node(ord0[x0]), pre.node(ord0[x0])));
        assert(crate::arena::same_core(post.node(ord0[y0]), pre.node(ord0[y0])));
        if x0 < y0 {
            assert(pre.node(ord0[x0]).key@ != pre.node(ord0[y0]).key@);
        } else {
            assert(pre.node(ord0[y0]).key@ != pre.node(ord0[x0]).key@);
        }
    }
}

/// How the SIEVE hand, stored as a stable slot index, tracks its model
/// position across a removal: rewritten to the predecessor when it aimed at
/// the removed slot, otherwise aiming at the same node whose position may
/// have shifted down by one.
pub proof fn lemma_hand_tracks_removal(pre: &Arena, post: &Arena, index: u32, p: int, hand_pre: u32, hand_post: u32)
    requires
        pre.wf(),
        post.wf(),
        0 <= p < pre.order().len(),
        pre.order()[p] == index,
        post.order() == pre.order().remove(p),
        hand_pre == crate::arena::NIL || pre.occupied(hand_pre),
        hand_post == (if hand_pre == index { pre.node(index).prev } else { hand_pre }),
    ensures
        hand_post == crate::arena::NIL || post.occupied(hand_post),
        ({
            let hp0: int = if hand_pre == crate::arena::NIL { -1 } else { pre.pos(hand_pre) };
            let hp1: int = if hand_post == crate::arena::NIL { -1 } else { post.pos(hand_post) };
            hp1 == hand_after_remove(hp0, p)
        }),
{
    pre.lemma_structure();
    pre.lemma_pos();
    post.lemma_structure();
    post.lemma_pos();
    let nil = crate::arena::NIL;
    assert(pre.occupied(index));
    assert(index != nil);
    if hand_pre == nil {
        assert(hand_post == nil);
    } else if hand_pre == index {
        if p == 0 {
            assert(pre.node(index).prev == nil);
            assert(hand_post == nil);
        } else {
            assert(pre.node(pre.order()[p - 1]).next == pre.order()[p]);
            assert(pre.node(pre.order()[p]).prev == pre.order()[p - 1]);
            assert(hand_post == pre.order()[p - 1]);
            assert(post.order()[p - 1] == pre.order()[p - 1]);
            assert(post.occupied(post.order()[p - 1]));
            assert(post.pos(post.order()[p - 1]) == p - 1);
            assert(hand_post != nil) by {
                assert(pre.occupied(pre.order()[p - 1]));
            }
        }
    } else {
        let q = pre.pos(hand_pre);
        assert(pre.order()[q] == hand_pre);
        assert(q != p);
        if q < p {
            assert(post.order()[q] == pre.order()[q]);
            assert(post.occupied(post.order()[q]));
            assert(post.pos(post.order()[q]) == q);
        } else {
            assert(post.order()[q - 1] == pre.order()[q]);
            assert(post.occupied(post.order()[q - 1]));
            assert(post.pos(post.order()[q - 1]) == q - 1);
        }
    }
}

/// Pushing a fresh node at the head shifts the hand's model position up by
/// one; the hand index itself is untouched.
pub proof fn lemma_hand_tracks_push(pre: &Arena, post: &Arena, index: u32, hand_pre: u32)
    requires
        pre.wf(),
        post.wf(),
        !pre.occupied(index),
        post.order() == seq![index] + pre.order(),
        hand_pre == crate::arena::NIL || pre.occupied(hand_pre),
    ensures
        hand_pre == crate::arena::NIL || post.occupied(hand_pre),
        ({
            let hp0: int = if hand_pre == crate::arena::NIL { -1 } else { pre.pos(hand_pre) };
            let hp1: int = if hand_pre == crate::arena::NIL { -1 } else { post.pos(hand_pre) };
            hp1 == (if hp0 >= 0 { hp0 + 1 } else { -1 })
        }),
{
    pre.lemma_structure();
    pre.lemma_pos();
    post.lemma_structure();
    post.lemma_pos();
    if hand_pre != crate::arena::NIL {
        let q = pre.pos(hand_pre);
        assert(pre.order()[q] == hand_pre);
        assert(post.order()[q + 1] == hand_pre);
        assert(post.occupied(post.order()[q + 1]));
        assert(post.pos(post.order()[q + 1]) == q + 1);
    }
}

/// Flipping one visited bit updates exactly one entry and leaves the key
/// index untouched.
pub proof fn lemma_after_set_visited(pre: &Arena, post: &Arena, index: u32, v: bool, m: Map<Seq<char>, u32>)
    requires
        pre.wf(),
        post.wf(),
        synced(pre, m),
        pre.occupied(index),
        post.order() == pre.order(),
        forall|j: u32| #[trigger] post.occupied(j) <==> pre.occupied(j),
        post.node(index) == (Node { visited: v, ..pre.node(index) }),
        forall|j: u32| pre.occupied(j) && j != index ==> #[trigger] post.node(j) == pre.node(j),
    ensures
        arena_entries(post) == arena_entries(pre).update(
            pre.pos(index),
            (CacheEntry { visited: v, ..entry_of_node(pre.node(index)) }),
        ),
        synced(post, m),
        post.pos(index) == pre.pos(index),
{
    pre.lemma_structure();
    pre.lemma_pos();
    post.lemma_pos();
    let es0 = arena_entries(pre);
    let es1 = arena_entries(post);
    let ord = pre.order();
    let p = pre.pos(index);
    assert(post.occupied(index));
    assert(post.pos(index) == pre.pos(index)) by {
        let p2 = post.pos(index);
        assert(post.order()[p2] == index && 0 <= p2 < post.order().len());
        assert(ord[p] == index);
        if p2 != p {
            assert(false);
        }
    }
    assert forall|q: int| 0 <= q < es1.len() implies
        es1[q] == es0.update(p, (CacheEntry { visited: v, ..entry_of_node(pre.node(index)) }))[q] by {
        let j = ord[q];
        assert(pre.occupied(j));
        assert(post.occupied(j));
        if q == p {
            assert(j == index);
        } else {
            assert(pre.pos(ord[q]) == q);
            assert(j != index);
            assert(post.node(j) == pre.node(j));
        }
    }
    assert(es1 =~= es0.update(p, (CacheEntry { visited: v, ..entry_of_node(pre.node(index)) })));
    assert forall|q: int| 0 <= q < ord.len() implies ({
        let key = post.node(#[trigger] ord[q]).key@;
        m.contains_key(key) && m[key] == ord[q]
    }) by {
        let j = ord[q];
        assert(pre.occupied(j));
        assert(post.occupied(j));
        if j != index {
            assert(post.node(j) == pre.node(j));
        }
        assert(post.node(j).key@ == pre.node(j).key@);
        assert(m.contains_key(pre.node(j).key@) && m[pre.node(j).key@] == j);
    }
    assert forall|k: Seq<char>| #[trigger] m.contains_key(k) implies exists|q: int|
        0 <= q < ord.len() && post.node(#[trigger] ord[q]).key@ == k by {
        let q0 = choose|q0: int| 0 <= q0 < ord.len() && pre.node(#[trigger] ord[q0]).key@ == k;
        let j = ord[q0];
        assert(pre.occupied(j));
        if j != index {
            assert(post.node(j) == pre.node(j));
        }
        assert(post.node(ord[q0]).key@ == k);
    }
    assert forall|x: int, y: int| 0 <= x < y < ord.len() implies
        post.node(#[trigger] ord[x]).key@ != post.node(#[trigger] ord[y]).key@ by {
        assert(pre.occupied(ord[x]) && pre.occupied(ord[y]));
        if ord[x] != index {
            assert(post.node(ord[x]) == pre.node(ord[x]));
        }
        if ord[y] != index {
            assert(post.node(ord[y]) == pre.node(ord[y]));
        }
        assert(pre.node(ord[x]).key@ != pre.node(ord[y]).key@);
    }
}

/// Removing one position keeps the model well-formed.
pub proof fn lemma_remove_at_wf(m: PolicyModel, f: int)
    requires
        m.wf(),
        0 <= f < m.entries.len(),
    ensures
        m.remove_at(f).wf(),
        m.remove_at(f).cap == m.cap,
        m.remove_at(f).entries.len() == m.entries.len() - 1,
{
    let m2 = m.remove_at(f);
    assert forall|i: int, j: int| 0 <= i < j < m2.entries.len() implies
        m2.entries[i].key != m2.entries[j].key by {
        let i0: int = if i < f { i } else { i + 1 };
        let j0: int = if j < f { j } else { j + 1 };
        assert(m2.entries[i] == m.entries[i0] && m2.entries[j] == m.entries[j0]);
    }
}

/// No entry holds `key` after the entry found for `key` is removed.
pub proof fn lemma_no_key_after_find_remove(m: PolicyModel, key: Seq<char>)
    requires
        m.wf(),
    ensures
        ({
            let f = find_entry(m.entries, key);
            let m1 = if f >= 0 { m.remove_at(f) } else { m };
            forall|q: int| 0 <= q < m1.entries.len() ==> (#[trigger] m1.entries[q].key) != key
        }),
{
    lemma_find_entry(m.entries, key);
    let f = find_entry(m.entries, key);
    let m1 = if f >= 0 { m.remove_at(f) } else { m };
    assert forall|q: int| 0 <= q < m1.entries.len() implies (#[trigger] m1.entries[q].key) != key by {
        if f >= 0 {
            let q0: int = if q < f { q } else { q + 1 };
            assert(m1.entries[q] == m.entries[q0]);
            if m.entries[q0].key == key {
                assert(q0 == f);
                assert(false);
            }
        }
    }
}

/// The tail-eviction insert step keeps the model well-formed, the capacity
/// fixed, and the counters monotone; afterwards the key stands at the head.
pub proof fn lemma_tail_insert_wf(m: PolicyModel, key: Seq<char>, value: RespView)
    requires
        m.wf(),
    ensures
        ({
            let mi = insert_with_tail_eviction(m, key, value);
            &&& mi.wf()
            &&& mi.cap == m.cap
            &&& mi.hits == m.hits
            &&& mi.misses == m.misses
            &&& mi.evictions == m.evictions || mi.evictions == bump(m.evictions)
            &&& mi.entries.len() >= 1
            &&& mi.entries[0] == (CacheEntry { key, value, visited: false })
        }),
{
    lemma_find_entry(m.entries, key);
    let f = find_entry(m.entries, key);
    let m1 = if f >= 0 { m.remove_at(f) } else { m };
    if f >= 0 {
        lemma_remove_at_wf(m, f);
    }
    lemma_no_key_after_find_remove(m, key);
    let m2 = if m1.entries.len() >= m1.cap && m1.entries.len() > 0 {
        PolicyModel {
            entries: m1.entries.drop_last(),
            hand: hand_after_remove(m1.hand, m1.entries.len() - 1),
            evictions: bump(m1.evictions),
            ..m1
        }
    } else {
        m1
    };
    assert(keys_distinct(m2.entries)) by {
        assert forall|i: int, j: int| 0 <= i < j < m2.entries.len() implies
            m2.entries[i].key != m2.entries[j].key by {
            assert(m2.entries[i] == m1.entries[i] && m2.entries[j] == m1.entries[j]);
        }
    }
    let mi = m2.push_front(key, value);
    assert(m2.entries.len() < m.cap);
    assert forall|i: int, j: int| 0 <= i < j < mi.entries.len() implies
        mi.entries[i].key != mi.entries[j].key by {
        if i == 0 {
            assert(mi.entries[j] == m2.entries[j - 1]);
            assert(m2.entries[j - 1] == m1.entries[j - 1]);
            assert(m1.entries[j - 1].key != key);
        } else {
            assert(mi.entries[i] == m2.entries[i - 1] && mi.entries[j] == m2.entries[j - 1]);
        }
    }
    assert(mi.wf());
}

/// The shared remove step keeps the model well-formed.
pub proof fn lemma_remove_step_wf(m: PolicyModel, key: Seq<char>)
    requires
        m.wf(),
    ensures
        remove_step(m, key).0.wf(),
        remove_step(m, key).0.cap == m.cap,
        remove_step(m, key).0.hits == m.hits,
        remove_step(m, key).0.misses == m.misses,
        remove_step(m, key).0.evictions == m.evictions,
{
    lemma_find_entry(m.entries, key);
    let f = find_entry(m.entries, key);
    if f >= 0 {
        lemma_remove_at_wf(m, f);
    }
}

/// Number of set visited bits; the SIEVE scan's termination measure.
pub open spec fn count_visited(es: Seq<CacheEntry>) -> nat
    decreases es.len(),
{
    if es.len() == 0 {
        0
    } else {
        count_visited(es.drop_last()) + (if es.last().visited { 1nat } else { 0nat })
    }
}

/// Clearing a set visited bit strictly decreases the count.
pub proof fn lemma_count_visited_clear(es: Seq<CacheEntry>, p: int)
    requires
        0 <= p < es.len(),
        es[p].visited,
    ensures
        count_visited(es.update(p, (CacheEntry { visited: false, ..es[p] })))
            < count_visited(es),
    decreases es.len(),
{
    let es2 = es.update(p, (CacheEntry { visited: false, ..es[p] }));
    if p == es.len() - 1 {
        assert(es2.drop_last() =~= es.drop_last());
        lemma_count_visited_le(es.drop_last());
    } else {
        assert(es2.drop_last() =~= es.drop_last().update(p, (CacheEntry { visited: false, ..es[p] })));
        lemma_count_visited_clear(es.drop_last(), p);
    }
}

/// The count is bounded by the length.
pub proof fn lemma_count_visited_le(es: Seq<CacheEntry>)
    ensures
        count_visited(es) <= es.len(),
    decreases es.len(),
{
    if es.len() > 0 {
        lemma_count_visited_le(es.drop_last());
    }
}

/// What one round of the SIEVE scan produces: the surviving entries, the new
/// hand position, and the entry that was swept out.
#[verifier::ext_equal]
pub ghost struct ScanOut {
    pub entries: Seq<CacheEntry>,
    pub hand: int,
    pub victim: CacheEntry,
}

/// The SIEVE scan, from position `p` toward the head, wrapping to the tail.
/// An expired or unvisited entry is swept out; a fresh visited entry is
/// retained in place with its bit cleared.
pub open spec fn sieve_scan(es: Seq<CacheEntry>, p: int, now_ms: u64) -> ScanOut
    decreases count_visited(es)
        when 0 <= p < es.len()
        via sieve_scan_decreases
{
    let e = es[p];
    if resp_expired(e.value, now_ms) || !e.visited {
        ScanOut { entries: es.remove(p), hand: p - 1, victim: e }
    } else {
        let es2 = es.update(p, (CacheEntry { visited: false, ..e }));
        let p2 = if p == 0 { es.len() - 1 } else { p - 1 };
        sieve_scan(es2, p2, now_ms)
    }
}

#[via_fn]
proof fn sieve_scan_decreases(es: Seq<CacheEntry>, p: int, now_ms: u64) {
    let e = es[p];
    if !(resp_expired(e.value, now_ms) || !e.visited) {
        lemma_count_visited_clear(es, p);
    }
}

/// The scan removes exactly one entry and leaves the hand on a position that
/// is parked or valid for the shrunken sequence; keys and distinctness are
/// preserved, and the victim was one of the entries.
pub proof fn lemma_sieve_scan(es: Seq<CacheEntry>, p: int, now_ms: u64)
    requires
        0 <= p < es.len(),
    ensures
        ({
            let out = sieve_scan(es, p, now_ms);
            &&& out.entries.len() == es.len() - 1
            &&& -1 <= out.hand < out.entries.len() || (out.hand == es.len() - 2)
            &&& -1 <= out.hand <= es.len() - 2
            &&& keys_distinct(es) ==> keys_distinct(out.entries)
            &&& exists|i: int|
                0 <= i < es.len() && #[trigger] es[i].key == out.victim.key
            &&& forall|i: int| 0 <= i < out.entries.len() ==>
                exists|j: int| 0 <= j < es.len() && #[trigger] out.entries[i].key == es[j].key
        }),
    decreases count_visited(es),
{
    let e = es[p];
    if resp_expired(e.value, now_ms) || !e.visited {
        let out = sieve_scan(es, p, now_ms);
        assert(out.entries == es.remove(p));
        assert forall|i: int| 0 <= i < out.entries.len() implies
            exists|j: int| 0 <= j < es.len() && #[trigger] out.entries[i].key == es[j].key by {
            if i < p {
                assert(out.entries[i].key == es[i].key);
            } else {
                assert(out.entries[i].key == es[i + 1].key);
            }
        }
        assert(es[p].key == out.victim.key);
    } else {
        let es2 = es.update(p, (CacheEntry { visited: false, ..e }));
        let p2 = if p == 0 { es.len() - 1 } else { p - 1 };
        lemma_count_visited_clear(es, p);
        lemma_sieve_scan(es2, p2, now_ms);
        let out = sieve_scan(es2, p2, now_ms);
        assert(sieve_scan(es, p, now_ms) == out);
        assert forall|i: int| 0 <= i < out.entries.len() implies
            exists|j: int| 0 <= j < es.len() && #[trigger] out.entries[i].key == es[j].key by {
            let j = choose|j: int| 0 <= j < es2.len() && #[trigger] out.entries[i].key == es2[j].key;
            assert(es2[j].key == es[j].key);
        }
        let v = choose|i: int| 0 <= i < es2.len() && #[trigger] es2[i].key == out.victim.key;
        assert(es[v].key == out.victim.key);
    }
}


/// After a successful removal the key is gone and the length dropped by one.
pub proof fn lemma_remove_then_absent(m: PolicyModel, key: Seq<char>)
    requires
        m.wf(),
    ensures
        ({
            let (m2, existed) = remove_step(m, key);
            existed ==> find_entry(m2.entries, key) == -1
                && m2.entries.len() == m.entries.len() - 1
        }),
{
    lemma_find_entry(m.entries, key);
    let f = find_entry(m.entries, key);
    if f >= 0 {
        let m2 = m.remove_at(f);
        lemma_no_key_after_find_remove(m, key);
        lemma_find_entry(m2.entries, key);
        if find_entry(m2.entries, key) >= 0 {
            assert(m2.entries[find_entry(m2.entries, key)].key == key);
            assert(false);
        }
    }
}

/// Removing a key twice: the second call never reports a removal.
pub proof fn lemma_remove_twice(m: PolicyModel, key: Seq<char>)
    requires
        m.wf(),
    ensures
        !remove_step(remove_step(m, key).0, key).1,
{
    lemma_find_entry(m.entries, key);
    let f = find_entry(m.entries, key);
    if f >= 0 {
        lemma_remove_then_absent(m, key);
    }
}

/// Re-inserting a key that is already present keeps the entry count: the old
/// entry leaves, no eviction fires, and the new entry takes the head.
pub proof fn lemma_tail_insert_preserves_len(m: PolicyModel, key: Seq<char>, value: RespView)
    requires
        m.wf(),
        m.contains_key(key),
    ensures
        insert_with_tail_eviction(m, key, value).entries.len() == m.entries.len(),
{
    lemma_find_entry(m.entries, key);
}

} // verus!
