//! Arena-allocated intrusive doubly-linked list.
//!
//! Nodes live in a fixed slab of slots addressed by `u32` indices; `NIL`
//! (`u32::MAX`) plays the role of the null pointer. A free list of unused
//! slot indices gives O(1) allocation, and the `prev`/`next` indices stored
//! in each node give O(1) unlink and move-to-head. The verified abstraction
//! is `order()`: the sequence of occupied slot indices from head to tail,
//! kept as a ghost field and tied to the concrete links by `wf()`. Slot reuse
//! is LIFO (`free_seq()` is a stack), which both favours cache locality and
//! pins down which slot an allocation receives.

use vstd::prelude::*;

use std::sync::Arc;

use crate::traits::CachedResponse;

verus! {

/// Sentinel index meaning "no node" (null pointer equivalent).
pub const NIL: u32 = u32::MAX;

/// A node in the arena-allocated doubly-linked list.
pub struct Node {
    pub key: String,
    pub value: Arc<CachedResponse>,
    pub visited: bool,
    pub prev: u32,
    pub next: u32,
}

impl Node {
    pub fn new(key: String, value: CachedResponse) -> (n: Node)
        ensures
            n.key == key,
            *n.value == value,
            !n.visited,
            n.prev == NIL,
            n.next == NIL,
    {
        Node { key, value: Arc::new(value), visited: false, prev: NIL, next: NIL }
    }

    /// Mark this node as visited (set on every cache hit under SIEVE).
    pub fn mark_visited(&mut self)
        ensures
            *final(self) == (Node { visited: true, ..*old(self) }),
    {
        self.visited = true;
    }

    /// Clear the visited bit. Returns the previous value.
    pub fn clear_visited(&mut self) -> (was: bool)
        ensures
            *final(self) == (Node { visited: false, ..*old(self) }),
            was == old(self).visited,
    {
        let was = self.visited;
        self.visited = false;
        was
    }

    /// Read the visited bit without clearing.
    pub fn is_visited(&self) -> (r: bool)
        ensures
            r == self.visited,
    {
        self.visited
    }
}

/// Two nodes agree on everything a cache observes (the link indices are the
/// arena's own business).
pub open spec fn same_core(a: Node, b: Node) -> bool {
    a.key == b.key && a.value == b.value && a.visited == b.visited
}

/// Arena-allocated doubly-linked list.
pub struct Arena {
    slots: Vec<Option<Node>>,
    free_list: Vec<u32>,
    pub head: u32,
    pub tail: u32,
    len: usize,
    list_order: Ghost<Seq<u32>>,
}

/// The two arenas describe the same list: same capacity, same occupied slots
/// with the same nodes, same endpoints and the same free stack.
pub open spec fn arena_like(a: &Arena, b: &Arena) -> bool {
    &&& b.cap() == a.cap()
    &&& b.order() == a.order()
    &&& b.spec_head() == a.spec_head()
    &&& b.spec_tail() == a.spec_tail()
    &&& b.free_seq() == a.free_seq()
    &&& forall|j: u32| #[trigger] b.occupied(j) <==> a.occupied(j)
    &&& forall|j: u32| #[trigger] a.occupied(j) ==> b.node(j) == a.node(j)
}

impl Arena {
    /// Number of slots, fixed at construction.
    pub closed spec fn cap(&self) -> nat {
        self.slots@.len()
    }

    /// Occupied slot indices, head first, tail last.
    pub closed spec fn order(&self) -> Seq<u32> {
        self.list_order@
    }

    /// The node stored at an occupied slot.
    pub closed spec fn node(&self, i: u32) -> Node {
        self.slots@[i as int].unwrap()
    }

    /// Whether slot `i` currently holds a node.
    pub closed spec fn occupied(&self, i: u32) -> bool {
        (i as int) < self.slots@.len() && self.slots@[i as int] is Some
    }

    /// The stack of unused slot indices; allocation pops its last element.
    pub closed spec fn free_seq(&self) -> Seq<u32> {
        self.free_list@
    }

    /// Position of occupied slot `i` in `order()`.
    pub closed spec fn pos(&self, i: u32) -> int {
        self.order().index_of(i)
    }

    /// The `head` field, as specifications outside this module see it.
    pub closed spec fn spec_head(&self) -> u32 {
        self.head
    }

    /// The `tail` field, as specifications outside this module see it.
    pub closed spec fn spec_tail(&self) -> u32 {
        self.tail
    }

    /// The structural invariant: `order()` lists exactly the occupied slots,
    /// the stored `prev`/`next` indices link neighbours in `order()`, the
    /// endpoints agree with `head`/`tail`, and the free list holds exactly
    /// as many indices as there are empty slots.
    pub closed spec fn wf(&self) -> bool {
        let ord = self.list_order@;
        let n = ord.len() as int;
        &&& self.slots@.len() < u32::MAX as int
        &&& self.len as int == n
        &&& self.free_list@.len() + n == self.slots@.len()
        &&& ord.no_duplicates()
        &&& forall|k: int| 0 <= k < n ==> #[trigger] self.occupied(ord[k])
        &&& forall|k: int| 0 <= k < n ==> (#[trigger] self.node(ord[k]).prev) == (if k == 0 { NIL } else { ord[k - 1] })
        &&& forall|k: int| 0 <= k < n ==> (#[trigger] self.node(ord[k]).next) == (if k == n - 1 { NIL } else { ord[k + 1] })
        &&& self.head == (if n == 0 { NIL } else { ord[0] })
        &&& self.tail == (if n == 0 { NIL } else { ord[n - 1] })
        &&& forall|i: u32| #[trigger] self.occupied(i) ==> ord.contains(i)
        &&& self.free_list@.no_duplicates()
        &&& forall|k: int| 0 <= k < self.free_list@.len() ==> (#[trigger] self.free_list@[k] as int) < self.slots@.len()
            && !self.occupied(self.free_list@[k])
    }

    /// The index of every occupied slot stands at exactly one position of
    /// `order()`, and `pos` names it.
    pub proof fn lemma_pos(&self)
        requires
            self.wf(),
        ensures
            forall|k: int| 0 <= k < self.order().len() ==> #[trigger] self.pos(self.order()[k]) == k,
            forall|i: u32| #[trigger] self.occupied(i) ==> {
                &&& 0 <= self.pos(i) < self.order().len()
                &&& self.order()[self.pos(i)] == i
            },
    {
        let ord = self.order();
        assert forall|k: int| 0 <= k < ord.len() implies #[trigger] self.pos(ord[k]) == k by {
            assert(ord.contains(ord[k]));
            let j = ord.index_of(ord[k]);
            assert(0 <= j < ord.len() && ord[j] == ord[k]);
            if j != k {
                assert(false);
            }
        }
        assert forall|i: u32| #[trigger] self.occupied(i) implies {
            &&& 0 <= self.pos(i) < self.order().len()
            &&& self.order()[self.pos(i)] == i
        } by {
            assert(ord.contains(i));
            let j = ord.index_of(i);
            assert(0 <= j < ord.len() && ord[j] == i);
        }
    }

    /// Consequences of `wf()` that callers lean on: the slot partition, the
    /// `head`/`tail`/emptiness agreement, and the chain that makes every
    /// occupied slot reachable from `head` along `next` and from `tail`
    /// along `prev`.
    pub proof fn lemma_structure(&self)
        requires
            self.wf(),
        ensures
            self.order().len() + self.free_seq().len() == self.cap(),
            self.cap() < u32::MAX as int,
            self.order().no_duplicates(),
            (self.spec_head() == NIL <==> self.order().len() == 0),
            (self.spec_tail() == NIL <==> self.order().len() == 0),
            self.order().len() == 0 ==> forall|i: u32| !(#[trigger] self.occupied(i)),
            forall|i: u32| #[trigger] self.occupied(i) ==> self.order().contains(i),
            forall|k: int| 0 <= k < self.order().len() ==> #[trigger] self.occupied(self.order()[k])
                && (self.order()[k] as int) < self.cap(),
            self.order().len() > 0 ==> self.spec_head() == self.order()[0] && self.spec_tail() == self.order().last(),
            forall|k: int| 0 <= k < self.order().len() - 1 ==>
                (#[trigger] self.node(self.order()[k]).next) == self.order()[k + 1]
                && self.node(self.order()[k + 1]).prev == self.order()[k],
            self.order().len() > 0 ==> self.node(self.order()[0]).prev == NIL
                && self.node(self.order().last()).next == NIL,
    {
        let ord = self.order();
        let n = ord.len() as int;
        if n > 0 {
            assert(self.occupied(ord[0]));
            assert(self.occupied(ord[n - 1]));
            assert((ord[0] as int) < self.slots@.len());
            assert((ord[n - 1] as int) < self.slots@.len());
        }
        assert forall|i: u32| self.order().len() == 0 implies !(#[trigger] self.occupied(i)) by {
            if self.occupied(i) {
                assert(ord.contains(i));
            }
        }
    }

    /// `wf` carries over to a state with the same shape: same order, links,
    /// endpoints and free stack.
    proof fn lemma_wf_carries(pre: &Arena, post: &Arena)
        requires
            pre.wf(),
            post.list_order@ == pre.list_order@,
            post.head == pre.head,
            post.tail == pre.tail,
            post.len == pre.len,
            post.free_list@ == pre.free_list@,
            post.slots@.len() == pre.slots@.len(),
            forall|j: u32| #[trigger] post.occupied(j) <==> pre.occupied(j),
            forall|j: u32| pre.occupied(j) ==> (#[trigger] post.node(j)).prev == pre.node(j).prev
                && post.node(j).next == pre.node(j).next,
        ensures
            post.wf(),
    {
        let ord = post.list_order@;
        let n = ord.len() as int;
        assert forall|k: int| 0 <= k < n implies #[trigger] post.occupied(ord[k]) by {
            assert(pre.occupied(ord[k]));
        }
        assert forall|k: int| 0 <= k < n implies (#[trigger] post.node(ord[k]).prev)
            == (if k == 0 { NIL } else { ord[k - 1] }) by {
            assert(pre.occupied(ord[k]));
            assert(post.node(ord[k]).prev == pre.node(ord[k]).prev);
        }
        assert forall|k: int| 0 <= k < n implies (#[trigger] post.node(ord[k]).next)
            == (if k == n - 1 { NIL } else { ord[k + 1] }) by {
            assert(pre.occupied(ord[k]));
            assert(post.node(ord[k]).next == pre.node(ord[k]).next);
        }
        assert forall|i: u32| #[trigger] post.occupied(i) implies ord.contains(i) by {
            assert(pre.occupied(i));
        }
        assert forall|k: int| 0 <= k < post.free_list@.len() implies
            (#[trigger] post.free_list@[k] as int) < post.slots@.len()
            && !post.occupied(post.free_list@[k]) by {
            assert(post.free_list@[k] == pre.free_list@[k]);
            assert(!pre.occupied(pre.free_list@[k]));
        }
        assert(post.wf());
    }

    /// Replace the content of slot `i`, returning what was there.
    fn slot_swap(&mut self, i: usize, val: Option<Node>) -> (r: Option<Node>)
        requires
            i < old(self).slots@.len(),
        ensures
            final(self).slots@ == old(self).slots@.update(i as int, val),
            r == old(self).slots@[i as int],
            final(self).free_list == old(self).free_list,
            final(self).head == old(self).head,
            final(self).tail == old(self).tail,
            final(self).len == old(self).len,
            final(self).list_order == old(self).list_order,
    {
        let slot = &mut self.slots[i];
        let r = slot.take();
        *slot = val;
        r
    }

    /// Overwrite the visited bit of the node in slot `index`.
    pub fn set_visited(&mut self, index: u32, v: bool)
        requires
            old(self).wf(),
            old(self).occupied(index),
        ensures
            final(self).wf(),
            final(self).cap() == old(self).cap(),
            final(self).order() == old(self).order(),
            final(self).spec_head() == old(self).spec_head(),
            final(self).spec_tail() == old(self).spec_tail(),
            final(self).free_seq() == old(self).free_seq(),
            forall|j: u32| #[trigger] final(self).occupied(j) <==> old(self).occupied(j),
            final(self).node(index) == (Node { visited: v, ..old(self).node(index) }),
            forall|j: u32| old(self).occupied(j) && j != index ==> #[trigger] final(self).node(j) == old(self).node(j),
    {
        let i = index as usize;
        let taken = self.slot_swap(i, None);
        match taken {
            Some(mut n) => {
                n.visited = v;
                let put_back = self.slot_swap(i, Some(n));
                proof {
                    assert(self.slots@ =~= old(self).slots@.update(
                        i as int,
                        Some((Node { visited: v, ..old(self).node(index) })),
                    ));
                }
            },
            None => {
                proof {
                    assert(false);
                }
            },
        }
        proof {
            assert forall|j: u32| #[trigger] self.occupied(j) <==> old(self).occupied(j) by {}
            Self::lemma_wf_carries(old(self), self);
        }
    }

    /// Create a new arena pre-allocated for `capacity` nodes. All slots start
    /// empty and on the free list, in descending index order so that the
    /// first allocation receives index 0.
    pub fn new(capacity: usize) -> (a: Arena)
        requires
            capacity < u32::MAX as usize,
        ensures
            a.wf(),
            a.cap() == capacity,
            a.order() == Seq::<u32>::empty(),
            a.spec_head() == NIL,
            a.spec_tail() == NIL,
            a.free_seq().len() == capacity,
            forall|k: int| 0 <= k < capacity ==> (#[trigger] a.free_seq()[k] as int) == capacity - 1 - k,
    {
        let mut slots: Vec<Option<Node>> = Vec::new();
        let mut i: usize = 0;
        while i < capacity
            invariant
                i <= capacity,
                slots@.len() == i as int,
                forall|j: int| 0 <= j < i ==> slots@[j] is None,
            decreases capacity - i,
        {
            slots.push(None);
            i = i + 1;
        }
        let mut free_list: Vec<u32> = Vec::new();
        let mut k: usize = 0;
        while k < capacity
            invariant
                k <= capacity,
                capacity < u32::MAX as usize,
                free_list@.len() == k as int,
                forall|j: int| 0 <= j < k ==> (#[trigger] free_list@[j] as int) == capacity - 1 - j,
            decreases capacity - k,
        {
            free_list.push((capacity - 1 - k) as u32);
            k = k + 1;
        }
        let a = Arena {
            slots,
            free_list,
            head: NIL,
            tail: NIL,
            len: 0,
            list_order: Ghost(Seq::empty()),
        };
        proof {
            assert(a.free_list@.no_duplicates());
        }
        a
    }

    /// The tail slot index, `NIL` when the list is empty.
    pub fn tail_index(&self) -> (r: u32)
        ensures
            r == self.spec_tail(),
    {
        self.tail
    }

    /// Number of active (occupied) nodes.
    pub fn len(&self) -> (r: usize)
        requires
            self.wf(),
        ensures
            r as int == self.order().len(),
    {
        self.len
    }

    pub fn is_empty(&self) -> (r: bool)
        requires
            self.wf(),
        ensures
            r == (self.order().len() == 0),
    {
        self.len == 0
    }

    /// Get a reference to the node at `index`; bounds- and occupancy-checked.
    pub fn get(&self, index: u32) -> (r: Option<&Node>)
        ensures
            match r {
                Some(n) => self.occupied(index) && *n == self.node(index),
                None => !self.occupied(index),
            },
    {
        if (index as usize) < self.slots.len() {
            self.slots[index as usize].as_ref()
        } else {
            None
        }
    }

    /// Allocate a new node and insert it at the head of the list.
    /// Returns the index of the new node, or `None` when no slot is free.
    pub fn push_head(&mut self, node: Node) -> (r: Option<u32>)
        requires
            old(self).wf(),
        ensures
            final(self).wf(),
            final(self).cap() == old(self).cap(),
            match r {
                None => {
                    &&& old(self).order().len() == old(self).cap()
                    &&& arena_like(old(self), final(self))
                },
                Some(index) => {
                    &&& old(self).free_seq().len() > 0
                    &&& index == old(self).free_seq().last()
                    &&& !old(self).occupied(index)
                    &&& (index as int) < old(self).cap()
                    &&& final(self).order() == seq![index] + old(self).order()
                    &&& same_core(final(self).node(index), node)
                    &&& forall|j: u32| old(self).occupied(j) ==> #[trigger] final(self).occupied(j)
                        && same_core(final(self).node(j), old(self).node(j))
                    &&& forall|j: u32| #[trigger] final(self).occupied(j) <==> (old(self).occupied(j) || j == index)
                    &&& final(self).free_seq() == old(self).free_seq().drop_last()
                },
            },
    {
        proof {
            old(self).lemma_structure();
        }
        let popped = self.free_list.pop();
        let index = match popped {
            None => {
                proof {
                    assert(old(self).order().len() == old(self).cap());
                    assert(self.free_list@ =~= old(self).free_list@);
                    assert(self.slots@ == old(self).slots@);
                    assert forall|j: u32| #[trigger] self.occupied(j) <==> old(self).occupied(j) by {}
                    Self::lemma_wf_carries(old(self), self);
                    assert(arena_like(old(self), self));
                }
                return None;
            },
            Some(index) => index,
        };
        let i = index as usize;
        let ghost ord0 = old(self).list_order@;
        proof {
            assert(!old(self).occupied(index));
        }
        let mut node = node;
        node.prev = NIL;
        node.next = self.head;
        let old_head = self.head;
        let discarded = self.slot_swap(i, Some(node));
        if old_head != NIL {
            proof {
                assert(ord0.len() > 0 && ord0[0] == old_head);
                assert(old(self).occupied(old_head));
                assert(old_head != index);
            }
            let taken = self.slot_swap(old_head as usize, None);
            match taken {
                Some(mut hn) => {
                    hn.prev = index;
                    let put_back = self.slot_swap(old_head as usize, Some(hn));
                },
                None => {
                    proof {
                        assert(false);
                    }
                },
            }
        }
        self.head = index;
        if self.tail == NIL {
            proof {
                assert(ord0.len() == 0);
            }
            self.tail = index;
        }
        self.len = self.len + 1;
        proof {
            self.list_order@ = seq![index] + ord0;
        }
        proof {
            let ord1 = self.list_order@;
            let n1 = ord1.len() as int;
            assert forall|k: int| 0 <= k < ord0.len() implies ord0[k] != index by {
                assert(old(self).occupied(ord0[k]));
            }
            assert(ord1.no_duplicates());
            assert forall|j: u32| old(self).occupied(j) implies #[trigger] self.occupied(j)
                && self.node(j) == (if j == old_head { (Node { prev: index, ..old(self).node(j) }) } else { old(self).node(j) }) by {
                assert(j != index);
            }
            assert(self.occupied(index) && self.node(index).prev == NIL && self.node(index).next == old_head
                && same_core(self.node(index), node));
            assert forall|k: int| 0 <= k < n1 implies #[trigger] self.occupied(ord1[k]) by {
                if k == 0 {
                } else {
                    assert(ord1[k] == ord0[k - 1]);
                    assert(old(self).occupied(ord0[k - 1]));
                }
            }
            assert forall|k: int| 0 <= k < n1 implies (#[trigger] self.node(ord1[k]).prev)
                == (if k == 0 { NIL } else { ord1[k - 1] }) by {
                if k == 0 {
                } else {
                    assert(ord1[k] == ord0[k - 1]);
                    assert(old(self).occupied(ord0[k - 1]));
                    if k == 1 {
                        assert(ord0[0] == old_head);
                        assert(self.node(ord0[0]).prev == index);
                    } else {
                        assert(ord0[k - 1] != old_head);
                        assert(self.node(ord0[k - 1]) == old(self).node(ord0[k - 1]));
                    }
                }
            }
            assert forall|k: int| 0 <= k < n1 implies (#[trigger] self.node(ord1[k]).next)
                == (if k == n1 - 1 { NIL } else { ord1[k + 1] }) by {
                if k == 0 {
                    assert(self.node(index).next == old_head);
                    if n1 > 1 {
                        assert(ord1[1] == ord0[0]);
                    }
                } else {
                    assert(ord1[k] == ord0[k - 1]);
                    assert(old(self).occupied(ord0[k - 1]));
                    assert(self.node(ord0[k - 1]).next == old(self).node(ord0[k - 1]).next);
                }
            }
            assert forall|i2: u32| #[trigger] self.occupied(i2) implies ord1.contains(i2) by {
                if i2 == index {
                    assert(ord1[0] == index);
                } else {
                    assert(old(self).occupied(i2));
                    assert(ord0.contains(i2));
                    let k = choose|k: int| 0 <= k < ord0.len() && ord0[k] == i2;
                    assert(ord1[k + 1] == i2);
                }
            }
            assert forall|k: int| 0 <= k < self.free_list@.len() implies
                (#[trigger] self.free_list@[k] as int) < self.slots@.len()
                && !self.occupied(self.free_list@[k]) by {
                assert(self.free_list@[k] == old(self).free_list@[k]);
                assert(old(self).free_list@[k] != index);
            }
            assert(self.wf());
        }
        Some(index)
    }

    /// Remove the node at `index` from the list and return it; the slot goes
    /// back on the free list.
    #[verifier::rlimit(60)]
    pub fn remove(&mut self, index: u32) -> (r: Option<Node>)
        requires
            old(self).wf(),
            (index as int) < old(self).cap(),
        ensures
            final(self).wf(),
            final(self).cap() == old(self).cap(),
            match r {
                None => !old(self).occupied(index) && arena_like(old(self), final(self)),
                Some(node) => {
                    &&& old(self).occupied(index)
                    &&& node == old(self).node(index)
                    &&& 0 <= old(self).pos(index) < old(self).order().len()
                    &&& old(self).order()[old(self).pos(index)] == index
                    &&& final(self).order() == old(self).order().remove(old(self).pos(index))
                    &&& forall|j: u32| old(self).occupied(j) && j != index ==> #[trigger] final(self).occupied(j)
                        && same_core(final(self).node(j), old(self).node(j))
                    &&& forall|j: u32| #[trigger] final(self).occupied(j) <==> (old(self).occupied(j) && j != index)
                    &&& final(self).free_seq() == old(self).free_seq().push(index)
                },
            },
    {
        proof {
            old(self).lemma_structure();
            old(self).lemma_pos();
        }
        let i = index as usize;
        let node = self.slot_swap(i, None);
        let node = match node {
            None => {
                proof {
                    assert(self.slots@ =~= old(self).slots@);
                    assert forall|j: u32| #[trigger] self.occupied(j) <==> old(self).occupied(j) by {}
                    assert forall|j: u32| old(self).occupied(j) implies #[trigger] self.node(j) == old(self).node(j) by {}
                    Self::lemma_wf_carries(old(self), self);
                    assert(arena_like(old(self), self));
                }
                return None;
            },
            Some(node) => node,
        };
        proof {
            assert(old(self).occupied(index));
        }
        let ghost ord0 = old(self).list_order@;
        let ghost p = old(self).pos(index);
        let ghost n0 = ord0.len() as int;
        let prev = node.prev;
        let next = node.next;
        proof {
            assert(0 <= p < n0 && ord0[p] == index);
            assert(old(self).node(ord0[p]).prev == (if p == 0 { NIL } else { ord0[p - 1] }));
            assert(old(self).node(ord0[p]).next == (if p == n0 - 1 { NIL } else { ord0[p + 1] }));
            assert(prev == (if p == 0 { NIL } else { ord0[p - 1] }));
            assert(next == (if p == n0 - 1 { NIL } else { ord0[p + 1] }));
            if p > 0 {
                assert(old(self).occupied(ord0[p - 1]));
                assert(ord0[p - 1] != index);
            }
            if p < n0 - 1 {
                assert(old(self).occupied(ord0[p + 1]));
                assert(ord0[p + 1] != index);
            }
        }
        if prev != NIL {
            let taken = self.slot_swap(prev as usize, None);
            match taken {
                Some(mut pn) => {
                    pn.next = next;
                    let put_back = self.slot_swap(prev as usize, Some(pn));
                },
                None => {
                    proof {
                        assert(false);
                    }
                },
            }
        } else {
            self.head = next;
        }
        if next != NIL {
            let taken = self.slot_swap(next as usize, None);
            match taken {
                Some(mut nn) => {
                    nn.prev = prev;
                    let put_back = self.slot_swap(next as usize, Some(nn));
                },
                None => {
                    proof {
                        assert(false);
                    }
                },
            }
        } else {
            self.tail = prev;
        }
        self.free_list.push(index);
        self.len = self.len - 1;
        proof {
            self.list_order@ = ord0.remove(p);
        }
        proof {
            let ord1 = self.list_order@;
            let n1 = ord1.len() as int;
            assert forall|k: int| 0 <= k < n1 implies ord1[k] == (if k < p { ord0[k] } else { ord0[k + 1] }) by {}
            assert(ord1.no_duplicates());
            assert forall|j: u32| old(self).occupied(j) && j != index implies #[trigger] self.occupied(j)
                && self.node(j) == (Node {
                    next: if p > 0 && j == ord0[p - 1] { next } else { old(self).node(j).next },
                    prev: if p < n0 - 1 && j == ord0[p + 1] { prev } else { old(self).node(j).prev },
                    ..old(self).node(j)
                }) by {
            }
            assert forall|k: int| 0 <= k < n1 implies #[trigger] self.occupied(ord1[k]) by {
                if k < p {
                    assert(old(self).occupied(ord0[k]) && ord0[k] != index);
                } else {
                    assert(old(self).occupied(ord0[k + 1]) && ord0[k + 1] != index);
                }
            }
            assert forall|k: int| 0 <= k < n1 implies (#[trigger] self.node(ord1[k]).prev)
                == (if k == 0 { NIL } else { ord1[k - 1] }) by {
                let j = ord1[k];
                if k == p {
                    assert(j == ord0[p + 1]);
                    assert(self.node(j).prev == prev);
                } else if k < p {
                    assert(j == ord0[k]);
                    assert(old(self).occupied(j) && j != index);
                    if p < n0 - 1 {
                        assert(j != ord0[p + 1]);
                    }
                    assert(self.node(j).prev == old(self).node(j).prev);
                } else {
                    assert(k > p);
                    assert(j == ord0[k + 1]);
                    assert(old(self).occupied(j) && j != index);
                    if p < n0 - 1 {
                        assert(j != ord0[p + 1]);
                    }
                    assert(self.node(j).prev == old(self).node(j).prev);
                    assert(old(self).node(j).prev == ord0[k]);
                    assert(ord1[k - 1] == ord0[k]);
                }
            }
            assert forall|k: int| 0 <= k < n1 implies (#[trigger] self.node(ord1[k]).next)
                == (if k == n1 - 1 { NIL } else { ord1[k + 1] }) by {
                let j = ord1[k];
                if k == p - 1 {
                    assert(j == ord0[p - 1]);
                    assert(self.node(j).next == next);
                    if k == n1 - 1 {
                        assert(p == n0 - 1);
                        assert(next == NIL);
                    } else {
                        assert(next == ord0[p + 1]);
                        assert(ord1[k + 1] == ord0[p + 1]);
                    }
                } else if k < p - 1 {
                    assert(j == ord0[k]);
                    assert(old(self).occupied(j) && j != index);
                    if p > 0 {
                        assert(j != ord0[p - 1]);
                    }
                    assert(self.node(j).next == old(self).node(j).next);
                } else {
                    assert(k >= p);
                    assert(j == ord0[k + 1]);
                    assert(old(self).occupied(j) && j != index);
                    if p > 0 {
                        assert(j != ord0[p - 1]);
                    }
                    assert(self.node(j).next == old(self).node(j).next);
                    if k == n1 - 1 {
                        assert(k + 1 == n0 - 1);
                    } else {
                        assert(old(self).node(j).next == ord0[k + 2]);
                        assert(ord1[k + 1] == ord0[k + 2]);
                    }
                }
            }
            assert forall|i2: u32| #[trigger] self.occupied(i2) implies ord1.contains(i2) by {
                assert(old(self).occupied(i2));
                assert(i2 != index);
                let k = old(self).pos(i2);
                assert(ord0[k] == i2);
                if k < p {
                    assert(ord1[k] == i2);
                } else {
                    assert(k > p);
                    assert(ord1[k - 1] == i2);
                }
            }
            assert forall|k: int| 0 <= k < self.free_list@.len() implies
                (#[trigger] self.free_list@[k] as int) < self.slots@.len()
                && !self.occupied(self.free_list@[k]) by {
                if k < old(self).free_list@.len() {
                    assert(self.free_list@[k] == old(self).free_list@[k]);
                    assert(!old(self).occupied(old(self).free_list@[k]));
                    assert(old(self).free_list@[k] != index || !old(self).occupied(index));
                } else {
                    assert(self.free_list@[k] == index);
                }
            }
            assert forall|k: int| 0 <= k < old(self).free_list@.len() implies old(self).free_list@[k] != index by {
                assert(!old(self).occupied(old(self).free_list@[k]));
            }
            assert(self.free_list@.no_duplicates());
            if p == 0 {
                assert(self.head == next);
                if n1 > 0 {
                    assert(ord1[0] == ord0[1]);
                }
            }
            if p == n0 - 1 {
                assert(self.tail == prev);
                if n1 > 0 {
                    assert(ord1[n1 - 1] == ord0[n0 - 2]);
                }
            }
            assert(self.wf());
        }
        Some(node)
    }

    /// Move an existing node to the head of the list (used by LRU). The node
    /// keeps its slot index: the unlink frees the slot and the relink pops it
    /// right back off the free stack.
    #[verifier::rlimit(60)]
    pub fn move_to_head(&mut self, index: u32)
        requires
            old(self).wf(),
            old(self).occupied(index),
        ensures
            final(self).wf(),
            final(self).cap() == old(self).cap(),
            final(self).order() == seq![index] + old(self).order().remove(old(self).pos(index)),
            forall|j: u32| #[trigger] final(self).occupied(j) <==> old(self).occupied(j),
            forall|j: u32| old(self).occupied(j) ==> same_core(#[trigger] final(self).node(j), old(self).node(j)),
            final(self).free_seq() == old(self).free_seq(),
    {
        proof {
            old(self).lemma_structure();
            old(self).lemma_pos();
        }
        if self.head == index {
            proof {
                assert(old(self).pos(index) == 0);
                assert(self.order() =~= seq![index] + old(self).order().remove(0));
            }
            return;
        }
        let node = self.remove(index);
        let node = match node {
            Some(n) => n,
            None => {
                proof {
                    assert(false);
                }
                return;
            },
        };
        let ghost mid = *self;
        proof {
            assert forall|j: u32| old(self).occupied(j) && j != index implies
                #[trigger] mid.occupied(j) && same_core(mid.node(j), old(self).node(j)) by {}
        }
        let r = self.push_head(node);
        proof {
            match r {
                Some(idx2) => {
                    assert(idx2 == index);
                    assert(self.free_seq() =~= old(self).free_seq());
                    assert forall|j: u32| old(self).occupied(j) implies
                        same_core(#[trigger] self.node(j), old(self).node(j)) by {
                        if j == index {
                            assert(same_core(self.node(index), node));
                        } else {
                            assert(mid.occupied(j));
                            assert(same_core(mid.node(j), old(self).node(j)));
                            assert(self.occupied(j));
                            assert(same_core(self.node(j), mid.node(j)));
                        }
                    }
                    assert forall|j: u32| #[trigger] self.occupied(j) <==> old(self).occupied(j) by {
                        if j != index {
                            assert(self.occupied(j) <==> mid.occupied(j));
                        }
                    }
                },
                None => {
                    assert(false);
                },
            }
        }
    }

    /// Remove the tail node and return it together with its index.
    pub fn pop_tail(&mut self) -> (r: Option<(u32, Node)>)
        requires
            old(self).wf(),
        ensures
            final(self).wf(),
            final(self).cap() == old(self).cap(),
            match r {
                None => old(self).order().len() == 0 && arena_like(old(self), final(self)),
                Some((index, node)) => {
                    &&& old(self).order().len() > 0
                    &&& index == old(self).order().last()
                    &&& old(self).occupied(index)
                    &&& node == old(self).node(index)
                    &&& final(self).order() == old(self).order().drop_last()
                    &&& forall|j: u32| old(self).occupied(j) && j != index ==> #[trigger] final(self).occupied(j)
                        && same_core(final(self).node(j), old(self).node(j))
                    &&& forall|j: u32| #[trigger] final(self).occupied(j) <==> (old(self).occupied(j) && j != index)
                    &&& final(self).free_seq() == old(self).free_seq().push(index)
                },
            },
    {
        proof {
            old(self).lemma_structure();
            old(self).lemma_pos();
        }
        if self.tail == NIL {
            proof {
                assert(arena_like(old(self), self));
            }
            return None;
        }
        let index = self.tail;
        let ghost n0 = old(self).order().len() as int;
        proof {
            assert(old(self).occupied(index));
            assert(old(self).pos(index) == n0 - 1);
        }
        let node = self.remove(index);
        match node {
            Some(node) => {
                proof {
                    assert(self.order() =~= old(self).order().drop_last());
                }
                Some((index, node))
            },
            None => {
                proof {
                    assert(false);
                }
                None
            },
        }
    }
}

} // verus!
