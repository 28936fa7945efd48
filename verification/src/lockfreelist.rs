//! A sorted singly-linked list used as a set of keys with attached values.
//!
//! Nodes live in an arena and refer to each other by index. A node is deleted
//! in two steps: first its own `next` link is marked (the logical delete, after
//! which lookups no longer see it), then the link that leads to it is swung
//! past it (the physical unlink), after which the node is retired. A retired
//! node is destroyed once no pinned party can still hold a reference to it.
//! Arena slots are never given to another node, so an index names the same
//! node for ever and a compare-and-swap can never mistake a new node for an
//! old one.
//!
//! Every change to the list is a single-word step: a compare-and-swap on one
//! link, or setting the mark of one link. A [`Cursor`] is a plain value that
//! does not borrow the list, so several cursors can be kept and their
//! operations interleaved in any order. Inserting, deleting and reading
//! through a cursor are defined for every well-formed list the cursor may
//! meet, including those that other cursors have changed since it was
//! positioned: the compare-and-swap finds out. So is every traversal: it
//! turns a cursor back whose node has left the chain, and the caller starts
//! over from the head. The traversal that unlinks each marked node learns
//! this from its first look at the cursor's slot; the two that step over
//! marked nodes without a swap look the node up on the chain before they
//! set out, which for a cursor fresh from the head is one step. What a
//! cursor refers to must still exist when the cursor is used: the party
//! that uses it must have been pinned since the cursor was positioned.
//!
//! There are three traversals. The first two unlink marked nodes on their
//! way, either the one run in front of where they stop or every one they
//! meet; the third only reads and steps over marked nodes. The operations of
//! the list itself, such as `harris_insert`, run a traversal from the head
//! and then the cursor operation. With the list to itself neither can be
//! turned back, so one round is all there is; parties that share the list
//! take the cursor operations themselves and start over when one fails.

use vstd::prelude::*;
use crate::epoch::bagged;
use crate::epoch::bagged_since;
use crate::epoch::Collector;
use crate::epoch::destroy_released;
use crate::epoch::due;
use crate::epoch::Guard;
use crate::epoch::idle;
use crate::epoch::lemma_sorting;
use crate::epoch::lemma_visit;
use crate::epoch::settled;
use crate::epoch::pending;
use crate::link::at;
use crate::link::Link;
use crate::link::same_node;
use crate::order::lemma_transitive;
use crate::order::lemma_trichotomy;
use crate::order::lt;
use crate::order::rank;
use crate::order::Rank;
use crate::order::total_order;

verus! {

/// One element of the list: a key, its value, and the link to the successor.
/// The mark of `next` says whether this node is logically deleted.
pub struct Node<K, V> {
    pub key: K,
    pub value: V,
    pub next: Link,
}

impl<K, V> Node<K, V> {
    /// A fresh node that is not yet part of any list.
    pub fn new(key: K, value: V) -> (n: Self)
        ensures
            n.key == key,
            n.value == value,
            n.next == Link::spec_null(),
    {
        Self { next: Link::null(), key, value }
    }

    /// Gives up the node for its value.
    pub fn into_value(self) -> (v: V)
        ensures
            v == self.value,
    {
        self.value
    }
}

/// A place that holds a link: the list's head, or the `next` field of a node.
#[derive(Clone, Copy, PartialEq, Eq, Structural, Debug)]
pub enum Slot {
    Head,
    Next(usize),
}

/// Which of the two unlinking traversals a list operation uses.
#[derive(Clone, Copy, PartialEq, Eq, Structural, Debug)]
enum Strategy {
    /// Cut out the run of marked nodes in front of the result with one
    /// compare-and-swap.
    Harris,
    /// Unlink every marked node as soon as it is met.
    HarrisMichael,
}

/// What inserting `k` with `v` makes of the set `m`, and whether it went in:
/// a key that is present is refused and the set stays as it is.
pub open spec fn inserted<K, V>(m: Map<K, V>, k: K, v: V) -> (Map<K, V>, bool) {
    if m.contains_key(k) {
        (m, false)
    } else {
        (m.insert(k, v), true)
    }
}

/// What looking up `k` in the set `m` gives.
pub open spec fn looked_up<K, V>(m: Map<K, V>, k: K) -> Option<V> {
    if m.contains_key(k) {
        Some(m[k])
    } else {
        None
    }
}

/// What deleting `k` makes of the set `m`, and the value that left with it.
pub open spec fn deleted<K, V>(m: Map<K, V>, k: K) -> (Map<K, V>, Option<V>) {
    (m.remove(k), looked_up(m, k))
}

/// The value behind an optional reference.
pub open spec fn read<V>(r: Option<&V>) -> Option<V> {
    match r {
        Some(v) => Some(*v),
        None => None,
    }
}

/// Node `i` of `nodes` is on `chain` and not marked.
pub open spec fn member_of<K, V>(nodes: Seq<Node<K, V>>, chain: Seq<usize>, i: usize) -> bool {
    &&& i < nodes.len()
    &&& chain.contains(i)
    &&& !nodes[i as int].next.tag
}

/// Some unmarked node of `nodes` on `chain` has key `k`.
pub open spec fn has_in<K, V>(nodes: Seq<Node<K, V>>, chain: Seq<usize>, k: K) -> bool {
    exists|i: usize| #[trigger] member_of(nodes, chain, i) && nodes[i as int].key == k
}

/// The unmarked node of `nodes` on `chain` that has key `k`.
pub open spec fn holder_in<K, V>(nodes: Seq<Node<K, V>>, chain: Seq<usize>, k: K) -> usize {
    choose|i: usize| #[trigger] member_of(nodes, chain, i) && nodes[i as int].key == k
}

/// The list: an arena of nodes, the head reference, and the collector for
/// retired nodes. The chain, the retired nodes and the last state of every
/// node are kept beside them for the proofs.
pub struct List<K, V> {
    slots: Vec<Option<Node<K, V>>>,
    head: Option<usize>,
    collector: Collector,
    chain: Ghost<Seq<usize>>,
    retired: Ghost<Seq<usize>>,
    record: Ghost<Seq<Node<K, V>>>,
}

/// A position in a list: the slot that led to `curr`, and `curr` itself.
#[derive(Clone, Copy, PartialEq, Eq, Structural, Debug)]
pub struct Cursor {
    pub prev: Slot,
    pub curr: Option<usize>,
}

impl<K: Ord, V> List<K, V> {
    /// Every node that was ever linked, by index, as it is now or was when
    /// it was destroyed.
    pub closed spec fn nodes(&self) -> Seq<Node<K, V>> {
        self.record@
    }

    /// Node `i` exists and has not been destroyed.
    pub closed spec fn live(&self, i: usize) -> bool {
        i < self.slots@.len() && self.slots@[i as int] is Some
    }

    /// The arena holds what the record says: as many slots as there are
    /// nodes, and in every slot that is not empty the node as recorded.
    pub closed spec fn synced(&self) -> bool {
        &&& self.slots@.len() == self.record@.len()
        &&& forall|i: usize|
            i < self.slots@.len() ==> ((#[trigger] self.slots@[i as int]) matches Some(n) ==> n
                == self.record@[i as int])
    }

    /// The collector that holds the retired nodes until they can be
    /// destroyed.
    pub closed spec fn collector(&self) -> Collector {
        self.collector
    }

    /// The nodes reachable from the head, in link order, marked ones included.
    pub closed spec fn chain(&self) -> Seq<usize> {
        self.chain@
    }

    /// The nodes that were unlinked, in the order in which they were retired.
    pub closed spec fn retired(&self) -> Seq<usize> {
        self.retired@
    }

    /// The node that the head refers to.
    pub closed spec fn first(&self) -> Option<usize> {
        self.head
    }

    /// The link stored in `slot`.
    pub open spec fn link(&self, slot: Slot) -> Link {
        match slot {
            Slot::Head => Link::spec_plain(self.first()),
            Slot::Next(i) => self.nodes()[i as int].next,
        }
    }

    /// Whether `slot` names a place of this list.
    pub open spec fn has_slot(&self, slot: Slot) -> bool {
        slot matches Slot::Next(i) ==> i < self.nodes().len()
    }

    /// The key of the node at position `p` of the chain.
    pub open spec fn key_at(&self, p: int) -> K {
        self.nodes()[self.chain()[p] as int].key
    }

    /// Whether the node at position `p` of the chain is marked.
    pub open spec fn marked_at(&self, p: int) -> bool {
        self.nodes()[self.chain()[p] as int].next.tag
    }

    /// The position of `node` on the chain; the chain's length for no node.
    pub open spec fn pos(&self, node: Option<usize>) -> int {
        match node {
            Some(i) => self.chain().index_of(i),
            None => self.chain().len() as int,
        }
    }

    /// `node` is nothing or a node on the chain.
    pub open spec fn on_chain(&self, node: Option<usize>) -> bool {
        node matches Some(i) ==> self.chain().contains(i)
    }

    /// The invariant: the list has its shape, and its nodes are housed as
    /// they should be.
    pub open spec fn wf(&self) -> bool {
        self.shape() && self.housed()
    }

    /// The nodes that exist are those on the chain and those that wait in
    /// the collector's bag, and only retired nodes are in the bag.
    pub open spec fn housed(&self) -> bool {
        &&& self.synced()
        &&& self.collector().wf()
        &&& forall|i: usize|
            i < self.nodes().len() ==> (#[trigger] self.live(i) <==> self.chain().contains(i) || bagged(
                self.collector().bag(),
                i,
            ))
        &&& forall|i: usize| #[trigger] bagged(self.collector().bag(), i) ==> self.retired().contains(i)
    }

    /// The pinned party `g` keeps node `i` from being destroyed: the node is
    /// on the chain, or was retired after `g` pinned itself.
    pub open spec fn guards(&self, g: Guard, i: usize) -> bool {
        &&& self.collector().holds(g)
        &&& self.chain().contains(i) || bagged_since(self.collector().bag(), i, g.epoch())
    }

    /// The pinned party `g` keeps what `cur` refers to from being destroyed.
    pub open spec fn covers(&self, g: Guard, cur: Cursor) -> bool {
        &&& self.collector().holds(g)
        &&& cur.prev matches Slot::Next(i) ==> self.guards(g, i)
        &&& cur.curr matches Some(j) ==> self.guards(g, j)
    }

    /// The shape of the list.
    ///
    /// The chain is what the links spell out from the head; keys strictly
    /// increase along it; every node is either on the chain or retired, never
    /// both and never twice; and a retired node is marked.
    pub open spec fn shape(&self) -> bool {
        let c = self.chain();
        let n = self.nodes();
        let r = self.retired();
        &&& c.no_duplicates()
        &&& r.no_duplicates()
        &&& forall|p: int| 0 <= p < c.len() ==> #[trigger] c[p] < n.len()
        &&& forall|p: int| 0 <= p < r.len() ==> #[trigger] r[p] < n.len()
        &&& self.first() == at(c, 0)
        &&& forall|p: int| 0 <= p < c.len() ==> (#[trigger] n[c[p] as int]).next.node == at(c, p + 1)
        &&& forall|p: int, q: int|
            0 <= p < q < c.len() ==> lt(#[trigger] self.key_at(p), #[trigger] self.key_at(q))
        &&& forall|i: usize| i < n.len() ==> (#[trigger] c.contains(i)) != r.contains(i)
        &&& forall|p: int| 0 <= p < r.len() ==> (#[trigger] n[r[p] as int]).next.tag
    }

    /// Node `i` is a member: on the chain and not marked.
    pub open spec fn holds(&self, i: usize) -> bool {
        member_of(self.nodes(), self.chain(), i)
    }

    /// Some member has key `k`.
    pub open spec fn has(&self, k: K) -> bool {
        has_in(self.nodes(), self.chain(), k)
    }

    /// The member with key `k`.
    pub open spec fn holder(&self, k: K) -> usize {
        holder_in(self.nodes(), self.chain(), k)
    }

    /// The set that the list stands for: the keys of its members, each with
    /// its value.
    pub open spec fn view(&self) -> Map<K, V> {
        Map::new(|k: K| self.has(k), |k: K| self.nodes()[self.holder(k) as int].value)
    }

    /// `cur` stands between a key below `key` and a key above it.
    pub open spec fn brackets(&self, cur: Cursor, key: K) -> bool {
        &&& cur.prev matches Slot::Next(i) ==> i < self.nodes().len() && lt(
            self.nodes()[i as int].key,
            key,
        )
        &&& cur.curr matches Some(j) ==> j < self.nodes().len() && lt(key, self.nodes()[j as int].key)
    }

    /// `cur.prev` is a place of this list and still leads to `cur.curr`.
    pub open spec fn adjacent(&self, cur: Cursor) -> bool {
        &&& self.has_slot(cur.prev)
        &&& self.link(cur.prev) == Link::spec_plain(cur.curr)
    }

    /// `cur` can start a traversal: its slot is a place of this list and its
    /// node is on the chain.
    pub open spec fn anchors(&self, cur: Cursor) -> bool {
        &&& self.has_slot(cur.prev)
        &&& self.on_chain(cur.curr)
    }

    /// `later` has every node of `self` with the same key and value, and
    /// every node that is off `later`'s chain refers to the node it referred
    /// to.
    pub open spec fn carried_by(&self, later: &Self) -> bool {
        &&& self.nodes().len() <= later.nodes().len()
        &&& forall|i: usize|
            i < self.nodes().len() ==> {
                &&& (#[trigger] later.nodes()[i as int]).key == self.nodes()[i as int].key
                &&& later.nodes()[i as int].value == self.nodes()[i as int].value
                &&& (!later.chain().contains(i) ==> later.nodes()[i as int].next.node
                    == self.nodes()[i as int].next.node)
            }
    }

    /// `later` has the marks of `self`, but for node `except`.
    pub open spec fn marks_kept(&self, later: &Self, except: Option<usize>) -> bool {
        forall|i: usize|
            i < self.nodes().len() && Some(i) != except ==> (#[trigger] later.nodes()[i as int]).next.tag
                == self.nodes()[i as int].next.tag
    }

    /// The first position at or after `p` that holds an unmarked node whose
    /// key is not below `key`; the chain's length if there is none.
    pub open spec fn stop(&self, p: int, key: K) -> int
        decreases self.chain().len() - p,
    {
        if p < 0 || p >= self.chain().len() {
            self.chain().len() as int
        } else if self.marked_at(p) || lt(self.key_at(p), key) {
            self.stop(p + 1, key)
        } else {
            p
        }
    }

    /// The first position at or after `p` that holds a node, marked or not,
    /// whose key is not below `key`; the chain's length if there is none.
    pub open spec fn reach(&self, p: int, key: K) -> int
        decreases self.chain().len() - p,
    {
        if p < 0 || p >= self.chain().len() {
            self.chain().len() as int
        } else if lt(self.key_at(p), key) {
            self.reach(p + 1, key)
        } else {
            p
        }
    }

    /// The last position in `[s, e)` that holds an unmarked node; `s - 1` if
    /// there is none.
    pub open spec fn anchor(&self, s: int, e: int) -> int
        decreases e - s,
    {
        if e <= s {
            s - 1
        } else if !self.marked_at(e - 1) {
            e - 1
        } else {
            self.anchor(s, e - 1)
        }
    }

    /// The slot a traversal from `cur` holds after passing `[s, e)`: the link
    /// of the last unmarked node it passed, or the slot it started with.
    pub open spec fn slot_after(&self, cur: Cursor, s: int, e: int) -> Slot {
        if self.anchor(s, e) >= s {
            Slot::Next(self.chain()[self.anchor(s, e)])
        } else {
            cur.prev
        }
    }

    /// The unmarked nodes among the positions `[s, e)`, in order.
    pub open spec fn kept(&self, s: int, e: int) -> Seq<usize> {
        self.chain().subrange(s, e).filter(|i: usize| !self.nodes()[i as int].next.tag)
    }

    /// The marked nodes among the positions `[s, e)`, in order.
    pub open spec fn dropped(&self, s: int, e: int) -> Seq<usize> {
        self.chain().subrange(s, e).filter(|i: usize| self.nodes()[i as int].next.tag)
    }

    /// An empty list.
    pub fn new() -> (l: Self)
        ensures
            l.wf(),
            l@ == Map::<K, V>::empty(),
            l.chain().len() == 0,
            l.nodes().len() == 0,
            l.retired().len() == 0,
            l.first() is None,
            l.collector().pins().len() == 0,
            l.collector().bag().len() == 0,
            l.collector().now() == 0,
    {
        let l = List {
            slots: Vec::new(),
            head: None,
            collector: Collector::new(),
            chain: Ghost(Seq::empty()),
            retired: Ghost(Seq::empty()),
            record: Ghost(Seq::empty()),
        };
        proof {
            assert(l@ =~= Map::<K, V>::empty());
            assert forall|i: usize| #[trigger] bagged(l.collector().bag(), i) implies l.retired().contains(i) by {
                let k = choose|k: int|
                    0 <= k < l.collector().bag().len() && (#[trigger] l.collector().bag()[k]).node == i;
            }
        }
        l
    }

    /// A list with the same nodes, chain, retired nodes and head has the
    /// same shape and stands for the same set.
    pub proof fn lemma_same_shape(&self, b: &Self)
        requires
            self.shape(),
            b.nodes() == self.nodes(),
            b.chain() == self.chain(),
            b.retired() == self.retired(),
            b.first() == self.first(),
        ensures
            b.shape(),
            b@ == self@,
    {
        assert forall|p: int, q: int| 0 <= p < q < b.chain().len() implies lt(
            #[trigger] b.key_at(p),
            #[trigger] b.key_at(q),
        ) by {
            assert(lt(self.key_at(p), self.key_at(q)));
        }
        assert(b@ =~= self@);
    }

    /// Retiring nodes that have left the chain keeps the nodes housed.
    pub proof fn lemma_rehoused(&self, b: &Self, run: Seq<usize>)
        requires
            self.shape(),
            self.housed(),
            b.synced(),
            b.collector().wf(),
            b.nodes().len() == self.nodes().len(),
            b.retired() == self.retired() + run,
            forall|j: usize| b.live(j) == self.live(j),
            forall|j: usize| run.contains(j) ==> self.chain().contains(j),
            forall|j: usize| b.chain().contains(j) <==> (self.chain().contains(j) && !run.contains(j)),
            forall|j: usize|
                #[trigger] bagged(b.collector().bag(), j) <==> (bagged(self.collector().bag(), j)
                    || run.contains(j)),
        ensures
            b.housed(),
    {
        assert forall|j: usize| j < b.nodes().len() implies (#[trigger] b.live(j) <==> b.chain().contains(j)
            || bagged(b.collector().bag(), j)) by {
            assert(self.live(j) <==> self.chain().contains(j) || bagged(self.collector().bag(), j));
            assert(b.live(j) == self.live(j));
            assert(run.contains(j) ==> self.chain().contains(j));
            assert(b.chain().contains(j) <==> (self.chain().contains(j) && !run.contains(j)));
            assert(bagged(b.collector().bag(), j) <==> (bagged(self.collector().bag(), j) || run.contains(j)));
        }
        assert forall|j: usize| #[trigger] bagged(b.collector().bag(), j) implies b.retired().contains(j) by {
            if bagged(self.collector().bag(), j) {
                assert(self.retired().contains(j));
                assert(b.retired()[self.retired().index_of(j)] == j);
            } else {
                assert(b.retired()[self.retired().len() + run.index_of(j)] == j);
            }
        }
    }

    /// Whoever guarded a node before nodes were retired guards it after.
    pub proof fn lemma_still_guarded(&self, b: &Self, run: Seq<usize>)
        requires
            forall|j: usize| b.chain().contains(j) <==> (self.chain().contains(j) && !run.contains(j)),
            forall|h: Guard| self.collector().holds(h) ==> b.collector().holds(h),
            forall|h: Guard, j: usize| self.collector().shields(h, j) ==> b.collector().shields(h, j),
            forall|h: Guard, j: usize|
                self.collector().holds(h) && run.contains(j) ==> #[trigger] b.collector().shields(h, j),
        ensures
            forall|h: Guard, j: usize| self.guards(h, j) ==> b.guards(h, j),
    {
        assert forall|h: Guard, j: usize| self.guards(h, j) implies b.guards(h, j) by {
            if self.chain().contains(j) {
                if run.contains(j) {
                    assert(b.collector().shields(h, j));
                }
            } else {
                assert(self.collector().shields(h, j));
                assert(b.collector().shields(h, j));
            }
        }
    }

    /// A guarded node exists.
    pub proof fn lemma_guarded_is_live(&self, g: Guard, i: usize)
        requires
            self.wf(),
            self.guards(g, i),
        ensures
            self.live(i),
            i < self.nodes().len(),
    {
        if self.chain().contains(i) {
            let p = self.chain().index_of(i);
            assert(self.chain()[p] < self.nodes().len());
        } else {
            let k = choose|k: int|
                0 <= k < self.collector().bag().len() && (#[trigger] self.collector().bag()[k]).node == i
                    && self.collector().bag()[k].stamp >= g.epoch();
            assert(bagged(self.collector().bag(), i));
            let p = self.retired().index_of(i);
            assert(self.retired()[p] < self.nodes().len());
        }
    }

    /// Pins a party. What the party reads from the list while it is pinned
    /// is not destroyed before it unpins or repins.
    pub fn pin(&mut self) -> (g: Guard)
        requires
            old(self).wf(),
        ensures
            final(self).wf(),
            final(self).collector().holds(g),
            g.epoch() == old(self).collector().now(),
            g.slot() <= old(self).collector().pins().len(),
            g.slot() < old(self).collector().pins().len() ==> old(self).collector().pins()[g.slot() as int] is None,
            forall|s: int| 0 <= s < g.slot() ==> (#[trigger] old(self).collector().pins()[s]) is Some,
            final(self).collector().pins() == (if g.slot() < old(self).collector().pins().len() {
                old(self).collector().pins().update(g.slot() as int, Some(g.epoch()))
            } else {
                old(self).collector().pins().push(Some(g.epoch()))
            }),
            final(self).collector().bag() == old(self).collector().bag(),
            final(self).collector().now() == old(self).collector().now(),
            forall|h: Guard| old(self).collector().holds(h) ==> h.slot() != g.slot(),
            final(self)@ == old(self)@,
            final(self).chain() == old(self).chain(),
            final(self).retired() == old(self).retired(),
            final(self).nodes() == old(self).nodes(),
            final(self).first() == old(self).first(),
            forall|i: usize| final(self).live(i) == old(self).live(i),
            forall|h: Guard| old(self).collector().holds(h) ==> final(self).collector().holds(h),
            forall|h: Guard, i: usize| old(self).guards(h, i) ==> final(self).guards(h, i),
    {
        let g = self.collector.pin();
        proof {
            assert forall|i: usize| i < self.nodes().len() implies (#[trigger] self.live(i) <==> self.chain().contains(
                i,
            ) || bagged(self.collector().bag(), i)) by {
                assert(old(self).live(i) <==> old(self).chain().contains(i) || bagged(
                    old(self).collector().bag(),
                    i,
                ));
            }
            old(self).lemma_same_shape(self);
        }
        g
    }

    /// Unpins a party, and destroys the retired nodes that were waiting for
    /// it alone.
    pub fn unpin(&mut self, guard: Guard)
        requires
            old(self).wf(),
            old(self).collector().holds(guard),
        ensures
            final(self).wf(),
            final(self).nodes().len() == old(self).nodes().len(),
            final(self).collector().pins() == old(self).collector().pins().update(guard.slot() as int, None),
            final(self).collector().now() == old(self).collector().now(),
            final(self).collector().bag() == pending(final(self).collector().pins(), old(self).collector().bag()),
            forall|i: usize|
                final(self).live(i) <==> old(self).live(i) && !due(
                    final(self).collector().pins(),
                    old(self).collector().bag(),
                ).contains(i),
            final(self)@ == old(self)@,
            final(self).chain() == old(self).chain(),
            final(self).retired() == old(self).retired(),
            final(self).nodes() == old(self).nodes(),
            final(self).first() == old(self).first(),
            forall|i: usize| final(self).live(i) ==> old(self).live(i),
            forall|h: Guard|
                old(self).collector().holds(h) && h.slot() != guard.slot() ==> final(self).collector().holds(h),
            forall|h: Guard, i: usize|
                old(self).guards(h, i) && h.slot() != guard.slot() ==> final(self).guards(h, i),
    {
        let released = self.collector.unpin(guard);
        proof {
            lemma_sorting(self.collector().pins(), old(self).collector().bag());
        }
        self.destroy(released, Ghost(*old(self)));
    }

    /// Unpins a party and pins it again, and destroys the retired nodes that
    /// were waiting for it alone. What the party read before is no longer
    /// protected.
    pub fn repin(&mut self, guard: &mut Guard)
        requires
            old(self).wf(),
            old(self).collector().holds(*old(guard)),
        ensures
            final(self).wf(),
            final(self).nodes().len() == old(self).nodes().len(),
            final(guard).epoch() == old(self).collector().now(),
            final(self).collector().pins() == old(self).collector().pins().update(
                old(guard).slot() as int,
                Some(old(self).collector().now()),
            ),
            final(self).collector().now() == old(self).collector().now(),
            final(self).collector().bag() == pending(final(self).collector().pins(), old(self).collector().bag()),
            forall|i: usize|
                final(self).live(i) <==> old(self).live(i) && !due(
                    final(self).collector().pins(),
                    old(self).collector().bag(),
                ).contains(i),
            final(self).collector().holds(*final(guard)),
            final(guard).slot() == old(guard).slot(),
            final(self)@ == old(self)@,
            final(self).chain() == old(self).chain(),
            final(self).retired() == old(self).retired(),
            final(self).nodes() == old(self).nodes(),
            final(self).first() == old(self).first(),
            forall|i: usize| final(self).live(i) ==> old(self).live(i),
            forall|h: Guard|
                old(self).collector().holds(h) && h.slot() != old(guard).slot() ==> final(self).collector().holds(h),
            forall|h: Guard, i: usize|
                old(self).guards(h, i) && h.slot() != old(guard).slot() ==> final(self).guards(h, i),
    {
        let released = self.collector.repin(guard);
        proof {
            lemma_sorting(self.collector().pins(), old(self).collector().bag());
        }
        self.destroy(released, Ghost(*old(self)));
    }

    /// Destroys the nodes that the collector has released.
    fn destroy(&mut self, released: Vec<usize>, Ghost(before): Ghost<Self>)
        requires
            before.wf(),
            old(self).collector().wf(),
            old(self).slots@ == before.slots@,
            old(self).nodes() == before.nodes(),
            old(self).chain() == before.chain(),
            old(self).retired() == before.retired(),
            old(self).first() == before.first(),
            forall|i: usize|
                #[trigger] bagged(before.collector().bag(), i) <==> (bagged(old(self).collector().bag(), i)
                    != released@.contains(i)),
            forall|i: usize|
                !(#[trigger] bagged(before.collector().bag(), i)) ==> !bagged(
                    old(self).collector().bag(),
                    i,
                ) && !released@.contains(i),
        ensures
            final(self).wf(),
            final(self).collector() == old(self).collector(),
            final(self)@ == before@,
            final(self).nodes() == before.nodes(),
            final(self).chain() == before.chain(),
            final(self).retired() == before.retired(),
            final(self).first() == before.first(),
            forall|i: usize| final(self).live(i) <==> before.live(i) && !released@.contains(i),
    {
        proof {
            assert forall|k: int| 0 <= k < released@.len() implies #[trigger] released@[k] < self.slots@.len() by {
                let i = released@[k];
                assert(released@.contains(i));
                if !bagged(before.collector().bag(), i) {
                    assert(!released@.contains(i));
                }
                assert(before.retired().contains(i));
                assert(before.retired()[before.retired().index_of(i)] < before.nodes().len());
            }
        }
        destroy_released(&mut self.slots, &released);
        proof {
            assert forall|i: usize| self.live(i) <==> before.live(i) && !released@.contains(i) by {
                if i < self.slots@.len() {
                    assert(self.slots@[i as int] == (if released@.contains(i) {
                        None
                    } else {
                        before.slots@[i as int]
                    }));
                }
            }
            assert(self.synced()) by {
                assert forall|j: usize| j < self.slots@.len() implies ((
                #[trigger] self.slots@[j as int]) matches Some(n) ==> n == self.record@[j as int]) by {
                    assert(self.slots@[j as int] == (if released@.contains(j) {
                        None
                    } else {
                        before.slots@[j as int]
                    }));
                }
            }
            let c = self.chain();
            assert forall|i: usize| i < self.nodes().len() implies (#[trigger] self.live(i) <==> c.contains(i)
                || bagged(self.collector().bag(), i)) by {
                assert(before.live(i) <==> c.contains(i) || bagged(before.collector().bag(), i));
                assert(bagged(before.collector().bag(), i) <==> (bagged(self.collector().bag(), i)
                    != released@.contains(i)));
                assert(self.live(i) <==> before.live(i) && !released@.contains(i));
                if bagged(before.collector().bag(), i) {
                    assert(before.retired().contains(i));
                }
                assert(c.contains(i) != before.retired().contains(i));
            }
            assert forall|i: usize| #[trigger] bagged(self.collector().bag(), i) implies self.retired().contains(
                i,
            ) by {
                if !bagged(before.collector().bag(), i) {
                    assert(!bagged(self.collector().bag(), i));
                }
            }
            before.lemma_same_shape(self);
        }
    }

    /// With nobody pinned, the nodes that exist are those on the chain.
    pub proof fn lemma_idle(&self)
        requires
            self.wf(),
            idle(self.collector().pins()),
        ensures
            self.collector().bag().len() == 0,
            forall|i: usize| self.live(i) <==> self.chain().contains(i),
    {
        lemma_visit(
            self.collector().pins(),
            settled(self.collector().pins()),
            self.collector().bag(),
            self.collector().now(),
            Seq::empty(),
        );
        assert forall|i: usize| self.live(i) <==> self.chain().contains(i) by {
            if self.live(i) {
                assert(self.live(i) <==> self.chain().contains(i) || bagged(self.collector().bag(), i));
            }
            if self.chain().contains(i) {
                let p = self.chain().index_of(i);
                assert(self.chain()[p] < self.nodes().len());
                assert(self.live(i) <==> self.chain().contains(i) || bagged(self.collector().bag(), i));
            }
        }
    }

    /// The nodes on the chain, in order.
    pub open spec fn linked_nodes(&self) -> Seq<Node<K, V>> {
        Seq::new(self.chain().len(), |j: int| self.nodes()[self.chain()[j] as int])
    }

    /// Takes the list apart: walks from the head, frees every node, and
    /// gives the nodes in the order of their keys, with their marks.
    ///
    /// Nobody may be pinned any more. Then the nodes on the chain are all
    /// the nodes there are, so that nothing stays allocated.
    pub fn teardown(self) -> (out: Vec<Node<K, V>>)
        requires
            self.wf(),
            idle(self.collector().pins()),
        ensures
            out@ == self.linked_nodes(),
            self.collector().bag().len() == 0,
            forall|i: usize| self.live(i) <==> self.chain().contains(i),
    {
        let ghost c = self.chain();
        let ghost k = 0int;
        let mut this = self;
        let mut out: Vec<Node<K, V>> = Vec::new();
        let mut curr = this.head;
        proof {
            self.lemma_idle();
            assert(self.linked_nodes().take(0) =~= Seq::<Node<K, V>>::empty());
            assert forall|i: usize| i < this.slots@.len() && (#[trigger] this.slots@[i as int]) is Some implies exists|
                j: int,
            | 0 <= j < c.len() && c[j] == i by {
                assert(self.live(i));
                let j = c.index_of(i);
                assert(c[j] == i);
            }
        }
        loop
            invariant
                self.wf(),
                c == self.chain(),
                0 <= k <= c.len(),
                curr == at(c, k),
                this.slots@.len() == self.slots@.len(),
                out@ == self.linked_nodes().take(k),
                forall|j: int| k <= j < c.len() ==> #[trigger] this.slots@[c[j] as int] == self.slots@[c[j] as int],
                forall|i: usize| i < this.slots@.len() && (#[trigger] this.slots@[i as int]) is Some ==> exists|j: int|
                    k <= j < c.len() && c[j] == i,
            ensures
                out@ == self.linked_nodes(),
                forall|i: usize| i < this.slots@.len() ==> (#[trigger] this.slots@[i as int]) is None,
            decreases c.len() - k,
        {
            let i = match curr {
                Some(i) => i,
                None => {
                    proof {
                        assert(self.linked_nodes().take(k) =~= self.linked_nodes());
                    }
                    break;
                },
            };
            proof {
                self.lemma_pos_at(k);
                assert(self.live(c[k]));
                assert(self.nodes()[c[k] as int].next.node == at(c, k + 1));
            }
            let ghost prior = this.slots@;
            match this.slots[i].take() {
                Some(node) => {
                    curr = node.next.node;
                    out.push(node);
                },
                None => {
                    curr = None;
                },
            }
            proof {
                assert(self.linked_nodes().take(k + 1) =~= self.linked_nodes().take(k).push(
                    self.linked_nodes()[k],
                ));
                assert forall|j: int| k + 1 <= j < c.len() implies #[trigger] this.slots@[c[j] as int]
                    == self.slots@[c[j] as int] by {
                    self.lemma_pos_at(j);
                    assert(prior[c[j] as int] == self.slots@[c[j] as int]);
                }
                assert forall|x: usize| x < this.slots@.len() && (#[trigger] this.slots@[x as int]) is Some implies exists|
                    j: int,
                | k + 1 <= j < c.len() && c[j] == x by {
                    assert(prior[x as int] is Some);
                    let j = choose|j: int| k <= j < c.len() && c[j] == x;
                    assert(j != k);
                }
                k = k + 1;
            }
        }
        out
    }

    /// Retires node `i`, which has just been unlinked: puts it in the
    /// collector's bag and on the record of retired nodes.
    fn retire(&mut self, i: usize, guard: &Guard)
        requires
            old(self).synced(),
            old(self).collector().wf(),
            old(self).collector().holds(*guard),
            !bagged(old(self).collector().bag(), i),
        ensures
            final(self).synced(),
            final(self).collector().wf(),
            final(self).collector().pins() == old(self).collector().pins(),
            old(self).collector().after_retiring(&final(self).collector(), seq![i]),
            final(self).retired() == old(self).retired().push(i),
            final(self).nodes() == old(self).nodes(),
            final(self).chain() == old(self).chain(),
            final(self).first() == old(self).first(),
            forall|j: usize| final(self).live(j) == old(self).live(j),
            forall|j: usize|
                #[trigger] bagged(final(self).collector().bag(), j) <==> (bagged(old(self).collector().bag(), j)
                    || j == i),
            forall|h: Guard| old(self).collector().holds(h) ==> final(self).collector().shields(h, i),
            forall|h: Guard| old(self).collector().holds(h) ==> final(self).collector().holds(h),
            forall|h: Guard, j: usize|
                old(self).collector().shields(h, j) ==> final(self).collector().shields(h, j),
    {
        let ghost b0 = self.collector().bag();
        self.collector.defer_destroy(guard, i);
        proof {
            self.retired@ = self.retired@.push(i);
            let b1 = self.collector().bag();
            assert forall|j: usize| #[trigger] bagged(b1, j) <==> (bagged(b0, j) || j == i) by {
                if bagged(b0, j) {
                    let k = choose|k: int| 0 <= k < b0.len() && (#[trigger] b0[k]).node == j;
                    assert(b1[k].node == j);
                }
                if j == i {
                    assert(b1[b0.len() as int].node == i);
                }
                if bagged(b1, j) {
                    let k = choose|k: int| 0 <= k < b1.len() && (#[trigger] b1[k]).node == j;
                    if k < b0.len() {
                        assert(b0[k].node == j);
                    }
                }
            }
        }
    }

    /// The node in slot `i`.
    fn node(&self, i: usize) -> (n: &Node<K, V>)
        requires
            self.synced(),
            self.live(i),
        ensures
            *n == self.nodes()[i as int],
            i < self.nodes().len(),
    {
        match &self.slots[i] {
            Some(n) => n,
            None => vstd::pervasive::unreached(),
        }
    }

    /// Whether the node that holds `slot`, if any, exists.
    pub open spec fn reads(&self, slot: Slot) -> bool {
        slot matches Slot::Next(i) ==> self.live(i)
    }

    /// A cursor at the front: its slot is the head, its node the first node.
    pub fn head(&self, guard: &Guard) -> (c: Cursor)
        requires
            self.wf(),
            self.collector().holds(*guard),
        ensures
            c == self.front_cursor(),
            self.covers(*guard, c),
            self.anchors(c),
            self.adjacent(c),
            self.pos(c.curr) == 0,
            !self.blocks(c),
    {
        proof {
            if self.chain().len() > 0 {
                self.lemma_pos_at(0);
            }
        }
        Cursor::new(Slot::Head, Link::plain(self.head))
    }

    /// Whether a traversal that sets out from `cur` stays on the chain:
    /// whether its slot is a place of this list and its node is on the
    /// chain. Walks the chain to find out.
    pub fn is_anchored(&self, cur: &Cursor) -> (b: bool)
        requires
            self.wf(),
        ensures
            b == self.anchors(*cur),
    {
        let placed = match cur.prev {
            Slot::Head => true,
            Slot::Next(i) => i < self.slots.len(),
        };
        if !placed {
            return false;
        }
        let sought = match cur.curr {
            Some(j) => j,
            None => {
                return true;
            },
        };
        let ghost c = self.chain();
        let ghost k = 0int;
        let mut at_node = self.head;
        loop
            invariant
                self.wf(),
                c == self.chain(),
                0 <= k <= c.len(),
                at_node == at(c, k),
                forall|q: int| 0 <= q < k ==> c[q] != sought,
            ensures
                at_node is Some <==> c.contains(sought),
            decreases c.len() - k,
        {
            let x = match at_node {
                Some(x) => x,
                None => {
                    proof {
                        if c.contains(sought) {
                            let q = c.index_of(sought);
                            assert(c[q] == sought);
                        }
                    }
                    break;
                },
            };
            proof {
                self.lemma_pos_at(k);
                assert(self.live(c[k]));
                assert(self.nodes()[c[k] as int].next.node == at(c, k + 1));
            }
            if x == sought {
                break;
            }
            at_node = self.node(x).next.node;
            proof {
                k = k + 1;
            }
        }
        at_node.is_some()
    }

    /// Reads the link stored in `slot`.
    fn load(&self, slot: Slot) -> (l: Link)
        requires
            self.synced(),
            self.reads(slot),
        ensures
            l == self.link(slot),
            self.has_slot(slot),
    {
        match slot {
            Slot::Head => Link::plain(self.head),
            Slot::Next(i) => self.node(i).next,
        }
    }

    /// Compare-and-swap on one link: stores `new` in `slot` if the slot holds
    /// `expected`. Nothing else changes; the chain record is left to the
    /// caller.
    fn compare_exchange(&mut self, slot: Slot, expected: Link, new: Link) -> (ok: bool)
        requires
            old(self).synced(),
            old(self).reads(slot),
            !new.tag,
        ensures
            final(self).synced(),
            old(self).has_slot(slot),
            ok == (old(self).link(slot) == expected),
            !ok ==> *final(self) == *old(self),
            final(self).chain() == old(self).chain(),
            final(self).retired() == old(self).retired(),
            final(self).collector() == old(self).collector(),
            final(self).nodes().len() == old(self).nodes().len(),
            forall|i: usize| final(self).live(i) == old(self).live(i),
            final(self).first() == (if ok && slot == Slot::Head {
                new.node
            } else {
                old(self).first()
            }),
            forall|i: usize|
                i < old(self).nodes().len() ==> {
                    &&& (#[trigger] final(self).nodes()[i as int]).key == old(self).nodes()[i as int].key
                    &&& final(self).nodes()[i as int].value == old(self).nodes()[i as int].value
                    &&& final(self).nodes()[i as int].next == (if ok && slot == Slot::Next(i) {
                        new
                    } else {
                        old(self).nodes()[i as int].next
                    })
                },
    {
        match slot {
            Slot::Head => {
                if Link::plain(self.head) == expected {
                    self.head = new.node;
                    true
                } else {
                    false
                }
            },
            Slot::Next(i) => {
                if self.node(i).next == expected {
                    let ghost was = self.record@[i as int];
                    match &mut self.slots[i] {
                        Some(n) => {
                            n.next = new;
                        },
                        None => {},
                    }
                    proof {
                        self.record@ = self.record@.update(
                            i as int,
                            Node { key: was.key, value: was.value, next: new },
                        );
                    }
                    true
                } else {
                    false
                }
            },
        }
    }
}

impl<K: Ord, V> List<K, V> {
    /// Compare-and-swap that publishes a new node: if `slot` holds
    /// `expected`, the node enters the arena and `slot` refers to it.
    /// Otherwise nothing changes and the node comes back.
    fn publish(&mut self, slot: Slot, expected: Link, node: Node<K, V>) -> (r: Result<usize, Node<K, V>>)
        requires
            old(self).synced(),
            old(self).reads(slot),
        ensures
            final(self).synced(),
            old(self).has_slot(slot),
            r is Ok <==> old(self).link(slot) == expected,
            final(self).chain() == old(self).chain(),
            final(self).retired() == old(self).retired(),
            final(self).collector() == old(self).collector(),
            match r {
                Err(back) => back == node && *final(self) == *old(self),
                Ok(n) => {
                    &&& n == old(self).nodes().len()
                    &&& final(self).nodes().len() == n + 1
                    &&& final(self).nodes()[n as int] == node
                    &&& final(self).live(n)
                    &&& forall|i: usize| i < n ==> final(self).live(i) == old(self).live(i)
                    &&& final(self).first() == (if slot == Slot::Head {
                        Some(n)
                    } else {
                        old(self).first()
                    })
                    &&& forall|i: usize|
                        i < n ==> {
                            &&& (#[trigger] final(self).nodes()[i as int]).key == old(self).nodes()[i as int].key
                            &&& final(self).nodes()[i as int].value == old(self).nodes()[i as int].value
                            &&& final(self).nodes()[i as int].next == (if slot == Slot::Next(i) {
                                Link::spec_to(n)
                            } else {
                                old(self).nodes()[i as int].next
                            })
                        }
                },
            },
    {
        if self.load(slot) == expected {
            let n = self.slots.len();
            let ghost fresh = node;
            self.slots.push(Some(node));
            proof {
                self.record@ = self.record@.push(fresh);
            }
            match slot {
                Slot::Head => {
                    self.head = Some(n);
                },
                Slot::Next(i) => {
                    let ghost was = self.record@[i as int];
                    match &mut self.slots[i] {
                        Some(p) => {
                            p.next = Link::to(n);
                        },
                        None => {},
                    }
                    proof {
                        self.record@ = self.record@.update(
                            i as int,
                            Node { key: was.key, value: was.value, next: Link::spec_to(n) },
                        );
                    }
                },
            }
            Ok(n)
        } else {
            Err(node)
        }
    }

    /// Sets the mark of node `i`'s link and returns the link as it was.
    fn fetch_mark(&mut self, i: usize) -> (was: Link)
        requires
            old(self).synced(),
            old(self).live(i),
        ensures
            final(self).synced(),
            i < old(self).nodes().len(),
            was == old(self).nodes()[i as int].next,
            final(self).nodes().len() == old(self).nodes().len(),
            final(self).nodes()[i as int].next == (Link { node: was.node, tag: true }),
            final(self).nodes()[i as int].key == old(self).nodes()[i as int].key,
            final(self).nodes()[i as int].value == old(self).nodes()[i as int].value,
            forall|j: int|
                0 <= j < old(self).nodes().len() && j != i ==> #[trigger] final(self).nodes()[j]
                    == old(self).nodes()[j],
            forall|j: usize| final(self).live(j) == old(self).live(j),
            final(self).chain() == old(self).chain(),
            final(self).retired() == old(self).retired(),
            final(self).collector() == old(self).collector(),
            final(self).first() == old(self).first(),
            was.tag ==> *final(self) == *old(self),
    {
        let was = self.node(i).next;
        if !was.tag {
            let ghost rec = self.record@[i as int];
            match &mut self.slots[i] {
                Some(n) => {
                    n.next = was.with_tag(true);
                },
                None => {},
            }
            proof {
                self.record@ = self.record@.update(
                    i as int,
                    Node { key: rec.key, value: rec.value, next: Link { node: was.node, tag: true } },
                );
            }
        }
        was
    }

    /// If some member has key `k`, then `holder(k)` is such a member; and a
    /// member's key has a member.
    pub proof fn lemma_holder(&self, k: K)
        ensures
            self.has(k) ==> self.holds(self.holder(k)) && self.nodes()[self.holder(k) as int].key == k,
            forall|i: usize| self.holds(i) && self.nodes()[i as int].key == k ==> self.has(k),
    {
    }

    /// A node on the chain has a position there.
    pub proof fn lemma_pos(&self, i: usize)
        requires
            self.chain().contains(i),
        ensures
            0 <= self.pos(Some(i)) < self.chain().len(),
            self.chain()[self.pos(Some(i))] == i,
    {
    }

    /// With no node twice on the chain, the position of the node at `p` is
    /// `p`.
    pub proof fn lemma_pos_at(&self, p: int)
        requires
            self.chain().no_duplicates(),
            0 <= p < self.chain().len(),
        ensures
            self.pos(Some(self.chain()[p])) == p,
            self.chain().contains(self.chain()[p]),
    {
        self.lemma_pos(self.chain()[p]);
    }

    /// Two nodes on the chain with one key are one node.
    pub proof fn lemma_one_per_key(&self, i: usize, j: usize)
        requires
            self.shape(),
            total_order::<K>(),
            self.chain().contains(i),
            self.chain().contains(j),
            self.nodes()[i as int].key == self.nodes()[j as int].key,
        ensures
            i == j,
    {
        self.lemma_pos(i);
        self.lemma_pos(j);
        let p = self.pos(Some(i));
        let q = self.pos(Some(j));
        lemma_trichotomy(self.nodes()[i as int].key, self.nodes()[j as int].key);
        if p < q {
            assert(lt(self.key_at(p), self.key_at(q)));
        } else if q < p {
            assert(lt(self.key_at(q), self.key_at(p)));
        }
    }

    /// An unmarked node is on the chain, and the slot that holds the plain
    /// link to a chain node is the head, for the first node, or the node just
    /// before it.
    pub proof fn lemma_adjacent(&self, slot: Slot, node: Option<usize>)
        requires
            self.shape(),
            self.has_slot(slot),
            self.link(slot) == Link::spec_plain(node),
        ensures
            self.on_chain(node),
            slot == Slot::Head ==> self.pos(node) == 0,
            slot matches Slot::Next(i) ==> self.chain().contains(i) && self.pos(node) == self.pos(
                Some(i),
            ) + 1,
    {
        let c = self.chain();
        match slot {
            Slot::Head => {
                if c.len() > 0 {
                    self.lemma_pos_at(0);
                }
            },
            Slot::Next(i) => {
                if !c.contains(i) {
                    assert(self.retired().contains(i));
                    let p = self.retired().index_of(i);
                    assert(self.nodes()[self.retired()[p] as int].next.tag);
                }
                self.lemma_pos(i);
                let p = self.pos(Some(i));
                assert(self.nodes()[c[p] as int].next.node == at(c, p + 1));
                if p + 1 < c.len() {
                    self.lemma_pos_at(p + 1);
                }
            },
        }
    }

    /// What `stop` finds: everything it passes is marked or below the key,
    /// and what it stops at is neither.
    pub proof fn lemma_stop(&self, s: int, key: K)
        requires
            0 <= s <= self.chain().len(),
        ensures
            s <= self.stop(s, key) <= self.chain().len(),
            forall|p: int|
                s <= p < self.stop(s, key) ==> self.marked_at(p) || lt(#[trigger] self.key_at(p), key),
            self.stop(s, key) < self.chain().len() ==> !self.marked_at(self.stop(s, key)) && !lt(
                self.key_at(self.stop(s, key)),
                key,
            ),
        decreases self.chain().len() - s,
    {
        if s < self.chain().len() && (self.marked_at(s) || lt(self.key_at(s), key)) {
            self.lemma_stop(s + 1, key);
        }
    }

    /// What `reach` finds: everything it passes is below the key, and what it
    /// stops at is not.
    pub proof fn lemma_reach(&self, s: int, key: K)
        requires
            0 <= s <= self.chain().len(),
        ensures
            s <= self.reach(s, key) <= self.chain().len(),
            forall|p: int| s <= p < self.reach(s, key) ==> lt(#[trigger] self.key_at(p), key),
            self.reach(s, key) < self.chain().len() ==> !lt(self.key_at(self.reach(s, key)), key),
        decreases self.chain().len() - s,
    {
        if s < self.chain().len() && lt(self.key_at(s), key) {
            self.lemma_reach(s + 1, key);
        }
    }

    /// What `anchor` finds: an unmarked position with only marked ones after
    /// it, up to `e`.
    pub proof fn lemma_anchor(&self, s: int, e: int)
        requires
            0 <= s <= e <= self.chain().len(),
        ensures
            s - 1 <= self.anchor(s, e) < e || (e == s && self.anchor(s, e) == s - 1),
            self.anchor(s, e) >= s ==> !self.marked_at(self.anchor(s, e)),
            forall|q: int| self.anchor(s, e) < q < e ==> #[trigger] self.marked_at(q),
        decreases e - s,
    {
        if e > s && self.marked_at(e - 1) {
            self.lemma_anchor(s, e - 1);
        }
    }

    /// How `kept` and `dropped` grow by one position.
    pub proof fn lemma_kept_step(&self, s: int, p: int)
        requires
            0 <= s <= p < self.chain().len(),
        ensures
            self.kept(s, p + 1) == (if self.marked_at(p) {
                self.kept(s, p)
            } else {
                self.kept(s, p).push(self.chain()[p])
            }),
            self.dropped(s, p + 1) == (if self.marked_at(p) {
                self.dropped(s, p).push(self.chain()[p])
            } else {
                self.dropped(s, p)
            }),
    {
        let c = self.chain();
        assert(c.subrange(s, p + 1) =~= c.subrange(s, p).push(c[p]));
        c.subrange(s, p).lemma_filter_push(c[p], |i: usize| !self.nodes()[i as int].next.tag);
        c.subrange(s, p).lemma_filter_push(c[p], |i: usize| self.nodes()[i as int].next.tag);
    }

    /// Over no positions, nothing is kept and nothing dropped.
    pub proof fn lemma_kept_none(&self, s: int)
        requires
            0 <= s <= self.chain().len(),
        ensures
            self.kept(s, s) == Seq::<usize>::empty(),
            self.dropped(s, s) == Seq::<usize>::empty(),
    {
        reveal(Seq::filter);
        assert(self.chain().subrange(s, s) =~= Seq::<usize>::empty());
    }

    /// If every node before position `e` is marked or below `key`, and the
    /// node at `e` is not below it, then `key` is in the set exactly when the
    /// node at `e` is an unmarked node with that key.
    pub proof fn lemma_probe(&self, e: int, key: K)
        requires
            self.shape(),
            total_order::<K>(),
            0 <= e <= self.chain().len(),
            forall|p: int| 0 <= p < e ==> self.marked_at(p) || lt(#[trigger] self.key_at(p), key),
            e < self.chain().len() ==> !lt(self.key_at(e), key),
        ensures
            self@.contains_key(key) <==> (e < self.chain().len() && self.key_at(e) == key
                && !self.marked_at(e)),
            self@.contains_key(key) ==> self@[key] == self.nodes()[self.chain()[e] as int].value,
    {
        let c = self.chain();
        if self.has(key) {
            self.lemma_holder(key);
            let i = self.holder(key);
            self.lemma_pos(i);
            let q = self.pos(Some(i));
            lemma_trichotomy(key, key);
            if q < e {
                assert(self.marked_at(q) || lt(self.key_at(q), key));
            } else if q > e {
                assert(lt(self.key_at(e), self.key_at(q)));
            }
        }
        if e < c.len() && self.key_at(e) == key && !self.marked_at(e) {
            self.lemma_pos_at(e);
            assert(self.holds(c[e]));
            assert(self.has(key));
            self.lemma_holder(key);
            self.lemma_one_per_key(self.holder(key), c[e]);
        }
    }

    /// The state after the node of the cursor `was` has been deleted from
    /// the list `self`: the node is marked and out of the set; it is out of
    /// the chain and retired exactly if the cursor's slot still led to it;
    /// and the cursor `cur` has moved on to its successor.
    pub open spec fn struck(&self, now: &Self, was: Cursor, cur: Cursor) -> bool {
        let i = was.curr->0;
        let node = self.nodes()[i as int];
        &&& cur.prev == was.prev
        &&& cur.curr == node.next.node
        &&& now.nodes().len() == self.nodes().len()
        &&& now.nodes()[i as int].next.tag
        &&& self.carried_by(now)
        &&& self.marks_kept(now, Some(i))
        &&& if self.link(was.prev) == Link::spec_to(i) {
            &&& now.chain() == self.chain().remove(self.pos(Some(i)))
            &&& now.retired() == self.retired().push(i)
            &&& self.collector().after_retiring(&now.collector(), seq![i])
        } else {
            &&& now.chain() == self.chain()
            &&& now.retired() == self.retired()
            &&& now.collector() == self.collector()
        }
        &&& self@.contains_key(node.key)
        &&& self@[node.key] == node.value
        &&& now@ == self@.remove(node.key)
    }

    /// A member's key is in the set, with the member's value.
    pub proof fn lemma_member(&self, i: usize)
        requires
            self.shape(),
            total_order::<K>(),
            self.holds(i),
        ensures
            self@.contains_key(self.nodes()[i as int].key),
            self@[self.nodes()[i as int].key] == self.nodes()[i as int].value,
    {
        let k = self.nodes()[i as int].key;
        assert(self.has(k));
        self.lemma_holder(k);
        self.lemma_one_per_key(self.holder(k), i);
    }

    /// A traversal that started from `start` on the list `self` is blocked
    /// at once: its node is marked, and its slot no longer leads to it.
    pub open spec fn blocks(&self, start: Cursor) -> bool {
        &&& start.curr matches Some(i)
        &&& i < self.nodes().len()
        &&& self.nodes()[i as int].next.tag
        &&& self.link(start.prev) != Link::spec_to(i)
    }

    /// A node that exists and has left the chain is marked, and no slot
    /// holds the plain link to it: a cursor that stands on it is blocked.
    pub proof fn lemma_off_chain(&self, g: Guard, cur: Cursor)
        requires
            self.wf(),
            self.covers(g, cur),
            !self.on_chain(cur.curr),
        ensures
            self.blocks(cur),
    {
        let i = cur.curr->0;
        self.lemma_guarded_is_live(g, i);
        assert(self.live(i) <==> self.chain().contains(i) || bagged(self.collector().bag(), i));
        assert(self.retired().contains(i));
        let p = self.retired().index_of(i);
        assert(self.nodes()[self.retired()[p] as int].next.tag);
        if let Slot::Next(j) = cur.prev {
            self.lemma_guarded_is_live(g, j);
        }
        if self.link(cur.prev) == Link::spec_to(i) {
            self.lemma_adjacent(cur.prev, Some(i));
        }
    }

    /// What a guard covers is a cursor of this list; it can start a
    /// traversal if its node is on the chain.
    pub proof fn lemma_covered(&self, g: Guard, cur: Cursor)
        requires
            self.wf(),
            self.covers(g, cur),
        ensures
            self.has_slot(cur.prev),
            self.on_chain(cur.curr) ==> self.anchors(cur),
    {
        if let Slot::Next(j) = cur.prev {
            self.lemma_guarded_is_live(g, j);
        }
    }

    /// The state of an unlinking traversal that started from `start` on the
    /// list `self` and has come to position `p`: `now` is `self` without the
    /// marked nodes it passed, and `cur` is where it stands.
    pub open spec fn swept(&self, now: &Self, start: Cursor, cur: Cursor, p: int) -> bool {
        let c = self.chain();
        let s = self.pos(start.curr);
        &&& self.shape()
        &&& now.shape()
        &&& 0 <= s <= p <= c.len()
        &&& self.has_slot(start.prev)
        &&& cur.curr == at(c, p)
        &&& cur.prev == self.slot_after(start, s, p)
        &&& now.has_slot(cur.prev)
        &&& now.chain() == c.take(s) + self.kept(s, p) + c.skip(p)
        &&& now.retired() == self.retired() + self.dropped(s, p)
        &&& self.collector().after_retiring(&now.collector(), self.dropped(s, p))
        &&& now.nodes().len() == self.nodes().len()
        &&& self.carried_by(now)
        &&& self.marks_kept(now, None)
        &&& forall|q: int|
            p <= q < c.len() ==> (#[trigger] now.nodes()[c[q] as int]) == self.nodes()[c[q] as int]
        &&& (p == s ==> now == self && cur == start)
        &&& (p > s ==> now.link(cur.prev) == Link::spec_plain(cur.curr))
        &&& (p > s ==> !self.blocks(start))
        &&& now@ == self@
    }

    /// A traversal that has not moved has swept nothing.
    pub proof fn lemma_swept_start(&self, start: Cursor)
        requires
            self.shape(),
            self.anchors(start),
        ensures
            self.swept(self, start, start, self.pos(start.curr)),
            start.curr == at(self.chain(), self.pos(start.curr)),
    {
        let c = self.chain();
        let s = self.pos(start.curr);
        if let Some(i) = start.curr {
            self.lemma_pos(i);
        }
        self.lemma_kept_none(s);
        assert(c.take(s) + Seq::<usize>::empty() + c.skip(s) =~= c);
        assert(self.retired() + Seq::<usize>::empty() =~= self.retired());
        self.collector().lemma_retired_none(&self.collector());
    }

    /// Passing an unmarked node moves the traversal on by one position.
    #[verifier::rlimit(50)]
    #[verifier::spinoff_prover]
    pub proof fn lemma_swept_pass(&self, now: &Self, start: Cursor, cur: Cursor, p: int)
        requires
            self.swept(now, start, cur, p),
            p < self.chain().len(),
            !self.marked_at(p),
        ensures
            self.swept(
                now,
                start,
                Cursor { prev: Slot::Next(self.chain()[p]), curr: at(self.chain(), p + 1) },
                p + 1,
            ),
    {
        let c = self.chain();
        let s = self.pos(start.curr);
        let next = Cursor { prev: Slot::Next(c[p]), curr: at(c, p + 1) };
        self.lemma_kept_step(s, p);
        assert(now.chain() == c.take(s) + self.kept(s, p + 1) + c.skip(p + 1)) by {
            assert(c.take(s) + self.kept(s, p).push(c[p]) + c.skip(p + 1) =~= c.take(s) + self.kept(s, p)
                + c.skip(p));
        }
        assert(self.dropped(s, p + 1) == self.dropped(s, p));
        assert(now.nodes()[c[p] as int] == self.nodes()[c[p] as int]);
        assert(self.nodes()[c[p] as int].next.node == at(c, p + 1));
        assert(self.anchor(s, p + 1) == p);
        assert(next.prev == self.slot_after(start, s, p + 1));
        assert(now.has_slot(next.prev));
        assert(now.link(next.prev) == Link::spec_plain(next.curr));
        assert(!self.blocks(start)) by {
            if p == s {
                self.lemma_pos_at(s);
            }
        }
        assert forall|q: int| p + 1 <= q < c.len() implies (#[trigger] now.nodes()[c[q] as int])
            == self.nodes()[c[q] as int] by {}
    }

    /// Unlinking the marked node at position `p` moves the traversal on by
    /// one position.
    #[verifier::rlimit(50)]
    #[verifier::spinoff_prover]
    pub proof fn lemma_swept_drop(&self, here: &Self, now: &Self, start: Cursor, cur: Cursor, p: int)
        requires
            total_order::<K>(),
            self.swept(here, start, cur, p),
            p < self.chain().len(),
            self.marked_at(p),
            here.link(cur.prev) == Link::spec_to(self.chain()[p]),
            now.chain() == self.chain().take(self.pos(start.curr)) + self.kept(self.pos(start.curr), p)
                + self.chain().skip(p + 1),
            now.retired() == here.retired().push(self.chain()[p]),
            here.collector().after_retiring(&now.collector(), seq![self.chain()[p]]),
            now.nodes().len() == here.nodes().len(),
            now.first() == (if cur.prev == Slot::Head {
                at(self.chain(), p + 1)
            } else {
                here.first()
            }),
            forall|j: usize|
                j < here.nodes().len() ==> {
                    &&& (#[trigger] now.nodes()[j as int]).key == here.nodes()[j as int].key
                    &&& now.nodes()[j as int].value == here.nodes()[j as int].value
                    &&& now.nodes()[j as int].next == (if cur.prev == Slot::Next(j) {
                        Link::spec_plain(at(self.chain(), p + 1))
                    } else {
                        here.nodes()[j as int].next
                    })
                },
        ensures
            self.swept(now, start, Cursor { prev: cur.prev, curr: at(self.chain(), p + 1) }, p + 1),
            here.chain().contains(self.chain()[p]),
            forall|j: usize|
                now.chain().contains(j) <==> (here.chain().contains(j) && j != self.chain()[p]),
    {
        let c = self.chain();
        let s = self.pos(start.curr);
        let i = c[p];
        let d = here.chain();
        let lo = s + self.kept(s, p).len();
        assert(d[lo] == i);
        assert(d.take(lo) =~= c.take(s) + self.kept(s, p));
        assert(d.skip(lo + 1) =~= c.skip(p + 1));
        assert(d.subrange(lo, lo + 1) =~= seq![i]);
        assert(here.nodes()[i as int] == self.nodes()[i as int]);
        assert(self.nodes()[c[p] as int].next.node == at(c, p + 1));
        assert(at(d, lo + 1) == at(c, p + 1)) by {
            if p + 1 < c.len() {
                assert(d[lo + 1] == c.skip(p)[1]);
            }
        }
        self.lemma_kept_step(s, p);
        assert(here.retired().push(i) =~= here.retired() + seq![i]);
        assert(now.retired() =~= self.retired() + self.dropped(s, p + 1));
        self.collector().lemma_retired_more(&here.collector(), &now.collector(), self.dropped(s, p), i);
        here.lemma_unlink(now, cur.prev, lo, lo + 1);
        here.lemma_view_same(now);
        self.lemma_pos_at(p);
        assert forall|j: usize| #[trigger] d.subrange(lo, lo + 1).contains(j) <==> j == i by {
            if j == i {
                assert(d.subrange(lo, lo + 1)[0] == i);
            }
        }
        assert forall|j: usize| j < self.nodes().len() implies {
            &&& (#[trigger] now.nodes()[j as int]).key == self.nodes()[j as int].key
            &&& now.nodes()[j as int].value == self.nodes()[j as int].value
            &&& (!now.chain().contains(j) ==> now.nodes()[j as int].next.node == self.nodes()[j as int].next.node)
            &&& now.nodes()[j as int].next.tag == self.nodes()[j as int].next.tag
        } by {
            assert(here.nodes()[j as int].key == self.nodes()[j as int].key);
            if !now.chain().contains(j) && d.contains(j) {
                let x = d.index_of(j);
                if x < lo {
                    assert(now.chain()[x] == j);
                } else if x > lo {
                    assert(now.chain()[x - 1] == j);
                }
            }
            if cur.prev == Slot::Next(j) {
                here.lemma_adjacent(cur.prev, Some(i));
                here.lemma_pos(j);
                assert(now.chain()[lo - 1] == j);
            }
        }
        assert forall|q: int| p + 1 <= q < c.len() implies now.nodes()[c[q] as int] == self.nodes()[c[q] as int] by {
            self.lemma_pos_at(q);
            assert(here.nodes()[c[q] as int] == self.nodes()[c[q] as int]);
            if cur.prev == Slot::Next(c[q]) {
                // the slot's node stands before the unlinked one
                here.lemma_adjacent(cur.prev, Some(i));
                here.lemma_pos(c[q]);
                let x = here.pos(Some(c[q]));
                assert(x == lo - 1);
                assert(d[x] == c[q]);
                assert(d[lo + (q - p)] == c.skip(p)[q - p]);
                assert(false);
            }
        }
        if p == s {
            assert(here == self);
            assert(cur == start);
        }
        self.lemma_anchor(s, p + 1);
    }

    /// The state after a traversal that started from `start` on the list
    /// `self`, stopped at position `e`, and cut out the run of marked nodes in
    /// front of `e` in one piece: `now` is `self` without that run, and `cur`
    /// is where the traversal stands.
    pub open spec fn cut(&self, now: &Self, start: Cursor, cur: Cursor, e: int) -> bool {
        let c = self.chain();
        let s = self.pos(start.curr);
        let a = self.anchor(s, e);
        &&& now.shape()
        &&& 0 <= s <= e <= c.len()
        &&& cur.curr == at(c, e)
        &&& cur.prev == self.slot_after(start, s, e)
        &&& now.has_slot(cur.prev)
        &&& now.chain() == c.take(a + 1) + c.skip(e)
        &&& now.retired() == self.retired() + c.subrange(a + 1, e)
        &&& self.collector().after_retiring(&now.collector(), c.subrange(a + 1, e))
        &&& now.nodes().len() == self.nodes().len()
        &&& self.carried_by(now)
        &&& self.marks_kept(now, None)
        &&& (a >= s || self.adjacent(start) ==> now.link(cur.prev) == Link::spec_plain(cur.curr))
        &&& now@ == self@
    }

    /// The run in front of `e` is empty: nothing is cut.
    pub proof fn lemma_cut_none(&self, start: Cursor, cur: Cursor, e: int)
        requires
            self.shape(),
            self.anchors(start),
            self.pos(start.curr) <= e <= self.chain().len(),
            cur.curr == at(self.chain(), e),
            cur.prev == self.slot_after(start, self.pos(start.curr), e),
            self.anchor(self.pos(start.curr), e) + 1 == e,
        ensures
            self.cut(self, start, cur, e),
    {
        let c = self.chain();
        let s = self.pos(start.curr);
        let a = self.anchor(s, e);
        if let Some(i) = start.curr {
            self.lemma_pos(i);
        }
        self.lemma_anchor(s, e);
        assert(c.take(e) + c.skip(e) =~= c);
        assert(c.subrange(e, e) =~= Seq::<usize>::empty());
        assert(self.retired() + Seq::<usize>::empty() =~= self.retired());
        self.collector().lemma_retired_none(&self.collector());
        if a >= s {
            assert(self.nodes()[c[a] as int].next.node == at(c, a + 1));
        }
    }

    /// The run in front of `e` was swung out with one compare-and-swap and
    /// its nodes retired.
    pub proof fn lemma_cut_some(&self, now: &Self, start: Cursor, cur: Cursor, e: int)
        requires
            self.shape(),
            total_order::<K>(),
            self.anchors(start),
            self.pos(start.curr) <= e <= self.chain().len(),
            cur.curr == at(self.chain(), e),
            cur.prev == self.slot_after(start, self.pos(start.curr), e),
            self.anchor(self.pos(start.curr), e) + 1 < e,
            self.link(cur.prev) == Link::spec_plain(
                at(self.chain(), self.anchor(self.pos(start.curr), e) + 1),
            ),
            now.chain() == self.chain().take(self.anchor(self.pos(start.curr), e) + 1)
                + self.chain().skip(e),
            now.retired() == self.retired() + self.chain().subrange(
                self.anchor(self.pos(start.curr), e) + 1,
                e,
            ),
            self.collector().after_retiring(
                &now.collector(),
                self.chain().subrange(self.anchor(self.pos(start.curr), e) + 1, e),
            ),
            now.nodes().len() == self.nodes().len(),
            now.first() == (if cur.prev == Slot::Head {
                at(self.chain(), e)
            } else {
                self.first()
            }),
            forall|j: usize|
                j < self.nodes().len() ==> {
                    &&& (#[trigger] now.nodes()[j as int]).key == self.nodes()[j as int].key
                    &&& now.nodes()[j as int].value == self.nodes()[j as int].value
                    &&& now.nodes()[j as int].next == (if cur.prev == Slot::Next(j) {
                        Link::spec_plain(at(self.chain(), e))
                    } else {
                        self.nodes()[j as int].next
                    })
                },
        ensures
            self.cut(now, start, cur, e),
    {
        let c = self.chain();
        let s = self.pos(start.curr);
        let a = self.anchor(s, e);
        if let Some(i) = start.curr {
            self.lemma_pos(i);
        }
        self.lemma_anchor(s, e);
        if a >= s {
            self.lemma_pos_at(a);
        }
        assert(self.has_slot(cur.prev));
        self.lemma_unlink(now, cur.prev, a + 1, e);
        self.lemma_view_same(now);
        if let Slot::Next(j) = cur.prev {
            assert(now.nodes()[j as int].key == self.nodes()[j as int].key);
        }
    }

    /// In the middle of an unlinking traversal, the node the cursor stands
    /// on and the last unmarked node it passed are on the chain.
    #[verifier::rlimit(50)]
    #[verifier::spinoff_prover]
    pub proof fn lemma_swept_on_chain(&self, now: &Self, start: Cursor, cur: Cursor, p: int)
        requires
            self.swept(now, start, cur, p),
        ensures
            forall|q: int| p <= q < self.chain().len() ==> now.chain().contains(#[trigger] self.chain()[q]),
            self.anchor(self.pos(start.curr), p) >= self.pos(start.curr) ==> now.chain().contains(
                self.chain()[self.anchor(self.pos(start.curr), p)],
            ),
    {
        let c = self.chain();
        let s = self.pos(start.curr);
        let d = now.chain();
        let k = self.kept(s, p);
        assert forall|q: int| p <= q < c.len() implies d.contains(#[trigger] c[q]) by {
            assert(d[s + k.len() + (q - p)] == c[q]);
        }
        self.lemma_anchor(s, p);
        let a = self.anchor(s, p);
        if a >= s {
            let f = |i: usize| !self.nodes()[i as int].next.tag;
            broadcast use vstd::seq_lib::group_filter_ensures;
            assert(c.subrange(s, p)[a - s] == c[a]);
            assert(f(c.subrange(s, p)[a - s]));
            assert(k.contains(c[a]));
            let x = k.index_of(c[a]);
            assert(d[s + x] == c[a]);
        }
    }

    /// What is on the chain after the positions `[lo, hi)` have been taken
    /// out of it.
    pub proof fn lemma_unlink_members(&self, b: &Self, lo: int, hi: int)
        requires
            self.chain().no_duplicates(),
            0 <= lo <= hi <= self.chain().len(),
            b.chain() == self.chain().take(lo) + self.chain().skip(hi),
        ensures
            forall|j: usize| self.chain().subrange(lo, hi).contains(j) ==> self.chain().contains(j),
            forall|j: usize|
                b.chain().contains(j) <==> (self.chain().contains(j) && !self.chain().subrange(lo, hi).contains(
                    j,
                )),
    {
        let c = self.chain();
        let d = b.chain();
        let gap = hi - lo;
        let run = c.subrange(lo, hi);
        assert forall|j: usize| run.contains(j) implies c.contains(j) by {
            let x = run.index_of(j);
            assert(c[lo + x] == j);
        }
        assert forall|j: usize| d.contains(j) <==> (c.contains(j) && !run.contains(j)) by {
            if d.contains(j) {
                let q = d.index_of(j);
                let o = if q < lo {
                    q
                } else {
                    q + gap
                };
                assert(c[o] == j);
                if run.contains(j) {
                    let x = run.index_of(j);
                    assert(c[lo + x] == j);
                }
            }
            if c.contains(j) && !run.contains(j) {
                let q = c.index_of(j);
                if lo <= q < hi {
                    assert(run[q - lo] == j);
                }
                assert(d[if q < lo {
                    q
                } else {
                    q - gap
                }] == j);
            }
        }
    }

    /// After a run has been cut out, the nodes on either side of it are on
    /// the chain.
    pub proof fn lemma_cut_on_chain(&self, d: Seq<usize>, a: int, e: int)
        requires
            -1 <= a < e <= self.chain().len(),
            d == self.chain().take(a + 1) + self.chain().skip(e),
        ensures
            a >= 0 ==> d.contains(self.chain()[a]),
            e < self.chain().len() ==> d.contains(self.chain()[e]),
    {
        let c = self.chain();
        if a >= 0 {
            assert(d[a] == c[a]);
        }
        if e < c.len() {
            assert(d[a + 1] == c[e]);
        }
    }

    /// A list that gained the new node `n` at position `p` of the chain, and
    /// is otherwise stored as before, is well formed, and whoever guarded a
    /// node still does.
    pub proof fn lemma_chain_gain(&self, b: &Self, p: int, n: usize)
        requires
            self.wf(),
            b.shape(),
            b.synced(),
            0 <= p <= self.chain().len(),
            n == self.nodes().len(),
            b.nodes().len() == n + 1,
            b.chain() == self.chain().insert(p, n),
            b.retired() == self.retired(),
            b.collector() == self.collector(),
            b.live(n),
            forall|i: usize| i < n ==> b.live(i) == self.live(i),
        ensures
            b.wf(),
            forall|h: Guard, i: usize| self.guards(h, i) ==> b.guards(h, i),
            forall|i: usize| b.chain().contains(i) <==> (self.chain().contains(i) || i == n),
    {
        let c = self.chain();
        let d = b.chain();
        assert(d[p] == n);
        assert forall|i: usize| d.contains(i) <==> (c.contains(i) || i == n) by {
            if c.contains(i) {
                let q = c.index_of(i);
                assert(d[if q < p {
                    q
                } else {
                    q + 1
                }] == i);
            }
            if d.contains(i) && i != n {
                let q = d.index_of(i);
                assert(c[if q < p {
                    q
                } else {
                    q - 1
                }] == i);
            }
        }
        assert forall|i: usize| i < b.nodes().len() implies (#[trigger] b.live(i) <==> d.contains(i) || bagged(
            b.collector().bag(),
            i,
        )) by {
            if i < n {
                assert(self.live(i) <==> c.contains(i) || bagged(self.collector().bag(), i));
            }
        }
    }

    /// Marking a chain node keeps the shape of the list and takes exactly
    /// that node out of the members.
    pub proof fn lemma_mark(&self, b: &Self, i: usize)
        requires
            self.shape(),
            i < self.nodes().len(),
            !self.nodes()[i as int].next.tag,
            b.chain() == self.chain(),
            b.retired() == self.retired(),
            b.first() == self.first(),
            b.nodes().len() == self.nodes().len(),
            forall|j: int| 0 <= j < self.nodes().len() && j != i ==> #[trigger] b.nodes()[j] == self.nodes()[j],
            b.nodes()[i as int].key == self.nodes()[i as int].key,
            b.nodes()[i as int].value == self.nodes()[i as int].value,
            b.nodes()[i as int].next == (Link { node: self.nodes()[i as int].next.node, tag: true }),
        ensures
            b.shape(),
            self.holds(i),
            !b.holds(i),
            forall|j: usize| self.holds(j) <==> (b.holds(j) || j == i),
            forall|j: usize|
                b.holds(j) ==> b.nodes()[j as int].key == self.nodes()[j as int].key
                    && b.nodes()[j as int].value == self.nodes()[j as int].value,
            self.carried_by(b),
            self.marks_kept(b, Some(i)),
            forall|s: Slot| self.has_slot(s) && s != Slot::Next(i) ==> b.link(s) == self.link(s),
    {
        let c = self.chain();
        if !c.contains(i) {
            let p = self.retired().index_of(i);
            assert(self.nodes()[self.retired()[p] as int].next.tag);
        }
        assert forall|p: int| 0 <= p < c.len() implies (#[trigger] b.nodes()[c[p] as int]).next.node == at(
            c,
            p + 1,
        ) by {
            assert(self.nodes()[c[p] as int].next.node == at(c, p + 1));
        }
        assert forall|p: int, q: int| 0 <= p < q < c.len() implies lt(
            #[trigger] b.key_at(p),
            #[trigger] b.key_at(q),
        ) by {
            assert(lt(self.key_at(p), self.key_at(q)));
        }
        assert forall|p: int| 0 <= p < b.retired().len() implies (
        #[trigger] b.nodes()[b.retired()[p] as int]).next.tag by {
            assert(self.nodes()[self.retired()[p] as int].next.tag);
        }
        assert forall|j: usize| self.holds(j) <==> (b.holds(j) || j == i) by {
            if j < self.nodes().len() && j != i {
                assert(b.nodes()[j as int] == self.nodes()[j as int]);
            }
        }
        assert forall|j: usize| b.holds(j) implies b.nodes()[j as int].key == self.nodes()[j as int].key
            && b.nodes()[j as int].value == self.nodes()[j as int].value by {
            if j != i {
                assert(b.nodes()[j as int] == self.nodes()[j as int]);
            }
        }
        assert forall|s: Slot| self.has_slot(s) && s != Slot::Next(i) implies b.link(s) == self.link(
            s,
        ) by {
            if let Slot::Next(j) = s {
                assert(b.nodes()[j as int] == self.nodes()[j as int]);
            }
        }
    }

    /// Swinging the slot that leads to position `lo` over to position `hi`,
    /// where everything in between is marked, and retiring what was in
    /// between, keeps the shape of the list and its members as they were.
    pub proof fn lemma_unlink(&self, b: &Self, slot: Slot, lo: int, hi: int)
        requires
            self.shape(),
            0 <= lo < hi <= self.chain().len(),
            self.has_slot(slot),
            self.link(slot) == Link::spec_to(self.chain()[lo]),
            forall|p: int| lo <= p < hi ==> self.marked_at(p),
            b.chain() == self.chain().take(lo) + self.chain().skip(hi),
            b.retired() == self.retired() + self.chain().subrange(lo, hi),
            b.nodes().len() == self.nodes().len(),
            b.first() == (if slot == Slot::Head {
                at(self.chain(), hi)
            } else {
                self.first()
            }),
            forall|j: usize|
                j < self.nodes().len() ==> {
                    &&& (#[trigger] b.nodes()[j as int]).key == self.nodes()[j as int].key
                    &&& b.nodes()[j as int].value == self.nodes()[j as int].value
                    &&& b.nodes()[j as int].next == (if slot == Slot::Next(j) {
                        Link::spec_plain(at(self.chain(), hi))
                    } else {
                        self.nodes()[j as int].next
                    })
                },
        ensures
            b.shape(),
            forall|j: usize| self.holds(j) <==> b.holds(j),
            forall|j: usize|
                b.holds(j) ==> b.nodes()[j as int].key == self.nodes()[j as int].key
                    && b.nodes()[j as int].value == self.nodes()[j as int].value,
            self.carried_by(b),
            self.marks_kept(b, None),
            forall|j: usize| self.chain().subrange(lo, hi).contains(j) ==> self.chain().contains(j),
            forall|j: usize|
                b.chain().contains(j) <==> (self.chain().contains(j) && !self.chain().subrange(lo, hi).contains(
                    j,
                )),
    {
        let c = self.chain();
        let d = b.chain();
        let r0 = self.retired();
        let r1 = b.retired();
        let gap = hi - lo;
        self.lemma_pos_at(lo);
        self.lemma_adjacent(slot, Some(c[lo]));
        assert(d.len() == c.len() - gap);
        assert forall|q: int| 0 <= q < d.len() implies #[trigger] d[q] == c[if q < lo {
            q
        } else {
            q + gap
        }] by {}
        assert forall|j: usize| c.contains(j) implies (d.contains(j) != r1.contains(j)) && (r1.contains(j)
            ==> !r0.contains(j)) by {
            let q = c.index_of(j);
            if q < lo {
                assert(d[q] == j);
            } else if q >= hi {
                assert(d[q - gap] == j);
            } else {
                assert(c.subrange(lo, hi)[q - lo] == j);
                assert(r1[r0.len() + q - lo] == j);
            }
            if d.contains(j) && r1.contains(j) {
                let x = d.index_of(j);
                let y = r1.index_of(j);
                assert(y >= r0.len()) by {
                    if y < r0.len() {
                        assert(r0[y] == j);
                    }
                }
                assert(c[lo + y - r0.len()] == j);
            }
        }
        assert forall|j: usize| j < b.nodes().len() implies (#[trigger] d.contains(j)) != r1.contains(j) by {
            if c.contains(j) {
            } else {
                assert(r0.contains(j));
                let y = r0.index_of(j);
                assert(r1[y] == j);
                if d.contains(j) {
                    let x = d.index_of(j);
                    assert(c.contains(j));
                }
            }
        }
        assert(d.no_duplicates());
        assert(r1.no_duplicates()) by {
            assert forall|x: int, y: int| 0 <= x < r1.len() && 0 <= y < r1.len() && x != y implies r1[x]
                != r1[y] by {
                if x < r0.len() && y < r0.len() {
                } else if x >= r0.len() && y >= r0.len() {
                    assert(r1[x] == c[lo + x - r0.len()]);
                    assert(r1[y] == c[lo + y - r0.len()]);
                } else {
                    let (old_one, new_one) = if x < r0.len() {
                        (x, y)
                    } else {
                        (y, x)
                    };
                    assert(r1[new_one] == c[lo + new_one - r0.len()]);
                    assert(c.contains(r1[new_one]));
                    assert(r0.contains(r0[old_one]));
                }
            }
        }
        assert forall|q: int| 0 <= q < r1.len() implies #[trigger] r1[q] < b.nodes().len() && (
        b.nodes()[r1[q] as int]).next.tag by {
            if q < r0.len() {
                assert(r1[q] == r0[q]);
                assert(self.nodes()[r0[q] as int].next.tag);
                // a retired node is not the one whose link was swung
                assert(r0.contains(r0[q]));
            } else {
                let o = lo + q - r0.len();
                assert(r1[q] == c[o]);
                assert(self.marked_at(o));
                self.lemma_pos_at(o);
            }
        }
        assert forall|q: int| 0 <= q < d.len() implies (#[trigger] b.nodes()[d[q] as int]).next.node == at(
            d,
            q + 1,
        ) by {
            let o = if q < lo {
                q
            } else {
                q + gap
            };
            assert(self.nodes()[c[o] as int].next.node == at(c, o + 1));
            self.lemma_pos_at(o);
            if let Slot::Next(j) = slot {
                self.lemma_pos(j);
            }
        }
        assert forall|q1: int, q2: int| 0 <= q1 < q2 < d.len() implies lt(
            #[trigger] b.key_at(q1),
            #[trigger] b.key_at(q2),
        ) by {
            let o1 = if q1 < lo {
                q1
            } else {
                q1 + gap
            };
            let o2 = if q2 < lo {
                q2
            } else {
                q2 + gap
            };
            assert(lt(self.key_at(o1), self.key_at(o2)));
        }
        assert(b.first() == at(d, 0)) by {
            if slot == Slot::Head {
                assert(lo == 0);
            } else {
                assert(lo > 0);
            }
        }
        assert(b.shape());
        assert forall|j: usize| self.holds(j) <==> b.holds(j) by {
            if j < self.nodes().len() {
                if c.contains(j) {
                    let q = c.index_of(j);
                    if lo <= q < hi {
                        assert(self.marked_at(q));
                    }
                }
                if slot == Slot::Next(j) {
                    self.lemma_pos(j);
                }
            }
        }
        assert forall|j: usize| j < self.nodes().len() implies {
            &&& (#[trigger] b.nodes()[j as int]).key == self.nodes()[j as int].key
            &&& b.nodes()[j as int].value == self.nodes()[j as int].value
            &&& (!b.chain().contains(j) ==> b.nodes()[j as int].next.node == self.nodes()[j as int].next.node)
        } by {
            if slot == Slot::Next(j) {
                self.lemma_pos(j);
                assert(d[lo - 1] == j);
            }
        }
            let run = c.subrange(lo, hi);
        assert forall|j: usize| run.contains(j) implies c.contains(j) by {
            let x = run.index_of(j);
            assert(c[lo + x] == j);
        }
        assert forall|j: usize| d.contains(j) <==> (c.contains(j) && !run.contains(j)) by {
            if d.contains(j) {
                let q = d.index_of(j);
                let o = if q < lo {
                    q
                } else {
                    q + gap
                };
                assert(c[o] == j);
                if run.contains(j) {
                    let x = run.index_of(j);
                    assert(c[lo + x] == j);
                }
            }
            if c.contains(j) && !run.contains(j) {
                let q = c.index_of(j);
                if lo <= q < hi {
                    assert(run[q - lo] == j);
                }
                assert(d[if q < lo {
                    q
                } else {
                    q - gap
                }] == j);
            }
        }
    }

    /// Linking a new node between a slot and the node it leads to keeps the
    /// shape of the list and adds the new node to the members.
    pub proof fn lemma_link_in(&self, b: &Self, slot: Slot, curr: Option<usize>, n: usize)
        requires
            self.shape(),
            total_order::<K>(),
            self.has_slot(slot),
            self.link(slot) == Link::spec_plain(curr),
            n == self.nodes().len(),
            b.nodes().len() == n + 1,
            b.chain() == self.chain().insert(self.pos(curr), n),
            b.retired() == self.retired(),
            b.first() == (if slot == Slot::Head {
                Some(n)
            } else {
                self.first()
            }),
            b.nodes()[n as int].next == Link::spec_plain(curr),
            self.brackets(Cursor { prev: slot, curr }, b.nodes()[n as int].key),
            forall|j: usize|
                j < n ==> {
                    &&& (#[trigger] b.nodes()[j as int]).key == self.nodes()[j as int].key
                    &&& b.nodes()[j as int].value == self.nodes()[j as int].value
                    &&& b.nodes()[j as int].next == (if slot == Slot::Next(j) {
                        Link::spec_to(n)
                    } else {
                        self.nodes()[j as int].next
                    })
                },
        ensures
            b.shape(),
            self.carried_by(b),
            self.marks_kept(b, None),
            0 <= self.pos(curr) <= self.chain().len(),
            !self@.contains_key(b.nodes()[n as int].key),
            b@ == self@.insert(b.nodes()[n as int].key, b.nodes()[n as int].value),
    {
        let c = self.chain();
        let d = b.chain();
        let key = b.nodes()[n as int].key;
        self.lemma_adjacent(slot, curr);
        let p = self.pos(curr);
        if let Some(j) = curr {
            self.lemma_pos(j);
        }
        assert(0 <= p <= c.len());
        assert(d.len() == c.len() + 1);
        assert(d[p] == n);
        assert forall|q: int| 0 <= q < d.len() && q != p implies #[trigger] d[q] == c[if q < p {
            q
        } else {
            q - 1
        }] by {}
        assert(!c.contains(n)) by {
            if c.contains(n) {
                let q = c.index_of(n);
                assert(c[q] < self.nodes().len());
            }
        }
        assert forall|i: usize| d.contains(i) <==> (c.contains(i) || i == n) by {
            if c.contains(i) {
                let q = c.index_of(i);
                assert(d[if q < p {
                    q
                } else {
                    q + 1
                }] == i);
            }
        }
        assert(d.no_duplicates());
        assert(!self.retired().contains(n)) by {
            if self.retired().contains(n) {
                let q = self.retired().index_of(n);
                assert(self.retired()[q] < self.nodes().len());
            }
        }
        assert(b.first() == at(d, 0)) by {
            if slot == Slot::Head {
                assert(p == 0);
            } else {
                assert(p > 0);
            }
        }
        assert forall|q: int| 0 <= q < d.len() implies (#[trigger] b.nodes()[d[q] as int]).next.node == at(
            d,
            q + 1,
        ) by {
            if q != p {
                let o = if q < p {
                    q
                } else {
                    q - 1
                };
                assert(self.nodes()[c[o] as int].next.node == at(c, o + 1));
                self.lemma_pos_at(o);
                if let Slot::Next(j) = slot {
                    self.lemma_pos(j);
                }
            }
        }
        assert forall|q1: int, q2: int| 0 <= q1 < q2 < d.len() implies lt(
            #[trigger] b.key_at(q1),
            #[trigger] b.key_at(q2),
        ) by {
            let o1 = if q1 < p {
                q1
            } else {
                q1 - 1
            };
            let o2 = if q2 < p {
                q2
            } else {
                q2 - 1
            };
            if q1 != p && q2 != p {
                assert(lt(self.key_at(o1), self.key_at(o2)));
            } else if q1 == p {
                assert(lt(key, self.key_at(p)));
                if o2 > p {
                    assert(lt(self.key_at(p), self.key_at(o2)));
                    lemma_transitive(key, self.key_at(p), self.key_at(o2));
                }
            } else {
                self.lemma_pos_at(p - 1);
                assert(lt(self.key_at(p - 1), key));
                if o1 < p - 1 {
                    assert(lt(self.key_at(o1), self.key_at(p - 1)));
                    lemma_transitive(self.key_at(o1), self.key_at(p - 1), key);
                }
            }
        }
        assert forall|q: int| 0 <= q < b.retired().len() implies (
        #[trigger] b.nodes()[b.retired()[q] as int]).next.tag by {
            assert(self.nodes()[self.retired()[q] as int].next.tag);
            assert(self.retired().contains(self.retired()[q]));
            if let Slot::Next(j) = slot {
            }
        }
        assert(b.shape());
        assert forall|i: usize| b.holds(i) <==> (self.holds(i) || i == n) by {
            if i < n {
                assert(b.nodes()[i as int].key == self.nodes()[i as int].key);
            }
        }
        assert forall|i: usize| self.holds(i) implies b.nodes()[i as int].key == self.nodes()[i as int].key
            && b.nodes()[i as int].value == self.nodes()[i as int].value by {}
        self.lemma_view_gain(b, n);
        assert forall|j: usize| j < self.nodes().len() implies {
            &&& (#[trigger] b.nodes()[j as int]).key == self.nodes()[j as int].key
            &&& b.nodes()[j as int].value == self.nodes()[j as int].value
            &&& (!b.chain().contains(j) ==> b.nodes()[j as int].next.node == self.nodes()[j as int].next.node)
        } by {
            if slot == Slot::Next(j) {
                self.lemma_pos(j);
            }
        }
    }

    /// Two lists of the right shape with the same members, keys and values
    /// stand for the same set.
    pub proof fn lemma_view_same(&self, b: &Self)
        requires
            self.shape(),
            b.shape(),
            total_order::<K>(),
            forall|i: usize| self.holds(i) <==> b.holds(i),
            forall|i: usize|
                self.holds(i) ==> b.nodes()[i as int].key == self.nodes()[i as int].key
                    && b.nodes()[i as int].value == self.nodes()[i as int].value,
        ensures
            b@ == self@,
    {
        assert forall|k: K| self.has(k) <==> b.has(k) by {
            if self.has(k) {
                self.lemma_holder(k);
                let i = self.holder(k);
                assert(b.holds(i) && b.nodes()[i as int].key == k);
            }
            if b.has(k) {
                b.lemma_holder(k);
                let i = b.holder(k);
                assert(self.holds(i) && self.nodes()[i as int].key == k);
            }
        }
        assert forall|k: K| self.has(k) implies b.nodes()[b.holder(k) as int].value
            == self.nodes()[self.holder(k) as int].value by {
            self.lemma_holder(k);
            let i = self.holder(k);
            b.lemma_holder(k);
            let j = b.holder(k);
            assert(self.holds(j));
            self.lemma_one_per_key(i, j);
        }
        assert(b@ =~= self@);
    }

    /// A list that gained the one member `n` stands for the set with `n`'s
    /// key and value put in.
    pub proof fn lemma_view_gain(&self, b: &Self, n: usize)
        requires
            self.shape(),
            b.shape(),
            total_order::<K>(),
            forall|i: usize| b.holds(i) <==> (self.holds(i) || i == n),
            !self.holds(n),
            forall|i: usize|
                self.holds(i) ==> b.nodes()[i as int].key == self.nodes()[i as int].key
                    && b.nodes()[i as int].value == self.nodes()[i as int].value,
        ensures
            !self@.contains_key(b.nodes()[n as int].key),
            b@ == self@.insert(b.nodes()[n as int].key, b.nodes()[n as int].value),
    {
        let kn = b.nodes()[n as int].key;
        assert(b.holds(n));
        if self.has(kn) {
            self.lemma_holder(kn);
            let i = self.holder(kn);
            assert(b.holds(i));
            b.lemma_one_per_key(i, n);
        }
        assert forall|k: K| b.has(k) <==> (self.has(k) || k == kn) by {
            if b.has(k) {
                b.lemma_holder(k);
                let i = b.holder(k);
                if i != n {
                    assert(self.holds(i) && self.nodes()[i as int].key == k);
                }
            }
            if self.has(k) {
                self.lemma_holder(k);
                let i = self.holder(k);
                assert(b.holds(i) && b.nodes()[i as int].key == k);
            }
        }
        assert forall|k: K| b.has(k) implies b.nodes()[b.holder(k) as int].value == (if k == kn {
            b.nodes()[n as int].value
        } else {
            self.nodes()[self.holder(k) as int].value
        }) by {
            b.lemma_holder(k);
            let j = b.holder(k);
            if k == kn {
                b.lemma_one_per_key(j, n);
            } else {
                self.lemma_holder(k);
                let i = self.holder(k);
                assert(self.holds(j));
                self.lemma_one_per_key(i, j);
            }
        }
        assert(b@ =~= self@.insert(kn, b.nodes()[n as int].value));
    }

    /// A list that lost the one member `n` stands for the set with `n`'s key
    /// taken out.
    pub proof fn lemma_view_loss(&self, b: &Self, n: usize)
        requires
            self.shape(),
            b.shape(),
            total_order::<K>(),
            forall|i: usize| self.holds(i) <==> (b.holds(i) || i == n),
            !b.holds(n),
            forall|i: usize|
                b.holds(i) ==> b.nodes()[i as int].key == self.nodes()[i as int].key
                    && b.nodes()[i as int].value == self.nodes()[i as int].value,
        ensures
            self@.contains_key(self.nodes()[n as int].key),
            self@[self.nodes()[n as int].key] == self.nodes()[n as int].value,
            b@ == self@.remove(self.nodes()[n as int].key),
    {
        let kn = self.nodes()[n as int].key;
        assert(self.holds(n));
        self.lemma_holder(kn);
        self.lemma_one_per_key(self.holder(kn), n);
        assert forall|k: K| b.has(k) <==> (self.has(k) && k != kn) by {
            if b.has(k) {
                b.lemma_holder(k);
                let i = b.holder(k);
                assert(self.holds(i) && self.nodes()[i as int].key == k);
                if k == kn {
                    self.lemma_one_per_key(i, n);
                }
            }
            if self.has(k) && k != kn {
                self.lemma_holder(k);
                let i = self.holder(k);
                assert(b.holds(i) && b.nodes()[i as int].key == k);
            }
        }
        assert forall|k: K| b.has(k) implies b.nodes()[b.holder(k) as int].value
            == self.nodes()[self.holder(k) as int].value by {
            self.lemma_holder(k);
            let i = self.holder(k);
            b.lemma_holder(k);
            let j = b.holder(k);
            assert(self.holds(j));
            self.lemma_one_per_key(i, j);
        }
        assert(b@ =~= self@.remove(kn));
    }
}

impl<K: Ord, V> List<K, V> {
    /// The cursor at the front of the list.
    pub open spec fn front_cursor(&self) -> Cursor {
        Cursor { prev: Slot::Head, curr: self.first() }
    }

    /// Where an unlinking traversal from the front for `key` comes to stand.
    pub open spec fn landing(&self, key: K) -> Cursor {
        Cursor {
            prev: self.slot_after(self.front_cursor(), 0, self.stop(0, key)),
            curr: at(self.chain(), self.stop(0, key)),
        }
    }

    /// `now` is this list after a traversal from the front for `key` that
    /// cut out the run of marked nodes in front of where it stopped.
    pub open spec fn cut_for(&self, now: &Self, key: K) -> bool {
        self.cut(now, self.front_cursor(), self.landing(key), self.stop(0, key))
    }

    /// `now` is this list after a traversal from the front for `key` that
    /// unlinked every marked node it met.
    pub open spec fn swept_for(&self, now: &Self, key: K) -> bool {
        self.swept(now, self.front_cursor(), self.landing(key), self.stop(0, key))
    }

    /// `now` is this list after the traversal `strategy` from the front for
    /// `key`.
    spec fn sought(&self, strategy: Strategy, now: &Self, key: K) -> bool {
        match strategy {
            Strategy::Harris => self.cut_for(now, key),
            Strategy::HarrisMichael => self.swept_for(now, key),
        }
    }

    /// `now` is this list after a node with `key` and `value` has been
    /// linked in front of the node of `cur`, as node `n`.
    pub open spec fn linked(&self, now: &Self, cur: Cursor, n: usize, key: K, value: V) -> bool {
        &&& n == self.nodes().len()
        &&& now.nodes().len() == n + 1
        &&& now.nodes()[n as int] == (Node { key, value, next: Link::spec_plain(cur.curr) })
        &&& now.chain() == self.chain().insert(self.pos(cur.curr), n)
        &&& now.retired() == self.retired()
        &&& now.collector() == self.collector()
        &&& self.carried_by(now)
        &&& self.marks_kept(now, None)
        &&& !self@.contains_key(key)
        &&& now@ == self@.insert(key, value)
    }

    /// Where the cursor `was` stands after its node has been deleted: on the
    /// successor.
    pub open spec fn passed(&self, was: Cursor) -> Cursor {
        Cursor { prev: was.prev, curr: self.nodes()[was.curr->0 as int].next.node }
    }

    /// What `find` promises of the cursor it returns for `key`: it stands on
    /// the member with that key if there is one, and otherwise between the
    /// keys below and above; its slot leads to its node.
    pub open spec fn settled(&self, cur: Cursor, key: K, found: bool) -> bool {
        &&& self.adjacent(cur)
        &&& self.anchors(cur)
        &&& found ==> (cur.curr matches Some(i) && self.holds(i) && self.nodes()[i as int].key == key)
        &&& !found ==> self.brackets(cur, key)
    }

    /// Runs the traversal `strategy` from the head. A cursor fresh from the
    /// head is never turned back.
    fn find(&mut self, key: &K, strategy: Strategy, guard: &Guard) -> (r: (bool, Cursor))
        requires
            old(self).wf(),
            total_order::<K>(),
            old(self).collector().holds(*guard),
        ensures
            final(self).wf(),
            final(self)@ == old(self)@,
            r.0 == old(self)@.contains_key(*key),
            r.1 == old(self).landing(*key),
            old(self).sought(strategy, final(self), *key),
            final(self).settled(r.1, *key, r.0),
            final(self).covers(*guard, r.1),
            forall|h: Guard| old(self).collector().holds(h) ==> final(self).collector().holds(h),
            forall|h: Guard, i: usize| old(self).guards(h, i) ==> final(self).guards(h, i),
    {
        let ghost before = *self;
        let mut cursor = self.head(guard);
        proof {
            before.lemma_stop(0, *key);
            before.lemma_anchor(0, before.stop(0, *key));
        }
        let found = match strategy {
            Strategy::Harris => cursor.find_h(self, key, guard),
            Strategy::HarrisMichael => cursor.find_hm(self, key, guard),
        };
        proof {
            before.lemma_settled(self, cursor, *key);
        }
        (found.unwrap(), cursor)
    }

    /// A cursor that an unlinking traversal from the head left at `stop` is
    /// settled.
    proof fn lemma_settled(&self, now: &Self, cur: Cursor, key: K)
        requires
            self.shape(),
            now.shape(),
            total_order::<K>(),
            now@ == self@,
            now.nodes().len() == self.nodes().len(),
            self.carried_by(now),
            self.marks_kept(now, None),
            cur.curr == at(self.chain(), self.stop(0, key)),
            cur.prev == self.slot_after(Cursor { prev: Slot::Head, curr: self.first() }, 0, self.stop(0, key)),
            now.has_slot(cur.prev),
            now.link(cur.prev) == Link::spec_plain(cur.curr),
        ensures
            now.settled(cur, key, self.stop(0, key) < self.chain().len() && self.key_at(self.stop(0, key)) == key),
    {
        let c = self.chain();
        let e = self.stop(0, key);
        let a = self.anchor(0, e);
        self.lemma_stop(0, key);
        self.lemma_anchor(0, e);
        now.lemma_adjacent(cur.prev, cur.curr);
        if e < c.len() {
            self.lemma_pos_at(e);
            lemma_trichotomy(self.key_at(e), key);
            assert(now.nodes()[c[e] as int].key == self.nodes()[c[e] as int].key);
        }
        if a >= 0 {
            self.lemma_pos_at(a);
            assert(self.marked_at(a) || lt(self.key_at(a), key));
            assert(now.nodes()[c[a] as int].key == self.nodes()[c[a] as int].key);
        }
    }

    /// The value stored under `key`, found with the traversal `strategy`.
    fn lookup(&mut self, key: &K, strategy: Strategy, guard: &Guard) -> (r: Option<&V>)
        requires
            old(self).wf(),
            total_order::<K>(),
            old(self).collector().holds(*guard),
        ensures
            final(self).wf(),
            final(self)@ == old(self)@,
            read(r) == looked_up(old(self)@, *key),
            old(self).sought(strategy, final(self), *key),
            forall|h: Guard| old(self).collector().holds(h) ==> final(self).collector().holds(h),
            forall|h: Guard, i: usize| old(self).guards(h, i) ==> final(self).guards(h, i),
    {
        let (found, cursor) = self.find(key, strategy, guard);
        if found {
            proof {
                self.lemma_member(cursor.curr->0);
            }
            Some(cursor.lookup(self, guard))
        } else {
            None
        }
    }

    /// Puts `key` with `value` into the set unless the key is there.
    fn insert(&mut self, key: K, value: V, strategy: Strategy, guard: &Guard) -> (ok: bool)
        requires
            old(self).wf(),
            total_order::<K>(),
            old(self).collector().holds(*guard),
        ensures
            final(self).wf(),
            (final(self)@, ok) == inserted(old(self)@, key, value),
            if ok {
                exists|mid: Self, n: usize|
                    old(self).sought(strategy, &mid, key) && #[trigger] mid.linked(
                        final(self),
                        old(self).landing(key),
                        n,
                        key,
                        value,
                    )
            } else {
                old(self).sought(strategy, final(self), key)
            },
            forall|h: Guard| old(self).collector().holds(h) ==> final(self).collector().holds(h),
            forall|h: Guard, i: usize| old(self).guards(h, i) ==> final(self).guards(h, i),
    {
        let (found, mut cursor) = self.find(&key, strategy, guard);
        if found {
            return false;
        }
        let ghost mid = *self;
        let went = cursor.insert(self, Node::new(key, value), guard);
        proof {
            assert(went is Ok);
            assert(mid.linked(self, old(self).landing(key), cursor.curr->0, key, value));
        }
        went.is_ok()
    }

    /// Takes `key` out of the set.
    fn delete(&mut self, key: &K, strategy: Strategy, guard: &Guard) -> (r: Option<&V>)
        requires
            old(self).wf(),
            total_order::<K>(),
            old(self).collector().holds(*guard),
        ensures
            final(self).wf(),
            (final(self)@, read(r)) == deleted(old(self)@, *key),
            if r is Some {
                exists|mid: Self|
                    old(self).sought(strategy, &mid, *key) && #[trigger] mid.struck(
                        final(self),
                        old(self).landing(*key),
                        mid.passed(old(self).landing(*key)),
                    )
            } else {
                old(self).sought(strategy, final(self), *key)
            },
            forall|h: Guard| old(self).collector().holds(h) ==> final(self).collector().holds(h),
            forall|h: Guard, i: usize| old(self).guards(h, i) ==> final(self).guards(h, i),
    {
        let (found, mut cursor) = self.find(key, strategy, guard);
        if !found {
            proof {
                assert(old(self)@.remove(*key) =~= old(self)@);
            }
            return None;
        }
        let ghost mid = *self;
        let ghost was = cursor;
        match cursor.strike(self, guard).ok() {
            Some(i) => {
                proof {
                    assert(mid.carried_by(self));
                    self.lemma_guarded_is_live(*guard, i);
                    assert(cursor == mid.passed(was));
                    assert(mid.struck(self, old(self).landing(*key), mid.passed(old(self).landing(*key))));
                    assert(self@ =~= old(self)@.remove(*key));
                }
                Some(&self.node(i).value)
            },
            None => None,
        }
    }

    /// Looks `key` up, cutting out the run of marked nodes in front of it.
    pub fn harris_lookup(&mut self, key: &K, guard: &Guard) -> (r: Option<&V>)
        requires
            old(self).wf(),
            total_order::<K>(),
            old(self).collector().holds(*guard),
        ensures
            final(self).wf(),
            final(self)@ == old(self)@,
            read(r) == looked_up(old(self)@, *key),
            old(self).cut_for(final(self), *key),
            forall|h: Guard| old(self).collector().holds(h) ==> final(self).collector().holds(h),
            forall|h: Guard, i: usize| old(self).guards(h, i) ==> final(self).guards(h, i),
    {
        self.lookup(key, Strategy::Harris, guard)
    }

    /// Inserts `key` with `value`, cutting out the run of marked nodes in
    /// front of its place. Returns whether the key went in; a key that is
    /// present is refused and keeps its value.
    pub fn harris_insert(&mut self, key: K, value: V, guard: &Guard) -> (ok: bool)
        requires
            old(self).wf(),
            total_order::<K>(),
            old(self).collector().holds(*guard),
        ensures
            final(self).wf(),
            (final(self)@, ok) == inserted(old(self)@, key, value),
            if ok {
                exists|mid: Self, n: usize|
                    old(self).cut_for(&mid, key) && #[trigger] mid.linked(
                        final(self),
                        old(self).landing(key),
                        n,
                        key,
                        value,
                    )
            } else {
                old(self).cut_for(final(self), key)
            },
            forall|h: Guard| old(self).collector().holds(h) ==> final(self).collector().holds(h),
            forall|h: Guard, i: usize| old(self).guards(h, i) ==> final(self).guards(h, i),
    {
        self.insert(key, value, Strategy::Harris, guard)
    }

    /// Deletes `key`, cutting out the run of marked nodes in front of it.
    /// Returns the value that was stored, if the key was present.
    pub fn harris_delete(&mut self, key: &K, guard: &Guard) -> (r: Option<&V>)
        requires
            old(self).wf(),
            total_order::<K>(),
            old(self).collector().holds(*guard),
        ensures
            final(self).wf(),
            (final(self)@, read(r)) == deleted(old(self)@, *key),
            if r is Some {
                exists|mid: Self|
                    old(self).cut_for(&mid, *key) && #[trigger] mid.struck(
                        final(self),
                        old(self).landing(*key),
                        mid.passed(old(self).landing(*key)),
                    )
            } else {
                old(self).cut_for(final(self), *key)
            },
            forall|h: Guard| old(self).collector().holds(h) ==> final(self).collector().holds(h),
            forall|h: Guard, i: usize| old(self).guards(h, i) ==> final(self).guards(h, i),
    {
        self.delete(key, Strategy::Harris, guard)
    }

    /// Looks `key` up, unlinking every marked node on the way.
    pub fn harris_michael_lookup(&mut self, key: &K, guard: &Guard) -> (r: Option<&V>)
        requires
            old(self).wf(),
            total_order::<K>(),
            old(self).collector().holds(*guard),
        ensures
            final(self).wf(),
            final(self)@ == old(self)@,
            read(r) == looked_up(old(self)@, *key),
            old(self).swept_for(final(self), *key),
            forall|h: Guard| old(self).collector().holds(h) ==> final(self).collector().holds(h),
            forall|h: Guard, i: usize| old(self).guards(h, i) ==> final(self).guards(h, i),
    {
        self.lookup(key, Strategy::HarrisMichael, guard)
    }

    /// Inserts `key` with `value`, unlinking every marked node on the way.
    /// Returns whether the key went in; a key that is present is refused and
    /// keeps its value.
    pub fn harris_michael_insert(&mut self, key: K, value: V, guard: &Guard) -> (ok: bool)
        requires
            old(self).wf(),
            total_order::<K>(),
            old(self).collector().holds(*guard),
        ensures
            final(self).wf(),
            (final(self)@, ok) == inserted(old(self)@, key, value),
            if ok {
                exists|mid: Self, n: usize|
                    old(self).swept_for(&mid, key) && #[trigger] mid.linked(
                        final(self),
                        old(self).landing(key),
                        n,
                        key,
                        value,
                    )
            } else {
                old(self).swept_for(final(self), key)
            },
            forall|h: Guard| old(self).collector().holds(h) ==> final(self).collector().holds(h),
            forall|h: Guard, i: usize| old(self).guards(h, i) ==> final(self).guards(h, i),
    {
        self.insert(key, value, Strategy::HarrisMichael, guard)
    }

    /// Deletes `key`, unlinking every marked node on the way. Returns the
    /// value that was stored, if the key was present.
    pub fn harris_michael_delete(&mut self, key: &K, guard: &Guard) -> (r: Option<&V>)
        requires
            old(self).wf(),
            total_order::<K>(),
            old(self).collector().holds(*guard),
        ensures
            final(self).wf(),
            (final(self)@, read(r)) == deleted(old(self)@, *key),
            if r is Some {
                exists|mid: Self|
                    old(self).swept_for(&mid, *key) && #[trigger] mid.struck(
                        final(self),
                        old(self).landing(*key),
                        mid.passed(old(self).landing(*key)),
                    )
            } else {
                old(self).swept_for(final(self), *key)
            },
            forall|h: Guard| old(self).collector().holds(h) ==> final(self).collector().holds(h),
            forall|h: Guard, i: usize| old(self).guards(h, i) ==> final(self).guards(h, i),
    {
        self.delete(key, Strategy::HarrisMichael, guard)
    }

    /// Looks `key` up without changing the list: walks over marked nodes and
    /// reports the key only if its node is not marked.
    pub fn harris_herlihy_shavit_lookup(&self, key: &K, guard: &Guard) -> (r: Option<&V>)
        requires
            self.wf(),
            total_order::<K>(),
            self.collector().holds(*guard),
        ensures
            read(r) == looked_up(self@, *key),
    {
        let mut cursor = self.head(guard);
        proof {
            if self.chain().len() > 0 {
                self.lemma_pos_at(0);
            }
            self.lemma_reach(0, *key);
        }
        match cursor.find_hms(self, key, guard) {
            Ok(true) => Some(cursor.lookup(self, guard)),
            _ => None,
        }
    }
}

/// Once `k` has gone in with `v`, looking `k` up gives `v`.
pub proof fn law_lookup_after_insert<K, V>(m: Map<K, V>, k: K, v: V)
    requires
        inserted(m, k, v).1,
    ensures
        looked_up(inserted(m, k, v).0, k) == Some(v),
{
}

/// Inserting a key that is present is refused and leaves the set, and so the
/// stored value, as it was.
pub proof fn law_duplicate_refused<K, V>(m: Map<K, V>, k: K, v: V)
    requires
        m.contains_key(k),
    ensures
        inserted(m, k, v) == (m, false),
        looked_up(inserted(m, k, v).0, k) == looked_up(m, k),
{
}

/// Once `k` has been deleted, looking `k` up finds nothing.
pub proof fn law_lookup_after_delete<K, V>(m: Map<K, V>, k: K)
    ensures
        deleted(m, k).1 is Some <==> m.contains_key(k),
        looked_up(deleted(m, k).0, k) is None,
{
}

/// What is stored under `k` stays there through every insert, of any key,
/// and through every delete of another key.
pub proof fn law_value_stays<K, V>(m: Map<K, V>, k: K, other: K, v: V)
    requires
        m.contains_key(k),
    ensures
        looked_up(inserted(m, other, v).0, k) == looked_up(m, k),
        other != k ==> looked_up(deleted(m, other).0, k) == looked_up(m, k),
{
}

/// A key that is absent stays absent through every insert and delete of
/// another key.
pub proof fn law_absence_stays<K, V>(m: Map<K, V>, k: K, other: K, v: V)
    requires
        !m.contains_key(k),
        other != k,
    ensures
        looked_up(inserted(m, other, v).0, k) is None,
        looked_up(deleted(m, other).0, k) is None,
{
}

impl Cursor {
    /// A cursor whose slot is `prev` and whose node is the one `curr` refers
    /// to; the mark of `curr` is dropped.
    pub fn new(prev: Slot, curr: Link) -> (c: Cursor)
        ensures
            c.prev == prev,
            c.curr == curr.node,
    {
        Cursor { prev, curr: curr.with_tag(false).node }
    }

    /// The value of the cursor's node.
    pub fn lookup<'a, K: Ord, V>(&self, list: &'a List<K, V>, guard: &Guard) -> (v: &'a V)
        requires
            list.wf(),
            list.covers(*guard, *self),
            self.curr is Some,
        ensures
            *v == list.nodes()[self.curr->0 as int].value,
    {
        match self.curr {
            Some(i) => {
                proof {
                    list.lemma_guarded_is_live(*guard, i);
                }
                &list.node(i).value
            },
            None => vstd::pervasive::unreached(),
        }
    }

    /// Links `node` in front of the cursor's node, with one compare-and-swap
    /// on the cursor's slot.
    ///
    /// Succeeds exactly when the slot still holds the plain link to the
    /// cursor's node; the cursor then stands on the new node. Otherwise the
    /// list is unchanged and the node comes back.
    pub fn insert<K: Ord, V>(&mut self, list: &mut List<K, V>, node: Node<K, V>, guard: &Guard) -> (r:
        Result<(), Node<K, V>>)
        requires
            old(list).wf(),
            total_order::<K>(),
            old(list).covers(*guard, *old(self)),
            old(list).brackets(*old(self), node.key),
        ensures
            final(list).wf(),
            final(list).covers(*guard, *final(self)),
            final(list).collector() == old(list).collector(),
            forall|h: Guard, i: usize| old(list).guards(h, i) ==> final(list).guards(h, i),
            r is Ok <==> old(list).link(old(self).prev) == Link::spec_plain(old(self).curr),
            match r {
                Ok(()) => {
                    &&& final(self).prev == old(self).prev
                    &&& final(self).curr matches Some(n)
                    &&& old(list).linked(final(list), *old(self), n, node.key, node.value)
                },
                Err(back) => {
                    &&& back.key == node.key
                    &&& back.value == node.value
                    &&& back.next == Link::spec_plain(old(self).curr)
                    &&& *final(list) == *old(list)
                    &&& *final(self) == *old(self)
                },
            },
    {
        let ghost before = *list;
        let mut node = node;
        node.next = Link::plain(self.curr);
        proof {
            if let Slot::Next(i) = self.prev {
                list.lemma_guarded_is_live(*guard, i);
            }
        }
        match list.publish(self.prev, Link::plain(self.curr), node) {
            Ok(n) => {
                proof {
                    before.lemma_adjacent(self.prev, self.curr);
                    list.chain@ = before.chain().insert(before.pos(self.curr), n);
                    before.lemma_link_in(list, self.prev, self.curr, n);
                    before.lemma_chain_gain(list, before.pos(self.curr), n);
                }
                self.curr = Some(n);
                Ok(())
            },
            Err(back) => Err(back),
        }
    }

    /// Deletes the cursor's node: marks its link, then tries once to swing
    /// the cursor's slot past it.
    ///
    /// Fails, changing nothing, exactly when the node was already marked.
    /// Otherwise the node leaves the set at once and its value is returned;
    /// it leaves the chain too, and is retired, exactly when the cursor's slot
    /// still held the plain link to it. The cursor moves on to the successor.
    pub fn delete<'a, K: Ord, V>(&mut self, list: &'a mut List<K, V>, guard: &Guard) -> (r: Result<
        &'a V,
        (),
    >)
        requires
            old(list).wf(),
            total_order::<K>(),
            old(list).covers(*guard, *old(self)),
            old(self).curr is Some,
        ensures
            final(list).wf(),
            forall|h: Guard| old(list).collector().holds(h) ==> final(list).collector().holds(h),
            forall|h: Guard, i: usize| old(list).guards(h, i) ==> final(list).guards(h, i),
            r is Err <==> old(list).nodes()[old(self).curr->0 as int].next.tag,
            match r {
                Err(()) => *final(list) == *old(list) && *final(self) == *old(self),
                Ok(v) => *v == old(list).nodes()[old(self).curr->0 as int].value && old(list).struck(
                    final(list),
                    *old(self),
                    *final(self),
                ),
            },
    {
        match self.strike(list, guard) {
            Ok(i) => {
                proof {
                    list.lemma_guarded_is_live(*guard, i);
                }
                Ok(&list.node(i).value)
            },
            Err(()) => Err(()),
        }
    }

    /// The work of [`Cursor::delete`]; gives the deleted node in place of its
    /// value.
    fn strike<K: Ord, V>(&mut self, list: &mut List<K, V>, guard: &Guard) -> (r: Result<usize, ()>)
        requires
            old(list).wf(),
            total_order::<K>(),
            old(list).covers(*guard, *old(self)),
            old(self).curr is Some,
        ensures
            final(list).wf(),
            forall|h: Guard| old(list).collector().holds(h) ==> final(list).collector().holds(h),
            forall|h: Guard, i: usize| old(list).guards(h, i) ==> final(list).guards(h, i),
            r is Err <==> old(list).nodes()[old(self).curr->0 as int].next.tag,
            match r {
                Err(()) => *final(list) == *old(list) && *final(self) == *old(self),
                Ok(i) => Some(i) == old(self).curr && final(list).guards(*guard, i) && old(list).struck(
                    final(list),
                    *old(self),
                    *final(self),
                ),
            },
    {
        let ghost before = *list;
        let i = match self.curr {
            Some(i) => i,
            None => vstd::pervasive::unreached(),
        };
        proof {
            list.lemma_guarded_is_live(*guard, i);
            if let Slot::Next(j) = self.prev {
                list.lemma_guarded_is_live(*guard, j);
            }
        }
        let was = list.fetch_mark(i);
        if was.tag() {
            return Err(());
        }
        let ghost marked = *list;
        proof {
            before.lemma_mark(&marked, i);
            assert(marked.housed()) by {
                assert forall|j: usize| j < marked.nodes().len() implies (#[trigger] marked.live(j)
                    <==> marked.chain().contains(j) || bagged(marked.collector().bag(), j)) by {
                    assert(before.live(j) <==> before.chain().contains(j) || bagged(
                        before.collector().bag(),
                        j,
                    ));
                }
            }
        }
        if list.compare_exchange(self.prev, Link::to(i), Link::plain(was.node)) {
            proof {
                if bagged(list.collector().bag(), i) {
                    assert(before.retired().contains(i));
                }
            }
            list.retire(i, guard);
            proof {
                marked.lemma_adjacent(self.prev, Some(i));
                let p = marked.pos(Some(i));
                marked.lemma_pos(i);
                list.chain@ = marked.chain().remove(p);
                assert(marked.chain().remove(p) =~= marked.chain().take(p) + marked.chain().skip(p + 1));
                assert(marked.chain().subrange(p, p + 1) =~= seq![i]);
                assert(marked.retired().push(i) =~= marked.retired() + seq![i]);
                assert(before.link(self.prev) == marked.link(self.prev));
                marked.lemma_unlink(list, self.prev, p, p + 1);
                assert forall|j: usize| #[trigger] seq![i].contains(j) <==> j == i by {
                    if j == i {
                        assert(seq![i][0] == i);
                    }
                }
                marked.lemma_rehoused(list, seq![i]);
                marked.lemma_still_guarded(list, seq![i]);
            }
        } else {
            assert(before.link(self.prev) != Link::spec_to(i));
            proof {
                assert forall|j: usize| j < list.nodes().len() implies (#[trigger] list.live(j)
                    <==> list.chain().contains(j) || bagged(list.collector().bag(), j)) by {
                    assert(before.live(j) <==> before.chain().contains(j) || bagged(
                        before.collector().bag(),
                        j,
                    ));
                }
            }
        }
        proof {
            before.lemma_view_loss(list, i);
        }
        self.curr = was.node;
        Ok(i)
    }

    /// Positions the cursor for `key` without changing the list.
    ///
    /// Walks from the cursor's node over every node whose key is below
    /// `key`, marked or not, and stops at the first that is not. The key is
    /// found when that node has the key and is not marked. A cursor whose
    /// node has left the chain is turned back as it came.
    pub fn find_hms<K: Ord, V>(&mut self, list: &List<K, V>, key: &K, guard: &Guard) -> (r: Result<
        bool,
        (),
    >)
        requires
            list.wf(),
            total_order::<K>(),
            list.covers(*guard, *old(self)),
        ensures
            list.covers(*guard, *final(self)),
            r is Ok <==> list.anchors(*old(self)),
            r is Err ==> *final(self) == *old(self),
            r is Ok ==> ({
                let c = list.chain();
                let s = list.pos(old(self).curr);
                let e = list.reach(s, *key);
                &&& r == Ok::<bool, ()>(e < c.len() && list.key_at(e) == *key && !list.marked_at(e))
                &&& final(self).curr == at(c, e)
                &&& final(self).prev == (if e > s {
                    Slot::Next(c[e - 1])
                } else {
                    old(self).prev
                })
                &&& list.anchors(*final(self))
                &&& (s == 0 ==> r == Ok::<bool, ()>(list@.contains_key(*key)))
                &&& (s == 0 && list@.contains_key(*key) ==> list@[*key] == list.nodes()[c[e] as int].value)
            }),
    {
        if !list.is_anchored(self) {
            return Err(());
        }
        let ghost c = list.chain();
        let ghost s = list.pos(self.curr);
        let ghost p = s;
        let ghost start = *self;
        let mut found = false;
        proof {
            if let Some(i) = self.curr {
                list.lemma_pos(i);
            }
        }
        loop
            invariant
                list.wf(),
                total_order::<K>(),
                c == list.chain(),
                0 <= s <= p <= c.len(),
                self.curr == at(c, p),
                list.reach(p, *key) == list.reach(s, *key),
                self.prev == (if p > s {
                    Slot::Next(c[p - 1])
                } else {
                    start.prev
                }),
                list.has_slot(start.prev),
                list.covers(*guard, start),
            ensures
                0 <= s <= p <= c.len(),
                p == list.reach(s, *key),
                self.curr == at(c, p),
                self.prev == (if p > s {
                    Slot::Next(c[p - 1])
                } else {
                    start.prev
                }),
                found == (p < c.len() && list.key_at(p) == *key && !list.marked_at(p)),
            decreases c.len() - p,
        {
            match self.curr {
                None => {
                    found = false;
                    break;
                },
                Some(i) => {
                    proof {
                        list.lemma_pos_at(p);
                    }
                    let next = list.node(i).next;
                    proof {
                        lemma_trichotomy(list.nodes()[i as int].key, *key);
                    }
                    match rank(&list.node(i).key, key) {
                        Rank::Below => {
                            self.prev = Slot::Next(i);
                            self.curr = next.node;
                            proof {
                                p = p + 1;
                            }
                        },
                        Rank::Same => {
                            found = !next.tag();
                            break;
                        },
                        Rank::Above => {
                            found = false;
                            break;
                        },
                    }
                },
            }
        }
        proof {
            list.lemma_reach(s, *key);
            if s == 0 {
                list.lemma_probe(p, *key);
            }
            if p < c.len() {
                list.lemma_pos_at(p);
            }
            if p > s {
                list.lemma_pos_at(p - 1);
            }
        }
        Ok(found)
    }

    /// Positions the cursor for `key`, unlinking every marked node on the
    /// way.
    ///
    /// Walks from the cursor's node to the first unmarked node whose key is
    /// not below `key`. Each marked node met is swung out of the chain with a
    /// compare-and-swap on the cursor's slot, and retired. Only the first
    /// such swap can fail, when the cursor's own slot no longer leads to its
    /// node; then nothing has changed and the caller starts over. That is
    /// also what becomes of a cursor whose node has left the chain: such a
    /// node is marked, and no slot leads to it.
    pub fn find_hm<K: Ord, V>(&mut self, list: &mut List<K, V>, key: &K, guard: &Guard) -> (r: Result<
        bool,
        (),
    >)
        requires
            old(list).wf(),
            total_order::<K>(),
            old(list).covers(*guard, *old(self)),
        ensures
            final(list).wf(),
            final(list)@ == old(list)@,
            final(list).covers(*guard, *final(self)),
            forall|h: Guard| old(list).collector().holds(h) ==> final(list).collector().holds(h),
            forall|h: Guard, i: usize| old(list).guards(h, i) ==> final(list).guards(h, i),
            ({
                let c = old(list).chain();
                let s = old(list).pos(old(self).curr);
                let e = old(list).stop(s, *key);
                match r {
                    Err(()) => old(list).blocks(*old(self)) && *final(list) == *old(list) && *final(self)
                        == *old(self),
                    Ok(found) => {
                        &&& !old(list).blocks(*old(self))
                        &&& old(list).anchors(*old(self))
                        &&& found == (e < c.len() && old(list).key_at(e) == *key)
                        &&& old(list).swept(final(list), *old(self), *final(self), e)
                        &&& (s == 0 ==> found == old(list)@.contains_key(*key))
                    },
                }
            }),
    {
        let ghost before = *list;
        let ghost start = *self;
        let ghost c = list.chain();
        let ghost s = list.pos(self.curr);
        let ghost p = s;
        let mut found = false;
        proof {
            before.lemma_covered(*guard, start);
            if before.on_chain(start.curr) {
                before.lemma_swept_start(start);
            } else {
                before.lemma_off_chain(*guard, start);
            }
        }
        loop
            invariant
                total_order::<K>(),
                before == *old(list),
                start == *old(self),
                before.wf(),
                before.covers(*guard, start),
                c == before.chain(),
                s == before.pos(start.curr),
                before.on_chain(start.curr) ==> before.swept(list, start, *self, p) && before.stop(p, *key)
                    == before.stop(s, *key),
                !before.on_chain(start.curr) ==> *list == before && *self == start && before.blocks(start),
                list.wf(),
                list.housed(),
                list.covers(*guard, *self),
                forall|h: Guard| before.collector().holds(h) ==> list.collector().holds(h),
                forall|h: Guard, i: usize| before.guards(h, i) ==> list.guards(h, i),
            ensures
                before.anchors(start),
                before.swept(list, start, *self, p),
                p == before.stop(s, *key),
                found == (p < c.len() && before.key_at(p) == *key),
                !before.blocks(start),
                list.housed(),
                list.covers(*guard, *self),
                forall|h: Guard| before.collector().holds(h) ==> list.collector().holds(h),
                forall|h: Guard, i: usize| before.guards(h, i) ==> list.guards(h, i),
            decreases c.len() - p,
        {
            match self.curr {
                None => {
                    found = false;
                    break;
                },
                Some(i) => {
                    proof {
                        list.lemma_guarded_is_live(*guard, i);
                        if let Slot::Next(j) = self.prev {
                            list.lemma_guarded_is_live(*guard, j);
                        }
                        if before.on_chain(start.curr) {
                            before.lemma_pos_at(p);
                        }
                    }
                    let next = list.node(i).next;
                    if next.tag() {
                        let ghost here = *list;
                        let ghost cur = *self;
                        if !list.compare_exchange(self.prev, Link::to(i), Link::plain(next.node)) {
                            proof {
                                if before.on_chain(start.curr) {
                                    assert(Link::spec_plain(Some(i)) == Link::spec_to(i));
                                    assert(c[p] == i);
                                    assert(p == s);
                                    assert(before.nodes()[c[s] as int] == here.nodes()[c[s] as int]);
                                }
                            }
                            return Err(());
                        }
                        proof {
                            here.lemma_adjacent(self.prev, Some(i));
                            assert(before.on_chain(start.curr));
                            if bagged(list.collector().bag(), i) {
                                assert(here.retired().contains(i));
                            }
                        }
                        list.retire(i, guard);
                        self.curr = next.node;
                        proof {
                            list.chain@ = c.take(s) + before.kept(s, p) + c.skip(p + 1);
                            before.lemma_swept_drop(&here, list, start, cur, p);
                            assert forall|j: usize| #[trigger] seq![i].contains(j) <==> j == i by {
                                if j == i {
                                    assert(seq![i][0] == i);
                                }
                            }
                            assert(here.retired().push(i) =~= here.retired() + seq![i]);
                            here.lemma_rehoused(list, seq![i]);
                            here.lemma_still_guarded(list, seq![i]);
                            p = p + 1;
                            before.lemma_swept_on_chain(list, start, *self, p);
                            before.lemma_anchor(s, p);
                        }
                    } else {
                        proof {
                            assert(before.on_chain(start.curr));
                            lemma_trichotomy(list.nodes()[i as int].key, *key);
                        }
                        match rank(&list.node(i).key, key) {
                            Rank::Below => {
                                proof {
                                    before.lemma_swept_pass(list, start, *self, p);
                                }
                                self.prev = Slot::Next(i);
                                self.curr = next.node;
                                proof {
                                    p = p + 1;
                                    before.lemma_swept_on_chain(list, start, *self, p);
                                    before.lemma_anchor(s, p);
                                }
                            },
                            Rank::Same => {
                                found = true;
                                break;
                            },
                            Rank::Above => {
                                found = false;
                                break;
                            },
                        }
                    }
                },
            }
        }
        proof {
            before.lemma_stop(s, *key);
            if s == 0 {
                before.lemma_probe(p, *key);
            }
        }
        Ok(found)
    }

    /// Positions the cursor for `key`, cutting out the run of marked nodes in
    /// front of the result.
    ///
    /// Walks from the cursor's node to the first unmarked node whose key is
    /// not below `key`, remembering the last unmarked node it passed. If
    /// marked nodes lie between the two, one compare-and-swap swings the link
    /// of the remembered node (the cursor's slot, if none was passed) over
    /// the whole run, and each node of the run is retired. That swap can fail
    /// only on the slot the cursor came with; then the list is unchanged and
    /// the caller starts over. A cursor whose node has left the chain is
    /// turned back as it came.
    pub fn find_h<K: Ord, V>(&mut self, list: &mut List<K, V>, key: &K, guard: &Guard) -> (r: Result<
        bool,
        (),
    >)
        requires
            old(list).wf(),
            total_order::<K>(),
            old(list).covers(*guard, *old(self)),
        ensures
            final(list).wf(),
            final(list)@ == old(list)@,
            final(list).covers(*guard, *final(self)),
            forall|h: Guard| old(list).collector().holds(h) ==> final(list).collector().holds(h),
            forall|h: Guard, i: usize| old(list).guards(h, i) ==> final(list).guards(h, i),
            r is Err ==> *final(list) == *old(list),
            !old(list).anchors(*old(self)) ==> r is Err && *final(self) == *old(self),
            old(list).anchors(*old(self)) ==> ({
                let c = old(list).chain();
                let s = old(list).pos(old(self).curr);
                let e = old(list).stop(s, *key);
                let stale = old(list).blocks(*old(self)) && old(list).anchor(s, e) < s;
                &&& final(self).curr == at(c, e)
                &&& final(self).prev == old(list).slot_after(*old(self), s, e)
                &&& match r {
                    Err(()) => stale,
                    Ok(found) => {
                        &&& !stale
                        &&& found == (e < c.len() && old(list).key_at(e) == *key)
                        &&& old(list).cut(final(list), *old(self), *final(self), e)
                        &&& (s == 0 ==> found == old(list)@.contains_key(*key))
                    },
                }
            }),
    {
        if !list.is_anchored(self) {
            return Err(());
        }
        let ghost before = *list;
        let ghost start = *self;
        let ghost c = list.chain();
        let ghost s = list.pos(self.curr);
        let ghost p = s;
        let mut prev_next = self.curr;
        let mut found = false;
        proof {
            if let Some(i) = self.curr {
                list.lemma_pos(i);
            }
        }
        loop
            invariant
                total_order::<K>(),
                before == *old(list),
                start == *old(self),
                *list == before,
                before.wf(),
                before.anchors(start),
                before.covers(*guard, start),
                c == before.chain(),
                s == before.pos(start.curr),
                0 <= s <= p <= c.len(),
                self.curr == at(c, p),
                self.prev == before.slot_after(start, s, p),
                prev_next == at(c, before.anchor(s, p) + 1),
                before.stop(p, *key) == before.stop(s, *key),
            ensures
                *list == before,
                0 <= s <= p <= c.len(),
                p == before.stop(s, *key),
                self.curr == at(c, p),
                self.prev == before.slot_after(start, s, p),
                prev_next == at(c, before.anchor(s, p) + 1),
                found == (p < c.len() && before.key_at(p) == *key),
            decreases c.len() - p,
        {
            match self.curr {
                None => {
                    found = false;
                    break;
                },
                Some(i) => {
                    proof {
                        before.lemma_pos_at(p);
                    }
                    let next = list.node(i).next;
                    if next.tag() {
                        self.curr = next.node;
                        proof {
                            p = p + 1;
                        }
                    } else {
                        proof {
                            lemma_trichotomy(list.nodes()[i as int].key, *key);
                        }
                        match rank(&list.node(i).key, key) {
                            Rank::Below => {
                                prev_next = next.node;
                                self.prev = Slot::Next(i);
                                self.curr = next.node;
                                proof {
                                    p = p + 1;
                                }
                            },
                            Rank::Same => {
                                found = true;
                                break;
                            },
                            Rank::Above => {
                                found = false;
                                break;
                            },
                        }
                    }
                },
            }
        }
        let ghost a = before.anchor(s, p);
        proof {
            before.lemma_stop(s, *key);
            before.lemma_anchor(s, p);
            if s == 0 {
                before.lemma_probe(p, *key);
            }
            if a >= s {
                before.lemma_pos_at(a);
                assert(before.nodes()[c[a] as int].next.node == at(c, a + 1));
            } else if let Slot::Next(j) = start.prev {
                before.lemma_guarded_is_live(*guard, j);
            }
            if a + 1 < c.len() {
                before.lemma_pos_at(a + 1);
            }
            if p < c.len() {
                before.lemma_pos_at(p);
            }
        }
        proof {
            // where the cursor stands is on the chain, or is where it started
            if p < c.len() {
                before.lemma_pos_at(p);
            }
        }
        if same_node(prev_next, self.curr) {
            proof {
                before.lemma_cut_none(start, *self, p);
            }
            return Ok(found);
        }
        if !list.compare_exchange(self.prev, Link::plain(prev_next), Link::plain(self.curr)) {
            proof {
                // the swap was on the slot the cursor came with, and the run starts at its node
                assert(a < s);
                assert(start.curr == Some(c[s]));
                assert(before.marked_at(s));
                assert(Link::spec_plain(Some(c[s])) == Link::spec_to(c[s]));
            }
            return Err(());
        }
        let ghost swung = *list;
        let mut node = prev_next;
        let ghost q = a + 1;
        proof {
            assert(c.subrange(a + 1, a + 1) =~= Seq::<usize>::empty());
            before.collector().lemma_retired_none(&list.collector());
        }
        while !same_node(node, self.curr)
            invariant
                before.wf(),
                c == before.chain(),
                0 <= a + 1 <= q <= p <= c.len(),
                node == at(c, q),
                self.curr == at(c, p),
                list.synced(),
                list.collector().wf(),
                list.collector().holds(*guard),
                list.nodes() == swung.nodes(),
                list.first() == swung.first(),
                list.chain() == swung.chain(),
                list.retired() == before.retired() + c.subrange(a + 1, q),
                before.collector().after_retiring(&list.collector(), c.subrange(a + 1, q)),
                forall|j: usize| list.live(j) == before.live(j),
                forall|j: usize|
                    #[trigger] bagged(list.collector().bag(), j) <==> (bagged(before.collector().bag(), j)
                        || c.subrange(a + 1, q).contains(j)),
                forall|h: Guard| before.collector().holds(h) ==> list.collector().holds(h),
                forall|h: Guard, j: usize|
                    before.collector().shields(h, j) ==> list.collector().shields(h, j),
                forall|h: Guard, x: int|
                    before.collector().holds(h) && a < x < q ==> #[trigger] list.collector().shields(h, c[x]),
                forall|x: int| a < x < p ==> before.marked_at(x),
                forall|x: int|
                    a < x < p ==> (#[trigger] swung.nodes()[c[x] as int]).next == before.nodes()[c[x] as int].next,
                swung.nodes().len() == before.nodes().len(),
            decreases p - q,
        {
            proof {
                if q >= p {
                    if p < c.len() {
                        before.lemma_pos_at(p);
                        before.lemma_pos_at(q);
                    }
                }
            }
            let n = match node {
                Some(n) => n,
                None => vstd::pervasive::unreached(),
            };
            proof {
                assert(n == c[q]);
                assert(before.nodes()[c[q] as int].next.node == at(c, q + 1));
                before.lemma_pos_at(q);
                assert(before.live(n));
                if bagged(list.collector().bag(), n) {
                    if bagged(before.collector().bag(), n) {
                        assert(before.retired().contains(n));
                    } else {
                        let x = c.subrange(a + 1, q).index_of(n);
                        assert(c[a + 1 + x] == n);
                    }
                }
            }
            let next = list.node(n).next;
            let ghost prior = *list;
            list.retire(n, guard);
            node = next.node;
            proof {
                assert(c.subrange(a + 1, q).push(n) =~= c.subrange(a + 1, q + 1));
                assert(list.retired() =~= before.retired() + c.subrange(a + 1, q + 1));
                before.collector().lemma_retired_more(
                    &prior.collector(),
                    &list.collector(),
                    c.subrange(a + 1, q),
                    n,
                );
                assert forall|j: usize|
                    #[trigger] bagged(list.collector().bag(), j) <==> (bagged(before.collector().bag(), j)
                        || c.subrange(a + 1, q + 1).contains(j)) by {
                    assert(bagged(list.collector().bag(), j) <==> bagged(prior.collector().bag(), j) || j == n);
                    assert(bagged(prior.collector().bag(), j) <==> (bagged(before.collector().bag(), j)
                        || c.subrange(a + 1, q).contains(j)));
                    if c.subrange(a + 1, q).contains(j) {
                        let x = c.subrange(a + 1, q).index_of(j);
                        assert(c.subrange(a + 1, q + 1)[x] == j);
                    }
                    if j == n {
                        assert(c.subrange(a + 1, q + 1)[q - a - 1] == n);
                    }
                    if c.subrange(a + 1, q + 1).contains(j) {
                        let x = c.subrange(a + 1, q + 1).index_of(j);
                        if x < q - a - 1 {
                            assert(c.subrange(a + 1, q)[x] == j);
                        }
                    }
                }
                q = q + 1;
            }
        }
        proof {
            assert(q == p) by {
                if q < p {
                    before.lemma_pos_at(q);
                    if p < c.len() {
                        before.lemma_pos_at(p);
                    }
                }
            }
            list.chain@ = c.take(a + 1) + c.skip(p);
            before.lemma_cut_some(list, start, *self, p);
            before.lemma_unlink_members(list, a + 1, p);
            before.lemma_rehoused(list, c.subrange(a + 1, p));
            assert forall|h: Guard, j: usize|
                before.collector().holds(h) && c.subrange(a + 1, p).contains(j) implies #[trigger] list.collector().shields(
                h,
                j,
            ) by {
                let x = c.subrange(a + 1, p).index_of(j);
                assert(c[a + 1 + x] == j);
                assert(list.collector().shields(h, c[a + 1 + x]));
            }
            before.lemma_still_guarded(list, c.subrange(a + 1, p));
            before.lemma_cut_on_chain(list.chain(), a, p);
        }
        Ok(found)
    }

    /// The same traversal as [`Cursor::find_h`].
    pub fn h<K: Ord, V>(&mut self, list: &mut List<K, V>, key: &K, guard: &Guard) -> (r: Result<bool, ()>)
        requires
            old(list).wf(),
            total_order::<K>(),
            old(list).covers(*guard, *old(self)),
        ensures
            final(list).wf(),
            final(list)@ == old(list)@,
            final(list).covers(*guard, *final(self)),
            forall|h: Guard| old(list).collector().holds(h) ==> final(list).collector().holds(h),
            forall|h: Guard, i: usize| old(list).guards(h, i) ==> final(list).guards(h, i),
            r is Err ==> *final(list) == *old(list),
            !old(list).anchors(*old(self)) ==> r is Err && *final(self) == *old(self),
            old(list).anchors(*old(self)) ==> ({
                let c = old(list).chain();
                let s = old(list).pos(old(self).curr);
                let e = old(list).stop(s, *key);
                let stale = old(list).blocks(*old(self)) && old(list).anchor(s, e) < s;
                &&& final(self).curr == at(c, e)
                &&& final(self).prev == old(list).slot_after(*old(self), s, e)
                &&& match r {
                    Err(()) => stale,
                    Ok(found) => {
                        &&& !stale
                        &&& found == (e < c.len() && old(list).key_at(e) == *key)
                        &&& old(list).cut(final(list), *old(self), *final(self), e)
                        &&& (s == 0 ==> found == old(list)@.contains_key(*key))
                    },
                }
            }),
    {
        self.find_h(list, key, guard)
    }

    /// The same traversal as [`Cursor::find_hm`].
    pub fn hm<K: Ord, V>(&mut self, list: &mut List<K, V>, key: &K, guard: &Guard) -> (r: Result<bool, ()>)
        requires
            old(list).wf(),
            total_order::<K>(),
            old(list).covers(*guard, *old(self)),
        ensures
            final(list).wf(),
            final(list)@ == old(list)@,
            final(list).covers(*guard, *final(self)),
            forall|h: Guard| old(list).collector().holds(h) ==> final(list).collector().holds(h),
            forall|h: Guard, i: usize| old(list).guards(h, i) ==> final(list).guards(h, i),
            ({
                let c = old(list).chain();
                let s = old(list).pos(old(self).curr);
                let e = old(list).stop(s, *key);
                match r {
                    Err(()) => old(list).blocks(*old(self)) && *final(list) == *old(list) && *final(self)
                        == *old(self),
                    Ok(found) => {
                        &&& !old(list).blocks(*old(self))
                        &&& old(list).anchors(*old(self))
                        &&& found == (e < c.len() && old(list).key_at(e) == *key)
                        &&& old(list).swept(final(list), *old(self), *final(self), e)
                        &&& (s == 0 ==> found == old(list)@.contains_key(*key))
                    },
                }
            }),
    {
        self.find_hm(list, key, guard)
    }

    /// The same traversal as [`Cursor::find_hms`].
    pub fn hms<K: Ord, V>(&mut self, list: &List<K, V>, key: &K, guard: &Guard) -> (r: Result<bool, ()>)
        requires
            list.wf(),
            total_order::<K>(),
            list.covers(*guard, *old(self)),
        ensures
            list.covers(*guard, *final(self)),
            r is Ok <==> list.anchors(*old(self)),
            r is Err ==> *final(self) == *old(self),
            r is Ok ==> ({
                let c = list.chain();
                let s = list.pos(old(self).curr);
                let e = list.reach(s, *key);
                &&& r == Ok::<bool, ()>(e < c.len() && list.key_at(e) == *key && !list.marked_at(e))
                &&& final(self).curr == at(c, e)
                &&& final(self).prev == (if e > s {
                    Slot::Next(c[e - 1])
                } else {
                    old(self).prev
                })
                &&& list.anchors(*final(self))
                &&& (s == 0 ==> r == Ok::<bool, ()>(list@.contains_key(*key)))
                &&& (s == 0 && list@.contains_key(*key) ==> list@[*key] == list.nodes()[c[e] as int].value)
            }),
    {
        self.find_hms(list, key, guard)
    }
}

} // verus!
