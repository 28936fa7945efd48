//! A first-in first-out queue in the manner of Michael and Scott.
//!
//! The nodes live in an arena and refer to each other by index. The head
//! always refers to a sentinel, a node whose payload is absent; the first
//! element of the queue is in the sentinel's successor. Dequeuing swings the
//! head to that successor, moves its payload out (so that it becomes the next
//! sentinel) and retires the old sentinel. Enqueuing links a node behind the
//! last one and then swings the tail; between the two the tail lags, and
//! whoever meets a lagging tail swings it forward before going on.
//!
//! Each change is one compare-and-swap on the head, the tail, or one `next`
//! field. `try_link`, `advance_tail` and `try_pop` are those single steps;
//! they take what the caller observed earlier and are defined for every
//! well-formed queue they may meet, so observations and steps of several
//! parties can be interleaved in any order. `push` and `pop` run the steps
//! of one operation to its end.
//!
//! A retired sentinel is destroyed once no pinned party can still hold a
//! reference to it. Every step reads the node it is given, so the caller
//! must have been pinned since it observed that node. An arena slot is never
//! given to another node, so an index names the same node for ever.

use vstd::prelude::*;
use crate::epoch::bagged;
use crate::epoch::bagged_since;
use crate::epoch::Collector;
use crate::epoch::destroy_released;
use crate::epoch::due;
use crate::epoch::Guard;
use crate::epoch::idle;
use crate::epoch::lemma_all_pending;
use crate::epoch::lemma_visit;
use crate::epoch::settled;
use crate::epoch::lemma_sorting;
use crate::epoch::retire_each;
use crate::epoch::tick;
use crate::epoch::pending;
use crate::link::at;

verus! {

/// One cell of the queue. The payload is absent in the sentinel.
pub struct Node<T> {
    pub data: Option<T>,
    pub next: Option<usize>,
}

/// The queue: an arena of nodes, the head and tail references, and the
/// collector for retired sentinels. The chain and the retired nodes are kept
/// beside them for the proofs.
pub struct Queue<T> {
    slots: Vec<Option<Node<T>>>,
    head: usize,
    tail: usize,
    collector: Collector,
    chain: Ghost<Seq<usize>>,
    retired: Ghost<Seq<usize>>,
}

/// The queue after `value` has been linked: it is the newest element.
pub open spec fn linked<T>(queue: Seq<T>, value: T) -> Seq<T> {
    queue.push(value)
}

/// The queue after a dequeue, and what the dequeue gave: the oldest element
/// leaves, and an empty queue gives nothing and stays as it is.
pub open spec fn unlinked<T>(queue: Seq<T>) -> (Seq<T>, Option<T>) {
    if queue.len() > 0 {
        (queue.skip(1), Some(queue[0]))
    } else {
        (queue, None)
    }
}

/// Why a dequeue has to start over.
#[derive(Clone, Copy, PartialEq, Eq, Structural, Debug)]
pub enum Retry {
    /// The tail was lagging at the sentinel, and has been swung forward.
    Helped,
    /// The head had moved on; nothing was changed.
    Lost,
}

impl<T> Queue<T> {
    /// The arena: every node that was ever allocated, by index. What it
    /// says of a destroyed node is without meaning.
    pub closed spec fn nodes(&self) -> Seq<Node<T>> {
        Seq::new(self.slots@.len(), |i: int| self.slots@[i]->0)
    }

    /// Node `i` exists and has not been destroyed.
    pub closed spec fn live(&self, i: usize) -> bool {
        i < self.slots@.len() && self.slots@[i as int] is Some
    }

    /// The collector that holds the retired nodes until they can be
    /// destroyed.
    pub closed spec fn collector(&self) -> Collector {
        self.collector
    }

    /// The nodes from the sentinel to the last one, in link order.
    pub closed spec fn chain(&self) -> Seq<usize> {
        self.chain@
    }

    /// The former sentinels, in the order in which they were retired.
    pub closed spec fn retired(&self) -> Seq<usize> {
        self.retired@
    }

    /// The node that the head refers to: the sentinel.
    pub closed spec fn front(&self) -> usize {
        self.head
    }

    /// The node that the tail refers to.
    pub closed spec fn back(&self) -> usize {
        self.tail
    }

    /// The structural invariant.
    ///
    /// The chain is what the links spell out from the sentinel; the tail is
    /// somewhere on it; every node behind the sentinel carries a payload;
    /// every node is either on the chain or retired, never both and never
    /// twice; a retired node has a successor; and the nodes that exist are
    /// those on the chain and those that wait in the collector's bag.
    pub open spec fn wf(&self) -> bool {
        let c = self.chain();
        let n = self.nodes();
        let r = self.retired();
        &&& self.collector().wf()
        &&& forall|i: usize|
            i < n.len() ==> (#[trigger] self.live(i) <==> c.contains(i) || bagged(self.collector().bag(), i))
        &&& forall|i: usize| #[trigger] bagged(self.collector().bag(), i) ==> r.contains(i)
        &&& c.len() >= 1
        &&& c.no_duplicates()
        &&& r.no_duplicates()
        &&& forall|p: int| 0 <= p < c.len() ==> #[trigger] c[p] < n.len()
        &&& forall|p: int| 0 <= p < r.len() ==> #[trigger] r[p] < n.len()
        &&& self.front() == c[0]
        &&& c.contains(self.back())
        &&& forall|p: int| 0 <= p < c.len() ==> (#[trigger] n[c[p] as int]).next == at(c, p + 1)
        &&& forall|p: int| 1 <= p < c.len() ==> (#[trigger] n[c[p] as int]).data is Some
        &&& forall|i: usize| i < n.len() ==> (#[trigger] c.contains(i)) != r.contains(i)
        &&& forall|p: int|
            0 <= p < r.len() && self.live(r[p]) ==> (#[trigger] n[r[p] as int]).next is Some
    }

    /// The pinned party `g` keeps node `i` from being destroyed: the node is
    /// on the chain, or was retired after `g` pinned itself.
    pub open spec fn guards(&self, g: Guard, i: usize) -> bool {
        &&& self.collector().holds(g)
        &&& self.chain().contains(i) || bagged_since(self.collector().bag(), i, g.epoch())
    }

    /// A guarded node exists.
    pub proof fn lemma_guarded_is_live(&self, g: Guard, i: usize)
        requires
            self.wf(),
            self.guards(g, i),
        ensures
            self.live(i),
            i < self.nodes().len(),
    {
        if self.chain().contains(i) {
            let p = self.chain().index_of(i);
            assert(self.chain()[p] < self.nodes().len());
        } else {
            let k = choose|k: int|
                0 <= k < self.collector().bag().len() && (#[trigger] self.collector().bag()[k]).node == i
                    && self.collector().bag()[k].stamp >= g.epoch();
            assert(bagged(self.collector().bag(), i));
            let p = self.retired().index_of(i);
            assert(self.retired()[p] < self.nodes().len());
        }
    }

    /// The queue's elements, oldest first.
    pub open spec fn view(&self) -> Seq<T> {
        Seq::new(
            (self.chain().len() - 1) as nat,
            |k: int| self.nodes()[self.chain()[k + 1] as int].data->0,
        )
    }

    /// `node` is the sentinel or was the sentinel once: what a load of the
    /// head gave at some time.
    pub open spec fn seen_as_head(&self, node: usize) -> bool {
        node == self.front() || self.retired().contains(node)
    }

    /// How far the tail lags: the number of nodes behind the one it refers
    /// to.
    pub open spec fn lag(&self) -> int {
        self.chain().len() - 1 - self.chain().index_of(self.back())
    }

    /// A queue with no elements: one sentinel, which head and tail refer to.
    pub fn new() -> (q: Self)
        ensures
            q.wf(),
            q@ == Seq::<T>::empty(),
            q.lag() == 0,
            q.nodes() == seq![Node::<T> { data: None, next: None }],
            q.chain() == seq![0usize],
            q.retired().len() == 0,
            q.front() == 0,
            q.back() == 0,
            q.collector().pins().len() == 0,
            q.collector().bag().len() == 0,
            q.collector().now() == 0,
    {
        let mut slots = Vec::new();
        slots.push(Some(Node { data: None, next: None }));
        let q = Queue {
            slots,
            head: 0,
            tail: 0,
            collector: Collector::new(),
            chain: Ghost(Seq::empty().push(0usize)),
            retired: Ghost(Seq::empty()),
        };
        proof {
            assert(q.chain()[0] == 0);
            assert(q.chain().contains(0usize));
            assert forall|i: usize| i < q.nodes().len() implies (#[trigger] q.chain().contains(i))
                != q.retired().contains(i) by {
                assert(i == 0);
            }
            assert forall|i: usize| #[trigger] bagged(q.collector().bag(), i) implies q.retired().contains(i) by {
                let k = choose|k: int|
                    0 <= k < q.collector().bag().len() && (#[trigger] q.collector().bag()[k]).node == i;
            }
            assert forall|i: usize| i < q.nodes().len() implies (#[trigger] q.live(i) <==> q.chain().contains(i)
                || bagged(q.collector().bag(), i)) by {
                assert(i == 0);
            }
            assert(q@ =~= Seq::<T>::empty());
            assert(q.nodes() =~= seq![Node::<T> { data: None, next: None }]);
            assert(q.chain() =~= seq![0usize]);
            assert(q.chain().index_of(0usize) == 0) by {
                let x = q.chain().index_of(0usize);
                assert(q.chain()[x] == 0);
            }
        }
        q
    }

    /// The current epoch of the queue's collector.
    pub fn epoch(&self) -> (e: u64)
        ensures
            e == self.collector().now(),
    {
        self.collector.current()
    }

    /// Pins a party. What the party reads from the queue while it is pinned
    /// is not destroyed before it unpins or repins.
    pub fn pin(&mut self) -> (g: Guard)
        requires
            old(self).wf(),
        ensures
            final(self).wf(),
            final(self).collector().holds(g),
            g.epoch() == old(self).collector().now(),
            g.slot() <= old(self).collector().pins().len(),
            g.slot() < old(self).collector().pins().len() ==> old(self).collector().pins()[g.slot() as int] is None,
            forall|s: int| 0 <= s < g.slot() ==> (#[trigger] old(self).collector().pins()[s]) is Some,
            final(self).collector().pins() == (if g.slot() < old(self).collector().pins().len() {
                old(self).collector().pins().update(g.slot() as int, Some(g.epoch()))
            } else {
                old(self).collector().pins().push(Some(g.epoch()))
            }),
            final(self).collector().bag() == old(self).collector().bag(),
            final(self).collector().now() == old(self).collector().now(),
            forall|h: Guard| old(self).collector().holds(h) ==> h.slot() != g.slot(),
            final(self)@ == old(self)@,
            final(self).chain() == old(self).chain(),
            final(self).retired() == old(self).retired(),
            final(self).nodes() == old(self).nodes(),
            final(self).front() == old(self).front(),
            final(self).back() == old(self).back(),
            forall|i: usize| final(self).live(i) == old(self).live(i),
            forall|h: Guard| old(self).collector().holds(h) ==> final(self).collector().holds(h),
            forall|h: Guard, i: usize| old(self).guards(h, i) ==> final(self).guards(h, i),
    {
        let g = self.collector.pin();
        proof {
            assert forall|i: usize| i < self.nodes().len() implies (#[trigger] self.live(i) <==> self.chain().contains(
                i,
            ) || bagged(self.collector().bag(), i)) by {
                assert(old(self).live(i) <==> old(self).chain().contains(i) || bagged(
                    old(self).collector().bag(),
                    i,
                ));
            }
            assert forall|p: int| 0 <= p < self.retired().len() && self.live(self.retired()[p]) implies (
            #[trigger] self.nodes()[self.retired()[p] as int]).next is Some by {
                assert(old(self).live(old(self).retired()[p]));
            }
            assert(self@ =~= old(self)@);
        }
        g
    }

    /// Unpins a party, and destroys the retired nodes that were waiting for
    /// it alone.
    pub fn unpin(&mut self, guard: Guard)
        requires
            old(self).wf(),
            old(self).collector().holds(guard),
        ensures
            final(self).wf(),
            final(self).nodes().len() == old(self).nodes().len(),
            final(self).collector().pins() == old(self).collector().pins().update(guard.slot() as int, None),
            final(self).collector().now() == old(self).collector().now(),
            final(self).collector().bag() == pending(final(self).collector().pins(), old(self).collector().bag()),
            forall|i: usize|
                final(self).live(i) <==> old(self).live(i) && !due(
                    final(self).collector().pins(),
                    old(self).collector().bag(),
                ).contains(i),
            final(self)@ == old(self)@,
            final(self).chain() == old(self).chain(),
            final(self).retired() == old(self).retired(),
            final(self).front() == old(self).front(),
            final(self).back() == old(self).back(),
            forall|i: usize|
                final(self).live(i) ==> old(self).live(i) && final(self).nodes()[i as int] == old(self).nodes()[i as int],
            forall|h: Guard|
                old(self).collector().holds(h) && h.slot() != guard.slot() ==> final(self).collector().holds(h),
            forall|h: Guard, i: usize|
                old(self).guards(h, i) && h.slot() != guard.slot() ==> final(self).guards(h, i),
    {
        let released = self.collector.unpin(guard);
        proof {
            lemma_sorting(self.collector().pins(), old(self).collector().bag());
        }
        self.destroy(released, Ghost(*old(self)));
    }

    /// Unpins a party and pins it again, and destroys the retired nodes that
    /// were waiting for it alone. What the party read before is no longer
    /// protected.
    pub fn repin(&mut self, guard: &mut Guard)
        requires
            old(self).wf(),
            old(self).collector().holds(*old(guard)),
        ensures
            final(self).wf(),
            final(self).nodes().len() == old(self).nodes().len(),
            final(guard).epoch() == old(self).collector().now(),
            final(self).collector().pins() == old(self).collector().pins().update(
                old(guard).slot() as int,
                Some(old(self).collector().now()),
            ),
            final(self).collector().now() == old(self).collector().now(),
            final(self).collector().bag() == pending(final(self).collector().pins(), old(self).collector().bag()),
            forall|i: usize|
                final(self).live(i) <==> old(self).live(i) && !due(
                    final(self).collector().pins(),
                    old(self).collector().bag(),
                ).contains(i),
            final(self).collector().holds(*final(guard)),
            final(guard).slot() == old(guard).slot(),
            final(self)@ == old(self)@,
            final(self).chain() == old(self).chain(),
            final(self).retired() == old(self).retired(),
            final(self).front() == old(self).front(),
            final(self).back() == old(self).back(),
            forall|i: usize|
                final(self).live(i) ==> old(self).live(i) && final(self).nodes()[i as int] == old(self).nodes()[i as int],
            forall|h: Guard|
                old(self).collector().holds(h) && h.slot() != old(guard).slot() ==> final(self).collector().holds(h),
            forall|h: Guard, i: usize|
                old(self).guards(h, i) && h.slot() != old(guard).slot() ==> final(self).guards(h, i),
    {
        let released = self.collector.repin(guard);
        proof {
            lemma_sorting(self.collector().pins(), old(self).collector().bag());
        }
        self.destroy(released, Ghost(*old(self)));
    }

    /// Destroys the nodes that the collector has released.
    fn destroy(&mut self, released: Vec<usize>, Ghost(before): Ghost<Self>)
        requires
            before.wf(),
            old(self).collector().wf(),
            old(self).slots@ == before.slots@,
            old(self).chain() == before.chain(),
            old(self).retired() == before.retired(),
            old(self).front() == before.front(),
            old(self).back() == before.back(),
            forall|i: usize|
                #[trigger] bagged(before.collector().bag(), i) <==> (bagged(old(self).collector().bag(), i)
                    != released@.contains(i)),
            forall|i: usize|
                !(#[trigger] bagged(before.collector().bag(), i)) ==> !bagged(
                    old(self).collector().bag(),
                    i,
                ) && !released@.contains(i),
        ensures
            final(self).wf(),
            final(self).collector() == old(self).collector(),
            final(self)@ == before@,
            final(self).chain() == before.chain(),
            final(self).retired() == before.retired(),
            final(self).front() == before.front(),
            final(self).back() == before.back(),
            final(self).nodes().len() == before.nodes().len(),
            forall|i: usize| final(self).live(i) <==> before.live(i) && !released@.contains(i),
            forall|i: usize| final(self).live(i) ==> final(self).nodes()[i as int] == before.nodes()[i as int],
    {
        proof {
            assert forall|k: int| 0 <= k < released@.len() implies #[trigger] released@[k] < self.slots@.len() by {
                let i = released@[k];
                assert(released@.contains(i));
                if !bagged(before.collector().bag(), i) {
                    assert(!released@.contains(i));
                }
                assert(before.retired().contains(i));
                assert(before.retired()[before.retired().index_of(i)] < before.nodes().len());
            }
        }
        destroy_released(&mut self.slots, &released);
        proof {
            assert forall|i: usize| self.live(i) <==> before.live(i) && !released@.contains(i) by {
                if i < self.slots@.len() {
                    assert(self.slots@[i as int] == (if released@.contains(i) {
                        None
                    } else {
                        before.slots@[i as int]
                    }));
                }
            }
            assert forall|i: usize| self.live(i) implies self.nodes()[i as int] == before.nodes()[i as int] by {
                assert(self.slots@[i as int] == before.slots@[i as int]);
            }
            let c = self.chain();
            assert forall|p: int| 0 <= p < c.len() implies self.live(#[trigger] c[p]) by {
                before.lemma_pos_at(p);
                assert(before.live(c[p]));
                if released@.contains(c[p]) {
                    if !bagged(before.collector().bag(), c[p]) {
                        assert(!released@.contains(c[p]));
                    }
                    assert(before.retired().contains(c[p]));
                }
            }
            assert forall|p: int| 0 <= p < c.len() implies (#[trigger] self.nodes()[c[p] as int]).next == at(
                c,
                p + 1,
            ) by {
                assert(self.live(c[p]));
                assert(before.nodes()[c[p] as int].next == at(c, p + 1));
            }
            assert forall|p: int| 1 <= p < c.len() implies (#[trigger] self.nodes()[c[p] as int]).data is Some by {
                assert(self.live(c[p]));
                assert(before.nodes()[c[p] as int].data is Some);
            }
            assert forall|p: int| 0 <= p < self.retired().len() && self.live(self.retired()[p]) implies (
            #[trigger] self.nodes()[self.retired()[p] as int]).next is Some by {
                assert(before.live(before.retired()[p]));
                assert(before.nodes()[before.retired()[p] as int].next is Some);
            }
            assert forall|i: usize| i < self.nodes().len() implies (#[trigger] self.live(i) <==> c.contains(i)
                || bagged(self.collector().bag(), i)) by {
                assert(before.live(i) <==> c.contains(i) || bagged(before.collector().bag(), i));
                assert(bagged(before.collector().bag(), i) <==> (bagged(self.collector().bag(), i)
                    != released@.contains(i)));
                assert(self.live(i) <==> before.live(i) && !released@.contains(i));
                if bagged(before.collector().bag(), i) {
                    assert(before.retired().contains(i));
                }
                assert(c.contains(i) != before.retired().contains(i));
            }
            assert forall|i: usize| #[trigger] bagged(self.collector().bag(), i) implies self.retired().contains(
                i,
            ) by {
                if !bagged(before.collector().bag(), i) {
                    assert(!bagged(self.collector().bag(), i));
                }
            }
            assert(self@ =~= before@) by {
                assert forall|x: int| 0 <= x < c.len() implies self.nodes()[c[x] as int] == before.nodes()[c[x] as int] by {
                    assert(self.live(c[x]));
                }
            }
        }
    }

    /// The node in slot `i`.
    fn node(&self, i: usize) -> (n: &Node<T>)
        requires
            self.live(i),
        ensures
            *n == self.nodes()[i as int],
    {
        match &self.slots[i] {
            Some(n) => n,
            None => vstd::pervasive::unreached(),
        }
    }

    /// Reads the head.
    pub fn load_head(&self, guard: &Guard) -> (h: usize)
        requires
            self.wf(),
            self.collector().holds(*guard),
        ensures
            h == self.front(),
            self.seen_as_head(h),
            self.guards(*guard, h),
    {
        proof {
            self.lemma_pos_at(0);
        }
        self.head
    }

    /// Reads the tail.
    pub fn load_tail(&self, guard: &Guard) -> (t: usize)
        requires
            self.wf(),
            self.collector().holds(*guard),
        ensures
            t == self.back(),
            self.guards(*guard, t),
    {
        self.tail
    }

    /// Reads the `next` field of `node`.
    pub fn load_next(&self, node: usize, guard: &Guard) -> (n: Option<usize>)
        requires
            self.wf(),
            self.guards(*guard, node),
        ensures
            n == self.nodes()[node as int].next,
            self.chain().contains(node) && n is Some ==> self.guards(*guard, n->0),
    {
        proof {
            self.lemma_guarded_is_live(*guard, node);
            if self.chain().contains(node) {
                let p = self.chain().index_of(node);
                assert(self.nodes()[self.chain()[p] as int].next == at(self.chain(), p + 1));
                if p + 1 < self.chain().len() {
                    self.lemma_pos_at(p + 1);
                }
            }
        }
        self.node(node).next
    }

    /// A node on the chain has a position there.
    pub proof fn lemma_pos(&self, i: usize)
        requires
            self.chain().contains(i),
        ensures
            0 <= self.chain().index_of(i) < self.chain().len(),
            self.chain()[self.chain().index_of(i)] == i,
    {
    }

    /// With no node twice on the chain, the position of the node at `p` is
    /// `p`.
    pub proof fn lemma_pos_at(&self, p: int)
        requires
            self.chain().no_duplicates(),
            0 <= p < self.chain().len(),
        ensures
            self.chain().index_of(self.chain()[p]) == p,
            self.chain().contains(self.chain()[p]),
    {
        self.lemma_pos(self.chain()[p]);
    }

    /// A node without a successor is the last node of the chain.
    pub proof fn lemma_last(&self, i: usize)
        requires
            self.wf(),
            self.live(i),
            i < self.nodes().len(),
            self.nodes()[i as int].next is None,
        ensures
            i == self.chain().last(),
            self.chain().contains(i),
    {
        let c = self.chain();
        if !c.contains(i) {
            let p = self.retired().index_of(i);
            assert(self.retired()[p] == i);
            assert(self.nodes()[self.retired()[p] as int].next is Some);
        }
        let p = c.index_of(i);
        assert(self.nodes()[c[p] as int].next == at(c, p + 1));
    }

    /// Swings the tail forward by one node: if `seen` has a successor and the
    /// tail still refers to `seen`, the tail is set to that successor.
    /// Returns whether it did.
    pub fn advance_tail(&mut self, seen: usize, guard: &Guard) -> (swung: bool)
        requires
            old(self).wf(),
            old(self).guards(*guard, seen),
        ensures
            final(self).wf(),
            swung == (old(self).back() == seen && old(self).nodes()[seen as int].next is Some),
            swung ==> final(self).back() == old(self).nodes()[seen as int].next->0,
            swung ==> final(self).lag() == old(self).lag() - 1,
            !swung ==> final(self).back() == old(self).back(),
            final(self).nodes() == old(self).nodes(),
            final(self).chain() == old(self).chain(),
            final(self).retired() == old(self).retired(),
            final(self).front() == old(self).front(),
            final(self).collector() == old(self).collector(),
            final(self)@ == old(self)@,
            forall|i: usize| final(self).live(i) == old(self).live(i),
            forall|h: Guard, i: usize| old(self).guards(h, i) ==> final(self).guards(h, i),
    {
        proof {
            self.lemma_guarded_is_live(*guard, seen);
        }
        match self.node(seen).next {
            Some(next) => {
                if self.tail == seen {
                    proof {
                        let c = self.chain();
                        self.lemma_pos(seen);
                        let p = c.index_of(seen);
                        assert(self.nodes()[c[p] as int].next == at(c, p + 1));
                        self.lemma_pos_at(p + 1);
                    }
                    self.tail = next;
                    proof {
                        assert forall|i: usize| i < self.nodes().len() implies (#[trigger] self.live(i)
                            <==> self.chain().contains(i) || bagged(self.collector().bag(), i)) by {
                            assert(old(self).live(i) <==> old(self).chain().contains(i) || bagged(
                                old(self).collector().bag(),
                                i,
                            ));
                        }
                        assert forall|p: int|
                            0 <= p < self.retired().len() && self.live(self.retired()[p]) implies (
                        #[trigger] self.nodes()[self.retired()[p] as int]).next is Some by {
                            assert(old(self).live(old(self).retired()[p]));
                        }
                        assert(self@ =~= old(self)@);
                    }
                    true
                } else {
                    false
                }
            },
            None => false,
        }
    }

    /// Links a node that holds `value` behind `seen`, with one
    /// compare-and-swap on `seen`'s `next` field.
    ///
    /// Succeeds exactly when `seen` has no successor; `value` is then the
    /// newest element, and the new node's index is returned. The tail is not
    /// touched. Otherwise the queue is unchanged and the value comes back.
    pub fn try_link(&mut self, seen: usize, value: T, guard: &Guard) -> (r: Result<usize, T>)
        requires
            old(self).wf(),
            old(self).guards(*guard, seen),
        ensures
            final(self).wf(),
            r is Ok <==> old(self).nodes()[seen as int].next is None,
            final(self).collector() == old(self).collector(),
            forall|h: Guard, i: usize| old(self).guards(h, i) ==> final(self).guards(h, i),
            match r {
                Ok(n) => {
                    &&& n == old(self).nodes().len()
                    &&& seen == old(self).chain().last()
                    &&& final(self).chain() == old(self).chain().push(n)
                    &&& final(self).nodes().len() == n + 1
                    &&& final(self).nodes()[n as int] == (Node { data: Some(value), next: None })
                    &&& final(self).nodes()[seen as int] == (Node {
                        data: old(self).nodes()[seen as int].data,
                        next: Some(n),
                    })
                    &&& forall|i: usize|
                        i < n && i != seen ==> #[trigger] final(self).nodes()[i as int] == old(self).nodes()[i as int]
                    &&& forall|i: usize| i < n ==> final(self).live(i) == old(self).live(i)
                    &&& final(self).live(n)
                    &&& final(self).retired() == old(self).retired()
                    &&& final(self).front() == old(self).front()
                    &&& final(self).back() == old(self).back()
                    &&& final(self).lag() == old(self).lag() + 1
                    &&& final(self)@ == old(self)@.push(value)
                    &&& final(self)@ == after(old(self)@, Step::Link(value))
                },
                Err(back) => back == value && *final(self) == *old(self),
            },
    {
        proof {
            self.lemma_guarded_is_live(*guard, seen);
        }
        if self.node(seen).next.is_some() {
            return Err(value);
        }
        let ghost before = *self;
        let n = self.slots.len();
        self.slots.push(Some(Node { data: Some(value), next: None }));
        match &mut self.slots[seen] {
            Some(node) => {
                node.next = Some(n);
            },
            None => {},
        }
        proof {
            before.lemma_last(seen);
            let c = before.chain();
            self.chain@ = c.push(n);
            let d = self.chain();
            assert(!c.contains(n)) by {
                if c.contains(n) {
                    assert(c[c.index_of(n)] < before.nodes().len());
                }
            }
            assert(!before.retired().contains(n)) by {
                if before.retired().contains(n) {
                    assert(before.retired()[before.retired().index_of(n)] < before.nodes().len());
                }
            }
            assert forall|i: usize| d.contains(i) <==> (c.contains(i) || i == n) by {
                if c.contains(i) {
                    assert(d[c.index_of(i)] == i);
                }
                if i == n {
                    assert(d[c.len() as int] == n);
                }
            }
            assert forall|i: usize| i < n && i != seen implies self.nodes()[i as int] == before.nodes()[i as int]
                && self.live(i) == before.live(i) by {
                assert(self.slots@[i as int] == before.slots@[i as int]);
            }
            assert(self.live(seen) && self.live(n));
            assert forall|p: int| 0 <= p < d.len() implies (#[trigger] self.nodes()[d[p] as int]).next == at(
                d,
                p + 1,
            ) by {
                if p < c.len() {
                    assert(before.nodes()[c[p] as int].next == at(c, p + 1));
                    before.lemma_pos_at(p);
                    before.lemma_pos_at(c.len() - 1);
                }
            }
            assert forall|p: int| 1 <= p < d.len() implies (#[trigger] self.nodes()[d[p] as int]).data is Some by {
                if p < c.len() {
                    assert(before.nodes()[c[p] as int].data is Some);
                }
            }
            assert forall|p: int| 0 <= p < self.retired().len() && self.live(self.retired()[p]) implies (
            #[trigger] self.nodes()[self.retired()[p] as int]).next is Some by {
                let x = before.retired()[p];
                assert(before.retired().contains(x));
                assert(x != seen);
                assert(before.live(x));
                assert(before.nodes()[before.retired()[p] as int].next is Some);
            }
            assert forall|i: usize| i < self.nodes().len() implies (#[trigger] self.live(i) <==> d.contains(i)
                || bagged(self.collector().bag(), i)) by {
                if i < n {
                    assert(before.live(i) <==> c.contains(i) || bagged(before.collector().bag(), i));
                }
            }
            before.lemma_pos(before.back());
            let t = c.index_of(before.back());
            assert(d[t] == before.back());
            assert(d.index_of(self.back()) == t) by {
                let x = d.index_of(self.back());
                if x != t {
                    assert(d[x] == d[t]);
                }
            }
            assert(self@ =~= before@.push(value)) by {
                assert forall|k: int| 0 <= k < before@.len() implies self@[k] == before@[k] by {
                    assert(before.nodes()[c[k + 1] as int].data is Some);
                    before.lemma_pos_at(k + 1);
                    before.lemma_pos_at(c.len() - 1);
                }
            }
        }
        Ok(n)
    }

    /// With nobody pinned, the nodes that exist are those on the chain.
    pub proof fn lemma_idle(&self)
        requires
            self.wf(),
            idle(self.collector().pins()),
        ensures
            self.collector().bag().len() == 0,
            forall|i: usize| self.live(i) <==> self.chain().contains(i),
    {
        lemma_visit(
            self.collector().pins(),
            settled(self.collector().pins()),
            self.collector().bag(),
            self.collector().now(),
            Seq::empty(),
        );
        assert forall|i: usize| self.live(i) <==> self.chain().contains(i) by {
            if self.live(i) {
                assert(self.live(i) <==> self.chain().contains(i) || bagged(self.collector().bag(), i));
            }
            if self.chain().contains(i) {
                let p = self.chain().index_of(i);
                assert(self.chain()[p] < self.nodes().len());
                assert(self.live(i) <==> self.chain().contains(i) || bagged(self.collector().bag(), i));
            }
        }
    }

    /// Takes the queue apart: frees the sentinel, then walks on from its
    /// successor, frees every node, and gives the payloads, oldest first.
    ///
    /// Nobody may be pinned any more. Then the nodes on the chain are all
    /// the nodes there are, so that nothing stays allocated.
    pub fn teardown(self) -> (out: Vec<T>)
        requires
            self.wf(),
            idle(self.collector().pins()),
        ensures
            out@ == self@,
            self.collector().bag().len() == 0,
            forall|i: usize| self.live(i) <==> self.chain().contains(i),
    {
        let ghost c = self.chain();
        let ghost k = 1int;
        let mut this = self;
        let mut out: Vec<T> = Vec::new();
        proof {
            self.lemma_idle();
            self.lemma_pos_at(0);
            assert(self.live(c[0]));
            assert(self.nodes()[c[0] as int].next == at(c, 1));
        }
        let ghost whole = this.slots@;
        let mut curr = match this.slots[this.head].take() {
            Some(sentinel) => sentinel.next,
            None => None,
        };
        proof {
            assert(self@.take(0) =~= Seq::<T>::empty());
            assert forall|j: int| 1 <= j < c.len() implies #[trigger] this.slots@[c[j] as int]
                == self.slots@[c[j] as int] by {
                self.lemma_pos_at(j);
            }
            assert forall|i: usize| i < this.slots@.len() && (#[trigger] this.slots@[i as int]) is Some implies exists|
                j: int,
            | 1 <= j < c.len() && c[j] == i by {
                assert(whole[i as int] is Some);
                assert(self.live(i));
                let j = c.index_of(i);
                assert(c[j] == i);
            }
        }
        loop
            invariant
                self.wf(),
                c == self.chain(),
                1 <= k <= c.len(),
                curr == at(c, k),
                this.slots@.len() == self.slots@.len(),
                out@ == self@.take(k - 1),
                forall|j: int| k <= j < c.len() ==> #[trigger] this.slots@[c[j] as int] == self.slots@[c[j] as int],
                forall|i: usize| i < this.slots@.len() && (#[trigger] this.slots@[i as int]) is Some ==> exists|j: int|
                    k <= j < c.len() && c[j] == i,
            ensures
                out@ == self@,
                forall|i: usize| i < this.slots@.len() ==> (#[trigger] this.slots@[i as int]) is None,
            decreases c.len() - k,
        {
            let i = match curr {
                Some(i) => i,
                None => {
                    proof {
                        assert(self@.take(k - 1) =~= self@);
                    }
                    break;
                },
            };
            proof {
                self.lemma_pos_at(k);
                assert(self.live(c[k]));
                assert(self.nodes()[c[k] as int].data is Some);
                assert(self.nodes()[c[k] as int].next == at(c, k + 1));
            }
            let ghost prior = this.slots@;
            match this.slots[i].take() {
                Some(node) => {
                    match node.data {
                        Some(value) => {
                            out.push(value);
                        },
                        None => {},
                    }
                    curr = node.next;
                },
                None => {
                    curr = None;
                },
            }
            proof {
                assert(self@.take(k) =~= self@.take(k - 1).push(self@[k - 1]));
                assert forall|j: int| k + 1 <= j < c.len() implies #[trigger] this.slots@[c[j] as int]
                    == self.slots@[c[j] as int] by {
                    self.lemma_pos_at(j);
                    assert(prior[c[j] as int] == self.slots@[c[j] as int]);
                }
                assert forall|x: usize| x < this.slots@.len() && (#[trigger] this.slots@[x as int]) is Some implies exists|
                    j: int,
                | k + 1 <= j < c.len() && c[j] == x by {
                    assert(prior[x as int] is Some);
                    let j = choose|j: int| k <= j < c.len() && c[j] == x;
                    assert(j != k);
                }
                k = k + 1;
            }
        }
        out
    }

    /// What is left of the collector and the arena when, in the course of an
    /// operation on this queue, the party `was` has repinned itself as `is`
    /// and has then retired the nodes of `run`: the party stands at the epoch
    /// of the start, what was waiting for it alone is destroyed, and `run`
    /// is in the bag behind what still waits.
    pub open spec fn repinned(&self, later: &Self, was: Guard, is: Guard, run: Seq<usize>) -> bool {
        let now = self.collector().now();
        let pins = self.collector().pins().update(was.slot() as int, Some(now));
        &&& is.slot() == was.slot()
        &&& is.epoch() == now
        &&& later.collector().pins() == pins
        &&& later.collector().now() == tick(now, run.len())
        &&& later.collector().bag() == retire_each(pending(pins, self.collector().bag()), now, run)
        &&& forall|i: usize|
            i < self.nodes().len() ==> (#[trigger] later.live(i) <==> self.live(i) && !due(
                pins,
                self.collector().bag(),
            ).contains(i))
    }

    /// Enqueues `value`.
    ///
    /// Reads the tail and its successor. A lagging tail is swung forward and
    /// the round starts over; otherwise the new node is linked behind the
    /// tail and the tail is swung to it. The caller is pinned, and repins
    /// itself before every round but the first: if the tail was lagging, the
    /// caller comes back pinned at the epoch of the call, and the retired
    /// nodes that were waiting for it alone are destroyed.
    pub fn push(&mut self, value: T, guard: &mut Guard)
        requires
            old(self).wf(),
            old(self).collector().holds(*old(guard)),
        ensures
            final(self).wf(),
            final(self)@ == old(self)@.push(value),
            final(self)@ == linked(old(self)@, value),
            final(self).chain() == old(self).chain().push(final(self).back()),
            final(self).back() == old(self).nodes().len(),
            final(self).lag() == 0,
            final(self).front() == old(self).front(),
            final(self).retired() == old(self).retired(),
            final(self).nodes().len() == old(self).nodes().len() + 1,
            final(self).live(final(self).back()),
            final(self).collector().holds(*final(guard)),
            if old(self).lag() == 0 {
                &&& *final(guard) == *old(guard)
                &&& final(self).collector() == old(self).collector()
                &&& forall|i: usize| i < old(self).nodes().len() ==> final(self).live(i) == old(self).live(i)
                &&& forall|h: Guard, i: usize| old(self).guards(h, i) ==> final(self).guards(h, i)
            } else {
                old(self).repinned(final(self), *old(guard), *final(guard), Seq::empty())
            },
            forall|h: Guard|
                old(self).collector().holds(h) && h.slot() != old(guard).slot() ==> final(self).collector().holds(h),
            forall|h: Guard, i: usize|
                old(self).guards(h, i) && h.slot() != old(guard).slot() ==> final(self).guards(h, i),
    {
        let ghost pushed = value;
        let ghost again = false;
        let mut value = value;
        loop
            invariant_except_break
                self@ == old(self)@,
                value == pushed,
                self.chain() == old(self).chain(),
                self.nodes().len() == old(self).nodes().len(),
            invariant
                old(self).wf(),
                self.wf(),
                0 <= self.lag() <= old(self).lag(),
                self.collector().holds(*guard),
                guard.slot() == old(guard).slot(),
                old(self).collector().holds(*old(guard)),
                self.front() == old(self).front(),
                self.retired() == old(self).retired(),
                !again ==> {
                    &&& *guard == *old(guard)
                    &&& self.collector() == old(self).collector()
                    &&& self.lag() == old(self).lag()
                    &&& forall|i: usize| i < old(self).nodes().len() ==> self.live(i) == old(self).live(i)
                    &&& forall|h: Guard, i: usize| old(self).guards(h, i) ==> self.guards(h, i)
                },
                again ==> old(self).lag() >= 1 && old(self).repinned(self, *old(guard), *guard, Seq::empty()),
                forall|h: Guard|
                    old(self).collector().holds(h) && h.slot() != old(guard).slot() ==> self.collector().holds(h),
                forall|h: Guard, i: usize|
                    old(self).guards(h, i) && h.slot() != old(guard).slot() ==> self.guards(h, i),
            ensures
                self@ == old(self)@.push(pushed),
                self.chain() == old(self).chain().push(self.back()),
                self.back() == old(self).nodes().len(),
                self.lag() == 0,
                self.nodes().len() == old(self).nodes().len() + 1,
                self.live(self.back()),
                again == (old(self).lag() >= 1),
            decreases self.lag(),
        {
            proof {
                self.lemma_pos(self.back());
            }
            let tail = self.load_tail(guard);
            let next = self.load_next(tail, guard);
            if next.is_none() {
                match self.try_link(tail, value, guard) {
                    Ok(_) => {
                        let swung = self.advance_tail(tail, guard);
                        proof {
                            assert(swung);
                            self.lemma_pos_at(self.chain().len() - 1);
                        }
                        break;
                    },
                    Err(back) => {
                        value = back;
                    },
                }
            } else {
                let swung = self.advance_tail(tail, guard);
                assert(swung);
            }
            let ghost mid = *self;
            let ghost before = *guard;
            self.repin(guard);
            proof {
                let p0 = old(self).collector().pins();
                let b0 = old(self).collector().bag();
                let now = old(self).collector().now();
                let pins = p0.update(before.slot() as int, Some(now));
                assert(self.collector().pins() =~= pins);
                if again {
                    lemma_all_pending(pins, mid.collector().bag());
                    assert forall|i: usize| i < old(self).nodes().len() implies (#[trigger] self.live(i)
                        <==> old(self).live(i) && !due(pins, b0).contains(i)) by {
                        assert(mid.live(i) <==> old(self).live(i) && !due(pins, b0).contains(i));
                        assert(!Seq::<usize>::empty().contains(i));
                    }
                } else {
                    assert forall|i: usize| i < old(self).nodes().len() implies (#[trigger] self.live(i)
                        <==> old(self).live(i) && !due(pins, b0).contains(i)) by {
                        assert(mid.live(i) == old(self).live(i));
                    }
                }
                again = true;
            }
        }
    }

    /// Tries to dequeue, given the node `seen` that a load of the head gave.
    ///
    /// If `seen` has no successor the queue is empty: `Ok(None)`. If the
    /// tail still refers to `seen` although `seen` has a successor, the tail
    /// lags: it is swung forward and the caller starts over. Otherwise the
    /// head is swung from `seen` to its successor with one compare-and-swap.
    /// If that succeeds, the successor's payload is moved out and returned,
    /// and `seen` is retired; if the head has moved on in the meantime,
    /// nothing changes and the caller starts over.
    pub fn try_pop(&mut self, seen: usize, guard: &Guard) -> (r: Result<Option<T>, Retry>)
        requires
            old(self).wf(),
            old(self).seen_as_head(seen),
            old(self).guards(*guard, seen),
        ensures
            final(self).wf(),
            forall|h: Guard| old(self).collector().holds(h) ==> final(self).collector().holds(h),
            forall|h: Guard, i: usize| old(self).guards(h, i) ==> final(self).guards(h, i),
            match r {
                Ok(None) => {
                    &&& seen == old(self).front()
                    &&& old(self)@.len() == 0
                    &&& *final(self) == *old(self)
                },
                Ok(Some(v)) => {
                    &&& seen == old(self).front()
                    &&& seen != old(self).back()
                    &&& old(self)@.len() > 0
                    &&& v == old(self)@[0]
                    &&& final(self)@ == old(self)@.skip(1)
                    &&& final(self)@ == after(old(self)@, Step::Unlink)
                    &&& final(self).chain() == old(self).chain().skip(1)
                    &&& final(self).retired() == old(self).retired().push(seen)
                    &&& old(self).collector().after_retiring(&final(self).collector(), seq![seen])
                    &&& final(self).front() == old(self).chain()[1]
                    &&& final(self).back() == old(self).back()
                    &&& final(self).nodes().len() == old(self).nodes().len()
                    &&& forall|i: usize| final(self).live(i) == old(self).live(i)
                    &&& forall|i: usize|
                        i < old(self).nodes().len() && i != old(self).chain()[1] ==> final(self).nodes()[i as int]
                            == old(self).nodes()[i as int]
                    &&& final(self).nodes()[old(self).chain()[1] as int] == (Node::<T> {
                        data: None,
                        next: old(self).nodes()[old(self).chain()[1] as int].next,
                    })
                },
                Err(Retry::Helped) => {
                    &&& seen == old(self).back()
                    &&& seen == old(self).front()
                    &&& old(self)@.len() > 0
                    &&& final(self).back() == old(self).chain()[1]
                    &&& final(self).lag() == old(self).lag() - 1
                    &&& final(self).front() == old(self).front()
                    &&& final(self).nodes() == old(self).nodes()
                    &&& final(self).chain() == old(self).chain()
                    &&& final(self).retired() == old(self).retired()
                    &&& final(self).collector() == old(self).collector()
                    &&& final(self)@ == old(self)@
                },
                Err(Retry::Lost) => {
                    &&& seen != old(self).back()
                    &&& seen != old(self).front()
                    &&& *final(self) == *old(self)
                },
            },
    {
        let ghost before = *self;
        let ghost c = self.chain();
        proof {
            self.lemma_guarded_is_live(*guard, seen);
            if seen != self.front() {
                let p = self.retired().index_of(seen);
                assert(self.retired()[p] == seen);
                assert(self.nodes()[self.retired()[p] as int].next is Some);
                if self.back() == seen {
                    assert(c.contains(seen));
                }
            } else {
                assert(self.nodes()[c[0] as int].next == at(c, 1));
                self.lemma_pos_at(0);
            }
        }
        let next = match self.node(seen).next {
            Some(next) => next,
            None => {
                assert(self@ =~= Seq::<T>::empty());
                return Ok(None);
            },
        };
        if self.tail == seen {
            let swung = self.advance_tail(seen, guard);
            assert(swung);
            return Err(Retry::Helped);
        }
        if self.head != seen {
            return Err(Retry::Lost);
        }
        proof {
            assert(next == c[1]);
            assert(c[1] < before.nodes().len());
            before.lemma_pos_at(1);
            before.lemma_pos_at(0);
            assert(before.live(next));
            if bagged(before.collector().bag(), seen) {
                assert(before.retired().contains(seen));
            }
        }
        self.head = next;
        let value = match &mut self.slots[next] {
            Some(node) => node.data.take(),
            None => None,
        };
        self.collector.defer_destroy(guard, seen);
        proof {
            assert(before.nodes()[c[1] as int].data is Some);
            self.chain@ = c.skip(1);
            self.retired@ = before.retired().push(seen);
            let d = self.chain();
            let r0 = before.retired();
            let r1 = self.retired();
            let b0 = before.collector().bag();
            let b1 = self.collector().bag();
            assert forall|q: int| 0 <= q < d.len() implies #[trigger] d[q] == c[q + 1] by {}
            assert forall|i: usize| d.contains(i) <==> (c.contains(i) && i != seen) by {
                if d.contains(i) {
                    let q = d.index_of(i);
                    assert(c[q + 1] == i);
                }
                if c.contains(i) && i != seen {
                    let q = c.index_of(i);
                    assert(d[q - 1] == i);
                }
            }
            assert forall|i: usize| r1.contains(i) <==> (r0.contains(i) || i == seen) by {
                if r0.contains(i) {
                    assert(r1[r0.index_of(i)] == i);
                }
                if i == seen {
                    assert(r1[r0.len() as int] == seen);
                }
            }
            assert forall|i: usize| bagged(b1, i) <==> (bagged(b0, i) || i == seen) by {
                if bagged(b0, i) {
                    let k = choose|k: int| 0 <= k < b0.len() && (#[trigger] b0[k]).node == i;
                    assert(b1[k].node == i);
                }
                if i == seen {
                    assert(b1[b0.len() as int].node == seen);
                }
                if bagged(b1, i) {
                    let k = choose|k: int| 0 <= k < b1.len() && (#[trigger] b1[k]).node == i;
                    if k < b0.len() {
                        assert(b0[k].node == i);
                    }
                }
            }
            assert forall|i: usize| i < before.nodes().len() && i != next implies self.nodes()[i as int]
                == before.nodes()[i as int] && self.live(i) == before.live(i) by {
                assert(self.slots@[i as int] == before.slots@[i as int]);
            }
            assert(self.live(next));
            assert(self.nodes()[next as int].next == before.nodes()[next as int].next);
            assert(c.contains(seen)) by {
                assert(c[0] == seen);
            }
            assert forall|p: int| 0 <= p < d.len() implies (#[trigger] self.nodes()[d[p] as int]).next == at(
                d,
                p + 1,
            ) by {
                assert(before.nodes()[c[p + 1] as int].next == at(c, p + 2));
            }
            assert forall|p: int| 1 <= p < d.len() implies (#[trigger] self.nodes()[d[p] as int]).data is Some by {
                assert(before.nodes()[c[p + 1] as int].data is Some);
                before.lemma_pos_at(p + 1);
            }
            assert forall|p: int| 0 <= p < r1.len() && self.live(r1[p]) implies (#[trigger] self.nodes()[r1[p] as int]).next is Some by {
                if p < r0.len() {
                    assert(r0.contains(r0[p]));
                    assert(before.live(r0[p]));
                    assert(before.nodes()[r0[p] as int].next is Some);
                }
            }
            assert forall|i: usize| i < self.nodes().len() implies (#[trigger] self.live(i) <==> d.contains(i)
                || bagged(b1, i)) by {
                assert(before.live(i) <==> c.contains(i) || bagged(b0, i));
            }
            assert(self@ =~= before@.skip(1)) by {
                assert forall|k: int| 0 <= k < self@.len() implies self@[k] == before@[k + 1] by {
                    before.lemma_pos_at(k + 2);
                }
            }
            assert forall|h: Guard, i: usize| before.guards(h, i) implies self.guards(h, i) by {
                if c.contains(i) && i == seen {
                    assert(self.collector().shields(h, seen));
                } else if !c.contains(i) {
                    assert(before.collector().shields(h, i));
                    assert(self.collector().shields(h, i));
                }
            }
        }
        Ok(value)
    }

    /// Dequeues the oldest element, if there is one.
    ///
    /// A round that found the tail lagging at the sentinel, and swung it
    /// forward, is followed by another. The caller is pinned, and repins
    /// itself before every round but the first: after such a dequeue it
    /// comes back pinned at the epoch of the call, and the retired nodes that
    /// were waiting for it alone are destroyed.
    pub fn pop(&mut self, guard: &mut Guard) -> (r: Option<T>)
        requires
            old(self).wf(),
            old(self).collector().holds(*old(guard)),
        ensures
            final(self).wf(),
            final(self).collector().holds(*final(guard)),
            final(guard).slot() == old(guard).slot(),
            (final(self)@, r) == unlinked(old(self)@),
            forall|h: Guard|
                old(self).collector().holds(h) && h.slot() != old(guard).slot() ==> final(self).collector().holds(h),
            forall|h: Guard, i: usize|
                old(self).guards(h, i) && h.slot() != old(guard).slot() ==> final(self).guards(h, i),
            match r {
                Some(v) => {
                    let first = old(self).chain()[1];
                    &&& old(self)@.len() > 0
                    &&& v == old(self)@[0]
                    &&& final(self)@ == old(self)@.skip(1)
                    &&& final(self).chain() == old(self).chain().skip(1)
                    &&& final(self).front() == first
                    &&& final(self).retired() == old(self).retired().push(old(self).front())
                    &&& final(self).nodes().len() == old(self).nodes().len()
                    &&& final(self).nodes()[first as int] == (Node::<T> {
                        data: None,
                        next: old(self).nodes()[first as int].next,
                    })
                    &&& forall|i: usize|
                        final(self).live(i) && i != first ==> final(self).nodes()[i as int] == old(self).nodes()[i as int]
                    &&& if old(self).back() == old(self).front() {
                        &&& final(self).back() == first
                        &&& old(self).repinned(final(self), *old(guard), *final(guard), seq![old(self).front()])
                    } else {
                        &&& final(self).back() == old(self).back()
                        &&& *final(guard) == *old(guard)
                        &&& old(self).collector().after_retiring(&final(self).collector(), seq![old(self).front()])
                        &&& forall|i: usize| final(self).live(i) == old(self).live(i)
                        &&& forall|h: Guard, i: usize| old(self).guards(h, i) ==> final(self).guards(h, i)
                    }
                },
                None => old(self)@.len() == 0 && *final(self) == *old(self) && *final(guard) == *old(guard),
            },
    {
        let ghost again = false;
        loop
            invariant
                old(self).wf(),
                self.wf(),
                self@ == old(self)@,
                self.collector().holds(*guard),
                guard.slot() == old(guard).slot(),
                self.chain() == old(self).chain(),
                self.front() == old(self).front(),
                self.retired() == old(self).retired(),
                self.nodes().len() == old(self).nodes().len(),
                !again ==> *self == *old(self) && *guard == *old(guard),
                again ==> {
                    &&& old(self).back() == old(self).front()
                    &&& self.chain().len() > 1
                    &&& self.back() == self.chain()[1]
                    &&& old(self).repinned(self, *old(guard), *guard, Seq::empty())
                    &&& forall|i: usize| self.live(i) ==> self.nodes()[i as int] == old(self).nodes()[i as int]
                },
                forall|h: Guard|
                    old(self).collector().holds(h) && h.slot() != old(guard).slot() ==> self.collector().holds(h),
                forall|h: Guard, i: usize|
                    old(self).guards(h, i) && h.slot() != old(guard).slot() ==> self.guards(h, i),
            decreases
                    (if self.back() == self.front() {
                        1int
                    } else {
                        0int
                    }),
        {
            proof {
                self.lemma_pos_at(0);
                if self.chain().len() > 1 {
                    self.lemma_pos_at(1);
                }
            }
            let ghost here = *self;
            let head = self.load_head(guard);
            match self.try_pop(head, guard) {
                Ok(r) => {
                    proof {
                        if again && r is Some {
                            let front = old(self).front();
                            assert(old(self)@.skip(1) =~= here@.skip(1));
                            assert(here.collector().after_retiring(&self.collector(), seq![front]));
                            assert forall|i: usize| i < old(self).nodes().len() implies (#[trigger] self.live(i)
                                <==> old(self).live(i) && !due(here.collector().pins(), old(self).collector().bag()).contains(
                                i,
                            )) by {
                                assert(self.live(i) == here.live(i));
                            }
                        }
                    }
                    return r;
                },
                Err(_) => {},
            }
            let ghost mid = *self;
            let ghost before = *guard;
            self.repin(guard);
            proof {
                let p0 = old(self).collector().pins();
                let pins = p0.update(before.slot() as int, Some(old(self).collector().now()));
                assert(self.collector().pins() =~= pins);
                assert forall|i: usize| i < old(self).nodes().len() implies (#[trigger] self.live(i)
                    <==> old(self).live(i) && !due(pins, old(self).collector().bag()).contains(i)) by {
                    assert(mid.live(i) == old(self).live(i));
                }
                again = true;
            }
        }
    }
}

/// What can happen to the elements of a queue: a value is linked at the
/// back, or a dequeue is made at the front.
pub enum Step<T> {
    Link(T),
    Unlink,
}

/// The queue after one step.
pub open spec fn after<T>(queue: Seq<T>, step: Step<T>) -> Seq<T> {
    match step {
        Step::Link(value) => linked(queue, value),
        Step::Unlink => unlinked(queue).0,
    }
}

/// The queue after a history of steps, starting empty.
pub open spec fn replay<T>(history: Seq<Step<T>>) -> Seq<T>
    decreases history.len(),
{
    if history.len() == 0 {
        Seq::empty()
    } else {
        after(replay(history.drop_last()), history.last())
    }
}

/// The values that a history linked, in order.
pub open spec fn put_in<T>(history: Seq<Step<T>>) -> Seq<T>
    decreases history.len(),
{
    if history.len() == 0 {
        Seq::empty()
    } else {
        match history.last() {
            Step::Link(value) => put_in(history.drop_last()).push(value),
            Step::Unlink => put_in(history.drop_last()),
        }
    }
}

/// The values that the dequeues of a history gave, in order.
pub open spec fn taken_out<T>(history: Seq<Step<T>>) -> Seq<T>
    decreases history.len(),
{
    if history.len() == 0 {
        Seq::empty()
    } else {
        match (history.last(), unlinked(replay(history.drop_last())).1) {
            (Step::Unlink, Some(value)) => taken_out(history.drop_last()).push(value),
            _ => taken_out(history.drop_last()),
        }
    }
}

/// Nothing is lost, nothing comes out twice, and nothing overtakes: in every
/// history, however the steps of the parties fall, what the dequeues gave,
/// followed by what is still in the queue, is exactly what was linked, in the
/// order in which it was linked.
pub proof fn law_nothing_lost<T>(history: Seq<Step<T>>)
    ensures
        put_in(history) == taken_out(history) + replay(history),
    decreases history.len(),
{
    if history.len() > 0 {
        let past = history.drop_last();
        law_nothing_lost(past);
        let queue = replay(past);
        match history.last() {
            Step::Link(value) => {
                assert((taken_out(past) + queue).push(value) =~= taken_out(past) + queue.push(value));
            },
            Step::Unlink => {
                if queue.len() > 0 {
                    assert(taken_out(past).push(queue[0]) + queue.skip(1) =~= taken_out(past) + queue);
                }
            },
        }
    } else {
        assert(put_in(history) =~= taken_out(history) + replay(history));
    }
}

/// First in, first out: in every history, what the dequeues gave is the
/// front of what was linked, in the order in which it was linked.
pub proof fn law_first_in_first_out<T>(history: Seq<Step<T>>)
    ensures
        taken_out(history).is_prefix_of(put_in(history)),
{
    law_nothing_lost(history);
    let out = taken_out(history);
    assert((out + replay(history)).subrange(0, out.len() as int) =~= out);
}

/// Each value comes out once: in a history that links no value twice, no two
/// dequeues give the same value, and none gives a value that is still in the
/// queue.
pub proof fn law_each_once<T>(history: Seq<Step<T>>)
    requires
        put_in(history).no_duplicates(),
    ensures
        taken_out(history).no_duplicates(),
        replay(history).no_duplicates(),
        forall|v: T| !(taken_out(history).contains(v) && replay(history).contains(v)),
{
    law_nothing_lost(history);
    let all = put_in(history);
    let out = taken_out(history);
    let rest = replay(history);
    assert forall|i: int, j: int| 0 <= i < out.len() && 0 <= j < out.len() && i != j implies out[i] != out[j] by {
        assert(all[i] == out[i] && all[j] == out[j]);
    }
    assert forall|i: int, j: int| 0 <= i < rest.len() && 0 <= j < rest.len() && i != j implies rest[i]
        != rest[j] by {
        assert(all[out.len() + i] == rest[i] && all[out.len() + j] == rest[j]);
    }
    assert forall|v: T| !(out.contains(v) && rest.contains(v)) by {
        if out.contains(v) && rest.contains(v) {
            let i = out.index_of(v);
            let j = rest.index_of(v);
            assert(all[i] == v && all[out.len() + j] == v);
        }
    }
}

} // verus!
