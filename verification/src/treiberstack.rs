//! A last-in first-out stack in the manner of Treiber.
//!
//! The nodes live in an arena and refer to each other by index; the head
//! refers to the top node. Both operations change the stack with one
//! compare-and-swap on the head: pushing swings it to a new node whose
//! successor is the old top, popping swings it to the top's successor, moves
//! the payload out and retires the node. A retired node is destroyed once
//! no pinned party can still hold a reference to it; its arena slot is never
//! given to another node, so an index names the same node for ever.
//!
//! `try_push` and `try_pop` are the single steps. They take the head that
//! the caller observed earlier and are defined for every well-formed stack
//! they may meet, so that observations and steps of several parties can be
//! interleaved in any order: whichever compare-and-swap comes first wins, and
//! the other finds the head changed and starts over. A party that pops must
//! be pinned from its load of the head to its swap, because the swap reads
//! the node that the load gave. `push` and `pop` run one operation to its
//! end.

use vstd::prelude::*;
use crate::epoch::bagged;
use crate::epoch::bagged_since;
use crate::epoch::Collector;
use crate::epoch::destroy_released;
use crate::epoch::due;
use crate::epoch::Guard;
use crate::epoch::idle;
use crate::epoch::lemma_retire_one;
use crate::epoch::lemma_sorting;
use crate::epoch::lemma_visit;
use crate::epoch::pending;
use crate::epoch::Retired;
use crate::epoch::settled;
use crate::epoch::tick;
use crate::link::at;

verus! {

/// One cell of the stack. The payload is absent once it has been popped.
pub struct Node<T> {
    pub data: Option<T>,
    pub next: Option<usize>,
}

/// The stack: an arena of nodes, the head reference, and the collector for
/// retired nodes. The chain and the retired nodes are kept beside them for
/// the proofs.
pub struct Stack<T> {
    slots: Vec<Option<Node<T>>>,
    head: Option<usize>,
    collector: Collector,
    chain: Ghost<Seq<usize>>,
    retired: Ghost<Seq<usize>>,
}

impl<T> Stack<T> {
    /// The arena: every node that was ever pushed, by index. What it says
    /// of a destroyed node is without meaning.
    pub closed spec fn nodes(&self) -> Seq<Node<T>> {
        Seq::new(self.slots@.len(), |i: int| self.slots@[i]->0)
    }

    /// Node `i` exists and has not been destroyed.
    pub closed spec fn live(&self, i: usize) -> bool {
        i < self.slots@.len() && self.slots@[i as int] is Some
    }

    /// The nodes on the stack, top first.
    pub closed spec fn chain(&self) -> Seq<usize> {
        self.chain@
    }

    /// The popped nodes, in the order in which they were retired.
    pub closed spec fn retired(&self) -> Seq<usize> {
        self.retired@
    }

    /// The node that the head refers to.
    pub closed spec fn top(&self) -> Option<usize> {
        self.head
    }

    /// The collector that holds the retired nodes until they can be
    /// destroyed.
    pub closed spec fn collector(&self) -> Collector {
        self.collector
    }

    /// The structural invariant.
    ///
    /// The chain is what the links spell out from the head; every node on it
    /// carries a payload; every node is either on the chain or retired, never
    /// both and never twice; and the nodes that exist are those on the chain
    /// and those that wait in the collector's bag.
    pub open spec fn wf(&self) -> bool {
        let c = self.chain();
        let n = self.nodes();
        let r = self.retired();
        &&& self.collector().wf()
        &&& c.no_duplicates()
        &&& r.no_duplicates()
        &&& forall|p: int| 0 <= p < c.len() ==> #[trigger] c[p] < n.len()
        &&& forall|p: int| 0 <= p < r.len() ==> #[trigger] r[p] < n.len()
        &&& self.top() == at(c, 0)
        &&& forall|p: int| 0 <= p < c.len() ==> (#[trigger] n[c[p] as int]).next == at(c, p + 1)
        &&& forall|p: int| 0 <= p < c.len() ==> (#[trigger] n[c[p] as int]).data is Some
        &&& forall|i: usize| i < n.len() ==> (#[trigger] c.contains(i)) != r.contains(i)
        &&& forall|i: usize|
            i < n.len() ==> (#[trigger] self.live(i) <==> c.contains(i) || bagged(self.collector().bag(), i))
        &&& forall|i: usize| #[trigger] bagged(self.collector().bag(), i) ==> r.contains(i)
    }

    /// The stack's elements, newest first.
    pub open spec fn view(&self) -> Seq<T> {
        Seq::new(self.chain().len(), |k: int| self.nodes()[self.chain()[k] as int].data->0)
    }

    /// The pinned party `g` keeps node `i` from being destroyed: the node is
    /// on the stack, or was retired after `g` pinned itself.
    pub open spec fn guards(&self, g: Guard, i: usize) -> bool {
        &&& self.collector().holds(g)
        &&& self.chain().contains(i) || bagged_since(self.collector().bag(), i, g.epoch())
    }

    /// A guarded node exists.
    pub proof fn lemma_guarded_is_live(&self, g: Guard, i: usize)
        requires
            self.wf(),
            self.guards(g, i),
        ensures
            self.live(i),
            i < self.nodes().len(),
    {
        if self.chain().contains(i) {
            let p = self.chain().index_of(i);
            assert(self.chain()[p] < self.nodes().len());
        } else {
            let k = choose|k: int|
                0 <= k < self.collector().bag().len() && (#[trigger] self.collector().bag()[k]).node == i
                    && self.collector().bag()[k].stamp >= g.epoch();
            assert(bagged(self.collector().bag(), i));
            let p = self.retired().index_of(i);
            assert(self.retired()[p] < self.nodes().len());
        }
    }

    /// With no node twice on the chain, the position of the node at `p` is
    /// `p`.
    pub proof fn lemma_pos_at(&self, p: int)
        requires
            self.chain().no_duplicates(),
            0 <= p < self.chain().len(),
        ensures
            self.chain().index_of(self.chain()[p]) == p,
            self.chain().contains(self.chain()[p]),
    {
        let q = self.chain().index_of(self.chain()[p]);
        assert(self.chain()[q] == self.chain()[p]);
    }

    /// An empty stack.
    pub fn new() -> (s: Self)
        ensures
            s.wf(),
            s@ == Seq::<T>::empty(),
            s.nodes().len() == 0,
            s.chain().len() == 0,
            s.retired().len() == 0,
            s.top() is None,
            s.collector().pins().len() == 0,
            s.collector().bag().len() == 0,
            s.collector().now() == 0,
    {
        let s = Stack {
            slots: Vec::new(),
            head: None,
            collector: Collector::new(),
            chain: Ghost(Seq::empty()),
            retired: Ghost(Seq::empty()),
        };
        proof {
            assert(s@ =~= Seq::<T>::empty());
            assert forall|i: usize| #[trigger] bagged(s.collector().bag(), i) implies s.retired().contains(i) by {
                let k = choose|k: int|
                    0 <= k < s.collector().bag().len() && (#[trigger] s.collector().bag()[k]).node == i;
            }
        }
        s
    }

    /// Pins a party. What the party reads from the stack while it is pinned
    /// is not destroyed before it unpins or repins.
    pub fn pin(&mut self) -> (g: Guard)
        requires
            old(self).wf(),
        ensures
            final(self).wf(),
            final(self).collector().holds(g),
            g.epoch() == old(self).collector().now(),
            g.slot() <= old(self).collector().pins().len(),
            g.slot() < old(self).collector().pins().len() ==> old(self).collector().pins()[g.slot() as int] is None,
            forall|s: int| 0 <= s < g.slot() ==> (#[trigger] old(self).collector().pins()[s]) is Some,
            final(self).collector().pins() == (if g.slot() < old(self).collector().pins().len() {
                old(self).collector().pins().update(g.slot() as int, Some(g.epoch()))
            } else {
                old(self).collector().pins().push(Some(g.epoch()))
            }),
            final(self).collector().bag() == old(self).collector().bag(),
            final(self).collector().now() == old(self).collector().now(),
            forall|h: Guard| old(self).collector().holds(h) ==> h.slot() != g.slot(),
            final(self)@ == old(self)@,
            final(self).chain() == old(self).chain(),
            final(self).retired() == old(self).retired(),
            final(self).nodes() == old(self).nodes(),
            final(self).top() == old(self).top(),
            forall|i: usize| final(self).live(i) == old(self).live(i),
            forall|h: Guard| old(self).collector().holds(h) ==> final(self).collector().holds(h),
            forall|h: Guard, i: usize| old(self).guards(h, i) ==> final(self).guards(h, i),
    {
        let g = self.collector.pin();
        proof {
            assert forall|i: usize| i < self.nodes().len() implies (#[trigger] self.live(i) <==> self.chain().contains(
                i,
            ) || bagged(self.collector().bag(), i)) by {
                assert(old(self).live(i) <==> old(self).chain().contains(i) || bagged(
                    old(self).collector().bag(),
                    i,
                ));
            }
            assert(self@ =~= old(self)@);
        }
        g
    }

    /// Unpins a party, and destroys the retired nodes that were waiting for
    /// it alone.
    pub fn unpin(&mut self, guard: Guard)
        requires
            old(self).wf(),
            old(self).collector().holds(guard),
        ensures
            final(self).wf(),
            final(self).nodes().len() == old(self).nodes().len(),
            final(self).collector().pins() == old(self).collector().pins().update(guard.slot() as int, None),
            final(self).collector().now() == old(self).collector().now(),
            final(self).collector().bag() == pending(final(self).collector().pins(), old(self).collector().bag()),
            forall|i: usize|
                final(self).live(i) <==> old(self).live(i) && !due(
                    final(self).collector().pins(),
                    old(self).collector().bag(),
                ).contains(i),
            final(self)@ == old(self)@,
            final(self).chain() == old(self).chain(),
            final(self).retired() == old(self).retired(),
            final(self).top() == old(self).top(),
            forall|i: usize| final(self).live(i) ==> old(self).live(i) && final(self).nodes()[i as int] == old(self).nodes()[i as int],
            forall|h: Guard|
                old(self).collector().holds(h) && h.slot() != guard.slot() ==> final(self).collector().holds(h),
            forall|h: Guard, i: usize|
                old(self).guards(h, i) && h.slot() != guard.slot() ==> final(self).guards(h, i),
    {
        let released = self.collector.unpin(guard);
        proof {
            lemma_sorting(self.collector().pins(), old(self).collector().bag());
        }
        self.destroy(released, Ghost(*old(self)));
    }

    /// Unpins a party and pins it again, and destroys the retired nodes that
    /// were waiting for it alone. What the party read before is no longer
    /// protected.
    pub fn repin(&mut self, guard: &mut Guard)
        requires
            old(self).wf(),
            old(self).collector().holds(*old(guard)),
        ensures
            final(self).wf(),
            final(self).nodes().len() == old(self).nodes().len(),
            final(guard).epoch() == old(self).collector().now(),
            final(self).collector().pins() == old(self).collector().pins().update(
                old(guard).slot() as int,
                Some(old(self).collector().now()),
            ),
            final(self).collector().now() == old(self).collector().now(),
            final(self).collector().bag() == pending(final(self).collector().pins(), old(self).collector().bag()),
            forall|i: usize|
                final(self).live(i) <==> old(self).live(i) && !due(
                    final(self).collector().pins(),
                    old(self).collector().bag(),
                ).contains(i),
            final(self).collector().holds(*final(guard)),
            final(guard).slot() == old(guard).slot(),
            final(self)@ == old(self)@,
            final(self).chain() == old(self).chain(),
            final(self).retired() == old(self).retired(),
            final(self).top() == old(self).top(),
            forall|i: usize| final(self).live(i) ==> old(self).live(i) && final(self).nodes()[i as int] == old(self).nodes()[i as int],
            forall|h: Guard|
                old(self).collector().holds(h) && h.slot() != old(guard).slot() ==> final(self).collector().holds(h),
            forall|h: Guard, i: usize|
                old(self).guards(h, i) && h.slot() != old(guard).slot() ==> final(self).guards(h, i),
    {
        let released = self.collector.repin(guard);
        proof {
            lemma_sorting(self.collector().pins(), old(self).collector().bag());
        }
        self.destroy(released, Ghost(*old(self)));
    }

    /// Destroys the nodes that the collector has released.
    fn destroy(&mut self, released: Vec<usize>, Ghost(before): Ghost<Self>)
        requires
            before.wf(),
            old(self).collector().wf(),
            old(self).slots@ == before.slots@,
            old(self).chain() == before.chain(),
            old(self).retired() == before.retired(),
            old(self).top() == before.top(),
            forall|i: usize|
                #[trigger] bagged(before.collector().bag(), i) <==> (bagged(old(self).collector().bag(), i)
                    != released@.contains(i)),
            forall|i: usize|
                !(#[trigger] bagged(before.collector().bag(), i)) ==> !bagged(
                    old(self).collector().bag(),
                    i,
                ) && !released@.contains(i),
        ensures
            final(self).wf(),
            final(self).collector() == old(self).collector(),
            final(self)@ == before@,
            final(self).chain() == before.chain(),
            final(self).retired() == before.retired(),
            final(self).top() == before.top(),
            final(self).nodes().len() == before.nodes().len(),
            forall|i: usize| final(self).live(i) <==> before.live(i) && !released@.contains(i),
            forall|i: usize| final(self).live(i) ==> final(self).nodes()[i as int] == before.nodes()[i as int],
    {
        proof {
            assert forall|k: int| 0 <= k < released@.len() implies #[trigger] released@[k] < self.slots@.len() by {
                let i = released@[k];
                assert(released@.contains(i));
                if !bagged(before.collector().bag(), i) {
                    assert(!released@.contains(i));
                }
                assert(before.retired().contains(i));
                assert(before.retired()[before.retired().index_of(i)] < before.nodes().len());
            }
        }
        destroy_released(&mut self.slots, &released);
        proof {
            assert forall|i: usize| self.live(i) <==> before.live(i) && !released@.contains(i) by {
                if i < self.slots@.len() {
                    assert(self.slots@[i as int] == (if released@.contains(i) {
                        None
                    } else {
                        before.slots@[i as int]
                    }));
                }
            }
            assert forall|i: usize| self.live(i) implies self.nodes()[i as int] == before.nodes()[i as int] by {
                assert(self.slots@[i as int] == before.slots@[i as int]);
            }
            let c = self.chain();
            assert forall|p: int| 0 <= p < c.len() implies self.live(#[trigger] c[p]) by {
                before.lemma_pos_at(p);
                assert(before.live(c[p]));
                if released@.contains(c[p]) {
                    if !bagged(before.collector().bag(), c[p]) {
                        assert(!released@.contains(c[p]));
                    }
                    assert(before.retired().contains(c[p]));
                }
            }
            assert forall|p: int| 0 <= p < c.len() implies (#[trigger] self.nodes()[c[p] as int]).next == at(
                c,
                p + 1,
            ) && self.nodes()[c[p] as int].data is Some by {
                assert(self.live(c[p]));
                assert(before.nodes()[c[p] as int].next == at(c, p + 1));
                assert(before.nodes()[c[p] as int].data is Some);
            }
            assert forall|i: usize| i < self.nodes().len() implies (#[trigger] self.live(i) <==> c.contains(i)
                || bagged(self.collector().bag(), i)) by {
                assert(before.live(i) <==> c.contains(i) || bagged(before.collector().bag(), i));
                assert(bagged(before.collector().bag(), i) <==> (bagged(self.collector().bag(), i)
                    != released@.contains(i)));
                assert(self.live(i) <==> before.live(i) && !released@.contains(i));
                if bagged(before.collector().bag(), i) {
                    assert(before.retired().contains(i));
                }
                assert(c.contains(i) != before.retired().contains(i));
            }
            assert forall|i: usize| #[trigger] bagged(self.collector().bag(), i) implies self.retired().contains(
                i,
            ) by {
                if !bagged(before.collector().bag(), i) {
                    assert(!bagged(self.collector().bag(), i));
                }
            }
            assert(self@ =~= before@) by {
                assert forall|x: int| 0 <= x < c.len() implies self.nodes()[c[x] as int] == before.nodes()[c[x] as int] by {
                    assert(self.live(c[x]));
                }
            }
        }
    }

    /// The node in slot `i`.
    fn node(&self, i: usize) -> (n: &Node<T>)
        requires
            self.live(i),
        ensures
            *n == self.nodes()[i as int],
    {
        match &self.slots[i] {
            Some(n) => n,
            None => vstd::pervasive::unreached(),
        }
    }

    /// Reads the head.
    pub fn load_head(&self, guard: &Guard) -> (h: Option<usize>)
        requires
            self.wf(),
            self.collector().holds(*guard),
        ensures
            h == self.top(),
            h matches Some(i) ==> self.guards(*guard, i),
            h is None <==> self@.len() == 0,
    {
        proof {
            if self.chain().len() > 0 {
                self.lemma_pos_at(0);
            }
        }
        self.head
    }

    /// Tries to push `value`, given the head `seen` that a load gave: the new
    /// node gets `seen` as its successor and the head is swung from `seen` to
    /// the new node with one compare-and-swap.
    ///
    /// Succeeds exactly when the head still is `seen`; `value` is then on
    /// top. Otherwise the stack is unchanged and the value comes back. The
    /// node that `seen` names is not read, so the caller need not be pinned.
    pub fn try_push(&mut self, seen: Option<usize>, value: T) -> (r: Result<(), T>)
        requires
            old(self).wf(),
        ensures
            final(self).wf(),
            r is Ok <==> old(self).top() == seen,
            final(self).collector() == old(self).collector(),
            forall|h: Guard, i: usize| old(self).guards(h, i) ==> final(self).guards(h, i),
            match r {
                Ok(()) => {
                    &&& final(self).top() matches Some(n) && n == old(self).nodes().len()
                    &&& final(self).nodes().len() == old(self).nodes().len() + 1
                    &&& final(self).nodes()[final(self).top()->0 as int] == (Node { data: Some(value), next: seen })
                    &&& forall|i: usize| old(self).live(i) ==> final(self).live(i) && final(self).nodes()[i as int] == old(self).nodes()[i as int]
                    &&& final(self).chain() == seq![final(self).top()->0] + old(self).chain()
                    &&& final(self).retired() == old(self).retired()
                    &&& final(self)@ == seq![value] + old(self)@
                    &&& final(self)@ == after(old(self)@, Step::Push(value))
                },
                Err(back) => back == value && *final(self) == *old(self),
            },
    {
        let same = match (self.head, seen) {
            (None, None) => true,
            (Some(a), Some(b)) => a == b,
            _ => false,
        };
        if !same {
            return Err(value);
        }
        let ghost before = *self;
        let n = self.slots.len();
        self.slots.push(Some(Node { data: Some(value), next: seen }));
        self.head = Some(n);
        proof {
            let c = before.chain();
            self.chain@ = seq![n] + c;
            let d = self.chain();
            assert(d[0] == n);
            assert forall|q: int| 1 <= q < d.len() implies #[trigger] d[q] == c[q - 1] by {}
            assert(!c.contains(n)) by {
                if c.contains(n) {
                    assert(c[c.index_of(n)] < before.nodes().len());
                }
            }
            assert(!before.retired().contains(n)) by {
                if before.retired().contains(n) {
                    assert(before.retired()[before.retired().index_of(n)] < before.nodes().len());
                }
            }
            assert forall|i: usize| d.contains(i) <==> (c.contains(i) || i == n) by {
                if c.contains(i) {
                    assert(d[c.index_of(i) + 1] == i);
                }
                if d.contains(i) && i != n {
                    assert(c[d.index_of(i) - 1] == i);
                }
            }
            assert forall|i: usize| i < before.nodes().len() implies self.nodes()[i as int] == before.nodes()[i as int]
                && self.live(i) == before.live(i) by {
                assert(self.slots@[i as int] == before.slots@[i as int]);
            }
            assert forall|p: int| 0 <= p < d.len() implies (#[trigger] self.nodes()[d[p] as int]).next == at(
                d,
                p + 1,
            ) && self.nodes()[d[p] as int].data is Some by {
                if p > 0 {
                    assert(before.nodes()[c[p - 1] as int].next == at(c, p));
                    assert(before.nodes()[c[p - 1] as int].data is Some);
                }
            }
            assert forall|i: usize| i < self.nodes().len() implies (#[trigger] self.live(i) <==> d.contains(i)
                || bagged(self.collector().bag(), i)) by {
                if i < before.nodes().len() {
                    assert(before.live(i) <==> c.contains(i) || bagged(before.collector().bag(), i));
                } else {
                    assert(i == n);
                }
            }
            assert(self@ =~= seq![value] + before@) by {
                assert forall|k: int| 1 <= k < self@.len() implies self@[k] == before@[k - 1] by {
                    assert(d[k] == c[k - 1]);
                }
            }
        }
        Ok(())
    }

    /// Pushes `value` on top: one load of the head and one swap.
    ///
    /// With the stack to itself the swap cannot fail. Parties that share the
    /// stack take the steps themselves: they load, call `try_push`, and load
    /// again when the swap has failed.
    pub fn push(&mut self, value: T)
        requires
            old(self).wf(),
        ensures
            final(self).wf(),
            final(self)@ == seq![value] + old(self)@,
            final(self)@ == after(old(self)@, Step::Push(value)),
            final(self).top() matches Some(n) && n == old(self).nodes().len(),
            final(self).nodes().len() == old(self).nodes().len() + 1,
            final(self).nodes()[old(self).nodes().len() as int] == (Node { data: Some(value), next: old(self).top() }),
            forall|i: usize|
                old(self).live(i) ==> final(self).live(i) && final(self).nodes()[i as int] == old(self).nodes()[i as int],
            final(self).chain() == seq![final(self).top()->0] + old(self).chain(),
            final(self).retired() == old(self).retired(),
            final(self).collector() == old(self).collector(),
            forall|h: Guard, i: usize| old(self).guards(h, i) ==> final(self).guards(h, i),
    {
        let top = self.head;
        let went = self.try_push(top, value);
        assert(went is Ok);
    }

    /// Tries to pop, given the top node `seen` that a load of the head gave:
    /// the head is swung from `seen` to its successor with one
    /// compare-and-swap.
    ///
    /// Succeeds exactly when the head still refers to `seen`; the payload of
    /// `seen` is then moved out and returned, and `seen` is retired.
    /// Otherwise the stack is unchanged. The caller must have been pinned
    /// since the load, so that `seen` still exists.
    pub fn try_pop(&mut self, seen: usize, guard: &Guard) -> (r: Result<T, ()>)
        requires
            old(self).wf(),
            old(self).guards(*guard, seen),
        ensures
            final(self).wf(),
            r is Ok <==> old(self).top() == Some(seen),
            forall|h: Guard| old(self).collector().holds(h) ==> final(self).collector().holds(h),
            forall|h: Guard, i: usize| old(self).guards(h, i) ==> final(self).guards(h, i),
            match r {
                Ok(v) => {
                    &&& old(self)@.len() > 0
                    &&& v == old(self)@[0]
                    &&& final(self)@ == old(self)@.skip(1)
                    &&& final(self)@ == after(old(self)@, Step::Pop)
                    &&& final(self).chain() == old(self).chain().skip(1)
                    &&& final(self).retired() == old(self).retired().push(seen)
                    &&& old(self).collector().after_retiring(&final(self).collector(), seq![seen])
                    &&& final(self).top() == old(self).nodes()[seen as int].next
                    &&& final(self).nodes().len() == old(self).nodes().len()
                    &&& forall|i: usize| final(self).live(i) == old(self).live(i)
                    &&& forall|i: usize|
                        i < old(self).nodes().len() && i != seen ==> final(self).nodes()[i as int]
                            == old(self).nodes()[i as int]
                    &&& final(self).nodes()[seen as int] == (Node::<T> {
                        data: None,
                        next: old(self).nodes()[seen as int].next,
                    })
                },
                Err(()) => *final(self) == *old(self),
            },
    {
        let same = match self.head {
            Some(h) => h == seen,
            None => false,
        };
        if !same {
            return Err(());
        }
        let ghost before = *self;
        let ghost c = self.chain();
        proof {
            self.lemma_guarded_is_live(*guard, seen);
            assert(c[0] == seen);
            assert(before.nodes()[c[0] as int].data is Some);
            assert(before.nodes()[c[0] as int].next == at(c, 1));
            assert(c.contains(seen));
            if bagged(self.collector().bag(), seen) {
                assert(before.retired().contains(seen));
            }
        }
        self.head = self.node(seen).next;
        let value = match &mut self.slots[seen] {
            Some(n) => n.data.take(),
            None => None,
        };
        self.collector.defer_destroy(guard, seen);
        proof {
            self.chain@ = c.skip(1);
            self.retired@ = before.retired().push(seen);
            let d = self.chain();
            let r0 = before.retired();
            let r1 = self.retired();
            let b0 = before.collector().bag();
            let b1 = self.collector().bag();
            assert forall|q: int| 0 <= q < d.len() implies #[trigger] d[q] == c[q + 1] by {}
            assert forall|i: usize| d.contains(i) <==> (c.contains(i) && i != seen) by {
                if d.contains(i) {
                    assert(c[d.index_of(i) + 1] == i);
                }
                if c.contains(i) && i != seen {
                    assert(d[c.index_of(i) - 1] == i);
                }
            }
            assert forall|i: usize| r1.contains(i) <==> (r0.contains(i) || i == seen) by {
                if r0.contains(i) {
                    assert(r1[r0.index_of(i)] == i);
                }
                if i == seen {
                    assert(r1[r0.len() as int] == seen);
                }
            }
            assert forall|i: usize| bagged(b1, i) <==> (bagged(b0, i) || i == seen) by {
                if bagged(b0, i) {
                    let k = choose|k: int| 0 <= k < b0.len() && (#[trigger] b0[k]).node == i;
                    assert(b1[k].node == i);
                }
                if i == seen {
                    assert(b1[b0.len() as int].node == seen);
                }
                if bagged(b1, i) {
                    let k = choose|k: int| 0 <= k < b1.len() && (#[trigger] b1[k]).node == i;
                    if k < b0.len() {
                        assert(b0[k].node == i);
                    }
                }
            }
            assert forall|i: usize| i < before.nodes().len() && i != seen implies self.nodes()[i as int]
                == before.nodes()[i as int] && self.live(i) == before.live(i) by {
                assert(self.slots@[i as int] == before.slots@[i as int]);
            }
            assert(self.live(seen));
            assert forall|p: int| 0 <= p < d.len() implies (#[trigger] self.nodes()[d[p] as int]).next == at(
                d,
                p + 1,
            ) && self.nodes()[d[p] as int].data is Some by {
                assert(before.nodes()[c[p + 1] as int].next == at(c, p + 2));
                assert(before.nodes()[c[p + 1] as int].data is Some);
                before.lemma_pos_at(p + 1);
                before.lemma_pos_at(0);
            }
            assert forall|i: usize| i < self.nodes().len() implies (#[trigger] self.live(i) <==> d.contains(i)
                || bagged(b1, i)) by {
                assert(before.live(i) <==> c.contains(i) || bagged(b0, i));
            }
            assert(self@ =~= before@.skip(1)) by {
                assert forall|k: int| 0 <= k < self@.len() implies self@[k] == before@[k + 1] by {
                    assert(d[k] == c[k + 1]);
                    before.lemma_pos_at(k + 1);
                    before.lemma_pos_at(0);
                }
            }
            assert forall|h: Guard, i: usize| before.guards(h, i) implies self.guards(h, i) by {
                if c.contains(i) && i == seen {
                    assert(self.collector().shields(h, seen));
                } else if !c.contains(i) {
                    assert(before.collector().shields(h, i));
                    assert(self.collector().shields(h, i));
                }
            }
        }
        match value {
            Some(v) => Ok(v),
            None => vstd::pervasive::unreached(),
        }
    }

    /// What an operation that pins itself, reads, and unpins leaves of the
    /// collector and the arena: nothing is retired and nothing destroyed;
    /// only the table of parties may have got a free place more.
    pub open spec fn visited(&self, later: &Self) -> bool {
        &&& later.collector().pins() == settled(self.collector().pins())
        &&& later.collector().bag() == self.collector().bag()
        &&& later.collector().now() == self.collector().now()
        &&& later.nodes().len() == self.nodes().len()
        &&& later.chain() == self.chain()
        &&& later.retired() == self.retired()
        &&& later.top() == self.top()
        &&& forall|i: usize| later.live(i) == self.live(i)
        &&& forall|i: usize| later.live(i) ==> later.nodes()[i as int] == self.nodes()[i as int]
    }

    /// Pops the newest element, if there is one.
    ///
    /// The caller is pinned from the load of the head to the swap. With the
    /// stack to itself the swap cannot fail; parties that share the stack
    /// take the steps themselves, and repin and load again when `try_pop` has
    /// failed. The popped node is retired; it is destroyed at once if nobody
    /// else is pinned, and waits in the bag otherwise.
    pub fn pop(&mut self) -> (r: Option<T>)
        requires
            old(self).wf(),
        ensures
            final(self).wf(),
            forall|h: Guard| old(self).collector().holds(h) ==> final(self).collector().holds(h),
            forall|h: Guard, i: usize| old(self).guards(h, i) ==> final(self).guards(h, i),
            (final(self)@, r) == popped(old(self)@),
            match r {
                Some(v) => {
                    let top = old(self).top()->0;
                    let alone = idle(old(self).collector().pins());
                    &&& old(self)@.len() > 0
                    &&& v == old(self)@[0]
                    &&& final(self)@ == old(self)@.skip(1)
                    &&& final(self).chain() == old(self).chain().skip(1)
                    &&& final(self).retired() == old(self).retired().push(top)
                    &&& final(self).top() == old(self).nodes()[top as int].next
                    &&& final(self).nodes().len() == old(self).nodes().len()
                    &&& forall|i: usize| final(self).live(i) <==> old(self).live(i) && !(alone && i == top)
                    &&& forall|i: usize|
                        final(self).live(i) && i != top ==> final(self).nodes()[i as int] == old(self).nodes()[i as int]
                    &&& final(self).live(top) ==> final(self).nodes()[top as int] == (Node::<T> {
                        data: None,
                        next: old(self).nodes()[top as int].next,
                    })
                    &&& final(self).collector().pins() == settled(old(self).collector().pins())
                    &&& final(self).collector().now() == tick(old(self).collector().now(), 1)
                    &&& final(self).collector().bag() == (if alone {
                        old(self).collector().bag()
                    } else {
                        old(self).collector().bag().push(Retired { node: top, stamp: old(self).collector().now() })
                    })
                },
                None => old(self)@.len() == 0 && old(self).visited(final(self)),
            },
    {
        let ghost before = *self;
        let ghost p0 = self.collector().pins();
        let guard = self.pin();
        match self.load_head(&guard) {
            None => {
                self.unpin(guard);
                proof {
                    assert(self.collector().pins() =~= settled(p0));
                    lemma_visit(
                        p0,
                        self.collector().pins(),
                        before.collector().bag(),
                        before.collector().now(),
                        Seq::empty(),
                    );
                    assert forall|i: usize| self.live(i) == before.live(i) by {
                        assert(!Seq::<usize>::empty().contains(i));
                    }
                }
                None
            },
            Some(top) => {
                let ghost pinned = *self;
                let taken = self.try_pop(top, &guard);
                let ghost popped_state = *self;
                self.unpin(guard);
                proof {
                    assert(self.collector().pins() =~= settled(p0));
                    let one = seq![top];
                    lemma_retire_one(before.collector().bag(), before.collector().now(), top);
                    lemma_visit(
                        p0,
                        self.collector().pins(),
                        before.collector().bag(),
                        before.collector().now(),
                        one,
                    );
                    assert forall|i: usize| one.contains(i) <==> i == top by {
                        if i == top {
                            assert(one[0] == top);
                        }
                    }
                    assert forall|i: usize|
                        self.live(i) <==> before.live(i) && !(idle(p0) && i == top) by {
                        assert(!Seq::<usize>::empty().contains(i));
                        assert(popped_state.live(i) == before.live(i));
                    }
                    assert forall|i: usize| self.live(i) && i != top implies self.nodes()[i as int]
                        == before.nodes()[i as int] by {
                        assert(popped_state.live(i));
                        assert(popped_state.nodes()[i as int] == pinned.nodes()[i as int]);
                    }
                }
                taken.ok()
            },
        }
    }

    /// With nobody pinned, the nodes that exist are those on the stack.
    pub proof fn lemma_idle(&self)
        requires
            self.wf(),
            idle(self.collector().pins()),
        ensures
            self.collector().bag().len() == 0,
            forall|i: usize| self.live(i) <==> self.chain().contains(i),
    {
        lemma_visit(
            self.collector().pins(),
            settled(self.collector().pins()),
            self.collector().bag(),
            self.collector().now(),
            Seq::empty(),
        );
        assert forall|i: usize| self.live(i) <==> self.chain().contains(i) by {
            if self.live(i) {
                assert(self.live(i) <==> self.chain().contains(i) || bagged(self.collector().bag(), i));
            }
            if self.chain().contains(i) {
                let p = self.chain().index_of(i);
                assert(self.chain()[p] < self.nodes().len());
                assert(self.live(i) <==> self.chain().contains(i) || bagged(self.collector().bag(), i));
            }
        }
    }

    /// Takes the stack apart: walks from the head, frees every node, and
    /// gives the payloads, newest first.
    ///
    /// Nobody may be pinned any more. Then the nodes on the stack are all
    /// the nodes there are, so that nothing stays allocated.
    pub fn teardown(self) -> (out: Vec<T>)
        requires
            self.wf(),
            idle(self.collector().pins()),
        ensures
            out@ == self@,
            self.collector().bag().len() == 0,
            forall|i: usize| self.live(i) <==> self.chain().contains(i),
    {
        let ghost c = self.chain();
        let ghost k = 0int;
        let mut this = self;
        let mut out: Vec<T> = Vec::new();
        let mut curr = this.head;
        proof {
            self.lemma_idle();
            assert(self@.take(0) =~= Seq::<T>::empty());
            assert forall|i: usize| i < this.slots@.len() && (#[trigger] this.slots@[i as int]) is Some implies exists|
                j: int,
            | 0 <= j < c.len() && c[j] == i by {
                assert(self.live(i));
                let j = c.index_of(i);
                assert(c[j] == i);
            }
        }
        loop
            invariant
                self.wf(),
                c == self.chain(),
                0 <= k <= c.len(),
                curr == at(c, k),
                this.slots@.len() == self.slots@.len(),
                out@ == self@.take(k),
                forall|j: int| k <= j < c.len() ==> #[trigger] this.slots@[c[j] as int] == self.slots@[c[j] as int],
                forall|i: usize| i < this.slots@.len() && (#[trigger] this.slots@[i as int]) is Some ==> exists|j: int|
                    k <= j < c.len() && c[j] == i,
            ensures
                out@ == self@,
                forall|i: usize| i < this.slots@.len() ==> (#[trigger] this.slots@[i as int]) is None,
            decreases c.len() - k,
        {
            let i = match curr {
                Some(i) => i,
                None => {
                    proof {
                        assert(self@.take(k) =~= self@);
                    }
                    break;
                },
            };
            proof {
                self.lemma_pos_at(k);
                assert(self.live(c[k]));
                assert(self.nodes()[c[k] as int].data is Some);
                assert(self.nodes()[c[k] as int].next == at(c, k + 1));
            }
            let ghost prior = this.slots@;
            match this.slots[i].take() {
                Some(node) => {
                    match node.data {
                        Some(value) => {
                            out.push(value);
                        },
                        None => {},
                    }
                    curr = node.next;
                },
                None => {
                    curr = None;
                },
            }
            proof {
                assert(self@.take(k + 1) =~= self@.take(k).push(self@[k]));
                assert forall|j: int| k + 1 <= j < c.len() implies #[trigger] this.slots@[c[j] as int]
                    == self.slots@[c[j] as int] by {
                    self.lemma_pos_at(j);
                    assert(prior[c[j] as int] == self.slots@[c[j] as int]);
                }
                assert forall|x: usize| x < this.slots@.len() && (#[trigger] this.slots@[x as int]) is Some implies exists|
                    j: int,
                | k + 1 <= j < c.len() && c[j] == x by {
                    assert(prior[x as int] is Some);
                    let j = choose|j: int| k <= j < c.len() && c[j] == x;
                    assert(j != k);
                }
                k = k + 1;
            }
        }
        out
    }

    /// Whether the stack holds no element at the moment of the call: one
    /// pinned load of the head.
    pub fn is_empty(&mut self) -> (b: bool)
        requires
            old(self).wf(),
        ensures
            final(self).wf(),
            b == (old(self)@.len() == 0),
            final(self)@ == old(self)@,
            old(self).visited(final(self)),
            forall|h: Guard| old(self).collector().holds(h) ==> final(self).collector().holds(h),
            forall|h: Guard, i: usize| old(self).guards(h, i) ==> final(self).guards(h, i),
    {
        let ghost p0 = self.collector().pins();
        let guard = self.pin();
        let b = self.load_head(&guard).is_none();
        self.unpin(guard);
        proof {
            assert(self.collector().pins() =~= settled(p0));
            lemma_visit(
                p0,
                self.collector().pins(),
                old(self).collector().bag(),
                old(self).collector().now(),
                Seq::empty(),
            );
            assert forall|i: usize| self.live(i) == old(self).live(i) by {
                assert(!Seq::<usize>::empty().contains(i));
            }
        }
        b
    }
}

/// The stack after `value` has been pushed: it is on top.
pub open spec fn pushed<T>(stack: Seq<T>, value: T) -> Seq<T> {
    seq![value] + stack
}

/// The stack after a pop, and what the pop gave: the top leaves, and an
/// empty stack gives nothing and stays as it is.
pub open spec fn popped<T>(stack: Seq<T>) -> (Seq<T>, Option<T>) {
    if stack.len() > 0 {
        (stack.skip(1), Some(stack[0]))
    } else {
        (stack, None)
    }
}

/// What can happen to the elements of a stack: a value is pushed, or a pop
/// is made.
pub enum Step<T> {
    Push(T),
    Pop,
}

/// The stack after one step.
pub open spec fn after<T>(stack: Seq<T>, step: Step<T>) -> Seq<T> {
    match step {
        Step::Push(value) => pushed(stack, value),
        Step::Pop => popped(stack).0,
    }
}

/// The stack after a history of steps, starting empty.
pub open spec fn replay<T>(history: Seq<Step<T>>) -> Seq<T>
    decreases history.len(),
{
    if history.len() == 0 {
        Seq::empty()
    } else {
        after(replay(history.drop_last()), history.last())
    }
}

/// The values that a history pushed, in order.
pub open spec fn put_in<T>(history: Seq<Step<T>>) -> Seq<T>
    decreases history.len(),
{
    if history.len() == 0 {
        Seq::empty()
    } else {
        match history.last() {
            Step::Push(value) => put_in(history.drop_last()).push(value),
            Step::Pop => put_in(history.drop_last()),
        }
    }
}

/// The values that the pops of a history gave, in order.
pub open spec fn taken_out<T>(history: Seq<Step<T>>) -> Seq<T>
    decreases history.len(),
{
    if history.len() == 0 {
        Seq::empty()
    } else {
        match (history.last(), popped(replay(history.drop_last())).1) {
            (Step::Pop, Some(value)) => taken_out(history.drop_last()).push(value),
            _ => taken_out(history.drop_last()),
        }
    }
}

/// Nothing is lost and nothing comes out twice: in every history, however
/// the steps of the parties fall, what the pops gave together with what is
/// still on the stack is exactly what was pushed, each value as often as it
/// was pushed.
pub proof fn law_nothing_lost<T>(history: Seq<Step<T>>)
    ensures
        put_in(history).to_multiset() == taken_out(history).to_multiset().add(replay(history).to_multiset()),
    decreases history.len(),
{
    broadcast use vstd::multiset::group_multiset_axioms;

    if history.len() > 0 {
        let past = history.drop_last();
        law_nothing_lost(past);
        let stack = replay(past);
        let out = taken_out(past);
        match history.last() {
            Step::Push(value) => {
                vstd::seq_lib::to_multiset_build(put_in(past), value);
                vstd::seq_lib::to_multiset_insert(stack, 0, value);
                assert(0 <= 0 <= stack.len());
                assert(pushed(stack, value) =~= stack.insert(0, value));
                assert(put_in(history).to_multiset() =~= out.to_multiset().add(replay(history).to_multiset()));
            },
            Step::Pop => {
                if stack.len() > 0 {
                    vstd::seq_lib::to_multiset_build(out, stack[0]);
                    vstd::seq_lib::to_multiset_remove(stack, 0);
                    vstd::seq_lib::to_multiset_contains(stack, stack[0]);
                    assert(stack.contains(stack[0]));
                    assert(stack.skip(1) =~= stack.remove(0));
                    assert(put_in(history).to_multiset() =~= taken_out(history).to_multiset().add(
                        replay(history).to_multiset(),
                    ));
                }
            },
        }
    } else {
        let none = Seq::<T>::empty();
        assert(put_in(history) == none && taken_out(history) == none && replay(history) == none);
        assert forall|a: T| none.to_multiset().count(a) == 0 by {
            vstd::seq_lib::to_multiset_contains(none, a);
        }
        assert(none.to_multiset() =~= none.to_multiset().add(none.to_multiset()));
    }
}

/// Only what was pushed: in every history a value was pushed exactly if a
/// pop gave it or it is still on the stack.
pub proof fn law_only_what_was_pushed<T>(history: Seq<Step<T>>, v: T)
    ensures
        put_in(history).contains(v) <==> taken_out(history).contains(v) || replay(history).contains(v),
{
    broadcast use vstd::multiset::group_multiset_axioms;

    law_nothing_lost(history);
    vstd::seq_lib::to_multiset_contains(put_in(history), v);
    vstd::seq_lib::to_multiset_contains(taken_out(history), v);
    vstd::seq_lib::to_multiset_contains(replay(history), v);
}

/// Each value comes out once: in a history that pushes no value twice, no
/// two pops give the same value, and none gives a value that is still on the
/// stack.
pub proof fn law_each_once<T>(history: Seq<Step<T>>)
    requires
        put_in(history).no_duplicates(),
    ensures
        taken_out(history).no_duplicates(),
        replay(history).no_duplicates(),
        forall|v: T| !(taken_out(history).contains(v) && replay(history).contains(v)),
{
    broadcast use vstd::multiset::group_multiset_axioms;

    law_nothing_lost(history);
    let all = put_in(history);
    let out = taken_out(history);
    let rest = replay(history);
    all.lemma_multiset_has_no_duplicates();
    assert forall|x: T| out.to_multiset().contains(x) implies out.to_multiset().count(x) == 1 by {
        assert(all.to_multiset().count(x) == out.to_multiset().count(x) + rest.to_multiset().count(x));
        assert(all.to_multiset().contains(x));
    }
    out.lemma_multiset_has_no_duplicates_conv();
    assert forall|x: T| rest.to_multiset().contains(x) implies rest.to_multiset().count(x) == 1 by {
        assert(all.to_multiset().count(x) == out.to_multiset().count(x) + rest.to_multiset().count(x));
        assert(all.to_multiset().contains(x));
    }
    rest.lemma_multiset_has_no_duplicates_conv();
    assert forall|v: T| !(out.contains(v) && rest.contains(v)) by {
        vstd::seq_lib::to_multiset_contains(out, v);
        vstd::seq_lib::to_multiset_contains(rest, v);
        assert(all.to_multiset().count(v) == out.to_multiset().count(v) + rest.to_multiset().count(v));
        if out.contains(v) && rest.contains(v) {
            assert(all.to_multiset().contains(v));
        }
    }
}

} // verus!
