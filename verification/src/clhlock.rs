//! The CLH queue lock: an implicit line built from one tail reference.
//!
//! Every acquisition brings a node of its own, with the flag "my successor
//! must wait" set, and swaps it into the tail. What the swap hands back is
//! the node of the predecessor; the acquisition is granted once that node's
//! flag is cleared. Releasing clears the flag of one's own node, which then
//! stays behind as the marker of a free lock until the successor has seen it
//! and reclaims it. So each node is handed from its owner to exactly one
//! other party, the successor, and is reclaimed exactly once.
//!
//! The steps of an acquisition are separate functions, so that several
//! acquisitions can be in flight and their steps interleaved: `enqueue` (the
//! swap), `is_granted` (one look at the predecessor's flag) and `enter`
//! (reclaiming the predecessor). `lock` runs them for a caller who finds the
//! lock free.

use vstd::prelude::*;
use crate::fair::Event;
use crate::fair::granted;
use crate::fair::step;

verus! {

/// A queue node: the flag that makes the successor wait, and whether the
/// node is still allocated.
pub struct Node {
    pub locked: bool,
    pub live: bool,
}

/// An acquisition that has joined the line and not yet entered: its own node
/// and the node it got from the swap.
pub struct Ticket {
    pub node: usize,
    pub prev: usize,
}

/// The capability of the holder: the node to release.
pub struct Token(pub usize);

/// The lock: an arena of queue nodes and the tail reference. The line, the
/// marker and whether the front has entered are kept beside them for the
/// proofs.
pub struct Clhlock {
    nodes: Vec<Node>,
    tail: usize,
    line: Ghost<Seq<usize>>,
    front: Ghost<usize>,
    entered: Ghost<bool>,
}

impl Clhlock {
    /// The arena of queue nodes, by index.
    pub closed spec fn nodes(&self) -> Seq<Node> {
        self.nodes@
    }

    /// The node that the tail refers to.
    pub closed spec fn back(&self) -> usize {
        self.tail
    }

    /// The line: the nodes of the acquisitions that have arrived and not
    /// been released, in arrival order.
    pub closed spec fn view(&self) -> Seq<usize> {
        self.line@
    }

    /// The node in front of the line: the one released last, or the node
    /// the lock was made with.
    pub closed spec fn marker(&self) -> usize {
        self.front@
    }

    /// Whether the acquisition at the front of the line has entered, and so
    /// reclaimed the marker.
    pub closed spec fn entered(&self) -> bool {
        self.entered@
    }

    /// The node that the acquisition at position `k` waits on.
    pub open spec fn pred(&self, k: int) -> usize {
        if k == 0 {
            self.marker()
        } else {
            self@[k - 1]
        }
    }

    /// The structural invariant.
    ///
    /// The nodes of the line are allocated and flagged; the marker is not in
    /// the line, and is unflagged and allocated until the front acquisition
    /// enters; the tail is the last node of the line, or the marker if the
    /// line is empty; and nothing else is allocated.
    pub open spec fn wf(&self) -> bool {
        let n = self.nodes();
        let l = self@;
        &&& self.marker() < n.len()
        &&& l.no_duplicates()
        &&& !l.contains(self.marker())
        &&& forall|k: int| 0 <= k < l.len() ==> #[trigger] l[k] < n.len()
        &&& forall|k: int| 0 <= k < l.len() ==> (#[trigger] n[l[k] as int]).live && n[l[k] as int].locked
        &&& self.back() == (if l.len() > 0 {
            l.last()
        } else {
            self.marker()
        })
        &&& self.entered() ==> l.len() > 0 && !n[self.marker() as int].live
        &&& !self.entered() ==> n[self.marker() as int].live && !n[self.marker() as int].locked
        &&& forall|i: usize|
            i < n.len() && (#[trigger] n[i as int]).live ==> l.contains(i) || i == self.marker()
    }

    /// `t` is an acquisition of this lock that waits to enter: its node is
    /// in the line, and its `prev` is the node in front of it.
    pub open spec fn waits(&self, t: Ticket) -> bool {
        &&& self@.contains(t.node)
        &&& t.prev == self.pred(self@.index_of(t.node))
        &&& self@.index_of(t.node) == 0 ==> !self.entered()
    }

    /// `token` is the capability of the acquisition that holds this lock.
    pub open spec fn holds(&self, token: Token) -> bool {
        granted(self@, token.0) && self.entered()
    }

    /// With no node twice in the line, the position of the node at `k` is
    /// `k`.
    pub proof fn lemma_pos_at(&self, k: int)
        requires
            self@.no_duplicates(),
            0 <= k < self@.len(),
        ensures
            self@.index_of(self@[k]) == k,
            self@.contains(self@[k]),
    {
        let q = self@.index_of(self@[k]);
        assert(self@[q] == self@[k]);
    }

    /// A free lock: one unflagged node, which the tail refers to.
    pub fn new() -> (l: Self)
        ensures
            l.wf(),
            l@ == Seq::<usize>::empty(),
            l.nodes() == seq![Node { locked: false, live: true }],
            l.back() == 0,
            l.marker() == 0,
            !l.entered(),
    {
        let mut nodes = Vec::new();
        nodes.push(Node { locked: false, live: true });
        let l = Clhlock { nodes, tail: 0, line: Ghost(Seq::empty()), front: Ghost(0), entered: Ghost(false) };
        assert(l.nodes() =~= seq![Node { locked: false, live: true }]);
        l
    }

    /// Joins the line: allocates a flagged node and swaps it into the tail.
    pub fn enqueue(&mut self) -> (t: Ticket)
        requires
            old(self).wf(),
        ensures
            final(self).wf(),
            t.node == old(self).nodes().len(),
            t.prev == old(self).back(),
            !old(self)@.contains(t.node),
            final(self)@ == old(self)@.push(t.node),
            final(self)@ == step(old(self)@, Event::Arrive(t.node)),
            final(self).waits(t),
            final(self).nodes() == old(self).nodes().push(Node { locked: true, live: true }),
            final(self).back() == t.node,
            final(self).marker() == old(self).marker(),
            final(self).entered() == old(self).entered(),
            forall|u: Ticket| old(self).waits(u) ==> final(self).waits(u),
            forall|k: Token| old(self).holds(k) ==> final(self).holds(k),
    {
        let ghost before = *self;
        let node = self.nodes.len();
        self.nodes.push(Node { locked: true, live: true });
        let prev = self.tail;
        self.tail = node;
        proof {
            let l0 = before@;
            self.line@ = l0.push(node);
            let l1 = self@;
            assert(!l0.contains(node)) by {
                if l0.contains(node) {
                    assert(l0[l0.index_of(node)] < before.nodes().len());
                }
            }
            assert forall|i: usize| l1.contains(i) <==> (l0.contains(i) || i == node) by {
                if l0.contains(i) {
                    assert(l1[l0.index_of(i)] == i);
                }
                if i == node {
                    assert(l1[l0.len() as int] == node);
                }
            }
            assert forall|k: int| 0 <= k < l1.len() implies (#[trigger] self.nodes()[l1[k] as int]).live
                && self.nodes()[l1[k] as int].locked by {
                if k < l0.len() {
                    assert(before.nodes()[l0[k] as int].live);
                }
            }
            assert forall|i: usize| i < self.nodes().len() && (#[trigger] self.nodes()[i as int]).live implies l1.contains(
                i,
            ) || i == self.marker() by {
                if i < before.nodes().len() {
                    assert(before.nodes()[i as int].live);
                }
            }
            assert forall|u: usize| l0.contains(u) implies l1.index_of(u) == l0.index_of(u) by {
                let a = l0.index_of(u);
                let b = l1.index_of(u);
                assert(l1[a] == u);
            }
            self.lemma_pos_at(l0.len() as int);
            assert forall|u: Ticket| before.waits(u) implies self.waits(u) by {
                assert(l1.index_of(u.node) == l0.index_of(u.node));
            }
        }
        Ticket { node, prev }
    }

    /// Whether the acquisition is granted the lock: one look at the flag of
    /// the node in front of it.
    pub fn is_granted(&self, t: &Ticket) -> (yes: bool)
        requires
            self.wf(),
            self.waits(*t),
        ensures
            yes == granted(self@, t.node),
    {
        proof {
            let k = self@.index_of(t.node);
            if k > 0 {
                assert(self.nodes()[self@[k - 1] as int].locked);
            } else {
                assert(self@[0] == t.node);
            }
        }
        !self.nodes[t.prev].locked
    }

    /// Enters: the granted acquisition reclaims the node in front of it and
    /// becomes the holder.
    pub fn enter(&mut self, t: Ticket) -> (token: Token)
        requires
            old(self).wf(),
            old(self).waits(t),
            granted(old(self)@, t.node),
        ensures
            final(self).wf(),
            token.0 == t.node,
            final(self).holds(token),
            final(self)@ == old(self)@,
            final(self).nodes() == old(self).nodes().update(
                t.prev as int,
                Node { locked: false, live: false },
            ),
            final(self).back() == old(self).back(),
            final(self).marker() == old(self).marker(),
            t.prev == old(self).marker(),
            forall|u: Ticket| old(self).waits(u) && u.node != t.node ==> final(self).waits(u),
    {
        proof {
            assert(self@[0] == t.node);
            self.lemma_pos_at(0);
        }
        let ghost before = *self;
        self.nodes[t.prev].live = false;
        proof {
            self.entered@ = true;
            assert(self.nodes() =~= before.nodes().update(t.prev as int, Node { locked: false, live: false }));
            assert forall|k: int| 0 <= k < self@.len() implies (#[trigger] self.nodes()[self@[k] as int]).live
                && self.nodes()[self@[k] as int].locked by {
                assert(before.nodes()[before@[k] as int].live);
                assert(self@.contains(self@[k]));
            }
            assert forall|i: usize| i < self.nodes().len() && (#[trigger] self.nodes()[i as int]).live implies self@.contains(
                i,
            ) || i == self.marker() by {
                assert(before.nodes()[i as int].live);
            }
        }
        Token(t.node)
    }

    /// Acquires a free lock: joins the line, finds itself granted at once,
    /// and enters.
    pub fn lock(&mut self) -> (token: Token)
        requires
            old(self).wf(),
            old(self)@.len() == 0,
        ensures
            final(self).wf(),
            final(self)@ == seq![token.0],
            final(self).holds(token),
            token.0 == old(self).nodes().len(),
            final(self).nodes() == old(self).nodes().push(Node { locked: true, live: true }).update(
                old(self).marker() as int,
                Node { locked: false, live: false },
            ),
            final(self).back() == token.0,
            final(self).marker() == old(self).marker(),
    {
        let t = self.enqueue();
        proof {
            assert(old(self)@.push(t.node) =~= seq![t.node]);
        }
        let served = self.is_granted(&t);
        assert(served);
        self.enter(t)
    }

    /// Releases the lock: clears the flag of the holder's node, which
    /// becomes the marker that the next acquisition waits on.
    pub fn unlock(&mut self, token: Token)
        requires
            old(self).wf(),
            old(self).holds(token),
        ensures
            final(self).wf(),
            final(self)@ == old(self)@.skip(1),
            final(self)@ == step(old(self)@, Event::Leave),
            final(self).marker() == token.0,
            !final(self).entered(),
            final(self).nodes() == old(self).nodes().update(
                token.0 as int,
                Node { locked: false, live: true },
            ),
            final(self).back() == old(self).back(),
            forall|u: Ticket| old(self).waits(u) ==> final(self).waits(u),
    {
        let ghost before = *self;
        proof {
            assert(self@[0] == token.0);
            self.lemma_pos_at(0);
        }
        self.nodes[token.0].locked = false;
        proof {
            assert(before.nodes()[before@[0] as int].live);
            assert(self.nodes() =~= before.nodes().update(token.0 as int, Node { locked: false, live: true }));
            let l0 = before@;
            self.line@ = l0.skip(1);
            self.front@ = token.0;
            self.entered@ = false;
            let l1 = self@;
            assert forall|k: int| 0 <= k < l1.len() implies #[trigger] l1[k] == l0[k + 1] by {}
            assert forall|i: usize| l1.contains(i) <==> (l0.contains(i) && i != token.0) by {
                if l1.contains(i) {
                    assert(l0[l1.index_of(i) + 1] == i);
                }
                if l0.contains(i) && i != token.0 {
                    assert(l1[l0.index_of(i) - 1] == i);
                }
            }
            assert forall|k: int| 0 <= k < l1.len() implies (#[trigger] self.nodes()[l1[k] as int]).live
                && self.nodes()[l1[k] as int].locked by {
                assert(before.nodes()[l0[k + 1] as int].live);
            }
            assert forall|i: usize| i < self.nodes().len() && (#[trigger] self.nodes()[i as int]).live implies l1.contains(
                i,
            ) || i == self.marker() by {
                assert(before.nodes()[i as int].live);
            }
            assert(before.nodes()[l0[0] as int].live);
            assert forall|u: Ticket| before.waits(u) implies self.waits(u) by {
                let a = l0.index_of(u.node);
                assert(a > 0);
                assert(l1[a - 1] == u.node);
                let b = l1.index_of(u.node);
                assert(l0[b + 1] == u.node);
                assert(b == a - 1);
            }
        }
    }
    /// Takes a free lock apart: frees the node that the tail refers to, and
    /// says which it was.
    ///
    /// Nobody may be in the line any more. Then that node, the marker of the
    /// free lock, is the one node there is, so that nothing stays allocated.
    pub fn teardown(self) -> (freed: usize)
        requires
            self.wf(),
            self@.len() == 0,
        ensures
            freed == self.back(),
            freed == self.marker(),
            forall|i: usize| i < self.nodes().len() ==> ((#[trigger] self.nodes()[i as int]).live <==> i == freed),
    {
        let mut this = self;
        let node = this.tail;
        this.nodes[node].live = false;
        proof {
            assert forall|i: usize| i < this.nodes().len() implies !(#[trigger] this.nodes()[i as int]).live by {
                if i != node {
                    assert(this.nodes()[i as int] == self.nodes()[i as int]);
                    assert(self.nodes()[i as int].live ==> self@.contains(i) || i == self.marker());
                }
            }
        }
        node
    }
}

} // verus!
