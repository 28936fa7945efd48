//! The MCS queue lock: an explicit line with successor links.
//!
//! Every acquisition brings a node of its own and swaps it into the tail. If
//! the tail was empty the lock is taken at once. Otherwise the acquisition
//! attaches its node behind the one it got from the swap, and waits on the
//! flag of its *own* node. Releasing hands the lock to the successor by
//! clearing the successor's flag, and reclaims the releaser's node. A
//! releaser that sees no successor tries to swing the tail back to empty; if
//! that fails, a successor has swapped itself in and has not attached yet, and
//! the release can only go through once it has.
//!
//! The steps are separate functions, so that several acquisitions can be in
//! flight and their steps interleaved: `enqueue` (the swap), `attach`,
//! `is_granted` (one look at the own flag), `enter`, and `try_unlock`, which
//! reports a successor that is not attached yet in place of waiting for it.
//! `lock` and `unlock` run the steps for a caller who need not wait.

use vstd::prelude::*;
use crate::fair::Event;
use crate::fair::granted;
use crate::fair::step;
use crate::link::at;

verus! {

/// A queue node: the flag its owner waits on, the link to the successor, and
/// whether the node is still allocated.
pub struct Node {
    pub locked: bool,
    pub next: Option<usize>,
    pub live: bool,
}

impl Node {
    /// A fresh node without a successor.
    pub fn new(lock: bool) -> (n: Node)
        ensures
            n == (Node { locked: lock, next: None, live: true }),
    {
        Node { locked: lock, next: None, live: true }
    }
}

/// An acquisition that has joined the line: its own node and what the swap
/// handed back, the node in front of it or nothing.
pub struct Ticket {
    pub node: usize,
    pub prev: Option<usize>,
}

/// The capability of the holder: the node to release.
pub struct Token(pub usize);

/// The lock: an arena of queue nodes and the tail reference. The line, and
/// what each node's swap handed back, are kept beside them for the proofs.
pub struct McsLock {
    nodes: Vec<Node>,
    tail: Option<usize>,
    line: Ghost<Seq<usize>>,
    preds: Ghost<Seq<Option<usize>>>,
}

impl McsLock {
    /// The arena of queue nodes, by index.
    pub closed spec fn nodes(&self) -> Seq<Node> {
        self.nodes@
    }

    /// The node that the tail refers to.
    pub closed spec fn back(&self) -> Option<usize> {
        self.tail
    }

    /// The line: the nodes of the acquisitions that have arrived and not
    /// been released, in arrival order.
    pub closed spec fn view(&self) -> Seq<usize> {
        self.line@
    }

    /// For every node, what its swap handed back.
    pub closed spec fn preds(&self) -> Seq<Option<usize>> {
        self.preds@
    }

    /// The structural invariant.
    ///
    /// The nodes of the line, and no others, are allocated; the tail is the
    /// last of them; each is linked to the one behind it or not linked yet;
    /// everyone but the front came in behind the one in front of it and is
    /// still flagged; and the front either came to an empty lock or has had
    /// its flag cleared.
    pub open spec fn wf(&self) -> bool {
        let n = self.nodes();
        let l = self@;
        &&& self.preds().len() == n.len()
        &&& l.no_duplicates()
        &&& forall|k: int| 0 <= k < l.len() ==> #[trigger] l[k] < n.len()
        &&& forall|i: usize| i < n.len() ==> ((#[trigger] n[i as int]).live <==> l.contains(i))
        &&& self.back() == at(l, l.len() - 1)
        &&& forall|k: int|
            0 <= k < l.len() ==> (#[trigger] n[l[k] as int]).next is None || n[l[k] as int].next == at(
                l,
                k + 1,
            )
        &&& forall|k: int|
            1 <= k < l.len() ==> n[l[k] as int].locked && #[trigger] self.preds()[l[k] as int] == Some(
                l[k - 1],
            )
        &&& l.len() > 0 ==> self.preds()[l[0] as int] is None || !n[l[0] as int].locked
    }

    /// `t` is an acquisition of this lock: its node is in the line and its
    /// `prev` is what its swap handed back.
    pub open spec fn waits(&self, t: Ticket) -> bool {
        &&& self@.contains(t.node)
        &&& t.node < self.preds().len()
        &&& t.prev == self.preds()[t.node as int]
    }

    /// `token` is the capability of the acquisition that holds this lock.
    pub open spec fn holds(&self, token: Token) -> bool {
        granted(self@, token.0)
    }

    /// The nodes after the holder's node `node` has been released: the
    /// successor, if there is one, has its flag cleared, and the holder's
    /// node is reclaimed.
    pub open spec fn released(&self, node: usize, successor: Option<usize>) -> Seq<Node> {
        let handed = match successor {
            Some(n) => self.nodes().update(
                n as int,
                Node { locked: false, next: self.nodes()[n as int].next, live: self.nodes()[n as int].live },
            ),
            None => self.nodes(),
        };
        handed.update(node as int, Node { locked: handed[node as int].locked, next: handed[node as int].next, live: false })
    }

    /// The holder can release without waiting: either nobody is behind it,
    /// or the one behind it has attached itself.
    pub open spec fn handover_ready(&self) -> bool {
        self@.len() == 1 || (self@.len() > 1 && self.nodes()[self@[0] as int].next is Some)
    }

    /// With no node twice in the line, the position of the node at `k` is
    /// `k`.
    pub proof fn lemma_pos_at(&self, k: int)
        requires
            self@.no_duplicates(),
            0 <= k < self@.len(),
        ensures
            self@.index_of(self@[k]) == k,
            self@.contains(self@[k]),
    {
        let q = self@.index_of(self@[k]);
        assert(self@[q] == self@[k]);
    }

    /// A free lock: an empty tail.
    pub fn new() -> (l: Self)
        ensures
            l.wf(),
            l@ == Seq::<usize>::empty(),
            l.nodes().len() == 0,
            l.preds().len() == 0,
            l.back() is None,
    {
        McsLock { nodes: Vec::new(), tail: None, line: Ghost(Seq::empty()), preds: Ghost(Seq::empty()) }
    }

    /// Joins the line: allocates a flagged node and swaps it into the tail.
    pub fn enqueue(&mut self) -> (t: Ticket)
        requires
            old(self).wf(),
        ensures
            final(self).wf(),
            t.node == old(self).nodes().len(),
            t.prev == old(self).back(),
            !old(self)@.contains(t.node),
            final(self)@ == old(self)@.push(t.node),
            final(self)@ == step(old(self)@, Event::Arrive(t.node)),
            final(self).nodes() == old(self).nodes().push(Node { locked: true, next: None, live: true }),
            final(self).preds() == old(self).preds().push(t.prev),
            final(self).back() == Some(t.node),
            final(self).waits(t),
            forall|u: Ticket| old(self).waits(u) ==> final(self).waits(u),
            forall|k: Token| old(self).holds(k) ==> final(self).holds(k),
    {
        let ghost before = *self;
        let node = self.nodes.len();
        self.nodes.push(Node::new(true));
        let prev = self.tail;
        self.tail = Some(node);
        proof {
            let l0 = before@;
            self.line@ = l0.push(node);
            self.preds@ = before.preds().push(prev);
            let l1 = self@;
            assert(!l0.contains(node)) by {
                if l0.contains(node) {
                    assert(l0[l0.index_of(node)] < before.nodes().len());
                }
            }
            assert forall|i: usize| l1.contains(i) <==> (l0.contains(i) || i == node) by {
                if l0.contains(i) {
                    assert(l1[l0.index_of(i)] == i);
                }
                if i == node {
                    assert(l1[l0.len() as int] == node);
                }
            }
            assert forall|i: usize| i < self.nodes().len() implies ((#[trigger] self.nodes()[i as int]).live
                <==> l1.contains(i)) by {
                if i < before.nodes().len() {
                    assert(before.nodes()[i as int].live <==> l0.contains(i));
                }
            }
            assert forall|k: int| 0 <= k < l1.len() implies (#[trigger] self.nodes()[l1[k] as int]).next is None
                || self.nodes()[l1[k] as int].next == at(l1, k + 1) by {
                if k < l0.len() {
                    assert(before.nodes()[l0[k] as int].next is None || before.nodes()[l0[k] as int].next
                        == at(l0, k + 1));
                    if k == l0.len() - 1 {
                        if before.nodes()[l0[k] as int].next is Some {
                            assert(false);
                        }
                    }
                }
            }
            assert forall|k: int| 1 <= k < l1.len() implies self.nodes()[l1[k] as int].locked
                && #[trigger] self.preds()[l1[k] as int] == Some(l1[k - 1]) by {
                if k < l0.len() {
                    assert(before.preds()[l0[k] as int] == Some(l0[k - 1]));
                }
            }
            assert forall|u: Ticket| before.waits(u) implies self.waits(u) by {}
            assert forall|k: Token| before.holds(k) implies self.holds(k) by {
                assert(l1[0] == l0[0]);
            }
        }
        Ticket { node, prev }
    }

    /// Attaches the acquisition's node behind the node in front of it: one
    /// store into that node's `next` field. Only an acquisition that is not
    /// at the front has anything to attach to.
    pub fn attach(&mut self, t: &Ticket)
        requires
            old(self).wf(),
            old(self).waits(*t),
            !granted(old(self)@, t.node),
        ensures
            final(self).wf(),
            t.prev is Some,
            final(self).nodes() == old(self).nodes().update(
                t.prev->0 as int,
                Node { locked: old(self).nodes()[t.prev->0 as int].locked, next: Some(t.node), live: true },
            ),
            final(self)@ == old(self)@,
            final(self).preds() == old(self).preds(),
            final(self).back() == old(self).back(),
            forall|u: Ticket| old(self).waits(u) ==> final(self).waits(u),
            forall|k: Token| old(self).holds(k) ==> final(self).holds(k),
            old(self)@.len() > 1 && t.node == old(self)@[1] ==> final(self).handover_ready(),
            old(self).handover_ready() ==> final(self).handover_ready(),
    {
        let ghost before = *self;
        let ghost l = self@;
        let ghost k = l.index_of(t.node);
        proof {
            assert(l[k] == t.node);
            assert(k >= 1);
            assert(self.preds()[l[k] as int] == Some(l[k - 1]));
            self.lemma_pos_at(k - 1);
        }
        if let Some(p) = t.prev {
            {
                self.nodes[p].next = Some(t.node);
                proof {
                    assert(before.nodes()[l[k - 1] as int].live <==> l.contains(l[k - 1]));
                    assert(self.nodes() =~= before.nodes().update(
                        p as int,
                        Node { locked: before.nodes()[p as int].locked, next: Some(t.node), live: true },
                    ));
                    assert forall|i: usize| i < self.nodes().len() implies ((
                    #[trigger] self.nodes()[i as int]).live <==> l.contains(i)) by {
                        assert(before.nodes()[i as int].live <==> l.contains(i));
                    }
                    assert forall|j: int| 0 <= j < l.len() implies (#[trigger] self.nodes()[l[j] as int]).next is None
                        || self.nodes()[l[j] as int].next == at(l, j + 1) by {
                        assert(before.nodes()[l[j] as int].next is None || before.nodes()[l[j] as int].next
                            == at(l, j + 1));
                        if l[j] == p {
                            self.lemma_pos_at(j);
                        }
                    }
                    assert forall|j: int| 1 <= j < l.len() implies self.nodes()[l[j] as int].locked
                        && #[trigger] self.preds()[l[j] as int] == Some(l[j - 1]) by {
                        assert(before.preds()[l[j] as int] == Some(l[j - 1]));
                    }
                    if l.len() > 1 && t.node == l[1] {
                        self.lemma_pos_at(1);
                    }
                    if before.handover_ready() && l.len() > 1 {
                        assert(before.nodes()[l[0] as int].next is Some);
                    }
                }
            }
        }
    }

    /// Whether the acquisition is granted the lock: it came to an empty
    /// lock, or one look at its own flag finds it cleared.
    pub fn is_granted(&self, t: &Ticket) -> (yes: bool)
        requires
            self.wf(),
            self.waits(*t),
        ensures
            yes == granted(self@, t.node),
    {
        proof {
            let l = self@;
            let k = l.index_of(t.node);
            assert(l[k] == t.node);
            if k >= 1 {
                assert(self.preds()[l[k] as int] == Some(l[k - 1]));
                assert(self.nodes()[l[k] as int].locked);
                self.lemma_pos_at(0);
            }
        }
        match t.prev {
            None => true,
            Some(_) => !self.nodes[t.node].locked,
        }
    }

    /// Turns the granted acquisition into the holder's capability.
    pub fn enter(&self, t: Ticket) -> (token: Token)
        requires
            self.waits(t),
            granted(self@, t.node),
        ensures
            token.0 == t.node,
            self.holds(token),
    {
        Token(t.node)
    }

    /// Acquires a free lock: the swap finds the tail empty.
    pub fn lock(&mut self) -> (token: Token)
        requires
            old(self).wf(),
            old(self)@.len() == 0,
        ensures
            final(self).wf(),
            final(self)@ == seq![token.0],
            final(self).holds(token),
            final(self).handover_ready(),
            token.0 == old(self).nodes().len(),
            final(self).nodes() == old(self).nodes().push(Node { locked: true, next: None, live: true }),
            final(self).preds() == old(self).preds().push(None),
            final(self).back() == Some(token.0),
    {
        let t = self.enqueue();
        proof {
            assert(old(self)@.push(t.node) =~= seq![t.node]);
        }
        let served = self.is_granted(&t);
        assert(served);
        self.enter(t)
    }

    /// Tries to release the lock.
    ///
    /// With a successor attached, the successor's flag is cleared and the
    /// holder's node reclaimed: `Ok` with the successor. With nobody behind
    /// the holder, the tail is swung back to empty with one compare-and-swap
    /// and the node reclaimed: `Ok` with nothing. If somebody is behind the
    /// holder and has not attached yet, nothing changes and the capability
    /// comes back: the caller tries again later.
    pub fn try_unlock(&mut self, token: Token) -> (r: Result<Option<usize>, Token>)
        requires
            old(self).wf(),
            old(self).holds(token),
        ensures
            final(self).wf(),
            r is Ok <==> old(self).handover_ready(),
            match r {
                Ok(successor) => {
                    &&& successor == at(old(self)@, 1)
                    &&& final(self)@ == old(self)@.skip(1)
                    &&& final(self)@ == step(old(self)@, Event::Leave)
                    &&& final(self).nodes() == old(self).released(token.0, successor)
                    &&& final(self).preds() == old(self).preds()
                    &&& final(self).back() == (if successor is Some {
                        old(self).back()
                    } else {
                        None
                    })
                    &&& forall|u: Ticket|
                        old(self).waits(u) && u.node != token.0 ==> final(self).waits(u)
                },
                Err(back) => back.0 == token.0 && *final(self) == *old(self),
            },
    {
        let ghost before = *self;
        let ghost l0 = self@;
        let node = token.0;
        proof {
            assert(l0[0] == node);
            self.lemma_pos_at(0);
            assert(before.nodes()[l0[0] as int].next is None || before.nodes()[l0[0] as int].next == at(
                l0,
                1,
            ));
        }
        let successor = match self.nodes[node].next {
            None => {
                let last = match self.tail {
                    Some(t) => t == node,
                    None => false,
                };
                if !last {
                    proof {
                        if l0.len() == 1 {
                            assert(l0[l0.len() - 1] == node);
                        }
                    }
                    return Err(token);
                }
                proof {
                    if l0.len() > 1 {
                        self.lemma_pos_at(l0.len() - 1);
                    }
                }
                self.tail = None;
                None
            },
            Some(next) => {
                self.nodes[next].locked = false;
                Some(next)
            },
        };
        self.nodes[node].live = false;
        proof {
            assert(before.nodes()[l0[0] as int].live <==> l0.contains(l0[0]));
            assert(self.nodes() =~= before.released(node, successor)) by {
                if let Some(n) = successor {
                    before.lemma_pos_at(1);
                    assert(l0[1] < before.nodes().len());
                }
            }
            self.line@ = l0.skip(1);
            let l1 = self@;
            assert forall|k: int| 0 <= k < l1.len() implies #[trigger] l1[k] == l0[k + 1] by {}
            assert forall|i: usize| l1.contains(i) <==> (l0.contains(i) && i != node) by {
                if l1.contains(i) {
                    assert(l0[l1.index_of(i) + 1] == i);
                }
                if l0.contains(i) && i != node {
                    assert(l1[l0.index_of(i) - 1] == i);
                }
            }
            assert forall|i: usize| i < self.nodes().len() implies ((#[trigger] self.nodes()[i as int]).live
                <==> l1.contains(i)) by {
                assert(before.nodes()[i as int].live <==> l0.contains(i));
            }
            assert forall|k: int| 0 <= k < l1.len() implies (#[trigger] self.nodes()[l1[k] as int]).next is None
                || self.nodes()[l1[k] as int].next == at(l1, k + 1) by {
                assert(before.nodes()[l0[k + 1] as int].next is None || before.nodes()[l0[k + 1] as int].next
                    == at(l0, k + 2));
            }
            assert forall|k: int| 1 <= k < l1.len() implies self.nodes()[l1[k] as int].locked
                && #[trigger] self.preds()[l1[k] as int] == Some(l1[k - 1]) by {
                assert(before.preds()[l0[k + 1] as int] == Some(l0[k]));
                before.lemma_pos_at(k + 1);
                before.lemma_pos_at(1);
            }
            assert forall|u: Ticket| before.waits(u) && u.node != node implies self.waits(u) by {}
        }
        Ok(successor)
    }

    /// Releases the lock, handing it to the successor if there is one.
    ///
    /// The successor, if any, must have attached itself; a caller who cannot
    /// know that uses `try_unlock` and tries again.
    pub fn unlock(&mut self, token: Token)
        requires
            old(self).wf(),
            old(self).holds(token),
            old(self).handover_ready(),
        ensures
            final(self).wf(),
            final(self)@ == old(self)@.skip(1),
            final(self)@ == step(old(self)@, Event::Leave),
            final(self).nodes() == old(self).released(token.0, at(old(self)@, 1)),
            final(self).preds() == old(self).preds(),
            final(self).back() == (if old(self)@.len() > 1 {
                old(self).back()
            } else {
                None
            }),
            forall|u: Ticket| old(self).waits(u) && u.node != token.0 ==> final(self).waits(u),
    {
        let released = self.try_unlock(token);
        assert(released is Ok);
    }
}

} // verus!
