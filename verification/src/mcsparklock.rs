//! The MCS queue lock for waiters that sleep.
//!
//! The line is that of [`McsLock`]; in addition every acquisition records the
//! thread that waits for it. A waiter that is not granted the lock goes to
//! sleep instead of spinning, and a release that hands the lock over names
//! the thread to wake. Putting a thread to sleep and waking it is the
//! caller's part: this lock decides who is to be woken, and when.

use vstd::prelude::*;
use crate::fair::Event;
use crate::fair::granted;
use crate::fair::step;
use crate::link::at;
use crate::mcslock::McsLock;
use crate::mcslock::Node;
use crate::mcslock::Ticket;
use crate::mcslock::Token;

verus! {

/// The lock: an MCS lock, and for every node the thread that waits on it.
pub struct McsParkLock {
    line: McsLock,
    threads: Vec<u64>,
}

impl McsParkLock {
    /// The underlying queue lock.
    pub closed spec fn inner(&self) -> McsLock {
        self.line
    }

    /// For every node, the thread that waits on it.
    pub closed spec fn threads(&self) -> Seq<u64> {
        self.threads@
    }

    /// The line: the nodes of the acquisitions that have arrived and not
    /// been released, in arrival order.
    pub open spec fn view(&self) -> Seq<usize> {
        self.inner()@
    }

    /// The structural invariant: that of the queue lock, with one recorded
    /// thread for every node.
    pub open spec fn wf(&self) -> bool {
        &&& self.inner().wf()
        &&& self.threads().len() == self.inner().nodes().len()
    }

    /// `t` is an acquisition of this lock.
    pub open spec fn waits(&self, t: Ticket) -> bool {
        self.inner().waits(t)
    }

    /// `token` is the capability of the acquisition that holds this lock.
    pub open spec fn holds(&self, token: Token) -> bool {
        self.inner().holds(token)
    }

    /// The holder can release without waiting for a successor to attach.
    pub open spec fn handover_ready(&self) -> bool {
        self.inner().handover_ready()
    }

    /// The thread to wake when the holder releases: the one waiting on the
    /// second node of the line, if there is one.
    pub open spec fn next_sleeper(&self) -> Option<u64> {
        if self@.len() > 1 {
            Some(self.threads()[self@[1] as int])
        } else {
            None
        }
    }

    /// A free lock.
    pub fn new() -> (l: McsParkLock)
        ensures
            l.wf(),
            l@ == Seq::<usize>::empty(),
            l.threads().len() == 0,
            l.inner().nodes().len() == 0,
            l.inner().preds().len() == 0,
            l.inner().back() is None,
    {
        McsParkLock { line: McsLock::new(), threads: Vec::new() }
    }

    /// Joins the line on behalf of `thread`: allocates a flagged node that
    /// records the thread, and swaps it into the tail.
    pub fn enqueue(&mut self, thread: u64) -> (t: Ticket)
        requires
            old(self).wf(),
        ensures
            final(self).wf(),
            !old(self)@.contains(t.node),
            final(self)@ == old(self)@.push(t.node),
            final(self)@ == step(old(self)@, Event::Arrive(t.node)),
            final(self).threads() == old(self).threads().push(thread),
            t.node == old(self).threads().len(),
            t.prev == old(self).inner().back(),
            final(self).inner().nodes() == old(self).inner().nodes().push(
                Node { locked: true, next: None, live: true },
            ),
            final(self).inner().preds() == old(self).inner().preds().push(t.prev),
            final(self).inner().back() == Some(t.node),
            final(self).waits(t),
            forall|u: Ticket| old(self).waits(u) ==> final(self).waits(u),
            forall|k: Token| old(self).holds(k) ==> final(self).holds(k),
    {
        let t = self.line.enqueue();
        self.threads.push(thread);
        t
    }

    /// Attaches the acquisition's node behind the node in front of it.
    pub fn attach(&mut self, t: &Ticket)
        requires
            old(self).wf(),
            old(self).waits(*t),
            !granted(old(self)@, t.node),
        ensures
            final(self).wf(),
            final(self)@ == old(self)@,
            final(self).threads() == old(self).threads(),
            t.prev is Some,
            final(self).inner().nodes() == old(self).inner().nodes().update(
                t.prev->0 as int,
                Node { locked: old(self).inner().nodes()[t.prev->0 as int].locked, next: Some(t.node), live: true },
            ),
            final(self).inner().preds() == old(self).inner().preds(),
            final(self).inner().back() == old(self).inner().back(),
            forall|u: Ticket| old(self).waits(u) ==> final(self).waits(u),
            forall|k: Token| old(self).holds(k) ==> final(self).holds(k),
            old(self)@.len() > 1 && t.node == old(self)@[1] ==> final(self).handover_ready(),
            old(self).handover_ready() ==> final(self).handover_ready(),
    {
        self.line.attach(t);
    }

    /// Whether the acquisition is granted the lock. A waiter asks this before
    /// it goes to sleep and each time it wakes, and sleeps again on a no.
    pub fn is_granted(&self, t: &Ticket) -> (yes: bool)
        requires
            self.wf(),
            self.waits(*t),
        ensures
            yes == granted(self@, t.node),
    {
        self.line.is_granted(t)
    }

    /// Turns the granted acquisition into the holder's capability.
    pub fn enter(&self, t: Ticket) -> (token: Token)
        requires
            self.waits(t),
            granted(self@, t.node),
        ensures
            token.0 == t.node,
            self.holds(token),
    {
        self.line.enter(t)
    }

    /// Acquires a free lock on behalf of `thread`, without sleeping.
    pub fn lock(&mut self, thread: u64) -> (token: Token)
        requires
            old(self).wf(),
            old(self)@.len() == 0,
        ensures
            final(self).wf(),
            final(self)@ == seq![token.0],
            final(self).holds(token),
            final(self).handover_ready(),
            token.0 == old(self).threads().len(),
            final(self).threads() == old(self).threads().push(thread),
            final(self).inner().nodes() == old(self).inner().nodes().push(
                Node { locked: true, next: None, live: true },
            ),
            final(self).inner().preds() == old(self).inner().preds().push(None),
            final(self).inner().back() == Some(token.0),
    {
        let t = self.enqueue(thread);
        proof {
            assert(old(self)@.push(t.node) =~= seq![t.node]);
        }
        let served = self.is_granted(&t);
        assert(served);
        self.enter(t)
    }

    /// Tries to release the lock.
    ///
    /// On success the result names the thread to wake: the one whose
    /// acquisition was handed the lock, if there is one. If somebody is
    /// behind the holder and has not attached yet, nothing changes and the
    /// capability comes back.
    pub fn try_unlock(&mut self, token: Token) -> (r: Result<Option<u64>, Token>)
        requires
            old(self).wf(),
            old(self).holds(token),
        ensures
            final(self).wf(),
            r is Ok <==> old(self).handover_ready(),
            final(self).threads() == old(self).threads(),
            match r {
                Ok(wake) => {
                    &&& wake == old(self).next_sleeper()
                    &&& final(self)@ == old(self)@.skip(1)
                    &&& final(self)@ == step(old(self)@, Event::Leave)
                    &&& final(self).inner().nodes() == old(self).inner().released(token.0, at(old(self)@, 1))
                    &&& final(self).inner().preds() == old(self).inner().preds()
                    &&& final(self).inner().back() == (if old(self)@.len() > 1 {
                        old(self).inner().back()
                    } else {
                        None
                    })
                    &&& forall|u: Ticket|
                        old(self).waits(u) && u.node != token.0 ==> final(self).waits(u)
                },
                Err(back) => back.0 == token.0 && final(self)@ == old(self)@ && final(self).inner()
                    == old(self).inner(),
            },
    {
        match self.line.try_unlock(token) {
            Ok(Some(successor)) => Ok(Some(self.threads[successor])),
            Ok(None) => Ok(None),
            Err(back) => Err(back),
        }
    }

    /// Releases the lock and names the thread to wake, if the lock was
    /// handed over.
    ///
    /// The successor, if any, must have attached itself; a caller who cannot
    /// know that uses `try_unlock` and tries again.
    pub fn unlock(&mut self, token: Token) -> (wake: Option<u64>)
        requires
            old(self).wf(),
            old(self).holds(token),
            old(self).handover_ready(),
        ensures
            final(self).wf(),
            wake == old(self).next_sleeper(),
            final(self)@ == old(self)@.skip(1),
            final(self)@ == step(old(self)@, Event::Leave),
            final(self).threads() == old(self).threads(),
            final(self).inner().nodes() == old(self).inner().released(token.0, at(old(self)@, 1)),
            final(self).inner().preds() == old(self).inner().preds(),
            final(self).inner().back() == (if old(self)@.len() > 1 {
                old(self).inner().back()
            } else {
                None
            }),
            forall|u: Ticket| old(self).waits(u) && u.node != token.0 ==> final(self).waits(u),
    {
        match self.try_unlock(token).ok() {
            Some(wake) => wake,
            None => None,
        }
    }
}

} // verus!
