//! Deferred destruction: a retire list with a grace-period collector.
//!
//! A node that has been taken out of a structure cannot be destroyed at
//! once, because a party that read a reference to it earlier may still be
//! about to follow that reference. So every party *pins* itself before it
//! touches a structure and unpins when it is done; a removed node is
//! *retired*, which puts it in the collector's bag with the epoch of that
//! moment; and the node is *released* for destruction only when every party
//! that is pinned has pinned itself after that epoch. A party in a long
//! retry loop *repins* now and then, so that it does not hold up the nodes
//! retired since it started.
//!
//! The collector deals in node indices and knows nothing of the structure
//! they belong to. What it promises is this: a node that is retired while a
//! guard is pinned stays in the bag for as long as that guard stays pinned
//! without repinning, and every retired node is released exactly once.

use vstd::prelude::*;

verus! {

/// An entry of the bag: a retired node and the epoch at which it was
/// retired.
pub struct Retired {
    pub node: usize,
    pub stamp: u64,
}

/// A pinned party. It is made by `pin`, refreshed by `repin` and given up
/// by `unpin`.
pub struct Guard {
    slot: usize,
    epoch: u64,
}

/// The collector: the current epoch, the table of pinned parties, and the
/// bag of retired nodes.
pub struct Collector {
    epoch: u64,
    pins: Vec<Option<u64>>,
    bag: Vec<Retired>,
}

/// No pinned party was pinned at or before `stamp`: what was retired then can
/// be destroyed.
pub open spec fn grace_over(pins: Seq<Option<u64>>, stamp: u64) -> bool {
    forall|s: int| 0 <= s < pins.len() ==> ((#[trigger] pins[s]) matches Some(e) ==> e > stamp)
}

/// Nobody is pinned.
pub open spec fn idle(pins: Seq<Option<u64>>) -> bool {
    forall|s: int| 0 <= s < pins.len() ==> (#[trigger] pins[s]) is None
}

/// The table after a party has pinned itself and unpinned again: as it was
/// if it had a free place, and one free place longer if it had none.
pub open spec fn settled(pins: Seq<Option<u64>>) -> Seq<Option<u64>> {
    if exists|s: int| 0 <= s < pins.len() && (#[trigger] pins[s]) is None {
        pins
    } else {
        pins.push(None)
    }
}

/// The entries of `bag` that must wait while `pins` are pinned, in order.
pub open spec fn pending(pins: Seq<Option<u64>>, bag: Seq<Retired>) -> Seq<Retired> {
    bag.filter(|r: Retired| !grace_over(pins, r.stamp))
}

/// The nodes of `bag` that can be destroyed while `pins` are pinned, in
/// order.
pub open spec fn due(pins: Seq<Option<u64>>, bag: Seq<Retired>) -> Seq<usize> {
    bag.filter(|r: Retired| grace_over(pins, r.stamp)).map_values(|r: Retired| r.node)
}

/// Some entry of `bag` is for `node`.
pub open spec fn bagged(bag: Seq<Retired>, node: usize) -> bool {
    exists|k: int| 0 <= k < bag.len() && (#[trigger] bag[k]).node == node
}

/// Some entry of `bag` is for `node` and was retired at `epoch` or later.
pub open spec fn bagged_since(bag: Seq<Retired>, node: usize, epoch: u64) -> bool {
    exists|k: int| 0 <= k < bag.len() && (#[trigger] bag[k]).node == node && bag[k].stamp >= epoch
}

/// The epoch `steps` retirements after `now`. The epoch stops at the largest
/// number there is.
pub open spec fn tick(now: u64, steps: nat) -> u64 {
    if now + steps <= u64::MAX {
        (now + steps) as u64
    } else {
        u64::MAX
    }
}

/// The bag after the nodes of `run` have been retired one after the other,
/// starting at the epoch `now`.
pub open spec fn retire_each(bag: Seq<Retired>, now: u64, run: Seq<usize>) -> Seq<Retired>
    decreases run.len(),
{
    if run.len() == 0 {
        bag
    } else {
        retire_each(bag, now, run.drop_last()).push(
            Retired { node: run.last(), stamp: tick(now, (run.len() - 1) as nat) },
        )
    }
}

/// No node has two entries in `bag`.
pub open spec fn each_once(bag: Seq<Retired>) -> bool {
    forall|j: int, k: int|
        0 <= j < bag.len() && 0 <= k < bag.len() && j != k ==> (#[trigger] bag[j]).node != (
        #[trigger] bag[k]).node
}

impl Guard {
    /// The epoch at which this party pinned itself last.
    pub fn pinned_at(&self) -> (e: u64)
        ensures
            e == self.epoch(),
    {
        self.epoch
    }

    /// The place of this party in the collector's table.
    pub closed spec fn slot(&self) -> usize {
        self.slot
    }

    /// The epoch at which this party pinned itself.
    pub closed spec fn epoch(&self) -> u64 {
        self.epoch
    }
}

impl Collector {
    /// The current epoch.
    pub closed spec fn now(&self) -> u64 {
        self.epoch
    }

    /// The table of parties: for each place, the epoch at which its party
    /// pinned itself, or nothing if the place is free.
    pub closed spec fn pins(&self) -> Seq<Option<u64>> {
        self.pins@
    }

    /// The retire list: what was retired and not yet released, in the order
    /// of retirement.
    pub closed spec fn bag(&self) -> Seq<Retired> {
        self.bag@
    }

    /// The invariant: nothing is pinned or stamped in the future, nothing
    /// whose grace period is over is still in the bag, and no node is in the
    /// bag twice.
    pub open spec fn wf(&self) -> bool {
        &&& forall|s: int|
            0 <= s < self.pins().len() ==> ((#[trigger] self.pins()[s]) matches Some(e) ==> e
                <= self.now())
        &&& forall|k: int| 0 <= k < self.bag().len() ==> (#[trigger] self.bag()[k]).stamp <= self.now()
        &&& forall|k: int|
            0 <= k < self.bag().len() ==> !grace_over(self.pins(), (#[trigger] self.bag()[k]).stamp)
        &&& each_once(self.bag())
    }

    /// `g` is a pinned party of this collector.
    pub open spec fn holds(&self, g: Guard) -> bool {
        g.slot() < self.pins().len() && self.pins()[g.slot() as int] == Some(g.epoch())
    }

    /// `later` is this collector after the nodes of `run` have been retired
    /// one after the other, and nothing else has happened to it.
    pub open spec fn after_retiring(&self, later: &Collector, run: Seq<usize>) -> bool {
        &&& later.pins() == self.pins()
        &&& later.bag() == retire_each(self.bag(), self.now(), run)
        &&& later.now() == tick(self.now(), run.len())
    }

    /// Retiring nothing changes nothing.
    pub proof fn lemma_retired_none(&self, later: &Collector)
        requires
            later.pins() == self.pins(),
            later.bag() == self.bag(),
            later.now() == self.now(),
        ensures
            self.after_retiring(later, Seq::empty()),
    {
    }

    /// Retiring one node more.
    pub proof fn lemma_retired_more(&self, mid: &Collector, later: &Collector, run: Seq<usize>, node: usize)
        requires
            self.after_retiring(mid, run),
            mid.after_retiring(later, seq![node]),
        ensures
            self.after_retiring(later, run.push(node)),
    {
        let one = seq![node];
        assert(one.drop_last() =~= Seq::<usize>::empty());
        assert(one.last() == node);
        assert(retire_each(mid.bag(), mid.now(), one) == retire_each(mid.bag(), mid.now(), one.drop_last()).push(
            Retired { node, stamp: tick(mid.now(), 0) },
        ));
        assert(retire_each(mid.bag(), mid.now(), Seq::<usize>::empty()) == mid.bag());
        assert(run.push(node).drop_last() =~= run);
    }

    /// `node` is retired and cannot be released while `g` stays as it is.
    pub open spec fn shields(&self, g: Guard, node: usize) -> bool {
        self.holds(g) && bagged_since(self.bag(), node, g.epoch())
    }

    /// The current epoch.
    pub fn current(&self) -> (e: u64)
        ensures
            e == self.now(),
    {
        self.epoch
    }

    /// A collector with nobody pinned and nothing retired.
    pub fn new() -> (c: Collector)
        ensures
            c.wf(),
            c.now() == 0,
            c.pins().len() == 0,
            c.bag().len() == 0,
    {
        Collector { epoch: 0, pins: Vec::new(), bag: Vec::new() }
    }

    /// Pins a party at the current epoch, in a free place of the table.
    pub fn pin(&mut self) -> (g: Guard)
        requires
            old(self).wf(),
        ensures
            final(self).wf(),
            final(self).holds(g),
            g.epoch() == old(self).now(),
            g.slot() <= old(self).pins().len(),
            g.slot() < old(self).pins().len() ==> old(self).pins()[g.slot() as int] is None,
            forall|s: int| 0 <= s < g.slot() ==> (#[trigger] old(self).pins()[s]) is Some,
            final(self).pins() == (if g.slot() < old(self).pins().len() {
                old(self).pins().update(g.slot() as int, Some(g.epoch()))
            } else {
                old(self).pins().push(Some(g.epoch()))
            }),
            final(self).bag() == old(self).bag(),
            final(self).now() == old(self).now(),
            forall|h: Guard| old(self).holds(h) ==> final(self).holds(h),
            forall|h: Guard, node: usize| old(self).shields(h, node) ==> final(self).shields(h, node),
    {
        let mut s: usize = 0;
        while s < self.pins.len()
            invariant
                *self == *old(self),
                s <= self.pins.len(),
                forall|t: int| 0 <= t < s ==> (#[trigger] self.pins()[t]) is Some,
            ensures
                s <= self.pins.len(),
                s < self.pins.len() ==> self.pins()[s as int] is None,
                forall|t: int| 0 <= t < s ==> (#[trigger] self.pins()[t]) is Some,
            decreases self.pins.len() - s,
        {
            if self.pins[s].is_none() {
                break;
            }
            s = s + 1;
        }
        if s < self.pins.len() {
            self.pins[s] = Some(self.epoch);
        } else {
            self.pins.push(Some(self.epoch));
        }
        proof {
            assert(self.pins() =~= (if s < old(self).pins().len() {
                old(self).pins().update(s as int, Some(self.epoch))
            } else {
                old(self).pins().push(Some(self.epoch))
            }));
            assert forall|k: int| 0 <= k < self.bag().len() implies !grace_over(
                self.pins(),
                (#[trigger] self.bag()[k]).stamp,
            ) by {
                let stamp = self.bag()[k].stamp;
                assert(!grace_over(old(self).pins(), old(self).bag()[k].stamp));
                let t = choose|t: int|
                    0 <= t < old(self).pins().len() && !((#[trigger] old(self).pins()[t]) matches Some(e) ==> e
                        > stamp);
                assert(self.pins()[t] == old(self).pins()[t]);
            }
        }
        Guard { slot: s, epoch: self.epoch }
    }

    /// Retires `node`: puts it in the bag with the current epoch, and moves
    /// the epoch on.
    ///
    /// Every party that is pinned now shields the node from then on.
    pub fn defer_destroy(&mut self, guard: &Guard, node: usize)
        requires
            old(self).wf(),
            old(self).holds(*guard),
            !bagged(old(self).bag(), node),
        ensures
            final(self).wf(),
            final(self).bag() == old(self).bag().push(Retired { node, stamp: old(self).now() }),
            final(self).pins() == old(self).pins(),
            final(self).now() == tick(old(self).now(), 1),
            old(self).after_retiring(final(self), seq![node]),
            forall|h: Guard| old(self).holds(h) ==> final(self).shields(h, node),
            forall|h: Guard, other: usize| old(self).shields(h, other) ==> final(self).shields(h, other),
    {
        let ghost b0 = self.bag();
        self.bag.push(Retired { node, stamp: self.epoch });
        if self.epoch < u64::MAX {
            self.epoch = self.epoch + 1;
        }
        proof {
            let b1 = self.bag();
            let one = seq![node];
            assert(one.drop_last() =~= Seq::<usize>::empty());
            assert(retire_each(b0, old(self).now(), one) == retire_each(b0, old(self).now(), one.drop_last()).push(
                Retired { node: one.last(), stamp: tick(old(self).now(), 0) },
            ));
            assert(retire_each(b0, old(self).now(), Seq::<usize>::empty()) == b0);
            assert(b1[b0.len() as int].node == node);
            assert forall|j: int, k: int| 0 <= j < b1.len() && 0 <= k < b1.len() && j != k implies (
            #[trigger] b1[j]).node != (#[trigger] b1[k]).node by {
                if j < b0.len() && k < b0.len() {
                    assert(b0[j].node != b0[k].node);
                } else if j < b0.len() {
                    assert(b0[j].node != node);
                } else {
                    assert(b0[k].node != node);
                }
            }
            assert forall|h: Guard, other: usize| old(self).shields(h, other) implies self.shields(
                h,
                other,
            ) by {
                let k = choose|k: int| 0 <= k < b0.len() && (#[trigger] b0[k]).node == other && b0[k].stamp
                    >= h.epoch();
                assert(b1[k] == b0[k]);
            }
            assert forall|k: int| 0 <= k < b1.len() implies !grace_over(self.pins(), (#[trigger] b1[k]).stamp) by {
                if k < b0.len() {
                    assert(!grace_over(old(self).pins(), b0[k].stamp));
                } else {
                    assert(self.pins()[guard.slot() as int] == Some(guard.epoch()));
                }
            }
        }
    }

    /// Unpins a party, and releases what has been waiting for it alone.
    ///
    /// Returns the nodes whose grace period is over, each of which the
    /// caller now destroys; they leave the bag.
    pub fn unpin(&mut self, guard: Guard) -> (released: Vec<usize>)
        requires
            old(self).wf(),
            old(self).holds(guard),
        ensures
            final(self).wf(),
            final(self).pins() == old(self).pins().update(guard.slot() as int, None),
            final(self).now() == old(self).now(),
            released@ == due(final(self).pins(), old(self).bag()),
            final(self).bag() == pending(final(self).pins(), old(self).bag()),
            forall|h: Guard| old(self).holds(h) && h.slot() != guard.slot() ==> final(self).holds(h),
            forall|h: Guard, node: usize|
                old(self).shields(h, node) && h.slot() != guard.slot() ==> final(self).shields(h, node),
    {
        self.pins[guard.slot] = None;
        proof {
            assert(self.pins() =~= old(self).pins().update(guard.slot() as int, None));
        }
        let released = self.collect();
        proof {
            lemma_sorting(self.pins(), old(self).bag());
        }
        released
    }

    /// Unpins a party and pins it again at the current epoch, and releases
    /// what has been waiting for it alone.
    pub fn repin(&mut self, guard: &mut Guard) -> (released: Vec<usize>)
        requires
            old(self).wf(),
            old(self).holds(*old(guard)),
        ensures
            final(self).wf(),
            final(guard).slot() == old(guard).slot(),
            final(guard).epoch() == old(self).now(),
            final(self).holds(*final(guard)),
            final(self).pins() == old(self).pins().update(old(guard).slot() as int, Some(old(self).now())),
            final(self).now() == old(self).now(),
            released@ == due(final(self).pins(), old(self).bag()),
            final(self).bag() == pending(final(self).pins(), old(self).bag()),
            forall|h: Guard| old(self).holds(h) && h.slot() != old(guard).slot() ==> final(self).holds(h),
            forall|h: Guard, node: usize|
                old(self).shields(h, node) && h.slot() != old(guard).slot() ==> final(self).shields(
                    h,
                    node,
                ),
    {
        self.pins[guard.slot] = Some(self.epoch);
        guard.epoch = self.epoch;
        proof {
            assert(self.pins() =~= old(self).pins().update(old(guard).slot() as int, Some(self.epoch)));
        }
        let released = self.collect();
        proof {
            lemma_sorting(self.pins(), old(self).bag());
        }
        released
    }

    /// The epoch of the party that pinned itself first among those pinned,
    /// or nothing if nobody is pinned.
    fn oldest(&self) -> (m: Option<u64>)
        ensures
            match m {
                None => forall|s: int| 0 <= s < self.pins().len() ==> (#[trigger] self.pins()[s]) is None,
                Some(e) => {
                    &&& exists|s: int| 0 <= s < self.pins().len() && #[trigger] self.pins()[s] == Some(e)
                    &&& forall|s: int|
                        0 <= s < self.pins().len() ==> ((#[trigger] self.pins()[s]) matches Some(x) ==> e
                            <= x)
                },
            },
    {
        let mut m: Option<u64> = None;
        let mut s: usize = 0;
        while s < self.pins.len()
            invariant
                s <= self.pins.len(),
                match m {
                    None => forall|t: int| 0 <= t < s ==> (#[trigger] self.pins()[t]) is None,
                    Some(e) => {
                        &&& exists|t: int| 0 <= t < s && #[trigger] self.pins()[t] == Some(e)
                        &&& forall|t: int|
                            0 <= t < s ==> ((#[trigger] self.pins()[t]) matches Some(x) ==> e <= x)
                    },
                },
            decreases self.pins.len() - s,
        {
            match self.pins[s] {
                Some(x) => {
                    let smaller = match m {
                        Some(e) => x < e,
                        None => true,
                    };
                    if smaller {
                        m = Some(x);
                    }
                },
                None => {},
            }
            s = s + 1;
        }
        m
    }

    /// Takes out of the bag what no pinned party holds up.
    fn collect(&mut self) -> (released: Vec<usize>)
        ensures
            final(self).pins() == old(self).pins(),
            final(self).now() == old(self).now(),
            released@ == due(old(self).pins(), old(self).bag()),
            final(self).bag() == pending(old(self).pins(), old(self).bag()),
    {
        let oldest = self.oldest();
        let ghost pins = self.pins();
        let ghost bag = self.bag();
        let ghost keep = |r: Retired| !grace_over(pins, r.stamp);
        let ghost free = |r: Retired| grace_over(pins, r.stamp);
        let ghost name = |r: Retired| r.node;
        let mut rest: Vec<Retired> = Vec::new();
        let mut released: Vec<usize> = Vec::new();
        let mut k: usize = 0;
        proof {
            reveal(Seq::filter);
            assert(bag.take(0) =~= Seq::<Retired>::empty());
            assert(bag.take(0).filter(free).map_values(name) =~= Seq::<usize>::empty());
        }
        while k < self.bag.len()
            invariant
                k <= self.bag.len(),
                self.bag() == bag,
                self.pins() == pins,
                self.now() == old(self).now(),
                keep == |r: Retired| !grace_over(pins, r.stamp),
                free == |r: Retired| grace_over(pins, r.stamp),
                name == |r: Retired| r.node,
                rest@ == bag.take(k as int).filter(keep),
                released@ == bag.take(k as int).filter(free).map_values(name),
                match oldest {
                    None => forall|s: int| 0 <= s < pins.len() ==> (#[trigger] pins[s]) is None,
                    Some(e) => {
                        &&& exists|s: int| 0 <= s < pins.len() && #[trigger] pins[s] == Some(e)
                        &&& forall|s: int| 0 <= s < pins.len() ==> ((#[trigger] pins[s]) matches Some(x) ==> e <= x)
                    },
                },
            decreases self.bag.len() - k,
        {
            let node = self.bag[k].node;
            let stamp = self.bag[k].stamp;
            let over = match oldest {
                Some(e) => stamp < e,
                None => true,
            };
            proof {
                assert(over == grace_over(pins, stamp)) by {
                    if let Some(e) = oldest {
                        let s = choose|s: int| 0 <= s < pins.len() && #[trigger] pins[s] == Some(e);
                        if !over {
                            assert(pins[s] == Some(e));
                        }
                    }
                }
                assert(bag.take(k + 1) =~= bag.take(k as int).push(bag[k as int]));
                bag.take(k as int).lemma_filter_push(bag[k as int], keep);
                bag.take(k as int).lemma_filter_push(bag[k as int], free);
            }
            if over {
                released.push(node);
                proof {
                    assert(bag.take(k + 1).filter(free).map_values(name) =~= bag.take(k as int).filter(
                        free,
                    ).map_values(name).push(node));
                }
            } else {
                rest.push(Retired { node, stamp });
            }
            k = k + 1;
        }
        proof {
            assert(bag.take(k as int) =~= bag);
        }
        self.bag = rest;
        released
    }
}

/// Retiring one node puts it at the back of the bag, stamped with the
/// epoch.
pub proof fn lemma_retire_one(bag: Seq<Retired>, now: u64, node: usize)
    ensures
        retire_each(bag, now, seq![node]) == bag.push(Retired { node, stamp: now }),
{
    let one = seq![node];
    assert(one.drop_last() =~= Seq::<usize>::empty());
    assert(one.last() == node);
    assert(retire_each(bag, now, one) == retire_each(bag, now, one.drop_last()).push(
        Retired { node, stamp: tick(now, 0) },
    ));
    assert(retire_each(bag, now, Seq::<usize>::empty()) == bag);
}

/// What is left of a bag when a party that pinned itself, and retired `run`
/// while it was pinned, unpins: if somebody else is pinned, everything
/// waits; if nobody is, what was retired is due at once.
pub proof fn lemma_visit(pins: Seq<Option<u64>>, after: Seq<Option<u64>>, bag: Seq<Retired>, now: u64, run: Seq<usize>)
    requires
        after == settled(pins),
        forall|s: int| 0 <= s < pins.len() ==> ((#[trigger] pins[s]) matches Some(e) ==> e <= now),
        forall|k: int| 0 <= k < bag.len() ==> !grace_over(pins, (#[trigger] bag[k]).stamp),
    ensures
        idle(pins) ==> bag.len() == 0,
        pending(after, retire_each(bag, now, run)) == (if idle(pins) {
            bag
        } else {
            retire_each(bag, now, run)
        }),
        due(after, retire_each(bag, now, run)) == (if idle(pins) {
            run
        } else {
            Seq::<usize>::empty()
        }),
    decreases run.len(),
{
    let keep = |r: Retired| !grace_over(after, r.stamp);
    let free = |r: Retired| grace_over(after, r.stamp);
    let name = |r: Retired| r.node;
    assert forall|stamp: u64| grace_over(after, stamp) == grace_over(pins, stamp) by {
        if grace_over(pins, stamp) {
            assert forall|s: int| 0 <= s < after.len() implies ((#[trigger] after[s]) matches Some(e) ==> e
                > stamp) by {
                if s < pins.len() {
                    assert(after[s] == pins[s]);
                }
            }
        }
        if grace_over(after, stamp) {
            assert forall|s: int| 0 <= s < pins.len() implies ((#[trigger] pins[s]) matches Some(e) ==> e
                > stamp) by {
                assert(after[s] == pins[s]);
            }
        }
    }
    if idle(pins) && bag.len() > 0 {
        assert(!grace_over(pins, bag[0].stamp));
    }
    reveal(Seq::filter);
    if run.len() == 0 {
        lemma_all_pending(after, bag);
        assert(bag.len() == 0 ==> bag =~= Seq::<Retired>::empty());
        assert(Seq::<Retired>::empty().map_values(name) =~= Seq::<usize>::empty());
    } else {
        let front = run.drop_last();
        let last = Retired { node: run.last(), stamp: tick(now, (run.len() - 1) as nat) };
        lemma_visit(pins, after, bag, now, front);
        let mid = retire_each(bag, now, front);
        mid.lemma_filter_push(last, keep);
        mid.lemma_filter_push(last, free);
        assert(last.stamp >= now);
        if idle(pins) {
            assert(grace_over(pins, last.stamp));
            assert(mid.push(last).filter(free).map_values(name) =~= mid.filter(free).map_values(name).push(
                last.node,
            ));
            assert(front.push(run.last()) =~= run);
        } else {
            let s = choose|s: int| 0 <= s < pins.len() && !((#[trigger] pins[s]) is None);
            assert(pins[s] matches Some(e) && e <= now);
            assert(!grace_over(pins, last.stamp));
        }
    }
}

/// A bag in which nothing is due is all pending.
pub proof fn lemma_all_pending(pins: Seq<Option<u64>>, bag: Seq<Retired>)
    requires
        forall|k: int| 0 <= k < bag.len() ==> !grace_over(pins, (#[trigger] bag[k]).stamp),
    ensures
        pending(pins, bag) == bag,
        due(pins, bag) == Seq::<usize>::empty(),
    decreases bag.len(),
{
    let keep = |r: Retired| !grace_over(pins, r.stamp);
    let free = |r: Retired| grace_over(pins, r.stamp);
    let name = |r: Retired| r.node;
    reveal(Seq::filter);
    if bag.len() > 0 {
        let front = bag.drop_last();
        assert forall|k: int| 0 <= k < front.len() implies !grace_over(pins, (#[trigger] front[k]).stamp) by {
            assert(front[k] == bag[k]);
        }
        lemma_all_pending(pins, front);
        assert(front.push(bag.last()) =~= bag);
        front.lemma_filter_push(bag.last(), keep);
        front.lemma_filter_push(bag.last(), free);
        assert(!grace_over(pins, bag[bag.len() - 1].stamp));
    } else {
        assert(bag.filter(free).map_values(name) =~= Seq::<usize>::empty());
        assert(bag.filter(keep) =~= bag);
    }
}

/// Sorting the bag into what is due and what is pending loses nothing and
/// doubles nothing, and keeps behind every node that a pinned party shields.
pub proof fn lemma_sorting(pins: Seq<Option<u64>>, bag: Seq<Retired>)
    requires
        each_once(bag),
    ensures
        each_once(pending(pins, bag)),
        due(pins, bag).no_duplicates(),
        forall|node: usize|
            bagged(bag, node) <==> (bagged(pending(pins, bag), node) != due(pins, bag).contains(node)),
        forall|node: usize| !bagged(bag, node) ==> !bagged(pending(pins, bag), node) && !due(pins, bag).contains(node),
        forall|k: int|
            0 <= k < pending(pins, bag).len() ==> bag.contains(#[trigger] pending(pins, bag)[k]) && !grace_over(
                pins,
                pending(pins, bag)[k].stamp,
            ),
        forall|s: int, node: usize|
            0 <= s < pins.len() && pins[s] is Some && bagged_since(bag, node, pins[s]->0) ==> #[trigger] bagged_since(
                pending(pins, bag),
                node,
                pins[s]->0,
            ),
    decreases bag.len(),
{
    let keep = |r: Retired| !grace_over(pins, r.stamp);
    let free = |r: Retired| grace_over(pins, r.stamp);
    let name = |r: Retired| r.node;
    let p = pending(pins, bag);
    let d = due(pins, bag);
    reveal(Seq::filter);
    if bag.len() == 0 {
    } else {
        let front = bag.drop_last();
        let last = bag.last();
        assert(each_once(front)) by {
            assert forall|j: int, k: int| 0 <= j < front.len() && 0 <= k < front.len() && j != k implies (
            #[trigger] front[j]).node != (#[trigger] front[k]).node by {
                assert(bag[j].node != bag[k].node);
            }
        }
        lemma_sorting(pins, front);
        let p0 = pending(pins, front);
        let d0 = due(pins, front);
        assert(front.push(last) =~= bag);
        front.lemma_filter_push(last, keep);
        front.lemma_filter_push(last, free);
        assert(!bagged(front, last.node)) by {
            if bagged(front, last.node) {
                let k = choose|k: int| 0 <= k < front.len() && (#[trigger] front[k]).node == last.node;
                assert(bag[k].node != bag[bag.len() - 1].node);
            }
        }
        if grace_over(pins, last.stamp) {
            assert(p == p0);
            assert(d =~= d0.push(last.node));
        } else {
            assert(p == p0.push(last));
            assert(d =~= d0);
        }
        assert forall|node: usize| bagged(bag, node) <==> (bagged(front, node) || node == last.node) by {
            if bagged(front, node) {
                let k = choose|k: int| 0 <= k < front.len() && (#[trigger] front[k]).node == node;
                assert(bag[k].node == node);
            }
            if node == last.node {
                assert(bag[bag.len() - 1].node == node);
            }
            if bagged(bag, node) {
                let k = choose|k: int| 0 <= k < bag.len() && (#[trigger] bag[k]).node == node;
                if k < front.len() {
                    assert(front[k].node == node);
                }
            }
        }
        assert forall|node: usize| bagged(p, node) <==> (bagged(p0, node) || (node == last.node && !grace_over(
            pins,
            last.stamp,
        ))) by {
            if bagged(p0, node) {
                let k = choose|k: int| 0 <= k < p0.len() && (#[trigger] p0[k]).node == node;
                assert(p[k].node == node);
            }
            if node == last.node && !grace_over(pins, last.stamp) {
                assert(p[p.len() - 1].node == node);
            }
            if bagged(p, node) {
                let k = choose|k: int| 0 <= k < p.len() && (#[trigger] p[k]).node == node;
                if k < p0.len() {
                    assert(p0[k].node == node);
                }
            }
        }
        assert forall|node: usize| d.contains(node) <==> (d0.contains(node) || (node == last.node && grace_over(
            pins,
            last.stamp,
        ))) by {
            if d0.contains(node) {
                let k = d0.index_of(node);
                assert(d[k] == node);
            }
            if node == last.node && grace_over(pins, last.stamp) {
                assert(d[d.len() - 1] == node);
            }
            if d.contains(node) {
                let k = d.index_of(node);
                if k < d0.len() {
                    assert(d0[k] == node);
                }
            }
        }
        assert(each_once(p)) by {
            assert forall|j: int, k: int| 0 <= j < p.len() && 0 <= k < p.len() && j != k implies (
            #[trigger] p[j]).node != (#[trigger] p[k]).node by {
                if j < p0.len() && k < p0.len() {
                    assert(p0[j].node != p0[k].node);
                } else if j < p0.len() {
                    assert(p0[j].node == p[j].node);
                    assert(bagged(p0, p0[j].node));
                } else {
                    assert(p0[k].node == p[k].node);
                    assert(bagged(p0, p0[k].node));
                }
            }
        }
        assert(d.no_duplicates()) by {
            assert forall|j: int, k: int| 0 <= j < d.len() && 0 <= k < d.len() && j != k implies d[j]
                != d[k] by {
                if j < d0.len() && k < d0.len() {
                } else if j < d0.len() {
                    assert(d0.contains(d0[j]));
                } else {
                    assert(d0.contains(d0[k]));
                }
            }
        }
        assert forall|k: int| 0 <= k < p.len() implies bag.contains(#[trigger] p[k]) && !grace_over(
            pins,
            p[k].stamp,
        ) by {
            if k < p0.len() {
                assert(front.contains(p0[k]));
                let x = front.index_of(p0[k]);
                assert(bag[x] == p0[k]);
            } else {
                assert(bag[bag.len() - 1] == last);
            }
        }
        assert forall|s: int, node: usize|
            0 <= s < pins.len() && pins[s] is Some && bagged_since(bag, node, pins[s]->0) implies #[trigger] bagged_since(
            p,
            node,
            pins[s]->0,
        ) by {
            let e = pins[s]->0;
            let k = choose|k: int| 0 <= k < bag.len() && (#[trigger] bag[k]).node == node && bag[k].stamp >= e;
            if k < front.len() {
                assert(front[k].node == node && front[k].stamp >= e);
                assert(bagged_since(front, node, e));
                assert(bagged_since(p0, node, e));
                let x = choose|x: int| 0 <= x < p0.len() && (#[trigger] p0[x]).node == node && p0[x].stamp >= e;
                assert(p[x] == p0[x]);
            } else {
                assert(!grace_over(pins, last.stamp)) by {
                    assert(pins[s] == Some(e));
                }
                assert(p[p.len() - 1] == last);
            }
        }
    }
}

/// Destroys the nodes that the collector has released: empties their slots
/// in an arena, and leaves every other slot as it is.
pub fn destroy_released<N>(slots: &mut Vec<Option<N>>, released: &Vec<usize>)
    requires
        forall|k: int| 0 <= k < released@.len() ==> #[trigger] released@[k] < old(slots)@.len(),
    ensures
        final(slots)@.len() == old(slots)@.len(),
        forall|i: usize|
            i < old(slots)@.len() ==> #[trigger] final(slots)@[i as int] == (if released@.contains(i) {
                None
            } else {
                old(slots)@[i as int]
            }),
{
    let mut k: usize = 0;
    while k < released.len()
        invariant
            k <= released.len(),
            slots@.len() == old(slots)@.len(),
            forall|j: int| 0 <= j < released@.len() ==> #[trigger] released@[j] < old(slots)@.len(),
            forall|i: usize|
                i < slots@.len() ==> #[trigger] slots@[i as int] == (if released@.take(k as int).contains(i) {
                    None
                } else {
                    old(slots)@[i as int]
                }),
        decreases released.len() - k,
    {
        let i = released[k];
        let ghost prior = slots@;
        slots[i] = None;
        proof {
            let done = released@.take(k as int);
            let more = released@.take(k + 1);
            assert(more =~= done.push(i));
            assert forall|x: usize| x < slots@.len() implies #[trigger] slots@[x as int] == (if more.contains(x) {
                None
            } else {
                old(slots)@[x as int]
            }) by {
                if x == i {
                    assert(more[k as int] == i);
                } else {
                    assert(slots@[x as int] == prior[x as int]);
                    if done.contains(x) {
                        assert(more[done.index_of(x)] == x);
                    }
                    if more.contains(x) {
                        let j = more.index_of(x);
                        assert(done[j] == x);
                    }
                }
            }
        }
        k = k + 1;
    }
    proof {
        assert(released@.take(k as int) =~= released@);
    }
}

} // verus!
