//! The discipline that all queue locks of this crate obey, stated once.
//!
//! A lock's view is its *line*: the acquisitions that have arrived and not
//! yet been released, in arrival order. The acquisition at the front, and
//! only that one, is granted the lock; releasing takes it off the front.
//! Each lock proves that its own steps move its line in exactly this way;
//! mutual exclusion and first-come-first-served are then properties of the
//! line alone, proved here.

use vstd::prelude::*;

verus! {

/// What can happen to a line: an acquisition arrives at the back, or the one
/// at the front leaves.
pub enum Event {
    Arrive(usize),
    Leave,
}

/// `who` is at the front of `line`, and so is the one acquisition that may
/// proceed.
pub open spec fn granted(line: Seq<usize>, who: usize) -> bool {
    line.len() > 0 && line[0] == who
}

/// The line after one event. Leaving an empty line changes nothing.
pub open spec fn step(line: Seq<usize>, event: Event) -> Seq<usize> {
    match event {
        Event::Arrive(who) => line.push(who),
        Event::Leave => if line.len() > 0 {
            line.skip(1)
        } else {
            line
        },
    }
}

/// The line after a history of events, starting from the empty line.
pub open spec fn run(history: Seq<Event>) -> Seq<usize>
    decreases history.len(),
{
    if history.len() == 0 {
        Seq::empty()
    } else {
        step(run(history.drop_last()), history.last())
    }
}

/// The arrival log of a history: who arrived, in order.
pub open spec fn arrivals(history: Seq<Event>) -> Seq<usize>
    decreases history.len(),
{
    if history.len() == 0 {
        Seq::empty()
    } else {
        let before = arrivals(history.drop_last());
        match history.last() {
            Event::Arrive(who) => before.push(who),
            Event::Leave => before,
        }
    }
}

/// The grant log of a history: who held the lock and left, in order.
pub open spec fn departures(history: Seq<Event>) -> Seq<usize>
    decreases history.len(),
{
    if history.len() == 0 {
        Seq::empty()
    } else {
        let before = departures(history.drop_last());
        let line = run(history.drop_last());
        match history.last() {
            Event::Arrive(_) => before,
            Event::Leave => if line.len() > 0 {
                before.push(line[0])
            } else {
                before
            },
        }
    }
}

/// Mutual exclusion: at any moment at most one acquisition is granted.
pub proof fn law_mutual_exclusion(line: Seq<usize>, a: usize, b: usize)
    requires
        granted(line, a),
        granted(line, b),
    ensures
        a == b,
{
}

/// Whoever is granted the lock stays granted until it leaves: an arrival
/// does not take the lock away.
pub proof fn law_holder_stays(line: Seq<usize>, who: usize, arrival: usize)
    requires
        granted(line, who),
    ensures
        granted(step(line, Event::Arrive(arrival)), who),
{
}

/// When the holder leaves, the lock goes to the one that arrived next, and
/// to nobody if nobody waits.
pub proof fn law_handover(line: Seq<usize>, who: usize)
    requires
        line.len() > 0,
    ensures
        granted(step(line, Event::Leave), who) <==> (line.len() > 1 && line[1] == who),
{
}

/// No overtaking: while an earlier arrival is still in the line, a later one
/// is not granted.
pub proof fn law_no_overtaking(line: Seq<usize>, earlier: int, later: int)
    requires
        line.no_duplicates(),
        0 <= earlier < later < line.len(),
    ensures
        !granted(line, line[later]),
{
}

/// An event keeps those who wait in their order: who stood before another
/// still does, unless the one in front left.
pub proof fn law_order_kept(line: Seq<usize>, event: Event, earlier: int, later: int)
    requires
        0 <= earlier < later < line.len(),
    ensures
        event is Arrive ==> step(line, event)[earlier] == line[earlier] && step(line, event)[later]
            == line[later],
        event is Leave && earlier > 0 ==> step(line, event)[earlier - 1] == line[earlier] && step(
            line,
            event,
        )[later - 1] == line[later],
{
}

/// First come, first served: in every history, those who were granted the
/// lock and left, followed by those still in line, are exactly those who
/// arrived, in the order of their arrival.
pub proof fn law_first_come_first_served(history: Seq<Event>)
    ensures
        arrivals(history) == departures(history) + run(history),
    decreases history.len(),
{
    if history.len() > 0 {
        let past = history.drop_last();
        law_first_come_first_served(past);
        let line = run(past);
        match history.last() {
            Event::Arrive(who) => {
                assert((departures(past) + line).push(who) =~= departures(past) + line.push(who));
            },
            Event::Leave => {
                if line.len() > 0 {
                    assert(departures(past).push(line[0]) + line.skip(1) =~= departures(past) + line);
                }
            },
        }
    } else {
        assert(arrivals(history) =~= departures(history) + run(history));
    }
}

} // verus!
