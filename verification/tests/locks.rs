use concurrency_primitives::clhlock::Clhlock;
use concurrency_primitives::mcslock::McsLock;
use concurrency_primitives::mcslock::Node;
use concurrency_primitives::mcsparklock::McsParkLock;
use concurrency_primitives::ticketlock::TicketLock;

#[test]
fn ticket_lock_hands_out_tickets_in_order() {
    let mut lock = TicketLock::new();
    let t = lock.lock();
    assert_eq!(t, 0);
    lock.unlock(t);
    let t = lock.lock();
    assert_eq!(t, 1);
    lock.unlock(t);
    let t = lock.lock();
    assert_eq!(t, 2);
    assert!(lock.is_granted(t));
    lock.unlock(t);
}

#[test]
fn ticket_lock_serves_in_the_order_of_arrival() {
    let mut lock = TicketLock::new();
    let a = lock.take_ticket();
    let b = lock.take_ticket();
    let c = lock.take_ticket();
    assert_eq!((a, b, c), (0, 1, 2));
    assert!(lock.is_granted(a));
    assert!(!lock.is_granted(b));
    assert!(!lock.is_granted(c));
    lock.unlock(a);
    assert!(!lock.is_granted(a));
    assert!(lock.is_granted(b));
    assert!(!lock.is_granted(c));
    // a late arrival goes to the back
    let d = lock.take_ticket();
    assert_eq!(d, 3);
    lock.unlock(b);
    assert!(lock.is_granted(c));
    assert!(!lock.is_granted(d));
    lock.unlock(c);
    assert!(lock.is_granted(d));
    lock.unlock(d);
    assert!(!lock.is_granted(d));
}

#[test]
fn ticket_lock_guards_a_counter() {
    // Eight parties, a hundred increments each. The increment is a read and
    // a later write, with other parties' steps in between, so that two
    // parties inside at once would lose an update.
    let mut lock = TicketLock::new();
    let parties = 8;
    let rounds = 100;
    let mut counter: u64 = 0;
    let mut done = vec![0; parties];
    let mut ticket: Vec<Option<usize>> = vec![None; parties];
    let mut inside: Vec<Option<u64>> = vec![None; parties];
    let mut grants: Vec<usize> = Vec::new();
    let mut arrivals: Vec<usize> = Vec::new();
    let mut state: u64 = 0x1234_5678_9abc_def1;
    while done.iter().any(|d| *d < rounds) {
        state = state.wrapping_mul(6364136223846793005).wrapping_add(1442695040888963407);
        let p = ((state >> 33) % parties as u64) as usize;
        if done[p] == rounds {
            continue;
        }
        match (ticket[p], inside[p]) {
            (None, _) => {
                let t = lock.take_ticket();
                arrivals.push(t);
                ticket[p] = Some(t);
            }
            (Some(t), None) => {
                if lock.is_granted(t) {
                    assert!(inside.iter().all(|i| i.is_none()));
                    grants.push(t);
                    inside[p] = Some(counter);
                }
            }
            (Some(t), Some(read)) => {
                counter = read + 1;
                inside[p] = None;
                ticket[p] = None;
                lock.unlock(t);
                done[p] += 1;
            }
        }
    }
    assert_eq!(counter, 800);
    assert_eq!(grants, arrivals);
}

#[test]
fn clh_lock_can_be_taken_again_and_again() {
    let mut lock = Clhlock::new();
    for _ in 0..5 {
        let token = lock.lock();
        lock.unlock(token);
    }
}

#[test]
fn clh_lock_serves_in_the_order_of_arrival() {
    let mut lock = Clhlock::new();
    let a = lock.enqueue();
    let b = lock.enqueue();
    let c = lock.enqueue();
    // each waits on the node of the one before; a on the node the lock was made with
    assert_eq!((a.prev, b.prev, c.prev), (0, a.node, b.node));
    assert!(lock.is_granted(&a));
    assert!(!lock.is_granted(&b));
    assert!(!lock.is_granted(&c));
    let held = lock.enter(a);
    assert!(!lock.is_granted(&b));
    lock.unlock(held);
    assert!(lock.is_granted(&b));
    assert!(!lock.is_granted(&c));
    let held = lock.enter(b);
    lock.unlock(held);
    assert!(lock.is_granted(&c));
    let held = lock.enter(c);
    lock.unlock(held);
    // free again
    let token = lock.lock();
    lock.unlock(token);
}

#[test]
fn clh_lock_guards_a_counter() {
    let mut lock = Clhlock::new();
    let parties = 8;
    let rounds = 100;
    let mut counter: u64 = 0;
    let mut done = vec![0; parties];
    let mut waiting: Vec<Option<concurrency_primitives::clhlock::Ticket>> = Vec::new();
    let mut holding: Vec<Option<(concurrency_primitives::clhlock::Token, u64)>> = Vec::new();
    for _ in 0..parties {
        waiting.push(None);
        holding.push(None);
    }
    let mut arrivals: Vec<usize> = Vec::new();
    let mut grants: Vec<usize> = Vec::new();
    let mut state: u64 = 0x0fed_cba9_8765_4321;
    while done.iter().any(|d| *d < rounds) {
        state = state.wrapping_mul(6364136223846793005).wrapping_add(1442695040888963407);
        let p = ((state >> 33) % parties as u64) as usize;
        if done[p] == rounds {
            continue;
        }
        if let Some((token, read)) = holding[p].take() {
            counter = read + 1;
            lock.unlock(token);
            done[p] += 1;
        } else if let Some(t) = waiting[p].take() {
            if lock.is_granted(&t) {
                assert!(holding.iter().all(|h| h.is_none()));
                grants.push(t.node);
                holding[p] = Some((lock.enter(t), counter));
            } else {
                waiting[p] = Some(t);
            }
        } else {
            let t = lock.enqueue();
            arrivals.push(t.node);
            waiting[p] = Some(t);
        }
    }
    assert_eq!(counter, 800);
    assert_eq!(grants, arrivals);
}

#[test]
fn mcs_node_starts_without_a_successor() {
    let n = Node::new(true);
    assert!(n.locked);
    assert_eq!(n.next, None);
    let n = Node::new(false);
    assert!(!n.locked);
}

#[test]
fn mcs_lock_can_be_taken_again_and_again() {
    let mut lock = McsLock::new();
    for _ in 0..5 {
        let token = lock.lock();
        lock.unlock(token);
    }
}

#[test]
fn mcs_lock_serves_in_the_order_of_arrival() {
    let mut lock = McsLock::new();
    let a = lock.enqueue();
    let b = lock.enqueue();
    let c = lock.enqueue();
    assert_eq!((a.prev, b.prev, c.prev), (None, Some(a.node), Some(b.node)));
    lock.attach(&b);
    lock.attach(&c);
    assert!(lock.is_granted(&a));
    assert!(!lock.is_granted(&b));
    assert!(!lock.is_granted(&c));
    let held = lock.enter(a);
    lock.unlock(held);
    assert!(lock.is_granted(&b));
    assert!(!lock.is_granted(&c));
    let held = lock.enter(b);
    lock.unlock(held);
    assert!(lock.is_granted(&c));
    let held = lock.enter(c);
    lock.unlock(held);
    let token = lock.lock();
    lock.unlock(token);
}

#[test]
fn mcs_release_waits_for_a_successor_that_has_not_attached() {
    let mut lock = McsLock::new();
    let held = lock.lock();
    // a successor swaps itself in and is stopped before it attaches
    let b = lock.enqueue();
    let held = match lock.try_unlock(held) {
        Ok(_) => panic!("the release must not go through"),
        Err(back) => back,
    };
    assert!(!lock.is_granted(&b));
    lock.attach(&b);
    assert_eq!(lock.try_unlock(held).ok(), Some(Some(b.node)));
    assert!(lock.is_granted(&b));
    let held = lock.enter(b);
    assert_eq!(lock.try_unlock(held).ok(), Some(None));
}

#[test]
fn mcs_lock_guards_a_counter() {
    let mut lock = McsLock::new();
    let parties = 8;
    let rounds = 100;
    let mut counter: u64 = 0;
    let mut done = vec![0; parties];
    // a ticket, and whether it still has to attach
    let mut waiting: Vec<Option<(concurrency_primitives::mcslock::Ticket, bool)>> = Vec::new();
    let mut holding: Vec<Option<(concurrency_primitives::mcslock::Token, u64)>> = Vec::new();
    for _ in 0..parties {
        waiting.push(None);
        holding.push(None);
    }
    let mut arrivals: Vec<usize> = Vec::new();
    let mut grants: Vec<usize> = Vec::new();
    let mut state: u64 = 0x5555_aaaa_3333_cccc;
    while done.iter().any(|d| *d < rounds) {
        state = state.wrapping_mul(6364136223846793005).wrapping_add(1442695040888963407);
        let p = ((state >> 33) % parties as u64) as usize;
        if done[p] == rounds {
            continue;
        }
        if let Some((token, read)) = holding[p].take() {
            match lock.try_unlock(token) {
                Ok(_) => {
                    counter = read + 1;
                    done[p] += 1;
                }
                Err(back) => {
                    holding[p] = Some((back, read));
                }
            }
        } else if let Some((t, to_attach)) = waiting[p].take() {
            if to_attach {
                lock.attach(&t);
                waiting[p] = Some((t, false));
            } else if lock.is_granted(&t) {
                assert!(holding.iter().all(|h| h.is_none()));
                grants.push(t.node);
                holding[p] = Some((lock.enter(t), counter));
            } else {
                waiting[p] = Some((t, false));
            }
        } else {
            let t = lock.enqueue();
            arrivals.push(t.node);
            let to_attach = t.prev.is_some();
            waiting[p] = Some((t, to_attach));
        }
    }
    assert_eq!(counter, 800);
    assert_eq!(grants, arrivals);
}

#[test]
fn park_lock_names_the_thread_to_wake() {
    let mut lock = McsParkLock::new();
    let held = lock.lock(11);
    let b = lock.enqueue(22);
    let c = lock.enqueue(33);
    lock.attach(&b);
    lock.attach(&c);
    assert!(!lock.is_granted(&b));
    // releasing hands the lock to b, whose thread is to be woken
    assert_eq!(lock.unlock(held), Some(22));
    assert!(lock.is_granted(&b));
    assert!(!lock.is_granted(&c));
    let held = lock.enter(b);
    assert_eq!(lock.unlock(held), Some(33));
    let held = lock.enter(c);
    // nobody is left to wake
    assert_eq!(lock.unlock(held), None);
    let held = lock.lock(44);
    assert_eq!(lock.unlock(held), None);
}

#[test]
fn park_lock_release_waits_for_a_successor_that_has_not_attached() {
    let mut lock = McsParkLock::new();
    let held = lock.lock(1);
    let b = lock.enqueue(2);
    let held = match lock.try_unlock(held) {
        Ok(_) => panic!("the release must not go through"),
        Err(back) => back,
    };
    lock.attach(&b);
    assert_eq!(lock.try_unlock(held).ok(), Some(Some(2)));
}

#[test]
fn park_lock_guards_a_counter_and_wakes_only_sleepers() {
    let mut lock = McsParkLock::new();
    let parties = 8usize;
    let rounds = 100;
    let mut counter: u64 = 0;
    let mut done = vec![0; parties];
    let mut waiting: Vec<Option<(concurrency_primitives::mcslock::Ticket, bool)>> = Vec::new();
    let mut holding: Vec<Option<(concurrency_primitives::mcslock::Token, u64)>> = Vec::new();
    let mut asleep = vec![false; parties];
    for _ in 0..parties {
        waiting.push(None);
        holding.push(None);
    }
    let mut state: u64 = 0x7777_1111_9999_2222;
    while done.iter().any(|d| *d < rounds) {
        state = state.wrapping_mul(6364136223846793005).wrapping_add(1442695040888963407);
        let p = ((state >> 33) % parties as u64) as usize;
        if done[p] == rounds || asleep[p] {
            continue;
        }
        if let Some((token, read)) = holding[p].take() {
            match lock.try_unlock(token) {
                Ok(wake) => {
                    counter = read + 1;
                    done[p] += 1;
                    if let Some(thread) = wake {
                        // the one that is woken has a ticket and does not hold the lock
                        let w = thread as usize;
                        assert!(waiting[w].is_some());
                        asleep[w] = false;
                    }
                }
                Err(back) => holding[p] = Some((back, read)),
            }
        } else if let Some((t, to_attach)) = waiting[p].take() {
            if to_attach {
                lock.attach(&t);
                waiting[p] = Some((t, false));
            } else if lock.is_granted(&t) {
                assert!(holding.iter().all(|h| h.is_none()));
                holding[p] = Some((lock.enter(t), counter));
            } else {
                // not granted: go to sleep until a release names this thread
                waiting[p] = Some((t, false));
                asleep[p] = true;
            }
        } else {
            let t = lock.enqueue(p as u64);
            let to_attach = t.prev.is_some();
            waiting[p] = Some((t, to_attach));
        }
    }
    assert_eq!(counter, 800);
    assert!(asleep.iter().all(|a| !*a));
}

#[test]
fn ticket_lock_counts_who_waits() {
    let mut lock = TicketLock::new();
    assert_eq!(lock.waiting(), 0);
    let a = lock.take_ticket();
    let b = lock.take_ticket();
    assert_eq!(lock.waiting(), 2);
    lock.unlock(a);
    assert_eq!(lock.waiting(), 1);
    lock.unlock(b);
    assert_eq!(lock.waiting(), 0);
}

#[test]
fn clh_release_without_a_successor_leaves_the_lock_free() {
    let mut lock = Clhlock::new();
    let a = lock.enqueue();
    assert!(lock.is_granted(&a));
    let held = lock.enter(a);
    lock.unlock(held);
    // the released node is the marker that the next arrival waits on
    let b = lock.enqueue();
    assert_eq!(b.prev, 1);
    assert!(lock.is_granted(&b));
    let held = lock.enter(b);
    lock.unlock(held);
}

#[test]
fn mcs_first_arrival_has_nothing_in_front_of_it() {
    let mut lock = McsLock::new();
    let a = lock.enqueue();
    assert_eq!(a.prev, None);
    assert!(lock.is_granted(&a));
    let held = lock.enter(a);
    assert_eq!(lock.try_unlock(held).ok(), Some(None));
    // the tail was swung back to empty: the next arrival is first again
    let b = lock.enqueue();
    assert_eq!(b.prev, None);
    let held = lock.enter(b);
    lock.unlock(held);
}

#[test]
fn ticket_lock_counters_wrap_around() {
    let mut lock = TicketLock::starting_at(usize::MAX - 1);
    let a = lock.take_ticket();
    let b = lock.take_ticket();
    let c = lock.take_ticket();
    assert_eq!((a, b, c), (usize::MAX - 1, usize::MAX, 0));
    assert_eq!(lock.waiting(), 3);
    assert!(lock.is_granted(a));
    assert!(!lock.is_granted(b));
    assert!(!lock.is_granted(c));
    lock.unlock(a);
    assert!(lock.is_granted(b));
    lock.unlock(b);
    // the ticket after the largest is the smallest
    assert!(lock.is_granted(c));
    assert_eq!(lock.waiting(), 1);
    lock.unlock(c);
    assert_eq!(lock.waiting(), 0);
    let d = lock.lock();
    assert_eq!(d, 1);
    lock.unlock(d);
}

#[test]
fn clh_teardown_frees_the_marker_of_the_free_lock() {
    let lock = Clhlock::new();
    assert_eq!(lock.teardown(), 0);
    let mut lock = Clhlock::new();
    let held = lock.lock();
    lock.unlock(held);
    let held = lock.lock();
    lock.unlock(held);
    // the node released last is the one that is left
    assert_eq!(lock.teardown(), 2);
}
