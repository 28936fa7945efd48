use concurrency_primitives::msqueue::Queue;
use concurrency_primitives::msqueue::Retry;

#[test]
fn queue_is_first_in_first_out() {
    let mut q: Queue<u32> = Queue::new();
    let mut g = q.pin();
    q.push(1, &mut g);
    q.push(2, &mut g);
    q.push(3, &mut g);
    assert_eq!(q.pop(&mut g), Some(1));
    assert_eq!(q.pop(&mut g), Some(2));
    assert_eq!(q.pop(&mut g), Some(3));
    assert_eq!(q.pop(&mut g), None);
    q.unpin(g);
}

#[test]
fn new_queue_is_empty() {
    let mut q: Queue<String> = Queue::new();
    let mut g = q.pin();
    assert_eq!(q.pop(&mut g), None);
    assert_eq!(q.pop(&mut g), None);
    q.unpin(g);
}

#[test]
fn queue_can_be_refilled_after_it_ran_empty() {
    let mut q: Queue<u32> = Queue::new();
    let mut g = q.pin();
    q.push(1, &mut g);
    assert_eq!(q.pop(&mut g), Some(1));
    assert_eq!(q.pop(&mut g), None);
    q.repin(&mut g);
    q.push(2, &mut g);
    q.push(3, &mut g);
    assert_eq!(q.pop(&mut g), Some(2));
    q.push(4, &mut g);
    assert_eq!(q.pop(&mut g), Some(3));
    assert_eq!(q.pop(&mut g), Some(4));
    assert_eq!(q.pop(&mut g), None);
    q.unpin(g);
}

#[test]
fn queue_moves_values_that_are_not_copy() {
    let mut q: Queue<String> = Queue::new();
    let mut g = q.pin();
    q.push(String::from("a"), &mut g);
    q.push(String::from("b"), &mut g);
    assert_eq!(q.pop(&mut g), Some(String::from("a")));
    assert_eq!(q.pop(&mut g), Some(String::from("b")));
    q.unpin(g);
}

#[test]
fn new_queue_has_one_sentinel() {
    let mut q: Queue<u32> = Queue::new();
    let g = q.pin();
    assert_eq!(q.load_head(&g), 0);
    assert_eq!(q.load_tail(&g), 0);
    assert_eq!(q.load_next(0, &g), None);
    q.unpin(g);
}

#[test]
fn linking_leaves_the_tail_behind_until_it_is_swung() {
    let mut q: Queue<u32> = Queue::new();
    let mut g = q.pin();
    let tail = q.load_tail(&g);
    assert_eq!(q.try_link(tail, 7, &g), Ok(1));
    // linked, but the tail lags
    assert_eq!(q.load_tail(&g), tail);
    assert_eq!(q.load_next(tail, &g), Some(1));
    assert!(q.advance_tail(tail, &g));
    assert_eq!(q.load_tail(&g), 1);
    // a second swing from the same observation does nothing
    assert!(!q.advance_tail(tail, &g));
    assert_eq!(q.load_tail(&g), 1);
    assert_eq!(q.pop(&mut g), Some(7));
    q.unpin(g);
}

#[test]
fn push_helps_a_lagging_tail_forward() {
    let mut q: Queue<u32> = Queue::new();
    let ga = q.pin();
    let mut gb = q.pin();
    let tail = q.load_tail(&ga);
    assert_eq!(q.try_link(tail, 1, &ga), Ok(1));
    // the enqueuer of 1 is stopped before it swings the tail; another pushes
    q.push(2, &mut gb);
    assert_eq!(q.load_tail(&gb), 2);
    // when the first wakes up, its swing finds the tail gone on
    assert!(!q.advance_tail(tail, &ga));
    q.unpin(ga);
    assert_eq!(q.pop(&mut gb), Some(1));
    assert_eq!(q.pop(&mut gb), Some(2));
    assert_eq!(q.pop(&mut gb), None);
    q.unpin(gb);
}

#[test]
fn try_pop_swings_a_lagging_tail_and_starts_over() {
    let mut q: Queue<u32> = Queue::new();
    let g = q.pin();
    let tail = q.load_tail(&g);
    assert_eq!(q.try_link(tail, 1, &g), Ok(1));
    let head = q.load_head(&g);
    assert_eq!(head, q.load_tail(&g));
    // the first round only helps
    assert_eq!(q.try_pop(head, &g), Err(Retry::Helped));
    assert_eq!(q.load_head(&g), head);
    assert_eq!(q.load_tail(&g), 1);
    // the second takes the value
    assert_eq!(q.try_pop(head, &g), Ok(Some(1)));
    assert_eq!(q.load_head(&g), 1);
    q.unpin(g);
}

#[test]
fn pop_helps_a_lagging_tail_forward() {
    let mut q: Queue<u32> = Queue::new();
    let mut g = q.pin();
    let tail = q.load_tail(&g);
    assert_eq!(q.try_link(tail, 1, &g), Ok(1));
    // head and tail both refer to the sentinel, which has a successor
    assert_eq!(q.load_head(&g), q.load_tail(&g));
    assert_eq!(q.pop(&mut g), Some(1));
    // the tail was swung along, so that the head did not pass it
    assert_eq!(q.load_head(&g), 1);
    assert_eq!(q.load_tail(&g), 1);
    q.push(2, &mut g);
    assert_eq!(q.pop(&mut g), Some(2));
    q.unpin(g);
}

#[test]
fn try_link_behind_a_node_with_a_successor_fails() {
    let mut q: Queue<u32> = Queue::new();
    let mut g = q.pin();
    let seen = q.load_tail(&g);
    q.push(1, &mut g);
    assert_eq!(q.try_link(seen, 2, &g), Err(2));
    assert_eq!(q.pop(&mut g), Some(1));
    assert_eq!(q.pop(&mut g), None);
    q.unpin(g);
}

#[test]
fn racing_dequeues_take_different_values() {
    let mut q: Queue<u32> = Queue::new();
    let mut ga = q.pin();
    let mut gb = q.pin();
    q.push(1, &mut ga);
    q.push(2, &mut ga);
    let seen_a = q.load_head(&ga);
    let seen_b = q.load_head(&gb);
    assert_eq!(q.try_pop(seen_b, &gb), Ok(Some(1)));
    // a is still pinned, so the sentinel it saw is still there to be read
    assert_eq!(q.try_pop(seen_a, &ga), Err(Retry::Lost));
    q.repin(&mut ga);
    q.repin(&mut gb);
    let seen_a = q.load_head(&ga);
    assert_eq!(q.try_pop(seen_a, &ga), Ok(Some(2)));
    let seen_a = q.load_head(&ga);
    assert_eq!(q.try_pop(seen_a, &ga), Ok(None));
    q.unpin(ga);
    q.unpin(gb);
}

#[test]
fn try_pop_on_the_empty_queue_reports_empty() {
    let mut q: Queue<u32> = Queue::new();
    let mut g = q.pin();
    let seen = q.load_head(&g);
    assert_eq!(q.try_pop(seen, &g), Ok(None));
    q.push(1, &mut g);
    assert_eq!(q.try_pop(seen, &g), Ok(Some(1)));
    q.unpin(g);
}

#[test]
fn interleaved_queue_operations_keep_the_order_of_linking() {
    // Several enqueuers and dequeuers, their steps interleaved by a fixed
    // pseudo-random schedule. The values must come out in the order in
    // which they were linked, none lost and none twice.
    let mut q: Queue<u64> = Queue::new();
    let mut linked: Vec<u64> = Vec::new();
    let mut taken: Vec<u64> = Vec::new();
    let mut to_swing = Vec::new();
    let mut seen_heads = Vec::new();
    let mut next_value: u64 = 0;
    let mut state: u64 = 0x9e37_79b9_7f4a_7c15;
    for _ in 0..6000 {
        state = state.wrapping_mul(6364136223846793005).wrapping_add(1442695040888963407);
        match (state >> 33) % 6 {
            0 | 1 => {
                // an enqueuer pins itself, reads the tail and links, or helps
                let g = q.pin();
                let tail = q.load_tail(&g);
                if q.load_next(tail, &g).is_some() {
                    q.advance_tail(tail, &g);
                    q.unpin(g);
                } else {
                    match q.try_link(tail, next_value, &g) {
                        Ok(_) => {
                            linked.push(next_value);
                            next_value += 1;
                            to_swing.push((tail, g));
                        }
                        Err(back) => {
                            assert_eq!(back, next_value);
                            q.unpin(g);
                        }
                    }
                }
            }
            2 => {
                // an enqueuer that linked earlier swings the tail at last
                if !to_swing.is_empty() {
                    let (tail, g) = to_swing.remove(0);
                    q.advance_tail(tail, &g);
                    q.unpin(g);
                }
            }
            3 => {
                let g = q.pin();
                seen_heads.push((q.load_head(&g), g));
            }
            _ => {
                if !seen_heads.is_empty() {
                    let (seen, g) = seen_heads.remove(0);
                    if let Ok(Some(v)) = q.try_pop(seen, &g) {
                        taken.push(v);
                    }
                    q.unpin(g);
                }
            }
        }
    }
    assert!(linked.len() > 0);
    assert!(taken.len() > 0);
    for (_, g) in to_swing {
        q.unpin(g);
    }
    for (_, g) in seen_heads {
        q.unpin(g);
    }
    let mut g = q.pin();
    while let Some(v) = q.pop(&mut g) {
        taken.push(v);
    }
    q.unpin(g);
    assert_eq!(taken, linked);
}

#[test]
fn push_repins_before_the_round_that_follows_a_stale_tail() {
    let mut q: Queue<u32> = Queue::new();
    let mut g = q.pin();
    assert_eq!(g.pinned_at(), 0);
    q.push(1, &mut g);
    // no round was repeated: the party is where it pinned itself
    assert_eq!(g.pinned_at(), 0);
    assert_eq!(q.pop(&mut g), Some(1));
    // the dequeue retired the old sentinel, which moved the epoch on
    assert_eq!(q.epoch(), 1);
    assert_eq!(g.pinned_at(), 0);
    // a value is linked and the tail is left behind
    let tail = q.load_tail(&g);
    assert!(q.try_link(tail, 2, &g).is_ok());
    // the next push meets the stale tail, swings it, and repins
    q.push(3, &mut g);
    assert_eq!(g.pinned_at(), 1);
    assert_eq!(g.pinned_at(), q.epoch());
    assert_eq!(q.pop(&mut g), Some(2));
    assert_eq!(q.pop(&mut g), Some(3));
    assert_eq!(q.pop(&mut g), None);
    q.unpin(g);
}

#[test]
fn pop_repins_before_the_round_that_follows_a_lagging_tail() {
    let mut q: Queue<u32> = Queue::new();
    let mut g = q.pin();
    q.push(1, &mut g);
    assert_eq!(q.pop(&mut g), Some(1));
    assert_eq!(q.epoch(), 1);
    assert_eq!(g.pinned_at(), 0);
    // a value is linked behind the sentinel and the tail is left on it
    let tail = q.load_tail(&g);
    assert_eq!(tail, q.load_head(&g));
    assert!(q.try_link(tail, 2, &g).is_ok());
    // the dequeue swings the tail, repins, and takes the value
    assert_eq!(q.pop(&mut g), Some(2));
    assert_eq!(g.pinned_at(), 1);
    assert_eq!(q.epoch(), 2);
    q.unpin(g);
}

#[test]
fn pop_without_a_lagging_tail_does_not_repin() {
    let mut q: Queue<u32> = Queue::new();
    let mut g = q.pin();
    q.push(1, &mut g);
    q.push(2, &mut g);
    assert_eq!(q.pop(&mut g), Some(1));
    assert_eq!(q.pop(&mut g), Some(2));
    assert_eq!(q.epoch(), 2);
    assert_eq!(g.pinned_at(), 0);
    q.unpin(g);
}

#[test]
fn queue_teardown_gives_what_is_left_oldest_first() {
    let mut q: Queue<String> = Queue::new();
    let mut g = q.pin();
    for v in ["a", "b", "c"] {
        q.push(String::from(v), &mut g);
    }
    assert_eq!(q.pop(&mut g), Some(String::from("a")));
    q.unpin(g);
    assert_eq!(q.teardown(), vec![String::from("b"), String::from("c")]);
    let q: Queue<u8> = Queue::new();
    assert_eq!(q.teardown(), Vec::<u8>::new());
}
