use concurrency_primitives::treiberstack::Stack;

#[test]
fn stack_is_last_in_first_out() {
    let mut s: Stack<u32> = Stack::new();
    s.push(1);
    s.push(2);
    s.push(3);
    assert_eq!(s.pop(), Some(3));
    assert_eq!(s.pop(), Some(2));
    assert_eq!(s.pop(), Some(1));
    assert_eq!(s.pop(), None);
}

#[test]
fn new_stack_is_empty() {
    let mut s: Stack<String> = Stack::new();
    assert!(s.is_empty());
    assert_eq!(s.pop(), None);
    assert!(s.is_empty());
}

#[test]
fn is_empty_follows_push_and_pop() {
    let mut s: Stack<u8> = Stack::new();
    s.push(7);
    assert!(!s.is_empty());
    assert_eq!(s.pop(), Some(7));
    assert!(s.is_empty());
}

#[test]
fn stack_moves_values_that_are_not_copy() {
    let mut s: Stack<String> = Stack::new();
    s.push(String::from("a"));
    s.push(String::from("b"));
    assert_eq!(s.pop(), Some(String::from("b")));
    assert_eq!(s.pop(), Some(String::from("a")));
}

#[test]
fn try_push_succeeds_on_the_head_it_saw() {
    let mut s: Stack<u32> = Stack::new();
    let g = s.pin();
    let seen = s.load_head(&g);
    assert_eq!(seen, None);
    assert_eq!(s.try_push(seen, 5), Ok(()));
    assert_eq!(s.load_head(&g), Some(0));
    s.unpin(g);
    assert_eq!(s.pop(), Some(5));
}

#[test]
fn racing_pushes_the_first_swap_wins() {
    let mut s: Stack<u32> = Stack::new();
    s.push(1);
    let ga = s.pin();
    let gb = s.pin();
    // two pushers read the same head
    let seen_a = s.load_head(&ga);
    let seen_b = s.load_head(&gb);
    // b swaps first
    assert_eq!(s.try_push(seen_b, 20), Ok(()));
    // a finds the head changed and gets its value back
    assert_eq!(s.try_push(seen_a, 10), Err(10));
    // a reads again and tries again
    let seen_a = s.load_head(&ga);
    assert_eq!(s.try_push(seen_a, 10), Ok(()));
    s.unpin(ga);
    s.unpin(gb);
    assert_eq!(s.pop(), Some(10));
    assert_eq!(s.pop(), Some(20));
    assert_eq!(s.pop(), Some(1));
    assert_eq!(s.pop(), None);
}

#[test]
fn racing_pops_take_different_values() {
    let mut s: Stack<u32> = Stack::new();
    s.push(1);
    s.push(2);
    let mut ga = s.pin();
    let gb = s.pin();
    let seen_a = s.load_head(&ga).unwrap();
    let seen_b = s.load_head(&gb).unwrap();
    assert_eq!(seen_a, seen_b);
    assert_eq!(s.try_pop(seen_b, &gb), Ok(2));
    s.unpin(gb);
    // the node a saw is retired by now, but a is still pinned: the node is
    // there to be read, the swap fails and changes nothing
    assert_eq!(s.try_pop(seen_a, &ga), Err(()));
    s.repin(&mut ga);
    let seen_a = s.load_head(&ga).unwrap();
    assert_eq!(s.try_pop(seen_a, &ga), Ok(1));
    s.unpin(ga);
    assert!(s.is_empty());
}

#[test]
fn pop_does_not_mistake_a_new_node_for_the_one_it_saw() {
    // The sequence that defeats a stack which reuses nodes: a popper sees
    // the top, the top is popped and another value pushed, and the popper
    // then swaps.
    let mut s: Stack<u32> = Stack::new();
    s.push(1);
    s.push(2);
    let g = s.pin();
    let seen = s.load_head(&g).unwrap();
    assert_eq!(s.pop(), Some(2));
    s.push(3);
    assert_eq!(s.try_pop(seen, &g), Err(()));
    s.unpin(g);
    assert_eq!(s.pop(), Some(3));
    assert_eq!(s.pop(), Some(1));
}

#[test]
fn try_pop_of_a_node_below_the_top_fails() {
    let mut s: Stack<u32> = Stack::new();
    s.push(1);
    let g = s.pin();
    let bottom = s.load_head(&g).unwrap();
    s.push(2);
    assert_eq!(s.try_pop(bottom, &g), Err(()));
    s.unpin(g);
    assert_eq!(s.pop(), Some(2));
    assert_eq!(s.pop(), Some(1));
}

#[test]
fn interleaved_stack_operations_lose_nothing() {
    // Many pushers and a few poppers, their steps interleaved by a fixed
    // pseudo-random schedule. What is popped must have been pushed before
    // and not popped yet; what is left at the end must be the rest.
    let mut s: Stack<u64> = Stack::new();
    let mut outstanding: Vec<u64> = Vec::new();
    let mut pending_push: Vec<(Option<usize>, u64)> = Vec::new();
    let mut pending_pop = Vec::new();
    let mut next_value: u64 = 0;
    let mut state: u64 = 0x2545_f491_4f6c_dd1d;
    let mut pushed: u64 = 0;
    let mut popped: u64 = 0;
    for _ in 0..8000 {
        state = state.wrapping_mul(6364136223846793005).wrapping_add(1442695040888963407);
        match (state >> 33) % 5 {
            0 => {
                // a pusher reads the head
                let g = s.pin();
                pending_push.push((s.load_head(&g), next_value));
                s.unpin(g);
                next_value += 1;
            }
            1 | 2 => {
                // a pusher swaps
                if let Some((seen, value)) = pending_push.pop() {
                    match s.try_push(seen, value) {
                        Ok(()) => {
                            outstanding.push(value);
                            pushed += 1;
                        }
                        Err(back) => {
                            assert_eq!(back, value);
                            let g = s.pin();
                            pending_push.insert(0, (s.load_head(&g), back));
                            s.unpin(g);
                        }
                    }
                }
            }
            3 => {
                // a popper pins itself and reads the head
                let g = s.pin();
                match s.load_head(&g) {
                    Some(seen) => pending_pop.push((seen, g)),
                    None => s.unpin(g),
                }
            }
            _ => {
                // the popper that read last swaps, and unpins
                if let Some((seen, g)) = pending_pop.pop() {
                    if let Ok(value) = s.try_pop(seen, &g) {
                        let at = outstanding.iter().position(|v| *v == value);
                        assert!(at.is_some());
                        outstanding.remove(at.unwrap());
                        popped += 1;
                    }
                    s.unpin(g);
                }
            }
        }
    }
    assert!(pushed > 0);
    assert!(popped > 0);
    for (_, g) in pending_pop {
        s.unpin(g);
    }
    let mut rest: Vec<u64> = Vec::new();
    while let Some(v) = s.pop() {
        rest.push(v);
    }
    rest.sort();
    outstanding.sort();
    assert_eq!(rest, outstanding);
}

#[test]
fn stack_teardown_gives_what_is_left_newest_first() {
    let mut s: Stack<String> = Stack::new();
    for v in ["a", "b", "c"] {
        s.push(String::from(v));
    }
    assert_eq!(s.pop(), Some(String::from("c")));
    assert_eq!(s.teardown(), vec![String::from("b"), String::from("a")]);
    let s: Stack<u8> = Stack::new();
    assert_eq!(s.teardown(), Vec::<u8>::new());
}

#[test]
fn stack_teardown_frees_every_payload() {
    let value = std::rc::Rc::new(0u8);
    let mut s: Stack<std::rc::Rc<u8>> = Stack::new();
    s.push(value.clone());
    s.push(value.clone());
    assert_eq!(std::rc::Rc::strong_count(&value), 3);
    let out = s.teardown();
    assert_eq!(out.len(), 2);
    assert_eq!(std::rc::Rc::strong_count(&value), 3);
    drop(out);
    assert_eq!(std::rc::Rc::strong_count(&value), 1);
}
