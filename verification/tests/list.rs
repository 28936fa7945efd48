use concurrency_primitives::link::Link;
use concurrency_primitives::lockfreelist::Cursor;
use concurrency_primitives::lockfreelist::List;
use concurrency_primitives::lockfreelist::Node;
use concurrency_primitives::lockfreelist::Slot;

fn filled() -> List<i32, String> {
    let mut list: List<i32, String> = List::new();
    let g = list.pin();
    for key in [20, 10, 30] {
        assert!(list.harris_michael_insert(key, format!("val-{}", key), &g));
    }
    list.unpin(g);
    list
}

#[test]
fn lookup_finds_what_was_inserted() {
    let mut list = filled();
    let g = list.pin();
    assert_eq!(list.harris_lookup(&10, &g), Some(&String::from("val-10")));
    assert_eq!(list.harris_michael_lookup(&20, &g), Some(&String::from("val-20")));
    assert_eq!(list.harris_herlihy_shavit_lookup(&30, &g), Some(&String::from("val-30")));
    list.unpin(g);
}

#[test]
fn lookup_of_an_absent_key_finds_nothing() {
    let mut list = filled();
    let g = list.pin();
    assert_eq!(list.harris_lookup(&15, &g), None);
    assert_eq!(list.harris_michael_lookup(&5, &g), None);
    assert_eq!(list.harris_herlihy_shavit_lookup(&35, &g), None);
    list.unpin(g);
}

#[test]
fn lookup_in_the_empty_list_finds_nothing() {
    let mut list: List<u64, u64> = List::new();
    let g = list.pin();
    assert_eq!(list.harris_lookup(&1, &g), None);
    assert_eq!(list.harris_michael_lookup(&1, &g), None);
    assert_eq!(list.harris_herlihy_shavit_lookup(&1, &g), None);
    assert_eq!(list.harris_delete(&1, &g), None);
    assert_eq!(list.harris_michael_delete(&1, &g), None);
    list.unpin(g);
}

#[test]
fn duplicate_insert_is_refused_and_keeps_the_value() {
    let mut list = filled();
    let g = list.pin();
    assert!(!list.harris_insert(20, String::from("other"), &g));
    assert!(!list.harris_michael_insert(20, String::from("other"), &g));
    assert_eq!(list.harris_lookup(&20, &g), Some(&String::from("val-20")));
    list.unpin(g);
}

#[test]
fn delete_returns_the_value_and_removes_the_key() {
    let mut list = filled();
    let g = list.pin();
    assert_eq!(list.harris_delete(&20, &g), Some(&String::from("val-20")));
    assert_eq!(list.harris_lookup(&20, &g), None);
    assert_eq!(list.harris_michael_lookup(&20, &g), None);
    assert_eq!(list.harris_herlihy_shavit_lookup(&20, &g), None);
    // the others are untouched
    assert_eq!(list.harris_lookup(&10, &g), Some(&String::from("val-10")));
    assert_eq!(list.harris_lookup(&30, &g), Some(&String::from("val-30")));
    // a second delete finds nothing
    assert_eq!(list.harris_delete(&20, &g), None);
    assert_eq!(list.harris_michael_delete(&20, &g), None);
    list.unpin(g);
}

#[test]
fn a_deleted_key_can_be_inserted_again() {
    let mut list = filled();
    let g = list.pin();
    assert_eq!(list.harris_michael_delete(&10, &g), Some(&String::from("val-10")));
    assert!(list.harris_insert(10, String::from("again"), &g));
    assert_eq!(list.harris_herlihy_shavit_lookup(&10, &g), Some(&String::from("again")));
    list.unpin(g);
}

#[test]
fn both_unlinking_strategies_agree() {
    let mut a: List<u32, u32> = List::new();
    let mut b: List<u32, u32> = List::new();
    let ga = a.pin();
    let gb = b.pin();
    let keys = [5u32, 3, 9, 1, 7, 3, 8, 2, 9, 4];
    for k in keys {
        assert_eq!(a.harris_insert(k, k * 10, &ga), b.harris_michael_insert(k, k * 10, &gb));
    }
    for k in [3u32, 4, 6, 9] {
        assert_eq!(a.harris_delete(&k, &ga).copied(), b.harris_michael_delete(&k, &gb).copied());
    }
    for k in 0..11u32 {
        let want = if [1u32, 2, 5, 7, 8].contains(&k) { Some(k * 10) } else { None };
        assert_eq!(a.harris_lookup(&k, &ga).copied(), want);
        assert_eq!(b.harris_michael_lookup(&k, &gb).copied(), want);
        assert_eq!(a.harris_herlihy_shavit_lookup(&k, &ga).copied(), want);
    }
    a.unpin(ga);
    b.unpin(gb);
}

#[test]
fn keys_of_several_ranges_as_in_the_demonstration() {
    let mut list: List<i32, String> = List::new();
    for i in 0..4 {
        let g = list.pin();
        for j in 0..5 {
            let key = i * 10 + j;
            assert!(list.harris_michael_insert(key, format!("val-{}", key), &g));
        }
        list.unpin(g);
    }
    let g = list.pin();
    for (key, present) in [(3, true), (12, true), (21, true), (30, true), (33, true), (5, false)] {
        let found = list.harris_michael_lookup(&key, &g).cloned();
        if present {
            assert_eq!(found, Some(format!("val-{}", key)));
        } else {
            assert_eq!(found, None);
        }
    }
    list.unpin(g);
    let g = list.pin();
    for key in [12, 21] {
        assert_eq!(list.harris_michael_delete(&key, &g).cloned(), Some(format!("val-{}", key)));
    }
    list.unpin(g);
    let g = list.pin();
    for key in [12, 21] {
        assert_eq!(list.harris_michael_lookup(&key, &g), None);
    }
    list.unpin(g);
}

#[test]
fn node_gives_its_value_back() {
    let node = Node::new(1u8, String::from("x"));
    assert_eq!(node.key, 1);
    assert_eq!(node.next, Link::null());
    assert_eq!(node.into_value(), String::from("x"));
}

#[test]
fn cursor_new_drops_the_mark() {
    let c = Cursor::new(Slot::Head, Link { node: Some(3), tag: true });
    assert_eq!(c.prev, Slot::Head);
    assert_eq!(c.curr, Some(3));
}

#[test]
fn head_cursor_stands_on_the_first_node() {
    let mut list: List<u32, u32> = List::new();
    let g = list.pin();
    assert_eq!(list.head(&g), Cursor { prev: Slot::Head, curr: None });
    list.harris_insert(4, 40, &g);
    list.harris_insert(2, 20, &g);
    // key 4 is node 0, key 2 is node 1 and comes first
    assert_eq!(list.head(&g), Cursor { prev: Slot::Head, curr: Some(1) });
    list.unpin(g);
}

#[test]
fn find_positions_the_cursor() {
    let mut list: List<u32, u32> = List::new();
    let g = list.pin();
    for k in [10u32, 20, 30] {
        list.harris_insert(k, k, &g);
    }
    // nodes 0, 1, 2 hold 10, 20, 30
    let mut c = list.head(&g);
    assert_eq!(c.find_hm(&mut list, &20, &g), Ok(true));
    assert_eq!(c, Cursor { prev: Slot::Next(0), curr: Some(1) });
    assert_eq!(*c.lookup(&list, &g), 20);

    let mut c = list.head(&g);
    assert_eq!(c.find_h(&mut list, &25, &g), Ok(false));
    assert_eq!(c, Cursor { prev: Slot::Next(1), curr: Some(2) });

    let mut c = list.head(&g);
    assert_eq!(c.find_hms(&list, &35, &g), Ok(false));
    assert_eq!(c, Cursor { prev: Slot::Next(2), curr: None });

    let mut c = list.head(&g);
    assert_eq!(c.find_hms(&list, &5, &g), Ok(false));
    assert_eq!(c, Cursor { prev: Slot::Head, curr: Some(0) });
    list.unpin(g);
}

#[test]
fn the_short_names_run_the_same_traversals() {
    let mut list: List<u32, u32> = List::new();
    let g = list.pin();
    for k in [10u32, 20, 30] {
        list.harris_insert(k, k, &g);
    }
    let mut a = list.head(&g);
    let mut b = list.head(&g);
    assert_eq!(a.h(&mut list, &20, &g), b.find_h(&mut list, &20, &g));
    assert_eq!(a, b);
    let mut a = list.head(&g);
    let mut b = list.head(&g);
    assert_eq!(a.hm(&mut list, &30, &g), b.find_hm(&mut list, &30, &g));
    assert_eq!(a, b);
    let mut a = list.head(&g);
    let mut b = list.head(&g);
    assert_eq!(a.hms(&list, &15, &g), b.find_hms(&list, &15, &g));
    assert_eq!(a, b);
    list.unpin(g);
}

#[test]
fn cursor_insert_links_in_front_of_its_node() {
    let mut list: List<u32, &str> = List::new();
    let g = list.pin();
    list.harris_insert(10, "ten", &g);
    list.harris_insert(30, "thirty", &g);
    let mut c = list.head(&g);
    assert_eq!(c.find_hm(&mut list, &20, &g), Ok(false));
    assert!(c.insert(&mut list, Node::new(20, "twenty"), &g).is_ok());
    // the cursor now stands on the new node, which is node 2
    assert_eq!(c.curr, Some(2));
    assert_eq!(*c.lookup(&list, &g), "twenty");
    assert_eq!(list.harris_herlihy_shavit_lookup(&20, &g), Some(&"twenty"));
    list.unpin(g);
}

#[test]
fn racing_inserts_at_one_place_the_first_swap_wins() {
    let mut list: List<u32, &str> = List::new();
    let ga = list.pin();
    let gb = list.pin();
    list.harris_insert(10, "ten", &ga);
    list.harris_insert(40, "forty", &ga);
    let mut a = list.head(&ga);
    let mut b = list.head(&gb);
    assert_eq!(a.find_hm(&mut list, &20, &ga), Ok(false));
    assert_eq!(b.find_hm(&mut list, &30, &gb), Ok(false));
    assert_eq!(a, b);
    assert!(b.insert(&mut list, Node::new(30, "thirty"), &gb).is_ok());
    // a's slot no longer leads to a's node: the node comes back, linked to where a stood
    let back = a.insert(&mut list, Node::new(20, "twenty"), &ga);
    let node = match back {
        Ok(()) => panic!("the second swap must fail"),
        Err(node) => node,
    };
    assert_eq!(node.key, 20);
    assert_eq!(node.next, Link::to(1));
    assert_eq!(list.harris_herlihy_shavit_lookup(&20, &ga), None);
    // a starts over and succeeds
    let mut a = list.head(&ga);
    assert_eq!(a.find_hm(&mut list, &20, &ga), Ok(false));
    assert!(a.insert(&mut list, node, &ga).is_ok());
    for (k, v) in [(10, "ten"), (20, "twenty"), (30, "thirty"), (40, "forty")] {
        assert_eq!(list.harris_lookup(&k, &ga), Some(&v));
    }
    list.unpin(ga);
    list.unpin(gb);
}

#[test]
fn racing_deletes_of_one_key_only_one_wins() {
    let mut list: List<u32, &str> = List::new();
    let ga = list.pin();
    let gb = list.pin();
    list.harris_insert(10, "ten", &ga);
    let mut a = list.head(&ga);
    let mut b = list.head(&gb);
    assert_eq!(a.find_h(&mut list, &10, &ga), Ok(true));
    assert_eq!(b.find_h(&mut list, &10, &gb), Ok(true));
    assert_eq!(b.delete(&mut list, &gb), Ok(&"ten"));
    // a is still pinned, so the node is there to be read: already marked
    assert_eq!(a.delete(&mut list, &ga), Err(()));
    assert_eq!(list.harris_lookup(&10, &ga), None);
    list.unpin(ga);
    list.unpin(gb);
}

/// A list that holds 10, 20 (marked, still linked), 30: the state that is
/// left when a node is deleted through a cursor whose slot has gone stale.
fn with_a_marked_node() -> List<u32, &'static str> {
    let mut list: List<u32, &str> = List::new();
    let ga = list.pin();
    let gb = list.pin();
    list.harris_insert(10, "old ten", &gb);
    list.harris_insert(20, "twenty", &gb);
    list.harris_insert(30, "thirty", &gb);
    // nodes 0, 1, 2 hold 10, 20, 30; a stands on 20, its slot is the link of node 0
    let mut a = list.head(&ga);
    assert_eq!(a.find_hm(&mut list, &20, &ga), Ok(true));
    assert_eq!(a, Cursor { prev: Slot::Next(0), curr: Some(1) });
    // 10 is deleted and unlinked, and inserted again as node 3
    assert_eq!(list.harris_delete(&10, &gb), Some(&"old ten"));
    assert!(list.harris_insert(10, "ten", &gb));
    list.unpin(gb);
    // a marks 20, but its swap on the link of node 0 fails: 20 stays linked
    assert_eq!(a.delete(&mut list, &ga), Ok(&"twenty"));
    assert_eq!(a, Cursor { prev: Slot::Next(0), curr: Some(2) });
    list.unpin(ga);
    list
}

#[test]
fn a_marked_node_is_not_found_by_any_strategy() {
    let mut list = with_a_marked_node();
    let g = list.pin();
    assert_eq!(list.harris_herlihy_shavit_lookup(&20, &g), None);
    assert_eq!(list.harris_herlihy_shavit_lookup(&30, &g), Some(&"thirty"));
    list.unpin(g);
    let mut list = with_a_marked_node();
    let g = list.pin();
    assert_eq!(list.harris_lookup(&20, &g), None);
    assert_eq!(list.harris_lookup(&30, &g), Some(&"thirty"));
    list.unpin(g);
    let mut list = with_a_marked_node();
    let g = list.pin();
    assert_eq!(list.harris_michael_lookup(&20, &g), None);
    assert_eq!(list.harris_michael_lookup(&10, &g), Some(&"ten"));
    list.unpin(g);
}

#[test]
fn mark_only_traversal_walks_over_marked_nodes() {
    let mut list = with_a_marked_node();
    let g = list.pin();
    // 10 is node 3, the marked 20 is node 1, 30 is node 2
    let mut c = list.head(&g);
    assert_eq!(c.find_hms(&list, &20, &g), Ok(false));
    assert_eq!(c, Cursor { prev: Slot::Next(3), curr: Some(1) });
    let mut c = list.head(&g);
    assert_eq!(c.find_hms(&list, &30, &g), Ok(true));
    assert_eq!(c, Cursor { prev: Slot::Next(1), curr: Some(2) });
    list.unpin(g);
}

#[test]
fn unlinking_traversals_remove_marked_nodes_from_the_chain() {
    let mut list = with_a_marked_node();
    let g = list.pin();
    let mut c = list.head(&g);
    assert_eq!(c.find_hm(&mut list, &30, &g), Ok(true));
    // the slot is the link of 10 now, not of the marked 20
    assert_eq!(c, Cursor { prev: Slot::Next(3), curr: Some(2) });
    let mut d = list.head(&g);
    assert_eq!(d.find_hms(&list, &20, &g), Ok(false));
    assert_eq!(d, Cursor { prev: Slot::Next(3), curr: Some(2) });
    list.unpin(g);

    let mut list = with_a_marked_node();
    let g = list.pin();
    let mut c = list.head(&g);
    assert_eq!(c.find_h(&mut list, &30, &g), Ok(true));
    assert_eq!(c, Cursor { prev: Slot::Next(3), curr: Some(2) });
    let mut d = list.head(&g);
    assert_eq!(d.find_hms(&list, &20, &g), Ok(false));
    assert_eq!(d, Cursor { prev: Slot::Next(3), curr: Some(2) });
    list.unpin(g);
}

#[test]
fn harris_cuts_a_trailing_run_of_marked_nodes() {
    let mut list: List<u32, u32> = List::new();
    let g = list.pin();
    for k in [1u32, 2, 3] {
        list.harris_insert(k, k, &g);
    }
    let mut a = list.head(&g);
    assert_eq!(a.find_hm(&mut list, &3, &g), Ok(true));
    let mut b = list.head(&g);
    assert_eq!(b.find_hm(&mut list, &2, &g), Ok(true));
    let mut c = list.head(&g);
    assert_eq!(c.find_hm(&mut list, &1, &g), Ok(true));
    assert!(c.delete(&mut list, &g).is_ok());
    assert!(b.delete(&mut list, &g).is_ok());
    assert!(a.delete(&mut list, &g).is_ok());
    // 2 and 3 are marked and still linked, with nothing behind them
    let mut c = list.head(&g);
    assert_eq!(c, Cursor { prev: Slot::Head, curr: Some(1) });
    assert_eq!(c.find_h(&mut list, &9, &g), Ok(false));
    assert_eq!(c, Cursor { prev: Slot::Head, curr: None });
    assert_eq!(list.head(&g), Cursor { prev: Slot::Head, curr: None });
    assert!(list.harris_insert(9, 9, &g));
    assert_eq!(list.harris_lookup(&9, &g), Some(&9));
    list.unpin(g);
}

#[test]
fn a_stale_cursor_is_turned_back_by_an_unlinking_traversal() {
    let mut list: List<u32, u32> = List::new();
    let g = list.pin();
    for k in [1u32, 2, 3] {
        list.harris_insert(k, k, &g);
    }
    // a stands on 2 with the link of 1 as its slot
    let mut a = list.head(&g);
    assert_eq!(a.find_hm(&mut list, &2, &g), Ok(true));
    let stale = a;
    // 1 is deleted and unlinked, then 2 is deleted behind it and stays linked
    let mut b = list.head(&g);
    assert_eq!(b.find_hm(&mut list, &1, &g), Ok(true));
    assert!(b.delete(&mut list, &g).is_ok());
    assert!(a.delete(&mut list, &g).is_ok());
    // a traversal from the stale cursor meets the marked 2 at once, and its
    // slot, the marked link of 1, does not lead there any more
    let mut c = stale;
    assert_eq!(c.find_hm(&mut list, &3, &g), Err(()));
    assert_eq!(c, stale);
    let mut c = stale;
    assert_eq!(c.find_h(&mut list, &3, &g), Err(()));
    // from the head both go through
    let mut c = list.head(&g);
    assert_eq!(c.find_hm(&mut list, &3, &g), Ok(true));
    assert_eq!(c, Cursor { prev: Slot::Head, curr: Some(2) });
    list.unpin(g);
}

#[test]
fn insert_replaces_a_marked_node_of_the_same_key() {
    let mut list = with_a_marked_node();
    let g = list.pin();
    assert!(list.harris_michael_insert(20, "new twenty", &g));
    assert_eq!(list.harris_herlihy_shavit_lookup(&20, &g), Some(&"new twenty"));
    list.unpin(g);
    let mut list = with_a_marked_node();
    let g = list.pin();
    assert!(list.harris_insert(20, "new twenty", &g));
    assert_eq!(list.harris_herlihy_shavit_lookup(&20, &g), Some(&"new twenty"));
    list.unpin(g);
}

#[test]
fn a_deleted_node_is_destroyed_when_nobody_is_pinned_any_more() {
    let value = std::rc::Rc::new(5u32);
    let mut list: List<u32, std::rc::Rc<u32>> = List::new();
    let writer = list.pin();
    assert!(list.harris_insert(1, value.clone(), &writer));
    assert_eq!(std::rc::Rc::strong_count(&value), 2);
    // a reader is pinned while the node is deleted and unlinked
    let reader = list.pin();
    let mut c = list.head(&reader);
    assert_eq!(c.find_hms(&list, &1, &reader), Ok(true));
    assert_eq!(list.harris_delete(&1, &writer).map(|v| **v), Some(5));
    list.unpin(writer);
    // the node is out of the list, but the reader can still read it
    assert_eq!(std::rc::Rc::strong_count(&value), 2);
    assert_eq!(**c.lookup(&list, &reader), 5);
    // once the reader lets go, the node and its value are destroyed
    list.unpin(reader);
    assert_eq!(std::rc::Rc::strong_count(&value), 1);
}

#[test]
fn repinning_lets_deleted_nodes_be_destroyed() {
    let value = std::rc::Rc::new(0u8);
    let mut list: List<u32, std::rc::Rc<u8>> = List::new();
    let mut g = list.pin();
    for k in 0..4u32 {
        assert!(list.harris_michael_insert(k, value.clone(), &g));
    }
    assert_eq!(std::rc::Rc::strong_count(&value), 5);
    for k in 0..4u32 {
        assert!(list.harris_michael_delete(&k, &g).is_some());
    }
    // all four are retired, and wait for the party that is pinned
    assert_eq!(std::rc::Rc::strong_count(&value), 5);
    list.repin(&mut g);
    assert_eq!(std::rc::Rc::strong_count(&value), 1);
    list.unpin(g);
}

#[test]
fn a_marked_node_that_is_still_linked_is_not_destroyed() {
    let value = std::rc::Rc::new(0u8);
    let mut list: List<u32, std::rc::Rc<u8>> = List::new();
    let mut ga = list.pin();
    let gb = list.pin();
    list.harris_insert(10, value.clone(), &gb);
    list.harris_insert(20, value.clone(), &gb);
    let mut a = list.head(&ga);
    assert_eq!(a.find_hm(&mut list, &20, &ga), Ok(true));
    assert!(list.harris_delete(&10, &gb).is_some());
    list.unpin(gb);
    // a's swap on the stale slot fails: 20 is deleted, but stays on the chain
    assert!(a.delete(&mut list, &ga).is_ok());
    list.repin(&mut ga);
    // 10 is destroyed; 20 is not retired yet
    assert_eq!(std::rc::Rc::strong_count(&value), 2);
    // a traversal unlinks and retires it, and the next repin destroys it
    assert_eq!(list.harris_lookup(&20, &ga), None);
    assert_eq!(std::rc::Rc::strong_count(&value), 2);
    list.repin(&mut ga);
    assert_eq!(std::rc::Rc::strong_count(&value), 1);
    list.unpin(ga);
}

#[test]
fn interleaved_list_operations_agree_with_a_reference_set() {
    // Cursor operations of several parties on disjoint key ranges, their
    // order set by a fixed pseudo-random schedule, checked against a map that
    // is kept beside the list.
    let mut list: List<u32, u64> = List::new();
    let mut reference: std::collections::BTreeMap<u32, u64> = std::collections::BTreeMap::new();
    let mut parked = Vec::new();
    let mut state: u64 = 0x0123_4567_89ab_cdef;
    let mut stamp: u64 = 0;
    for _ in 0..5000 {
        state = state.wrapping_mul(6364136223846793005).wrapping_add(1442695040888963407);
        let party = ((state >> 40) % 4) as u32;
        let key = party * 100 + ((state >> 20) % 12) as u32;
        match (state >> 33) % 6 {
            0 => {
                // a party pins itself and positions a cursor for a later insert or delete
                let g = list.pin();
                let mut c = list.head(&g);
                let found = c.find_hm(&mut list, &key, &g).unwrap();
                assert_eq!(found, reference.contains_key(&key));
                parked.push((c, key, found, g));
            }
            1 | 2 => {
                if !parked.is_empty() {
                    let (mut c, key, found, g) = parked.remove(0);
                    if found {
                        if let Ok(v) = c.delete(&mut list, &g) {
                            assert_eq!(reference.remove(&key), Some(*v));
                        }
                    } else {
                        stamp += 1;
                        if c.insert(&mut list, Node::new(key, stamp), &g).is_ok() {
                            assert_eq!(reference.insert(key, stamp), None);
                        }
                    }
                    list.unpin(g);
                }
            }
            3 => {
                stamp += 1;
                let g = list.pin();
                let went_in = list.harris_insert(key, stamp, &g);
                list.unpin(g);
                assert_eq!(went_in, !reference.contains_key(&key));
                if went_in {
                    reference.insert(key, stamp);
                }
            }
            4 => {
                let g = list.pin();
                let gone = list.harris_michael_delete(&key, &g).copied();
                list.unpin(g);
                assert_eq!(gone, reference.remove(&key));
            }
            _ => {
                let g = list.pin();
                assert_eq!(list.harris_herlihy_shavit_lookup(&key, &g), reference.get(&key));
                list.unpin(g);
            }
        }
    }
    for (_, _, _, g) in parked {
        list.unpin(g);
    }
    let g = list.pin();
    for key in 0..400u32 {
        assert_eq!(list.harris_lookup(&key, &g), reference.get(&key));
    }
    list.unpin(g);
}

#[test]
fn list_teardown_gives_the_linked_nodes_in_key_order() {
    let mut list = with_a_marked_node();
    // 10, 20 (marked, still linked), 30
    let out = list_keys(list.teardown());
    assert_eq!(out, vec![(10, "ten", false), (20, "twenty", true), (30, "thirty", false)]);
    list = List::new();
    assert!(list.teardown().is_empty());
}

fn list_keys(nodes: Vec<Node<u32, &'static str>>) -> Vec<(u32, &'static str, bool)> {
    nodes.into_iter().map(|n| (n.key, n.value, n.next.tag)).collect()
}

#[test]
fn list_teardown_frees_every_value() {
    let value = std::rc::Rc::new(0u8);
    let mut list: List<u32, std::rc::Rc<u8>> = List::new();
    let g = list.pin();
    for k in 0..3u32 {
        assert!(list.harris_insert(k, value.clone(), &g));
    }
    assert!(list.harris_delete(&1, &g).is_some());
    list.unpin(g);
    // the deleted node was destroyed when the last party unpinned
    assert_eq!(std::rc::Rc::strong_count(&value), 3);
    drop(list.teardown());
    assert_eq!(std::rc::Rc::strong_count(&value), 1);
}

#[test]
fn is_anchored_tells_whether_a_cursor_can_start_a_traversal() {
    let mut list: List<u32, u32> = List::new();
    let g = list.pin();
    for k in [1u32, 2, 3] {
        list.harris_insert(k, k, &g);
    }
    let mut c = list.head(&g);
    assert!(list.is_anchored(&c));
    assert_eq!(c.find_hm(&mut list, &2, &g), Ok(true));
    assert!(list.is_anchored(&c));
    // the node of the cursor is deleted and unlinked by somebody else
    assert!(list.harris_delete(&2, &g).is_some());
    assert!(!list.is_anchored(&c));
    // a cursor at the end, and one with a slot that is no place of the list
    assert!(list.is_anchored(&Cursor { prev: Slot::Next(2), curr: None }));
    assert!(!list.is_anchored(&Cursor { prev: Slot::Next(9), curr: None }));
    assert!(!list.is_anchored(&Cursor { prev: Slot::Head, curr: Some(9) }));
    list.unpin(g);
}

#[test]
fn a_cursor_whose_node_has_left_the_chain_is_turned_back() {
    let mut list: List<u32, u32> = List::new();
    let g = list.pin();
    for k in [1u32, 2, 3] {
        list.harris_insert(k, k, &g);
    }
    let mut c = list.head(&g);
    assert_eq!(c.find_hm(&mut list, &2, &g), Ok(true));
    let stale = c;
    // the node is deleted and unlinked by somebody else; the party of the
    // cursor is still pinned, so the node is there to be read
    assert!(list.harris_michael_delete(&2, &g).is_some());
    assert!(!list.is_anchored(&stale));
    let mut c = stale;
    assert_eq!(c.find_hm(&mut list, &3, &g), Err(()));
    assert_eq!(c, stale);
    let mut c = stale;
    assert_eq!(c.hm(&mut list, &1, &g), Err(()));
    assert_eq!(c, stale);
    let mut c = stale;
    assert_eq!(c.find_h(&mut list, &3, &g), Err(()));
    assert_eq!(c, stale);
    let mut c = stale;
    assert_eq!(c.h(&mut list, &3, &g), Err(()));
    assert_eq!(c, stale);
    let mut c = stale;
    assert_eq!(c.find_hms(&list, &3, &g), Err(()));
    assert_eq!(c, stale);
    let mut c = stale;
    assert_eq!(c.hms(&list, &3, &g), Err(()));
    assert_eq!(c, stale);
    // nothing was changed
    assert_eq!(list.harris_herlihy_shavit_lookup(&1, &g), Some(&1));
    assert_eq!(list.harris_herlihy_shavit_lookup(&3, &g), Some(&3));
    list.unpin(g);
}
