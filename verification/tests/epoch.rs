use concurrency_primitives::epoch::destroy_released;
use concurrency_primitives::epoch::Collector;

#[test]
fn nothing_retired_nothing_released() {
    let mut c = Collector::new();
    let g = c.pin();
    assert_eq!(c.unpin(g), Vec::<usize>::new());
}

#[test]
fn a_retired_node_waits_for_the_party_that_retired_it() {
    let mut c = Collector::new();
    let mut g = c.pin();
    c.defer_destroy(&g, 7);
    // repinning is unpinning and pinning again: the grace period is over
    assert_eq!(c.repin(&mut g), vec![7]);
    assert_eq!(c.unpin(g), Vec::<usize>::new());
}

#[test]
fn a_retired_node_waits_for_every_party_pinned_at_the_time() {
    let mut c = Collector::new();
    let a = c.pin();
    let b = c.pin();
    c.defer_destroy(&a, 1);
    // a is gone, but b was pinned when the node was retired
    assert_eq!(c.unpin(a), Vec::<usize>::new());
    assert_eq!(c.unpin(b), vec![1]);
}

#[test]
fn a_party_pinned_later_does_not_hold_a_node_up() {
    let mut c = Collector::new();
    let a = c.pin();
    c.defer_destroy(&a, 1);
    let late = c.pin();
    assert_eq!(c.unpin(a), vec![1]);
    assert_eq!(c.unpin(late), Vec::<usize>::new());
}

#[test]
fn nodes_are_released_in_the_order_of_retirement_and_once() {
    let mut c = Collector::new();
    let a = c.pin();
    c.defer_destroy(&a, 10);
    let mut b = c.pin();
    c.defer_destroy(&b, 11);
    c.defer_destroy(&a, 12);
    // 10 was retired before b pinned itself; 11 and 12 after
    assert_eq!(c.unpin(a), vec![10]);
    assert_eq!(c.repin(&mut b), vec![11, 12]);
    assert_eq!(c.repin(&mut b), Vec::<usize>::new());
    assert_eq!(c.unpin(b), Vec::<usize>::new());
}

#[test]
fn repinning_lets_go_of_what_was_retired_before() {
    let mut c = Collector::new();
    let mut slow = c.pin();
    let quick = c.pin();
    c.defer_destroy(&quick, 1);
    assert_eq!(c.unpin(quick), Vec::<usize>::new());
    // the slow party checks back in: the node need not wait for it any longer
    assert_eq!(c.repin(&mut slow), vec![1]);
    let quick = c.pin();
    c.defer_destroy(&quick, 2);
    assert_eq!(c.unpin(quick), Vec::<usize>::new());
    assert_eq!(c.unpin(slow), vec![2]);
}

#[test]
fn a_free_place_in_the_table_is_used_again() {
    let mut c = Collector::new();
    let a = c.pin();
    let b = c.pin();
    c.unpin(a);
    // the next party takes the place that a left
    let d = c.pin();
    c.defer_destroy(&d, 5);
    assert_eq!(c.unpin(b), Vec::<usize>::new());
    assert_eq!(c.unpin(d), vec![5]);
}

#[test]
fn destroying_empties_the_released_slots_only() {
    let mut slots = vec![Some("a"), Some("b"), None, Some("d")];
    destroy_released(&mut slots, &vec![3, 0]);
    assert_eq!(slots, vec![None, Some("b"), None, None]);
    destroy_released(&mut slots, &Vec::new());
    assert_eq!(slots, vec![None, Some("b"), None, None]);
}

#[test]
fn a_guard_knows_when_it_pinned_itself() {
    let mut c = Collector::new();
    assert_eq!(c.current(), 0);
    let mut g = c.pin();
    assert_eq!(g.pinned_at(), 0);
    c.defer_destroy(&g, 1);
    c.defer_destroy(&g, 2);
    assert_eq!(c.current(), 2);
    assert_eq!(g.pinned_at(), 0);
    c.repin(&mut g);
    assert_eq!(g.pinned_at(), 2);
    c.unpin(g);
}
