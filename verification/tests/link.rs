use concurrency_primitives::link::same_node;
use concurrency_primitives::link::Link;

#[test]
fn null_link_refers_to_nothing_and_is_not_marked() {
    let l = Link::null();
    assert!(l.is_null());
    assert!(!l.tag());
    assert_eq!(l, Link::plain(None));
}

#[test]
fn link_to_a_node_is_not_null() {
    let l = Link::to(4);
    assert!(!l.is_null());
    assert!(!l.tag());
    assert_eq!(l.node, Some(4));
    assert_eq!(l, Link::plain(Some(4)));
}

#[test]
fn with_tag_changes_the_mark_only() {
    let l = Link::to(4).with_tag(true);
    assert!(l.tag());
    assert_eq!(l.node, Some(4));
    assert_ne!(l, Link::to(4));
    assert_eq!(l.with_tag(false), Link::to(4));
    let n = Link::null().with_tag(true);
    assert!(n.is_null());
    assert!(n.tag());
}

#[test]
fn same_node_compares_references() {
    assert!(same_node(None, None));
    assert!(same_node(Some(3), Some(3)));
    assert!(!same_node(Some(3), Some(4)));
    assert!(!same_node(Some(3), None));
    assert!(!same_node(None, Some(0)));
}
