//! Node references as the structures store them: an index into the structure's
//! node arena, or nothing, together with the one-bit deletion mark of the
//! sorted list. A `Link` is always read and written as one unit, which is what
//! makes a compare-and-swap on it a single atomic step.

use vstd::prelude::*;

verus! {

/// A reference to a node of an arena (or to none), with a deletion mark.
///
/// The mark belongs to the node that *stores* the link in its `next` field: a
/// node whose `next` is marked is logically deleted, whatever the link refers
/// to.
#[derive(Clone, Copy, PartialEq, Eq, Structural, Debug)]
pub struct Link {
    pub node: Option<usize>,
    pub tag: bool,
}

impl Link {
    /// The unmarked reference to nothing.
    pub fn null() -> (l: Link)
        ensures
            l == Link::spec_null(),
    {
        Link { node: None, tag: false }
    }

    /// What `null` returns.
    pub open spec fn spec_null() -> Link {
        Link { node: None, tag: false }
    }

    /// The unmarked reference to node `i`.
    pub fn to(i: usize) -> (l: Link)
        ensures
            l == Link::spec_to(i),
    {
        Link { node: Some(i), tag: false }
    }

    /// What `to` returns.
    pub open spec fn spec_to(i: usize) -> Link {
        Link { node: Some(i), tag: false }
    }

    /// The unmarked reference to `node`, which may be nothing.
    pub fn plain(node: Option<usize>) -> (l: Link)
        ensures
            l == Link::spec_plain(node),
    {
        Link { node, tag: false }
    }

    /// What `plain` returns.
    pub open spec fn spec_plain(node: Option<usize>) -> Link {
        Link { node, tag: false }
    }

    /// Whether the link refers to no node.
    pub fn is_null(&self) -> (b: bool)
        ensures
            b == (self.node is None),
    {
        self.node.is_none()
    }

    /// The deletion mark.
    pub fn tag(&self) -> (t: bool)
        ensures
            t == self.tag,
    {
        self.tag
    }

    /// The same reference with the mark replaced by `tag`.
    pub fn with_tag(self, tag: bool) -> (l: Link)
        ensures
            l == (Link { node: self.node, tag }),
    {
        Link { node: self.node, tag }
    }
}

/// The element of `c` at position `p`, or none when `p` is past the end.
pub open spec fn at(c: Seq<usize>, p: int) -> Option<usize> {
    if 0 <= p < c.len() {
        Some(c[p])
    } else {
        None
    }
}

/// Whether two node references name the same node, or both name none.
pub fn same_node(a: Option<usize>, b: Option<usize>) -> (r: bool)
    ensures
        r == (a == b),
{
    match (a, b) {
        (None, None) => true,
        (Some(x), Some(y)) => x == y,
        _ => false,
    }
}

} // verus!
