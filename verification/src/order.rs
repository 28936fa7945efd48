//! The total order on keys that the sorted list relies on.
//!
//! Keys are any `Ord` type whose comparison is known to the verifier to be a
//! total order that agrees with equality (all integer types and tuples of them
//! are). Everything else in the crate speaks of keys through `lt` and `rank`
//! only.

use vstd::prelude::*;
use vstd::std_specs::cmp::OrdSpec;
use vstd::std_specs::cmp::PartialOrdSpec;
use core::cmp::Ordering;

verus! {

/// Where a stored key stands relative to a probe key.
#[derive(Clone, Copy, PartialEq, Eq, Structural, Debug)]
pub enum Rank {
    Below,
    Same,
    Above,
}

/// `K`'s comparison is a total order, and two keys compare equal only if they
/// are the same value.
pub open spec fn total_order<K: Ord>() -> bool {
    &&& vstd::laws_cmp::obeys_cmp::<K>()
    &&& vstd::laws_eq::obeys_concrete_eq::<K>()
}

/// `a` is strictly below `b`.
pub open spec fn lt<K: Ord>(a: K, b: K) -> bool {
    a.cmp_spec(&b) == Ordering::Less
}

/// Compares a stored key `a` with a probe `b`.
pub fn rank<K: Ord>(a: &K, b: &K) -> (r: Rank)
    requires
        total_order::<K>(),
    ensures
        r == Rank::Below <==> lt(*a, *b),
        r == Rank::Same <==> *a == *b,
        r == Rank::Above <==> lt(*b, *a),
{
    proof {
        reveal(vstd::laws_cmp::obeys_cmp_ord);
        lemma_outcomes::<K>(*a, *b);
    }
    match a.cmp(b) {
        Ordering::Less => Rank::Below,
        Ordering::Equal => Rank::Same,
        Ordering::Greater => Rank::Above,
    }
}

/// Exactly one of `a < b`, `a == b`, `b < a` holds.
pub proof fn lemma_trichotomy<K: Ord>(a: K, b: K)
    requires
        total_order::<K>(),
    ensures
        lt(a, b) || a == b || lt(b, a),
        !(lt(a, b) && a == b),
        !(lt(b, a) && a == b),
        !(lt(a, b) && lt(b, a)),
{
    lemma_outcomes(a, b);
}

/// What the three outcomes of a comparison mean.
proof fn lemma_outcomes<K: Ord>(a: K, b: K)
    requires
        total_order::<K>(),
    ensures
        a.cmp_spec(&b) == Ordering::Less <==> lt(a, b),
        a.cmp_spec(&b) == Ordering::Equal <==> a == b,
        a.cmp_spec(&b) == Ordering::Greater <==> lt(b, a),
{
    reveal(vstd::laws_cmp::obeys_cmp_partial_ord);
    reveal(vstd::laws_cmp::obeys_cmp_ord);
    reveal(vstd::laws_cmp::obeys_partial_cmp_spec_properties);
    reveal(vstd::laws_eq::obeys_concrete_eq);
    assert(a.partial_cmp_spec(&b) == Some(a.cmp_spec(&b)));
    assert(b.partial_cmp_spec(&a) == Some(b.cmp_spec(&a)));
}

/// `<` on keys is transitive.
pub proof fn lemma_transitive<K: Ord>(a: K, b: K, c: K)
    requires
        total_order::<K>(),
        lt(a, b),
        lt(b, c),
    ensures
        lt(a, c),
{
    reveal(vstd::laws_cmp::obeys_cmp_partial_ord);
    reveal(vstd::laws_cmp::obeys_cmp_ord);
    reveal(vstd::laws_cmp::obeys_partial_cmp_spec_properties);
    assert(a.partial_cmp_spec(&b) == Some(a.cmp_spec(&b)));
    assert(b.partial_cmp_spec(&c) == Some(b.cmp_spec(&c)));
    assert(a.partial_cmp_spec(&c) == Some(a.cmp_spec(&c)));
}

} // verus!
