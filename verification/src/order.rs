//! The ordering facts that the interval algebra relies on.
//!
//! Intervals are generic over any `PartialOrd` point type. Their contracts
//! speak of the points through `lt`, and hold for every point type whose
//! comparisons form a total order in which `==` is equality.
use vstd::prelude::*;
use vstd::std_specs::cmp::{PartialEqSpec, PartialOrdSpec};
use core::cmp::Ordering;

verus! {

/// `a` is strictly less than `b` according to `T`'s `partial_cmp`.
pub open spec fn lt<T: PartialOrd>(a: T, b: T) -> bool {
    a.partial_cmp_spec(&b) == Some(Ordering::Less)
}

/// `a` is less than or equal to `b`.
pub open spec fn le<T: PartialOrd>(a: T, b: T) -> bool {
    lt(a, b) || a == b
}

/// The comparisons of `T` are a total order and its `==` is equality.
pub open spec fn total_order<T: PartialOrd>() -> bool {
    &&& T::obeys_eq_spec()
    &&& T::obeys_partial_cmp_spec()
    &&& forall|a: T, b: T| #[trigger] a.eq_spec(&b) <==> a == b
    &&& forall|a: T, b: T| #[trigger] a.partial_cmp_spec(&b) is Some
    &&& forall|a: T, b: T|
        #[trigger] a.partial_cmp_spec(&b) == Some(Ordering::Equal) <==> a == b
    &&& forall|a: T, b: T|
        #[trigger] a.partial_cmp_spec(&b) == Some(Ordering::Less) <==> b.partial_cmp_spec(&a)
            == Some(Ordering::Greater)
    &&& forall|a: T, b: T, c: T|
        #![trigger a.partial_cmp_spec(&b), b.partial_cmp_spec(&c)]
        lt(a, b) && lt(b, c) ==> lt(a, c)
}

/// Exactly one of `a < b`, `a == b` and `b < a` holds.
pub proof fn lemma_trichotomy<T: PartialOrd>(a: T, b: T)
    requires
        total_order::<T>(),
    ensures
        lt(a, b) || a == b || lt(b, a),
        !(lt(a, b) && a == b),
        !(lt(a, b) && lt(b, a)),
        !(lt(b, a) && a == b),
{
    assert(a.partial_cmp_spec(&b) is Some);
    assert(b.partial_cmp_spec(&a) is Some);
    assert(a.partial_cmp_spec(&b) == Some(Ordering::Less) <==> b.partial_cmp_spec(&a)
        == Some(Ordering::Greater));
    assert(b.partial_cmp_spec(&a) == Some(Ordering::Less) <==> a.partial_cmp_spec(&b)
        == Some(Ordering::Greater));
    assert(a.partial_cmp_spec(&b) == Some(Ordering::Equal) <==> a == b);
    assert(b.partial_cmp_spec(&a) == Some(Ordering::Equal) <==> b == a);
    match a.partial_cmp_spec(&b) {
        Some(Ordering::Less) => {},
        Some(Ordering::Equal) => {},
        Some(Ordering::Greater) => {},
        None => {},
    }
}

/// Compares two points with `<`.
pub fn less<T: PartialOrd>(a: &T, b: &T) -> (r: bool)
    ensures
        total_order::<T>() ==> r == lt(*a, *b),
{
    *a < *b
}

/// Compares two points with `==`.
pub fn same<T: PartialOrd>(a: &T, b: &T) -> (r: bool)
    ensures
        total_order::<T>() ==> r == (*a == *b),
{
    *a == *b
}

/// Compares two points with `<=`.
pub fn less_or_same<T: PartialOrd>(a: &T, b: &T) -> (r: bool)
    ensures
        total_order::<T>() ==> r == le(*a, *b),
{
    let r = *a <= *b;
    proof {
        if total_order::<T>() {
            lemma_trichotomy(*a, *b);
            assert(a.partial_cmp_spec(b) == Some(Ordering::Equal) <==> *a == *b);
        }
    }
    r
}

} // verus!
