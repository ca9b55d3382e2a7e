//! A bounded interval type for set selections.
//!
//! An interval is a contiguous range of points which may include or exclude
//! either of its boundaries. The contracts hold for every point type whose
//! comparisons form a total order (`total_order`).
use vstd::prelude::*;
use vstd::std_specs::ops::SubSpec;
use crate::order::{lt, le, total_order, less, same, less_or_same, lemma_trichotomy};

verus! {

////////////////////////////////////////////////////////////////////////////////
// Bound
////////////////////////////////////////////////////////////////////////////////
/// Determines the type of an interval's boundary.
#[derive(Debug, PartialOrd, Ord, PartialEq, Eq, Hash, Clone, Copy)]
pub enum Bound<T: PartialOrd> {
    /// The boundary includes the point.
    Included(T),
    /// The boundary excludes the point.
    Excluded(T),
}

impl<T: PartialOrd> Bound<T> {
    /// The point of the boundary.
    pub open spec fn pt(self) -> T {
        match self {
            Bound::Included(x) => x,
            Bound::Excluded(x) => x,
        }
    }

    /// Whether the boundary includes its point.
    pub open spec fn closed(self) -> bool {
        self is Included
    }
}

/// The bound at the greater point of `a` and `b`; at a shared point, the
/// bound that includes it only if both do.
pub open spec fn spec_intersect_or_greatest<T: PartialOrd>(a: Bound<T>, b: Bound<T>) -> Bound<T> {
    if a.pt() == b.pt() {
        if a.closed() && b.closed() {
            a
        } else {
            Bound::Excluded(a.pt())
        }
    } else if lt(b.pt(), a.pt()) {
        a
    } else {
        b
    }
}

/// The bound at the lesser point of `a` and `b`; at a shared point, the bound
/// that includes it only if both do.
pub open spec fn spec_intersect_or_least<T: PartialOrd>(a: Bound<T>, b: Bound<T>) -> Bound<T> {
    if a.pt() == b.pt() {
        if a.closed() && b.closed() {
            a
        } else {
            Bound::Excluded(a.pt())
        }
    } else if lt(a.pt(), b.pt()) {
        a
    } else {
        b
    }
}

/// The bound at the lesser point of `a` and `b`; at a shared point, the bound
/// that includes it if either does.
pub open spec fn spec_union_or_least<T: PartialOrd>(a: Bound<T>, b: Bound<T>) -> Bound<T> {
    if a.pt() == b.pt() {
        if !a.closed() && !b.closed() {
            a
        } else {
            Bound::Included(a.pt())
        }
    } else if lt(a.pt(), b.pt()) {
        a
    } else {
        b
    }
}

/// The bound at the greater point of `a` and `b`; at a shared point, the
/// bound that includes it if either does.
pub open spec fn spec_union_or_greatest<T: PartialOrd>(a: Bound<T>, b: Bound<T>) -> Bound<T> {
    if a.pt() == b.pt() {
        if !a.closed() && !b.closed() {
            a
        } else {
            Bound::Included(a.pt())
        }
    } else if lt(b.pt(), a.pt()) {
        a
    } else {
        b
    }
}

impl<T: PartialOrd + Copy> Bound<T> {
    /// Returns the point of the boundary.
    pub fn point(&self) -> (r: T)
        ensures
            r == self.pt(),
    {
        match self {
            Bound::Included(x) => *x,
            Bound::Excluded(x) => *x,
        }
    }

    /// Returns whether the boundary includes its point.
    pub fn is_closed(&self) -> (r: bool)
        ensures
            r == self.closed(),
    {
        match self {
            Bound::Included(..) => true,
            Bound::Excluded(..) => false,
        }
    }

    /// Returns whether the boundary excludes its point.
    pub fn is_open(&self) -> (r: bool)
        ensures
            r == !self.closed(),
    {
        !self.is_closed()
    }

    /// Returns whether two boundaries are the same.
    pub fn same_as(&self, other: &Self) -> (r: bool)
        ensures
            total_order::<T>() ==> r == (*self == *other),
    {
        let r = self.is_closed() == other.is_closed() && same(&self.point(), &other.point());
        proof {
            if total_order::<T>() && self.closed() == other.closed() && self.pt() == other.pt() {
                assert(*self == *other);
            }
        }
        r
    }

    /// Returns the intersect of the given boundaries, or the lowest one if they
    /// are not at the same point.
    pub fn intersect_or_least(&self, other: &Self) -> (r: Self)
        ensures
            total_order::<T>() ==> r == spec_intersect_or_least(*self, *other),
    {
        let (a, b) = (self.point(), other.point());
        if same(&a, &b) {
            if self.is_closed() && other.is_closed() {
                *self
            } else {
                Bound::Excluded(a)
            }
        } else if less(&a, &b) {
            *self
        } else {
            *other
        }
    }

    /// Returns the intersect of the given boundaries, or the greatest one if
    /// they are not at the same point.
    pub fn intersect_or_greatest(&self, other: &Self) -> (r: Self)
        ensures
            total_order::<T>() ==> r == spec_intersect_or_greatest(*self, *other),
    {
        let (a, b) = (self.point(), other.point());
        if same(&a, &b) {
            if self.is_closed() && other.is_closed() {
                *self
            } else {
                Bound::Excluded(a)
            }
        } else if less(&b, &a) {
            *self
        } else {
            *other
        }
    }

    /// Returns the union of the given boundaries, or the lowest one if they are
    /// not at the same point.
    pub fn union_or_least(&self, other: &Self) -> (r: Self)
        ensures
            total_order::<T>() ==> r == spec_union_or_least(*self, *other),
    {
        let (a, b) = (self.point(), other.point());
        if same(&a, &b) {
            if self.is_open() && other.is_open() {
                *self
            } else {
                Bound::Included(a)
            }
        } else if less(&a, &b) {
            *self
        } else {
            *other
        }
    }

    /// Returns the union of the given boundaries, or the greatest one if they
    /// are not at the same point.
    pub fn union_or_greatest(&self, other: &Self) -> (r: Self)
        ensures
            total_order::<T>() ==> r == spec_union_or_greatest(*self, *other),
    {
        let (a, b) = (self.point(), other.point());
        if same(&a, &b) {
            if self.is_open() && other.is_open() {
                *self
            } else {
                Bound::Included(a)
            }
        } else if less(&b, &a) {
            *self
        } else {
            *other
        }
    }
}

////////////////////////////////////////////////////////////////////////////////
// Interval<T>
////////////////////////////////////////////////////////////////////////////////
/// A contiguous range of the type T, which may include or exclude either
/// boundary.
#[derive(Debug, PartialEq, Eq, Hash, Copy)]
pub struct Interval<T: PartialOrd> {
    /// The start of the range.
    start: Bound<T>,
    /// The end of the range.
    end: Bound<T>,
}

impl<T: PartialOrd + Copy> Clone for Interval<T> {
    fn clone(&self) -> (r: Self)
        ensures
            r == *self,
    {
        *self
    }
}

/// Bounds that may delimit an interval: the start is not after the end, and
/// when both stand at one point they both include it or both exclude it.
pub open spec fn ordered_bounds<T: PartialOrd>(start: Bound<T>, end: Bound<T>) -> bool {
    &&& le(start.pt(), end.pt())
    &&& start.pt() == end.pt() ==> start.closed() == end.closed()
}

/// The bounds of the interval made by `Interval::new(start, end)`.
pub open spec fn spec_new<T: PartialOrd>(start: Bound<T>, end: Option<Bound<T>>) -> (Bound<T>, Bound<T>) {
    match end {
        Some(e) => (spec_union_or_least(start, e), spec_union_or_greatest(start, e)),
        None => (start, start),
    }
}

/// `r` is the interval with the bounds `b`, or both are absent.
pub open spec fn has_bounds<T: PartialOrd>(r: Option<Interval<T>>, b: Option<(Bound<T>, Bound<T>)>) -> bool {
    match (r, b) {
        (Some(i), Some(bs)) => i.lo() == bs.0 && i.hi() == bs.1,
        (None, None) => true,
        _ => false,
    }
}


/// The bounds of the intersection of `x` and `y`, as `Interval::intersect`
/// computes them: `None` when they share no point.
pub open spec fn spec_intersect<T: PartialOrd>(x: Interval<T>, y: Interval<T>) -> Option<(Bound<T>, Bound<T>)> {
    if x.empty() || y.empty() {
        None
    } else if x.lo() == y.lo() && x.hi() == y.hi() {
        Some((x.lo(), x.hi()))
    } else {
        let (a, b) = if le(x.lo().pt(), y.lo().pt()) { (x, y) } else { (y, x) };
        if lt(a.hi().pt(), b.lo().pt()) {
            None
        } else if a.hi().pt() == b.lo().pt() {
            if a.hi().closed() && b.lo().closed() {
                Some(spec_new(Bound::Included(a.hi().pt()), None))
            } else {
                None
            }
        } else {
            let lo = spec_intersect_or_greatest(a.lo(), b.lo());
            let hi = spec_intersect_or_least(a.hi(), b.hi());
            if lo.pt() == hi.pt() && !(lo.closed() && hi.closed()) {
                None
            } else {
                Some(spec_new(lo, Some(hi)))
            }
        }
    }
}

/// The bounds of the union of `x` and `y`, as `Interval::union` computes
/// them: `None` when no interval is their union.
pub open spec fn spec_union<T: PartialOrd>(x: Interval<T>, y: Interval<T>) -> Option<(Bound<T>, Bound<T>)> {
    if x.empty() && y.empty() {
        None
    } else if x.empty() {
        Some((y.lo(), y.hi()))
    } else if y.empty() {
        Some((x.lo(), x.hi()))
    } else if x.lo() == y.lo() && x.hi() == y.hi() {
        Some((x.lo(), x.hi()))
    } else {
        let (a, b) = if le(x.lo().pt(), y.lo().pt()) { (x, y) } else { (y, x) };
        if lt(a.hi().pt(), b.lo().pt()) || (a.hi().pt() == b.lo().pt() && !a.hi().closed()
            && !b.lo().closed()) {
            None
        } else {
            Some(
                spec_new(
                    spec_union_or_least(a.lo(), b.lo()),
                    Some(spec_union_or_greatest(a.hi(), b.hi())),
                ),
            )
        }
    }
}

/// The bounds of the smallest interval holding `x` and `y`, as
/// `Interval::connect` computes them: `None` when both are empty.
pub open spec fn spec_connect<T: PartialOrd>(x: Interval<T>, y: Interval<T>) -> Option<(Bound<T>, Bound<T>)> {
    if x.empty() && y.empty() {
        None
    } else if x.empty() {
        Some((y.lo(), y.hi()))
    } else if y.empty() {
        Some((x.lo(), x.hi()))
    } else {
        Some(
            spec_new(
                spec_union_or_least(x.lo(), y.lo()),
                Some(spec_union_or_greatest(x.hi(), y.hi())),
            ),
        )
    }
}

/// The point `p` lies between the bounds `b`.
pub open spec fn bounds_have<T: PartialOrd>(b: (Bound<T>, Bound<T>), p: T) -> bool {
    ||| lt(b.0.pt(), p) && lt(p, b.1.pt())
    ||| p == b.0.pt() && b.0.closed()
    ||| p == b.1.pt() && b.1.closed()
}

/// The order facts between five points.
proof fn lemma_order_of<T: PartialOrd>(a: T, b: T, c: T, d: T, e: T)
    requires
        total_order::<T>(),
    ensures
        lt(a, b) || a == b || lt(b, a),
        lt(a, c) || a == c || lt(c, a),
        lt(a, d) || a == d || lt(d, a),
        lt(a, e) || a == e || lt(e, a),
        lt(b, c) || b == c || lt(c, b),
        lt(b, d) || b == d || lt(d, b),
        lt(b, e) || b == e || lt(e, b),
        lt(c, d) || c == d || lt(d, c),
        lt(c, e) || c == e || lt(e, c),
        lt(d, e) || d == e || lt(e, d),
        forall|u: T| !lt(u, u),
{
    lemma_trichotomy(a, b);
    lemma_trichotomy(a, c);
    lemma_trichotomy(a, d);
    lemma_trichotomy(a, e);
    lemma_trichotomy(b, c);
    lemma_trichotomy(b, d);
    lemma_trichotomy(b, e);
    lemma_trichotomy(c, d);
    lemma_trichotomy(c, e);
    lemma_trichotomy(d, e);
    assert forall|u: T| !lt(u, u) by {
        lemma_trichotomy(u, u);
    }
}

/// The points of the intersection are exactly those of both intervals; when
/// there is no intersection, no point lies in both.
pub proof fn lemma_intersect_has<T: PartialOrd>(x: Interval<T>, y: Interval<T>, p: T)
    requires
        total_order::<T>(),
        ordered_bounds(x.lo(), x.hi()),
        ordered_bounds(y.lo(), y.hi()),
    ensures
        match spec_intersect(x, y) {
            Some(b) => (x.has(p) && y.has(p) <==> bounds_have(b, p)),
            None => !(x.has(p) && y.has(p)),
        },
{
    lemma_order_of(x.lo().pt(), x.hi().pt(), y.lo().pt(), y.hi().pt(), p);
}

/// When the union exists, its points are exactly those of either interval.
pub proof fn lemma_union_has<T: PartialOrd>(x: Interval<T>, y: Interval<T>, p: T)
    requires
        total_order::<T>(),
        ordered_bounds(x.lo(), x.hi()),
        ordered_bounds(y.lo(), y.hi()),
    ensures
        spec_union(x, y) matches Some(b) ==> (bounds_have(b, p) <==> x.has(p) || y.has(p)),
{
    lemma_order_of(x.lo().pt(), x.hi().pt(), y.lo().pt(), y.hi().pt(), p);
}

/// The connection holds every point of either interval, and every other
/// point it holds lies in the gap between them, boundaries of the gap
/// included.
pub proof fn lemma_connect_has<T: PartialOrd>(x: Interval<T>, y: Interval<T>, p: T)
    requires
        total_order::<T>(),
        ordered_bounds(x.lo(), x.hi()),
        ordered_bounds(y.lo(), y.hi()),
    ensures
        spec_connect(x, y) matches Some(b) ==> {
            &&& x.has(p) || y.has(p) ==> bounds_have(b, p)
            &&& bounds_have(b, p) ==> x.has(p) || y.has(p) || (le(x.hi().pt(), p) && le(
                p,
                y.lo().pt(),
            )) || (le(y.hi().pt(), p) && le(p, x.lo().pt()))
        },
        spec_connect(x, y) is None <==> x.empty() && y.empty(),
{
    lemma_order_of(x.lo().pt(), x.hi().pt(), y.lo().pt(), y.hi().pt(), p);
}

/// Whether two intervals have a union does not depend on their order.
pub proof fn lemma_union_symmetric<T: PartialOrd>(x: Interval<T>, y: Interval<T>)
    requires
        total_order::<T>(),
        ordered_bounds(x.lo(), x.hi()),
        ordered_bounds(y.lo(), y.hi()),
    ensures
        spec_union(x, y) is None <==> spec_union(y, x) is None,
{
    lemma_order_of(x.lo().pt(), x.hi().pt(), y.lo().pt(), y.hi().pt(), x.lo().pt());
}

/// The union of non-empty intervals is not empty, and its bounds are
/// ordered.
proof fn lemma_union_non_empty<T: PartialOrd>(x: Interval<T>, y: Interval<T>)
    requires
        total_order::<T>(),
        ordered_bounds(x.lo(), x.hi()),
        ordered_bounds(y.lo(), y.hi()),
        !x.empty(),
        !y.empty(),
    ensures
        spec_union(x, y) matches Some(b) ==> !Interval::from_bounds(b).empty() && ordered_bounds(
            Interval::from_bounds(b).lo(),
            Interval::from_bounds(b).hi(),
        ),
{
    lemma_order_of(x.lo().pt(), x.hi().pt(), y.lo().pt(), y.hi().pt(), x.lo().pt());
    lemma_union_ordered(x, y);
    if let Some(b) = spec_union(x, y) {
        Interval::<T>::lemma_from_bounds(b);
    }
}

/// An interval that has no union with either of two intervals has none with
/// their union.
proof fn lemma_union_separate<T: PartialOrd>(k: Interval<T>, x: Interval<T>, y: Interval<T>)
    requires
        total_order::<T>(),
        ordered_bounds(k.lo(), k.hi()),
        ordered_bounds(x.lo(), x.hi()),
        ordered_bounds(y.lo(), y.hi()),
        !k.empty(),
        !x.empty(),
        !y.empty(),
        spec_union(k, x) is None,
        spec_union(k, y) is None,
    ensures
        spec_union(x, y) matches Some(b) ==> spec_union(k, Interval::from_bounds(b)) is None,
{
    lemma_order_of(x.lo().pt(), x.hi().pt(), y.lo().pt(), y.hi().pt(), k.lo().pt());
    lemma_order_of(x.lo().pt(), x.hi().pt(), y.lo().pt(), y.hi().pt(), k.hi().pt());
    lemma_trichotomy(k.lo().pt(), k.hi().pt());
    if let Some(b) = spec_union(x, y) {
        Interval::<T>::lemma_from_bounds(b);
    }
}

/// The non-empty intervals of `s`, in order.
pub open spec fn non_empty<T: PartialOrd>(s: Seq<Interval<T>>) -> Seq<Interval<T>>
    decreases s.len(),
{
    if s.len() == 0 {
        Seq::empty()
    } else if s.last().empty() {
        non_empty(s.drop_last())
    } else {
        non_empty(s.drop_last()).push(s.last())
    }
}

/// What `acc` gathers from `items`, taken in order: each interval that has a
/// union with what was gathered so far joins it; the others are kept, in
/// order. Gives the gathered interval and the kept ones.
pub open spec fn absorb<T: PartialOrd>(acc: Interval<T>, items: Seq<Interval<T>>) -> (
    Interval<T>,
    Seq<Interval<T>>,
)
    decreases items.len(),
{
    if items.len() == 0 {
        (acc, Seq::empty())
    } else {
        let (a, ks) = absorb(acc, items.drop_last());
        match spec_union(items.last(), a) {
            Some(b) => (Interval::from_bounds(b), ks),
            None => (a, ks.push(items.last())),
        }
    }
}

/// `f` is the first position in `prev` whose interval has a union with
/// `next`.
pub open spec fn first_union_at<T: PartialOrd>(prev: Seq<Interval<T>>, next: Interval<T>, f: int) -> bool {
    &&& 0 <= f < prev.len()
    &&& spec_union(prev[f], next) is Some
    &&& forall|k: int| 0 <= k < f ==> #[trigger] spec_union(prev[k], next) is None
}

/// One step of `Interval::normalize`: `next` is appended when no interval of
/// `prev` has a union with it; otherwise it joins the first interval of
/// `prev` it has a union with, which in place gathers the intervals after it
/// that have a union with what was gathered so far; they are removed.
pub open spec fn merge_into<T: PartialOrd>(prev: Seq<Interval<T>>, next: Interval<T>) -> Seq<Interval<T>> {
    if exists|f: int| first_union_at(prev, next, f) {
        let f = choose|f: int| first_union_at(prev, next, f);
        let (a, ks) = absorb(
            Interval::from_bounds(spec_union(prev[f], next).unwrap()),
            prev.subrange(f + 1, prev.len() as int),
        );
        prev.take(f) + seq![a] + ks
    } else {
        prev.push(next)
    }
}

/// No two intervals of `s` have a union.
pub open spec fn separate<T: PartialOrd>(s: Seq<Interval<T>>) -> bool {
    forall|i: int, j: int|
        0 <= i < s.len() && 0 <= j < s.len() && i != j ==> #[trigger] spec_union(s[i], s[j]) is None
}

/// Every interval of `s` is non-empty and has ordered bounds, and no two
/// of them have a union.
pub open spec fn tidy<T: PartialOrd>(s: Seq<Interval<T>>) -> bool {
    &&& forall|i: int| 0 <= i < s.len() ==> #[trigger] ordered_bounds(s[i].lo(), s[i].hi())
    &&& forall|i: int| 0 <= i < s.len() ==> !(#[trigger] s[i]).empty()
    &&& separate(s)
}

/// The intervals of `s` but the last are tidy when `s` is.
proof fn lemma_tidy_drop_last<T: PartialOrd>(s: Seq<Interval<T>>)
    requires
        tidy(s),
        s.len() > 0,
    ensures
        tidy(s.drop_last()),
{
    let d = s.drop_last();
    assert forall|i: int, j: int| 0 <= i < d.len() && 0 <= j < d.len() && i != j implies #[trigger] spec_union(
        d[i],
        d[j],
    ) is None by {
        assert(d[i] == s[i] && d[j] == s[j]);
    }
    assert forall|i: int| 0 <= i < d.len() implies #[trigger] ordered_bounds(d[i].lo(), d[i].hi()) && !d[i].empty() by {
        assert(d[i] == s[i]);
    }
}

/// Gathering keeps every point and leaves the gathered interval non-empty
/// with ordered bounds; the kept intervals are intervals of `items`, no two
/// of them have a union, and none has a union with the gathered one.
proof fn lemma_absorb<T: PartialOrd>(acc: Interval<T>, items: Seq<Interval<T>>, p: T)
    requires
        total_order::<T>(),
        ordered_bounds(acc.lo(), acc.hi()),
        !acc.empty(),
        tidy(items),
    ensures
        ordered_bounds(absorb(acc, items).0.lo(), absorb(acc, items).0.hi()),
        !absorb(acc, items).0.empty(),
        forall|m: int|
            0 <= m < absorb(acc, items).1.len() ==> items.contains(#[trigger] absorb(acc, items).1[m]),
        separate(absorb(acc, items).1),
        forall|m: int|
            0 <= m < absorb(acc, items).1.len() ==> spec_union(
                #[trigger] absorb(acc, items).1[m],
                absorb(acc, items).0,
            ) is None,
        absorb(acc, items).0.has(p) || seq_has(absorb(acc, items).1, p) <==> acc.has(p) || seq_has(
            items,
            p,
        ),
    decreases items.len(),
{
    if items.len() > 0 {
        let d = items.drop_last();
        let n = items.len() - 1;
        let x = items[n];
        lemma_tidy_drop_last(items);
        lemma_absorb(acc, d, p);
        let (a1, k1) = absorb(acc, d);
        assert(ordered_bounds(x.lo(), x.hi()) && !x.empty());
        lemma_union_has(x, a1, p);
        lemma_union_non_empty(x, a1);
        assert forall|m: int| 0 <= m < k1.len() implies spec_union(k1[m], x) is None && spec_union(
            x,
            k1[m],
        ) is None && ordered_bounds(k1[m].lo(), k1[m].hi()) && !k1[m].empty() by {
            assert(d.contains(k1[m]));
            let i = choose|i: int| 0 <= i < d.len() && d[i] == k1[m];
            assert(items[i] == k1[m]);
            assert(spec_union(items[i], items[n]) is None);
            assert(spec_union(items[n], items[i]) is None);
        }
        if seq_has(items, p) {
            let i = choose|i: int| 0 <= i < items.len() && #[trigger] items[i].has(p);
            if i < n {
                assert(d[i] == items[i]);
            }
        }
        if seq_has(d, p) {
            let i = choose|i: int| 0 <= i < d.len() && #[trigger] d[i].has(p);
            assert(items[i] == d[i]);
        }
        match spec_union(x, a1) {
            Some(b) => {
                Interval::<T>::lemma_from_bounds(b);
                assert forall|m: int| 0 <= m < k1.len() implies spec_union(
                    #[trigger] k1[m],
                    Interval::from_bounds(b),
                ) is None by {
                    lemma_union_separate(k1[m], x, a1);
                }
                assert forall|m: int| 0 <= m < k1.len() implies items.contains(#[trigger] k1[m]) by {
                    let i = choose|i: int| 0 <= i < d.len() && d[i] == k1[m];
                    assert(items[i] == k1[m]);
                }
            },
            None => {
                let ks = k1.push(x);
                assert forall|m: int| 0 <= m < ks.len() implies items.contains(#[trigger] ks[m]) by {
                    if m < k1.len() {
                        let i = choose|i: int| 0 <= i < d.len() && d[i] == k1[m];
                        assert(items[i] == ks[m]);
                    } else {
                        assert(items[n] == ks[m]);
                    }
                }
                assert forall|i: int, j: int|
                    0 <= i < ks.len() && 0 <= j < ks.len() && i != j implies #[trigger] spec_union(
                    ks[i],
                    ks[j],
                ) is None by {
                    if i < k1.len() && j < k1.len() {
                        assert(ks[i] == k1[i] && ks[j] == k1[j]);
                    } else if i < k1.len() {
                        assert(ks[i] == k1[i] && ks[j] == x);
                    } else {
                        assert(ks[j] == k1[j] && ks[i] == x);
                    }
                }
                assert forall|m: int| 0 <= m < ks.len() implies spec_union(#[trigger] ks[m], a1) is None by {
                    if m < k1.len() {
                        assert(ks[m] == k1[m]);
                    }
                }
                if seq_has(ks, p) {
                    let i = choose|i: int| 0 <= i < ks.len() && #[trigger] ks[i].has(p);
                    if i < k1.len() {
                        assert(k1[i] == ks[i]);
                    }
                }
                if seq_has(k1, p) {
                    let i = choose|i: int| 0 <= i < k1.len() && #[trigger] k1[i].has(p);
                    assert(ks[i] == k1[i]);
                }
                if x.has(p) {
                    assert(ks[k1.len() as int] == x);
                }
            },
        }
    }
}

/// Merges the intervals of `rest` one by one into `prev`.
pub open spec fn merge_all<T: PartialOrd>(prev: Seq<Interval<T>>, rest: Seq<Interval<T>>) -> Seq<Interval<T>>
    decreases rest.len(),
{
    if rest.len() == 0 {
        prev
    } else {
        merge_all(merge_into(prev, rest[0]), rest.drop_first())
    }
}

/// The intervals `Interval::normalize` returns for `s`.
pub open spec fn spec_normalize<T: PartialOrd>(s: Seq<Interval<T>>) -> Seq<Interval<T>> {
    let ne = non_empty(s);
    merge_all(seq![ne[0]], ne.drop_first())
}

/// Some interval of `s` holds `p`.
pub open spec fn seq_has<T: PartialOrd>(s: Seq<Interval<T>>, p: T) -> bool {
    exists|i: int| 0 <= i < s.len() && #[trigger] s[i].has(p)
}

/// When some interval of `s` is not empty, neither is `non_empty(s)`.
proof fn lemma_non_empty_exists<T: PartialOrd>(s: Seq<Interval<T>>)
    requires
        exists|i: int| 0 <= i < s.len() && !(#[trigger] s[i]).empty(),
    ensures
        non_empty(s).len() > 0,
    decreases s.len(),
{
    if !s.last().empty() {
    } else {
        let i = choose|i: int| 0 <= i < s.len() && !(#[trigger] s[i]).empty();
        assert(s.drop_last()[i] == s[i]);
        lemma_non_empty_exists(s.drop_last());
    }
}

/// Every interval of `s` has ordered bounds.
pub open spec fn all_ordered<T: PartialOrd>(s: Seq<Interval<T>>) -> bool {
    forall|i: int| 0 <= i < s.len() ==> #[trigger] ordered_bounds(s[i].lo(), s[i].hi())
}

/// The bounds of a union are ordered.
proof fn lemma_union_ordered<T: PartialOrd>(x: Interval<T>, y: Interval<T>)
    requires
        total_order::<T>(),
        ordered_bounds(x.lo(), x.hi()),
        ordered_bounds(y.lo(), y.hi()),
    ensures
        spec_union(x, y) matches Some(b) ==> ordered_bounds(b.0, b.1),
{
    if !x.empty() && !y.empty() && !(x.lo() == y.lo() && x.hi() == y.hi()) {
        let (a, b) = if le(x.lo().pt(), y.lo().pt()) { (x, y) } else { (y, x) };
        lemma_new_ordered(
            spec_union_or_least(a.lo(), b.lo()),
            Some(spec_union_or_greatest(a.hi(), b.hi())),
        );
    }
}

/// Dropping empty intervals keeps every point and the order of bounds.
proof fn lemma_non_empty_has<T: PartialOrd>(s: Seq<Interval<T>>, p: T)
    requires
        total_order::<T>(),
        all_ordered(s),
    ensures
        all_ordered(non_empty(s)),
        seq_has(non_empty(s), p) <==> seq_has(s, p),
    decreases s.len(),
{
    if s.len() > 0 {
        let d = s.drop_last();
        assert(all_ordered(d)) by {
            assert forall|i: int| 0 <= i < d.len() implies #[trigger] ordered_bounds(
                d[i].lo(),
                d[i].hi(),
            ) by {
                assert(d[i] == s[i]);
            }
        }
        lemma_non_empty_has(d, p);
        let n = non_empty(d);
        assert(ordered_bounds(s[s.len() - 1].lo(), s[s.len() - 1].hi()));
        if seq_has(s, p) {
            let i = choose|i: int| 0 <= i < s.len() && #[trigger] s[i].has(p);
            if i < s.len() - 1 {
                assert(d[i] == s[i]);
            } else {
                lemma_trichotomy(s.last().lo().pt(), p);
                if !s.last().empty() {
                    assert(n.push(s.last())[n.len() as int] == s.last());
                }
            }
        }
        if !s.last().empty() {
            let m = n.push(s.last());
            assert forall|i: int| 0 <= i < m.len() implies #[trigger] ordered_bounds(
                m[i].lo(),
                m[i].hi(),
            ) by {
                if i < n.len() {
                    assert(m[i] == n[i]);
                }
            }
            if seq_has(m, p) {
                let i = choose|i: int| 0 <= i < m.len() && #[trigger] m[i].has(p);
                if i < n.len() {
                    assert(m[i] == n[i]);
                } else {
                    assert(s[s.len() - 1].has(p));
                }
            }
            if seq_has(n, p) {
                let i = choose|i: int| 0 <= i < n.len() && #[trigger] n[i].has(p);
                assert(m[i] == n[i]);
            }
        }
        if seq_has(d, p) {
            let i = choose|i: int| 0 <= i < d.len() && #[trigger] d[i].has(p);
            assert(s[i] == d[i]);
        }
    }
}

/// Merging one interval into tidy intervals keeps them tidy, keeps every
/// point of both sides and adds none.
proof fn lemma_merge_into_has<T: PartialOrd>(prev: Seq<Interval<T>>, next: Interval<T>, p: T)
    requires
        total_order::<T>(),
        tidy(prev),
        ordered_bounds(next.lo(), next.hi()),
        !next.empty(),
    ensures
        tidy(merge_into(prev, next)),
        merge_into(prev, next).len() > 0,
        seq_has(merge_into(prev, next), p) <==> seq_has(prev, p) || next.has(p),
{
    let r = merge_into(prev, next);
    assert forall|k: int| 0 <= k < prev.len() implies ordered_bounds(prev[k].lo(), prev[k].hi())
        && !prev[k].empty() && (spec_union(prev[k], next) is None <==> spec_union(next, prev[k]) is None) by {
        lemma_union_symmetric(prev[k], next);
    }
    if exists|f: int| first_union_at(prev, next, f) {
        let f = choose|f: int| first_union_at(prev, next, f);
        let b0 = spec_union(prev[f], next).unwrap();
        let a0 = Interval::from_bounds(b0);
        let items = prev.subrange(f + 1, prev.len() as int);
        let (a, ks) = absorb(a0, items);
        let head = prev.take(f);
        lemma_union_non_empty(prev[f], next);
        lemma_union_has(prev[f], next, p);
        Interval::<T>::lemma_from_bounds(b0);
        assert(tidy(items)) by {
            assert forall|i: int, j: int|
                0 <= i < items.len() && 0 <= j < items.len() && i != j implies #[trigger] spec_union(
                items[i],
                items[j],
            ) is None by {
                assert(items[i] == prev[i + f + 1] && items[j] == prev[j + f + 1]);
            }
            assert forall|i: int| 0 <= i < items.len() implies #[trigger] ordered_bounds(
                items[i].lo(),
                items[i].hi(),
            ) && !items[i].empty() by {
                assert(items[i] == prev[i + f + 1]);
            }
        }
        lemma_absorb(a0, items, p);
        // Each kept interval is an interval of `prev` after `f`.
        assert forall|m: int| 0 <= m < ks.len() implies exists|i: int|
            f < i < prev.len() && prev[i] == #[trigger] ks[m] by {
            assert(items.contains(ks[m]));
            let i = choose|i: int| 0 <= i < items.len() && items[i] == ks[m];
            assert(prev[i + f + 1] == ks[m]);
        }
        // The intervals before `f` have no union with what was gathered.
        assert forall|i: int| 0 <= i < f implies spec_union(#[trigger] prev[i], a) is None by {
            lemma_union_separate(prev[i], prev[f], next);
            assert(spec_union(prev[i], a0) is None);
            lemma_absorb_outside(a0, items, prev[i]);
        }
        assert(r == head + seq![a] + ks);
        let hl = head.len() as int;
        assert forall|i: int| 0 <= i < r.len() implies #[trigger] ordered_bounds(r[i].lo(), r[i].hi())
            && !r[i].empty() by {
            if i < hl {
                assert(r[i] == prev[i]);
            } else if i == hl {
                assert(r[i] == a);
            } else {
                assert(r[i] == ks[i - hl - 1]);
                let j = choose|j: int| f < j < prev.len() && prev[j] == ks[i - hl - 1];
            }
        }
        assert forall|i: int, j: int| 0 <= i < r.len() && 0 <= j < r.len() && i != j implies #[trigger] spec_union(
            r[i],
            r[j],
        ) is None by {
            assert(ordered_bounds(r[i].lo(), r[i].hi()) && ordered_bounds(r[j].lo(), r[j].hi()));
            if i < hl && j < hl {
                assert(r[i] == prev[i] && r[j] == prev[j]);
            } else if i < hl && j == hl {
                assert(r[i] == prev[i] && r[j] == a);
            } else if i == hl && j < hl {
                assert(r[j] == prev[j] && r[i] == a);
                lemma_union_symmetric(prev[j], a);
            } else if i < hl {
                let jj = choose|jj: int| f < jj < prev.len() && prev[jj] == ks[j - hl - 1];
                assert(r[i] == prev[i] && r[j] == prev[jj]);
            } else if j < hl {
                let ii = choose|ii: int| f < ii < prev.len() && prev[ii] == ks[i - hl - 1];
                assert(r[j] == prev[j] && r[i] == prev[ii]);
            } else if i == hl {
                assert(r[i] == a && r[j] == ks[j - hl - 1]);
                lemma_union_symmetric(ks[j - hl - 1], a);
            } else if j == hl {
                assert(r[j] == a && r[i] == ks[i - hl - 1]);
            } else {
                assert(r[i] == ks[i - hl - 1] && r[j] == ks[j - hl - 1]);
            }
        }
        if seq_has(r, p) {
            let i = choose|i: int| 0 <= i < r.len() && #[trigger] r[i].has(p);
            if i < hl {
                assert(r[i] == prev[i]);
            } else if i > hl {
                assert(r[i] == ks[i - hl - 1]);
                assert(seq_has(ks, p));
                if seq_has(items, p) {
                    let j = choose|j: int| 0 <= j < items.len() && #[trigger] items[j].has(p);
                    assert(prev[j + f + 1] == items[j]);
                }
            } else {
                if seq_has(items, p) {
                    let j = choose|j: int| 0 <= j < items.len() && #[trigger] items[j].has(p);
                    assert(prev[j + f + 1] == items[j]);
                }
            }
        }
        if seq_has(prev, p) || next.has(p) {
            if next.has(p) || prev[f].has(p) {
                assert(a0.has(p));
            } else {
                let i = choose|i: int| 0 <= i < prev.len() && #[trigger] prev[i].has(p);
                if i < f {
                    assert(r[i] == prev[i]);
                } else {
                    assert(items[i - f - 1] == prev[i]);
                    assert(seq_has(items, p));
                }
            }
            if a.has(p) {
                assert(r[hl] == a);
            } else if seq_has(ks, p) {
                let m = choose|m: int| 0 <= m < ks.len() && #[trigger] ks[m].has(p);
                assert(r[hl + 1 + m] == ks[m]);
            }
        }
    } else {
        assert forall|k: int| 0 <= k < prev.len() implies #[trigger] spec_union(prev[k], next) is None by {
            if spec_union(prev[k], next) is Some {
                lemma_first_union_exists(prev, next, k);
            }
        }
        assert forall|i: int| 0 <= i < r.len() implies #[trigger] ordered_bounds(r[i].lo(), r[i].hi())
            && !r[i].empty() by {
            if i < prev.len() {
                assert(r[i] == prev[i]);
            }
        }
        assert forall|i: int, j: int| 0 <= i < r.len() && 0 <= j < r.len() && i != j implies #[trigger] spec_union(
            r[i],
            r[j],
        ) is None by {
            if i < prev.len() && j < prev.len() {
                assert(r[i] == prev[i] && r[j] == prev[j]);
            } else if i < prev.len() {
                assert(r[i] == prev[i] && r[j] == next);
            } else {
                assert(r[j] == prev[j] && r[i] == next);
            }
        }
        if seq_has(r, p) {
            let i = choose|i: int| 0 <= i < r.len() && #[trigger] r[i].has(p);
            if i < prev.len() {
                assert(r[i] == prev[i]);
            }
        }
        if seq_has(prev, p) {
            let i = choose|i: int| 0 <= i < prev.len() && #[trigger] prev[i].has(p);
            assert(r[i] == prev[i]);
        }
        if next.has(p) {
            assert(r[prev.len() as int] == next);
        }
    }
}

/// Where some interval of `prev` has a union with `next`, a first one does.
proof fn lemma_first_union_exists<T: PartialOrd>(prev: Seq<Interval<T>>, next: Interval<T>, k: int)
    requires
        0 <= k < prev.len(),
        spec_union(prev[k], next) is Some,
    ensures
        exists|f: int| first_union_at(prev, next, f),
    decreases k,
{
    if !first_union_at(prev, next, k) {
        let j = choose|j: int| 0 <= j < k && #[trigger] spec_union(prev[j], next) is Some;
        lemma_first_union_exists(prev, next, j);
    }
}

/// An interval that has no union with `acc` nor with any of `items` has
/// none with what `acc` gathers from them.
proof fn lemma_absorb_outside<T: PartialOrd>(acc: Interval<T>, items: Seq<Interval<T>>, k: Interval<T>)
    requires
        total_order::<T>(),
        ordered_bounds(acc.lo(), acc.hi()),
        !acc.empty(),
        tidy(items),
        ordered_bounds(k.lo(), k.hi()),
        !k.empty(),
        spec_union(k, acc) is None,
        forall|i: int| 0 <= i < items.len() ==> spec_union(k, #[trigger] items[i]) is None,
    ensures
        spec_union(k, absorb(acc, items).0) is None,
    decreases items.len(),
{
    if items.len() > 0 {
        let d = items.drop_last();
        lemma_tidy_drop_last(items);
        assert forall|i: int| 0 <= i < d.len() implies spec_union(k, #[trigger] d[i]) is None by {
            assert(d[i] == items[i]);
        }
        lemma_absorb_outside(acc, d, k);
        let p = acc.lo().pt();
        lemma_absorb(acc, d, p);
        let x = items.last();
        let a1 = absorb(acc, d).0;
        assert(spec_union(k, items[items.len() - 1]) is None);
        assert(ordered_bounds(x.lo(), x.hi()) && !x.empty());
        lemma_union_separate(k, x, a1);
    }
}

/// Merging a sequence of non-empty intervals into tidy ones keeps them
/// tidy, keeps every point and adds none.
proof fn lemma_merge_all_has<T: PartialOrd>(prev: Seq<Interval<T>>, rest: Seq<Interval<T>>, p: T)
    requires
        total_order::<T>(),
        tidy(prev),
        all_ordered(rest),
        forall|i: int| 0 <= i < rest.len() ==> !(#[trigger] rest[i]).empty(),
        prev.len() > 0,
    ensures
        tidy(merge_all(prev, rest)),
        merge_all(prev, rest).len() > 0,
        seq_has(merge_all(prev, rest), p) <==> seq_has(prev, p) || seq_has(rest, p),
    decreases rest.len(),
{
    if rest.len() > 0 {
        assert(ordered_bounds(rest[0].lo(), rest[0].hi()));
        assert(!rest[0].empty());
        lemma_merge_into_has(prev, rest[0], p);
        let d = rest.drop_first();
        assert(all_ordered(d)) by {
            assert forall|i: int| 0 <= i < d.len() implies #[trigger] ordered_bounds(
                d[i].lo(),
                d[i].hi(),
            ) by {
                assert(d[i] == rest[i + 1]);
            }
        }
        assert forall|i: int| 0 <= i < d.len() implies !(#[trigger] d[i]).empty() by {
            assert(d[i] == rest[i + 1]);
        }
        lemma_merge_all_has(merge_into(prev, rest[0]), d, p);
        if seq_has(rest, p) {
            let i = choose|i: int| 0 <= i < rest.len() && #[trigger] rest[i].has(p);
            if i > 0 {
                assert(d[i - 1] == rest[i]);
            }
        }
        if seq_has(d, p) {
            let i = choose|i: int| 0 <= i < d.len() && #[trigger] d[i].has(p);
            assert(d[i] == rest[i + 1]);
        }
    }
}

/// The intervals `non_empty` keeps are not empty.
proof fn lemma_non_empty_elements<T: PartialOrd>(s: Seq<Interval<T>>)
    ensures
        forall|i: int| 0 <= i < non_empty(s).len() ==> !(#[trigger] non_empty(s)[i]).empty(),
    decreases s.len(),
{
    if s.len() > 0 {
        lemma_non_empty_elements(s.drop_last());
        let n = non_empty(s.drop_last());
        if !s.last().empty() {
            assert forall|i: int| 0 <= i < non_empty(s).len() implies !(#[trigger] non_empty(s)[i]).empty() by {
                if i < n.len() {
                    assert(non_empty(s)[i] == n[i]);
                }
            }
        }
    }
}

/// Dropping empty intervals leaves no more intervals.
proof fn lemma_non_empty_len<T: PartialOrd>(s: Seq<Interval<T>>)
    ensures
        non_empty(s).len() <= s.len(),
    decreases s.len(),
{
    if s.len() > 0 {
        lemma_non_empty_len(s.drop_last());
    }
}

/// Gathering keeps no more intervals than it is given.
proof fn lemma_absorb_len<T: PartialOrd>(acc: Interval<T>, items: Seq<Interval<T>>)
    ensures
        absorb(acc, items).1.len() <= items.len(),
    decreases items.len(),
{
    if items.len() > 0 {
        lemma_absorb_len(acc, items.drop_last());
    }
}

/// Merging intervals one by one adds at most one interval for each.
proof fn lemma_merge_all_len<T: PartialOrd>(prev: Seq<Interval<T>>, rest: Seq<Interval<T>>)
    ensures
        merge_all(prev, rest).len() <= prev.len() + rest.len(),
    decreases rest.len(),
{
    if rest.len() > 0 {
        let next = rest[0];
        if exists|f: int| first_union_at(prev, next, f) {
            let f = choose|f: int| first_union_at(prev, next, f);
            lemma_absorb_len(
                Interval::from_bounds(spec_union(prev[f], next).unwrap()),
                prev.subrange(f + 1, prev.len() as int),
            );
        }
        lemma_merge_all_len(merge_into(prev, next), rest.drop_first());
    }
}

/// The normalized intervals are tidy and hold exactly the points of the
/// given ones.
proof fn lemma_normalize_has<T: PartialOrd>(s: Seq<Interval<T>>, p: T)
    requires
        total_order::<T>(),
        all_ordered(s),
        non_empty(s).len() > 0,
    ensures
        tidy(spec_normalize(s)),
        seq_has(spec_normalize(s), p) <==> seq_has(s, p),
{
    let ne = non_empty(s);
    lemma_non_empty_has(s, p);
    lemma_non_empty_elements(s);
    assert forall|i: int| 0 <= i < ne.drop_first().len() implies !(#[trigger] ne.drop_first()[i]).empty() by {
        assert(ne.drop_first()[i] == ne[i + 1]);
    }
    assert(tidy(seq![ne[0]])) by {
        assert(ordered_bounds(ne[0].lo(), ne[0].hi()));
        assert(!ne[0].empty());
    }
    let first = seq![ne[0]];
    let d = ne.drop_first();
    assert(all_ordered(first)) by {
        assert(ordered_bounds(ne[0].lo(), ne[0].hi()));
    }
    assert(all_ordered(d)) by {
        assert forall|i: int| 0 <= i < d.len() implies #[trigger] ordered_bounds(
            d[i].lo(),
            d[i].hi(),
        ) by {
            assert(d[i] == ne[i + 1]);
        }
    }
    lemma_merge_all_has(first, d, p);
    if seq_has(ne, p) {
        let i = choose|i: int| 0 <= i < ne.len() && #[trigger] ne[i].has(p);
        if i > 0 {
            assert(d[i - 1] == ne[i]);
        } else {
            assert(first[0] == ne[0]);
        }
    }
    if seq_has(d, p) {
        let i = choose|i: int| 0 <= i < d.len() && #[trigger] d[i].has(p);
        assert(d[i] == ne[i + 1]);
    }
    if seq_has(first, p) {
        assert(first[0] == ne[0]);
        assert(ne[0].has(p));
    }
}

impl<T: PartialOrd> Interval<T> {
    /// The well-formedness of every interval.
    #[verifier::type_invariant]
    spec fn well_formed(self) -> bool {
        total_order::<T>() ==> ordered_bounds(self.start, self.end)
    }

    /// The start (least) boundary.
    pub closed spec fn lo(self) -> Bound<T> {
        self.start
    }

    /// The end (greatest) boundary.
    pub closed spec fn hi(self) -> Bound<T> {
        self.end
    }

    /// The interval with the given bounds.
    pub closed spec fn from_bounds(b: (Bound<T>, Bound<T>)) -> Self {
        Interval { start: b.0, end: b.1 }
    }

    /// The point `p` lies in the interval.
    pub open spec fn has(self, p: T) -> bool {
        ||| lt(self.lo().pt(), p) && lt(p, self.hi().pt())
        ||| p == self.lo().pt() && self.lo().closed()
        ||| p == self.hi().pt() && self.hi().closed()
    }

    /// The interval excludes a single point from both sides.
    pub open spec fn empty(self) -> bool {
        self.lo() == self.hi() && !self.lo().closed()
    }

    /// An interval is determined by its bounds.
    pub proof fn lemma_ext(self, other: Self)
        requires
            self.lo() == other.lo(),
            self.hi() == other.hi(),
        ensures
            self == other,
    {
    }

    /// The bounds of an interval built from bounds are those bounds.
    pub proof fn lemma_from_bounds(b: (Bound<T>, Bound<T>))
        ensures
            Self::from_bounds(b).lo() == b.0,
            Self::from_bounds(b).hi() == b.1,
    {
    }
}

/// The bounds made by `new` are ordered.
pub proof fn lemma_new_ordered<T: PartialOrd>(start: Bound<T>, end: Option<Bound<T>>)
    requires
        total_order::<T>(),
    ensures
        ordered_bounds(spec_new(start, end).0, spec_new(start, end).1),
{
    if let Some(e) = end {
        lemma_trichotomy(start.pt(), e.pt());
    }
}

impl<T: PartialOrd + Copy> Interval<T> {
    /// Creates a new interval from the given boundaries. If the arguments are
    /// out of order, they are swapped; without an end, the interval holds the
    /// start alone.
    pub fn new(start: Bound<T>, end: Option<Bound<T>>) -> (r: Self)
        ensures
            total_order::<T>() ==> (r.lo(), r.hi()) == spec_new(start, end),
    {
        proof {
            if total_order::<T>() {
                lemma_new_ordered(start, end);
            }
        }
        match end {
            Some(end_bound) => {
                let lo = start.union_or_least(&end_bound);
                let hi = start.union_or_greatest(&end_bound);
                Interval { start: lo, end: hi }
            },
            None => Interval { start: start, end: start },
        }
    }

    /// Creates a new open interval from the given values.
    pub fn open(start: T, end: T) -> (r: Self)
        ensures
            total_order::<T>() ==> (r.lo(), r.hi()) == spec_new(
                Bound::Excluded(start),
                Some(Bound::Excluded(end)),
            ),
    {
        Interval::new(Bound::Excluded(start), Some(Bound::Excluded(end)))
    }

    /// Creates a new closed interval from the given values.
    pub fn closed(start: T, end: T) -> (r: Self)
        ensures
            total_order::<T>() ==> (r.lo(), r.hi()) == spec_new(
                Bound::Included(start),
                Some(Bound::Included(end)),
            ),
    {
        Interval::new(Bound::Included(start), Some(Bound::Included(end)))
    }

    /// Creates a new left-open interval from the given values.
    pub fn left_open(start: T, end: T) -> (r: Self)
        ensures
            total_order::<T>() ==> (r.lo(), r.hi()) == spec_new(
                Bound::Excluded(start),
                Some(Bound::Included(end)),
            ),
    {
        Interval::new(Bound::Excluded(start), Some(Bound::Included(end)))
    }

    /// Creates a new right-open interval from the given values.
    pub fn right_open(start: T, end: T) -> (r: Self)
        ensures
            total_order::<T>() ==> (r.lo(), r.hi()) == spec_new(
                Bound::Included(start),
                Some(Bound::Excluded(end)),
            ),
    {
        Interval::new(Bound::Included(start), Some(Bound::Excluded(end)))
    }

    /// Returns the leftmost (least) boundary point of the interval. This point
    /// may not be in the interval if the interval is left-open.
    pub fn left_point(&self) -> (r: T)
        ensures
            r == self.lo().pt(),
    {
        self.start.point()
    }

    /// Returns the rightmost (greatest) boundary point of the interval. This
    /// point may not be in the interval if the interval is right-open.
    pub fn right_point(&self) -> (r: T)
        ensures
            r == self.hi().pt(),
    {
        self.end.point()
    }

    /// Returns the left (least) boundary of the interval.
    pub fn left_bound(&self) -> (r: Bound<T>)
        ensures
            r == self.lo(),
    {
        self.start
    }

    /// Returns the right (greatest) boundary of the interval.
    pub fn right_bound(&self) -> (r: Bound<T>)
        ensures
            r == self.hi(),
    {
        self.end
    }

    /// Returns whether two intervals have the same bounds.
    pub fn same_as(&self, other: &Self) -> (r: bool)
        ensures
            total_order::<T>() ==> r == (*self == *other),
    {
        self.start.same_as(&other.start) && self.end.same_as(&other.end)
    }

    /// Returns whether the interval is empty: both boundaries exclude the same
    /// point.
    pub fn is_empty(&self) -> (r: bool)
        ensures
            total_order::<T>() ==> r == self.empty(),
    {
        self.left_bound().same_as(&self.right_bound()) && self.left_bound().is_open()
    }

    /// Converts the interval into an Option, returning None if it is empty.
    pub fn into_non_empty(self) -> (r: Option<Self>)
        ensures
            total_order::<T>() ==> r == (if self.empty() { None } else { Some(self) }),
    {
        if self.is_empty() {
            None
        } else {
            Some(self)
        }
    }

    /// Returns whether the given point is included in the interval.
    pub fn contains(&self, point: &T) -> (r: bool)
        ensures
            total_order::<T>() ==> r == self.has(*point),
    {
        let l = self.left_point();
        let h = self.right_point();
        less(&l, point) && less(point, &h)
            || same(point, &l) && self.left_bound().is_closed()
            || same(point, &h) && self.right_bound().is_closed()
    }

    /// Returns the set intersection of the interval with the given interval,
    /// or None if the intervals do not overlap.
    pub fn intersect(&self, other: &Self) -> (r: Option<Self>)
        ensures
            total_order::<T>() ==> has_bounds(r, spec_intersect(*self, *other)),
            total_order::<T>() ==> (r matches Some(i) ==> forall|p: T|
                #[trigger] i.has(p) <==> self.has(p) && other.has(p)),
            total_order::<T>() ==> (r is None ==> forall|p: T|
                !(#[trigger] self.has(p) && other.has(p))),
    {
        proof {
            use_type_invariant(self);
            use_type_invariant(other);
            if total_order::<T>() {
                assert forall|p: T|
                    #![trigger self.has(p)]
                    match spec_intersect(*self, *other) {
                        Some(b) => (self.has(p) && other.has(p) <==> bounds_have(b, p)),
                        None => !(self.has(p) && other.has(p)),
                    } by {
                    lemma_intersect_has(*self, *other, p);
                }
            }
        }
        if self.is_empty() || other.is_empty() {
            return None;
        }
        if self.same_as(other) {
            return Some(*self);
        }
        let (a, b) = if less_or_same(&self.left_point(), &other.left_point()) {
            (self, other)
        } else {
            (other, self)
        };
        if less(&a.right_point(), &b.left_point()) {
            None
        } else if same(&a.right_point(), &b.left_point()) {
            if a.right_bound().is_closed() && b.left_bound().is_closed() {
                Some(Interval::new(Bound::Included(a.right_point()), None))
            } else {
                None
            }
        } else {
            let lo = a.left_bound().intersect_or_greatest(&b.left_bound());
            let hi = a.right_bound().intersect_or_least(&b.right_bound());
            if same(&lo.point(), &hi.point()) && !(lo.is_closed() && hi.is_closed()) {
                None
            } else {
                Some(Interval::new(lo, Some(hi)))
            }
        }
    }

    /// Returns the set union of the interval with the given interval. Since an
    /// interval requires contiguous points, a union of disjoint intervals
    /// fails to produce an interval and None is returned.
    pub fn union(&self, other: &Self) -> (r: Option<Self>)
        ensures
            total_order::<T>() ==> has_bounds(r, spec_union(*self, *other)),
            total_order::<T>() ==> (r matches Some(i) ==> forall|p: T|
                #[trigger] i.has(p) <==> self.has(p) || other.has(p)),
    {
        proof {
            use_type_invariant(self);
            use_type_invariant(other);
            if total_order::<T>() {
                assert forall|p: T|
                    #![trigger self.has(p)]
                    spec_union(*self, *other) matches Some(b) ==> (bounds_have(b, p)
                        <==> self.has(p) || other.has(p)) by {
                    lemma_union_has(*self, *other, p);
                }
            }
        }
        if self.is_empty() && other.is_empty() {
            return None;
        } else if self.is_empty() {
            return Some(*other);
        } else if other.is_empty() {
            return Some(*self);
        }
        if self.same_as(other) {
            return Some(*self);
        }
        let (a, b) = if less_or_same(&self.left_point(), &other.left_point()) {
            (self, other)
        } else {
            (other, self)
        };
        if less(&a.right_point(), &b.left_point()) || (same(&a.right_point(), &b.left_point())
            && a.right_bound().is_open() && b.left_bound().is_open()) {
            None
        } else {
            Some(
                Interval::new(
                    a.left_bound().union_or_least(&b.left_bound()),
                    Some(a.right_bound().union_or_greatest(&b.right_bound())),
                ),
            )
        }
    }

    /// Returns the smallest interval containing both of the given intervals.
    pub fn connect(&self, other: &Self) -> (r: Option<Self>)
        ensures
            total_order::<T>() ==> has_bounds(r, spec_connect(*self, *other)),
            total_order::<T>() ==> (r is None <==> self.empty() && other.empty()),
            total_order::<T>() ==> (r matches Some(i) ==> forall|p: T|
                #![trigger i.has(p)]
                (self.has(p) || other.has(p) ==> i.has(p)) && (i.has(p) ==> self.has(p)
                    || other.has(p) || (le(self.hi().pt(), p) && le(p, other.lo().pt())) || (le(
                    other.hi().pt(),
                    p,
                ) && le(p, self.lo().pt())))),
    {
        proof {
            use_type_invariant(self);
            use_type_invariant(other);
            if total_order::<T>() {
                assert forall|p: T|
                    #![trigger self.has(p)]
                    spec_connect(*self, *other) matches Some(b) ==> {
                        &&& self.has(p) || other.has(p) ==> bounds_have(b, p)
                        &&& bounds_have(b, p) ==> self.has(p) || other.has(p) || (le(
                            self.hi().pt(),
                            p,
                        ) && le(p, other.lo().pt())) || (le(other.hi().pt(), p) && le(
                            p,
                            self.lo().pt(),
                        ))
                    } by {
                    lemma_connect_has(*self, *other, p);
                }
                lemma_connect_has(*self, *other, self.lo().pt());
            }
        }
        if self.is_empty() && other.is_empty() {
            None
        } else if self.is_empty() {
            Some(*other)
        } else if other.is_empty() {
            Some(*self)
        } else {
            Some(
                Interval::new(
                    self.left_bound().union_or_least(&other.left_bound()),
                    Some(self.right_bound().union_or_greatest(&other.right_bound())),
                ),
            )
        }
    }

    /// Reduces a collection of intervals to a smaller set by removing
    /// redundant intervals through unions. Empty intervals are dropped; each
    /// further interval joins the first kept interval it has a union with,
    /// which then gathers the kept intervals after it that have a union with
    /// it, or is kept on its own when no kept interval has a union with it. No
    /// two of the resulting intervals have a union.
    pub fn normalize(intervals: Vec<Interval<T>>) -> (r: Vec<Interval<T>>)
        requires
            total_order::<T>(),
            exists|i: int| 0 <= i < intervals.len() && !(#[trigger] intervals@[i]).empty(),
        ensures
            r@ == spec_normalize(intervals@),
            forall|p: T| #[trigger] seq_has(r@, p) <==> seq_has(intervals@, p),
            forall|i: int, j: int|
                0 <= i < r@.len() && 0 <= j < r@.len() && i != j ==> #[trigger] spec_union(
                    r@[i],
                    r@[j],
                ) is None,
            forall|i: int| 0 <= i < r@.len() ==> !(#[trigger] r@[i]).empty(),
            r@.len() <= intervals@.len(),
    {
        // Remove empty intervals.
        let mut kept: Vec<Interval<T>> = Vec::new();
        let mut i: usize = 0;
        while i < intervals.len()
            invariant
                total_order::<T>(),
                i <= intervals.len(),
                kept@ == non_empty(intervals@.take(i as int)),
                forall|m: int| 0 <= m < i ==> #[trigger] ordered_bounds(
                    intervals@[m].lo(),
                    intervals@[m].hi(),
                ),
            decreases intervals.len() - i,
        {
            let cur = intervals[i];
            proof {
                use_type_invariant(&cur);
                assert(intervals@.take(i + 1).drop_last() =~= intervals@.take(i as int));
            }
            if !cur.is_empty() {
                kept.push(cur);
            }
            i = i + 1;
        }
        proof {
            assert(intervals@.take(intervals.len() as int) =~= intervals@);
            lemma_non_empty_exists(intervals@);
        }
        let mut prev: Vec<Interval<T>> = Vec::new();
        prev.push(kept[0]);
        let mut j: usize = 1;
        while j < kept.len()
            invariant
                total_order::<T>(),
                1 <= j <= kept.len(),
                kept@ == non_empty(intervals@),
                kept.len() > 0,
                merge_all(prev@, kept@.subrange(j as int, kept.len() as int)) == spec_normalize(
                    intervals@,
                ),
            decreases kept.len() - j,
        {
            let cur = kept[j];
            let ghost before = prev@;
            let mut f: usize = 0;
            let mut joined: Option<Interval<T>> = None;
            while f < prev.len() && joined.is_none()
                invariant
                    total_order::<T>(),
                    prev@ == before,
                    f <= prev.len(),
                    forall|k: int| 0 <= k < f ==> #[trigger] spec_union(before[k], cur) is None,
                    joined matches Some(u) ==> f < prev.len() && has_bounds(
                        Some(u),
                        spec_union(before[f as int], cur),
                    ),
                decreases prev.len() - f + (if joined is None { 1int } else { 0int }),
            {
                match prev[f].union(&cur) {
                    Some(u) => {
                        joined = Some(u);
                    },
                    None => {
                        f = f + 1;
                    },
                }
            }
            match joined {
                None => {
                    proof {
                        assert(!exists|g: int| first_union_at(before, cur, g));
                    }
                    prev.push(cur);
                },
                Some(u) => {
                    proof {
                        assert(first_union_at(before, cur, f as int));
                        let g = choose|g: int| first_union_at(before, cur, g);
                        assert(g == f as int) by {
                            if g < f {
                                assert(spec_union(before[g], cur) is None);
                            } else if g > f {
                                assert(spec_union(before[f as int], cur) is None);
                            }
                        }
                        Interval::<T>::lemma_ext(u, Interval::from_bounds((u.lo(), u.hi())));
                    }
                    let ghost a0 = u;
                    let mut acc = u;
                    let mut ks: Vec<Interval<T>> = Vec::new();
                    let mut k: usize = f + 1;
                    while k < prev.len()
                        invariant
                            total_order::<T>(),
                            prev@ == before,
                            f < k <= prev.len(),
                            (acc, ks@) == absorb(a0, before.subrange(f + 1, k as int)),
                        decreases prev.len() - k,
                    {
                        let item = prev[k];
                        proof {
                            let sub = before.subrange(f + 1, k + 1);
                            assert(sub.drop_last() =~= before.subrange(f + 1, k as int));
                            assert(sub.last() == item);
                        }
                        match item.union(&acc) {
                            Some(v) => {
                                proof {
                                    Interval::<T>::lemma_ext(v, Interval::from_bounds((v.lo(), v.hi())));
                                }
                                acc = v;
                            },
                            None => {
                                ks.push(item);
                            },
                        }
                        k = k + 1;
                    }
                    let mut out: Vec<Interval<T>> = Vec::new();
                    let mut m: usize = 0;
                    while m < f
                        invariant
                            prev@ == before,
                            f < prev.len(),
                            m <= f,
                            out@ == before.take(m as int),
                        decreases f - m,
                    {
                        out.push(prev[m]);
                        proof {
                            assert(before.take(m + 1) =~= before.take(m as int).push(before[m as int]));
                        }
                        m = m + 1;
                    }
                    out.push(acc);
                    let mut q: usize = 0;
                    let ghost base = out@;
                    while q < ks.len()
                        invariant
                            q <= ks.len(),
                            out@ == base + ks@.take(q as int),
                        decreases ks.len() - q,
                    {
                        out.push(ks[q]);
                        proof {
                            assert(ks@.take(q + 1) =~= ks@.take(q as int).push(ks@[q as int]));
                        }
                        q = q + 1;
                    }
                    proof {
                        assert(ks@.take(ks.len() as int) =~= ks@);
                        assert(before.subrange(f + 1, before.len() as int) =~= before.subrange(
                            f + 1,
                            k as int,
                        ));
                        assert(out@ =~= before.take(f as int) + seq![acc] + ks@);
                    }
                    prev = out;
                },
            }
            proof {
                let rest = kept@.subrange(j as int, kept.len() as int);
                assert(rest[0] == cur);
                assert(rest.drop_first() =~= kept@.subrange(j + 1, kept.len() as int));
                assert(prev@ == merge_into(before, cur));
            }
            j = j + 1;
        }
        proof {
            assert(kept@.subrange(kept.len() as int, kept.len() as int) =~= Seq::<Interval<T>>::empty());
            assert forall|p: T| #[trigger] seq_has(prev@, p) <==> seq_has(intervals@, p) by {
                lemma_normalize_has(intervals@, p);
            }
            lemma_normalize_has(intervals@, kept[0].lo().pt());
            lemma_non_empty_len(intervals@);
            let ne = non_empty(intervals@);
            lemma_merge_all_len(seq![ne[0]], ne.drop_first());
        }
        prev
    }
}

impl<T: PartialOrd + Copy + core::ops::Sub<Output = T>> Interval<T> {
    /// Returns the width of the interval: its right point minus its left
    /// point.
    pub fn width(&self) -> (r: T)
        requires
            self.hi().pt().sub_req(self.lo().pt()),
        ensures
            T::obeys_sub_spec() ==> r == self.hi().pt().sub_spec(self.lo().pt()),
    {
        self.right_point() - self.left_point()
    }
}

} // verus!
