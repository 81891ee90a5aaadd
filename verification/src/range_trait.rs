//! Ranges are constraints defining sets of versions, made of intervals.
//!
//! Concretely, those constraints correspond to any set of versions
//! representable as the concatenation, union, and complement
//! of the ranges building blocks.
//!
//! Those building blocks are:
//!  - [empty()](Ranges::empty): the empty set
//!  - [full()](Ranges::full): the set of all possible versions
//!  - [singleton(v)](Ranges::singleton): the set containing only the version v
//!  - [higher_than(v)](Ranges::higher_than): the set defined by `v <= versions`
//!  - [strictly_lower_than(v)](Ranges::strictly_lower_than): the set defined by `versions < v`
//!  - [between(v1, v2)](Ranges::between): the set defined by `v1 <= versions < v2`
//!
//! Unlike [`crate::range::Ranges`], the segments here are values of an
//! [`Interval`] type, which may store other bounds than it was made from.
//! Points are those of [`crate::range`]: the version `v` sits at `2 * v.rank()`.

use core::cmp::Ordering;
use core::marker::PhantomData;
use vstd::prelude::*;

use crate::range::{
    above_start, below_end, end_val, flip, gap, lemma_flip, lemma_points_before_end,
    lemma_prefix_before, lemma_prefix_push, lemma_segs_has_empty, lemma_segs_has_one,
    lemma_segs_has_push, lemma_segs_order, lemma_unbounded_end_is_last,
    lemma_points_determine_segs, lemma_unbounded_start_is_first, lemma_wf_subrange, point, seg_has, segs_has, segs_wf,
    start_le, start_val, valid_seg,
};
use crate::range_order::compare_versions;
use crate::version_trait::{deref_bound, flip_bound, copied_bound, ref_bound, Bound, Interval, Ranked, Version};

verus! {

// SidedBound ##################################################################

/// A bound, as the start (left) or the end (right) of an interval.
#[derive(Debug, Clone, Copy, Eq, PartialEq, Structural)]
pub enum SidedBound<V> {
    /// The start of an interval.
    Left(Bound<V>),
    /// The end of an interval.
    Right(Bound<V>),
}

/// The sided bound, read through the references it holds.
pub open spec fn deref_sided<V>(sb: SidedBound<&V>) -> SidedBound<V> {
    match sb {
        SidedBound::Left(b) => SidedBound::Left(deref_bound(b)),
        SidedBound::Right(b) => SidedBound::Right(deref_bound(b)),
    }
}

/// Where a sided bound sits on the line of points: a tier (`-1` before
/// every point, `1` after every point, `0` in between) and, in tier `0`, the
/// first point that a left bound lets in or the first point after a right bound.
pub open spec fn sided_pos<V: Ranked>(sb: SidedBound<V>) -> (int, int) {
    match sb {
        SidedBound::Left(Bound::Unbounded) => (-1, 0),
        SidedBound::Right(Bound::Unbounded) => (1, 0),
        SidedBound::Left(b) => (0, start_val(b)),
        SidedBound::Right(b) => (0, end_val(b) + 1),
    }
}

/// The order of two positions.
pub open spec fn pos_order(a: (int, int), b: (int, int)) -> Ordering {
    if a.0 < b.0 || (a.0 == b.0 && a.1 < b.1) {
        Ordering::Less
    } else if a.0 == b.0 && a.1 == b.1 {
        Ordering::Equal
    } else {
        Ordering::Greater
    }
}

/// The order of two sided bounds, by where they sit.
pub open spec fn sided_order<V: Ranked>(a: SidedBound<V>, b: SidedBound<V>) -> Ordering {
    pos_order(sided_pos(a), sided_pos(b))
}

/// The opposite order.
pub open spec fn reversed(o: Ordering) -> Ordering {
    match o {
        Ordering::Less => Ordering::Greater,
        Ordering::Equal => Ordering::Equal,
        Ordering::Greater => Ordering::Less,
    }
}

/// The opposite order.
fn reverse_order(o: Ordering) -> (r: Ordering)
    ensures
        r == reversed(o),
{
    match o {
        Ordering::Less => Ordering::Greater,
        Ordering::Equal => Ordering::Equal,
        Ordering::Greater => Ordering::Less,
    }
}

/// The first order, or the second one where the first is equal.
fn then_order(first: Ordering, second: Ordering) -> (r: Ordering)
    ensures
        r == (if first == Ordering::Equal { second } else { first }),
{
    match first {
        Ordering::Equal => second,
        _ => first,
    }
}

/// A sided bound on references to the versions of a sided bound.
pub fn ref_sided_bound<V>(sb: &SidedBound<V>) -> (r: SidedBound<&V>)
    ensures
        deref_sided(r) == *sb,
{
    match sb {
        SidedBound::Left(bound) => SidedBound::Left(ref_bound(bound)),
        SidedBound::Right(bound) => SidedBound::Right(ref_bound(bound)),
    }
}

/// Whether `compare` answers a pair of sided bounds through the reversed pair.
pub open spec fn compared_reversed<V>(a: SidedBound<V>, b: SidedBound<V>) -> bool {
    match (a, b) {
        (SidedBound::Left(Bound::Included(_)), SidedBound::Left(Bound::Unbounded)) => true,
        (SidedBound::Left(Bound::Included(_)), SidedBound::Left(Bound::Excluded(_))) => true,
        (SidedBound::Left(Bound::Excluded(_)), SidedBound::Left(Bound::Unbounded)) => true,
        (SidedBound::Right(Bound::Included(_)), SidedBound::Right(Bound::Unbounded)) => true,
        (SidedBound::Right(Bound::Included(_)), SidedBound::Right(Bound::Excluded(_))) => true,
        (SidedBound::Right(Bound::Excluded(_)), SidedBound::Right(Bound::Unbounded)) => true,
        (SidedBound::Right(_), SidedBound::Left(_)) => true,
        _ => false,
    }
}

impl<'a, V: Ranked> SidedBound<&'a V> {
    /// How two sided bounds compare, by where they sit on the line of points.
    pub fn compare(&self, other: &Self) -> (r: Ordering)
        ensures
            r == sided_order(deref_sided(*self), deref_sided(*other)),
        decreases (if compared_reversed(deref_sided(*self), deref_sided(*other)) { 1int } else { 0int }),
    {
        match (*self, *other) {
            // Handling of both left bounds.
            (SidedBound::Left(Bound::Unbounded), SidedBound::Left(Bound::Unbounded)) => {
                Ordering::Equal
            },
            (SidedBound::Left(Bound::Unbounded), SidedBound::Left(_)) => Ordering::Less,
            (SidedBound::Left(Bound::Excluded(l1)), SidedBound::Left(Bound::Excluded(l2))) => {
                compare_versions(l1, l2)
            },
            (SidedBound::Left(Bound::Excluded(l1)), SidedBound::Left(Bound::Included(l2))) => {
                // An open left bound is greater than a closed left bound.
                then_order(compare_versions(l1, l2), Ordering::Greater)
            },
            (SidedBound::Left(Bound::Included(l1)), SidedBound::Left(Bound::Included(l2))) => {
                compare_versions(l1, l2)
            },
            (SidedBound::Left(_), SidedBound::Left(_)) => reverse_order(other.compare(self)),
            // Handling of both right bounds.
            (SidedBound::Right(Bound::Unbounded), SidedBound::Right(Bound::Unbounded)) => {
                Ordering::Equal
            },
            (SidedBound::Right(Bound::Unbounded), SidedBound::Right(_)) => Ordering::Greater,
            (SidedBound::Right(Bound::Excluded(r1)), SidedBound::Right(Bound::Excluded(r2))) => {
                compare_versions(r1, r2)
            },
            (SidedBound::Right(Bound::Excluded(r1)), SidedBound::Right(Bound::Included(r2))) => {
                // An open Right bound is smaller than a closed Right bound.
                then_order(compare_versions(r1, r2), Ordering::Less)
            },
            (SidedBound::Right(Bound::Included(r1)), SidedBound::Right(Bound::Included(r2))) => {
                compare_versions(r1, r2)
            },
            (SidedBound::Right(_), SidedBound::Right(_)) => reverse_order(other.compare(self)),
            // Handling of left and right bounds.
            (SidedBound::Left(Bound::Unbounded), SidedBound::Right(_)) => Ordering::Less,
            (SidedBound::Left(_), SidedBound::Right(Bound::Unbounded)) => Ordering::Less,
            (SidedBound::Left(Bound::Excluded(l)), SidedBound::Right(Bound::Excluded(r))) => {
                // An open left bound is after an open right bound.
                then_order(compare_versions(l, r), Ordering::Greater)
            },
            (SidedBound::Left(Bound::Excluded(l)), SidedBound::Right(Bound::Included(r))) => {
                compare_versions(l, r)
            },
            (SidedBound::Left(Bound::Included(l)), SidedBound::Right(Bound::Excluded(r))) => {
                compare_versions(l, r)
            },
            (SidedBound::Left(Bound::Included(l)), SidedBound::Right(Bound::Included(r))) => {
                then_order(compare_versions(l, r), Ordering::Less)
            },
            // Handling of right and left bounds.
            (SidedBound::Right(_), SidedBound::Left(_)) => reverse_order(other.compare(self)),
        }
    }
}

/// Comparing two sided bounds the other way round gives the opposite order.
pub proof fn law_reverse_bounds_reverse_order<V: Ranked>(a: SidedBound<V>, b: SidedBound<V>)
    ensures
        sided_order(a, b) == reversed(sided_order(b, a)),
{
}

// Intervals ###################################################################

/// The bounds an interval stores.
pub open spec fn interval_bounds<I: Interval<V>, V: Version>(seg: I) -> (Bound<V>, Bound<V>) {
    (seg.start_spec(), seg.end_spec())
}

/// Whether the interval holds the version, by its bounds.
pub fn interval_contains<I: Interval<V>, V: Version>(seg: &I, version: &V) -> (r: bool)
    ensures
        r == seg_has(interval_bounds(*seg), point(*version)),
{
    let after_start = match seg.start_bound() {
        Bound::Included(s) => s.rank_le(version),
        Bound::Excluded(s) => s.rank_lt(version),
        Bound::Unbounded => true,
    };
    let before_end = match seg.end_bound() {
        Bound::Included(e) => version.rank_le(e),
        Bound::Excluded(e) => version.rank_lt(e),
        Bound::Unbounded => true,
    };
    after_start && before_end
}

/// Whether two bounds are the same bound.
fn same_ref_bound<V: Ranked>(a: Bound<&V>, b: Bound<&V>) -> (r: bool)
    ensures
        r == (deref_bound(a) == deref_bound(b)),
{
    match (a, b) {
        (Bound::Included(x), Bound::Included(y)) => {
            proof {
                V::lemma_rank_injective(*x, *y);
            }
            x.rank_le(y) && y.rank_le(x)
        },
        (Bound::Excluded(x), Bound::Excluded(y)) => {
            proof {
                V::lemma_rank_injective(*x, *y);
            }
            x.rank_le(y) && y.rank_le(x)
        },
        (Bound::Unbounded, Bound::Unbounded) => true,
        _ => false,
    }
}

/// Where the points of well formed segments are not: at or before the end of
/// a segment, no later segment holds a point.
pub proof fn lemma_not_later<V: Ranked>(b: Seq<(Bound<V>, Bound<V>)>, k: int, x: int)
    requires
        segs_wf(b),
        0 <= k < b.len(),
        b[k].1 is Unbounded || x <= end_val(b[k].1) + 1,
    ensures
        forall|j: int| k < j < b.len() ==> !#[trigger] seg_has(b[j], x),
{
    assert forall|j: int| k < j < b.len() implies !#[trigger] seg_has(b[j], x) by {
        lemma_segs_order(b, k, j);
    }
}

// Ranges ######################################################################

/// A set of versions, as a list of intervals.
///
/// A well formed range, see [`Ranges::wf`], has intervals that each hold a
/// point, sorted, with at least one point between two of them.
#[derive(Debug)]
pub struct Ranges<I, V> {
    segments: Vec<I>,
    phantom: PhantomData<V>,
}

impl<I: Interval<V>, V: Version> Ranges<I, V> {
    /// The bounds of the intervals, in order.
    pub closed spec fn bounds(self) -> Seq<(Bound<V>, Bound<V>)> {
        self.segments@.map_values(|s: I| interval_bounds(s))
    }

    /// The intervals were made by `new`.
    pub closed spec fn all_made(self) -> bool {
        forall|i: int| 0 <= i < self.segments@.len() ==> #[trigger] self.segments@[i].made()
    }

    /// The invariants of a range: intervals made by `new`, with well formed bounds.
    pub open spec fn wf(self) -> bool {
        &&& self.all_made()
        &&& segs_wf(self.bounds())
    }

    /// Whether the range holds the point `x`.
    pub open spec fn has(self, x: int) -> bool {
        segs_has(self.bounds(), x)
    }

    /// Whether the range holds the version `v`.
    pub open spec fn contains_spec(self, v: V) -> bool {
        self.has(point(v))
    }

    /// Every interval starts with an included version.
    pub open spec fn starts_included(self) -> bool {
        forall|i: int| 0 <= i < self.bounds().len() ==> #[trigger] self.bounds()[i].0 is Included
    }

    /// No interval ends with an included version.
    pub open spec fn ends_open(self) -> bool {
        forall|i: int| 0 <= i < self.bounds().len() ==> !(#[trigger] self.bounds()[i].1 is Included)
    }

    /// A range of one interval.
    fn one(seg: I) -> (r: Self)
        requires
            seg.made(),
        ensures
            r.bounds() == seq![interval_bounds(seg)],
            r.all_made(),
    {
        let r = Self { segments: vec![seg], phantom: PhantomData };
        assert(r.bounds() =~= seq![interval_bounds(seg)]);
        r
    }

    /// A range of one interval holding the version `v` is well formed.
    proof fn lemma_one_wf(seg: I, v: V)
        requires
            seg_has(interval_bounds(seg), point(v)),
        ensures
            segs_wf(seq![interval_bounds(seg)]),
    {
    }
}

// Ranges building blocks.
impl<I: Interval<V>, V: Version> Ranges<I, V> {
    /// The intervals of the range, in order.
    pub fn iter(&self) -> (r: &[I])
        ensures
            bounds_of(r@) == self.bounds(),
    {
        self.segments.as_slice()
    }

    /// Empty set of versions.
    pub fn empty() -> (r: Self)
        ensures
            r.wf(),
            r.bounds().len() == 0,
            forall|x: int| !#[trigger] r.has(x),
    {
        let r = Self { segments: Vec::new(), phantom: PhantomData };
        assert(r.bounds() =~= Seq::<(Bound<V>, Bound<V>)>::empty());
        r
    }

    /// Set of all possible versions.
    pub fn full() -> (r: Self)
        ensures
            r.wf(),
            r.bounds() == seq![(V::min_spec(), V::max_spec())],
            forall|v: V| #[trigger] r.contains_spec(v),
    {
        proof {
            I::lemma_full();
        }
        let seg = I::new(V::minimum(), V::maximum());
        let r = Self::one(seg);
        proof {
            let w: V = vstd::pervasive::arbitrary();
            V::lemma_within_bounds(w);
            Self::lemma_one_wf(seg, w);
            lemma_segs_has_one(interval_bounds(seg));
            assert forall|v: V| #[trigger] r.contains_spec(v) by {
                V::lemma_within_bounds(v);
            }
        }
        r
    }

    /// Set containing exactly one version.
    pub fn singleton(v: V) -> (r: Self)
        requires
            I::accepts(Bound::Included(v), Bound::Included(v)),
        ensures
            r.wf(),
            forall|u: V| #[trigger] r.contains_spec(u) == (u == v),
    {
        let seg = I::new(Bound::Included(v), Bound::Included(v));
        let r = Self::one(seg);
        proof {
            Self::lemma_one_wf(seg, v);
            lemma_segs_has_one(interval_bounds(seg));
            assert forall|u: V| #[trigger] r.contains_spec(u) == (u == v) by {
                V::lemma_rank_injective(u, v);
            }
        }
        r
    }

    /// Set of all versions higher or equal to some version.
    pub fn higher_than(v: V) -> (r: Self)
        requires
            I::accepts(Bound::Included(v), V::max_spec()),
        ensures
            r.wf(),
            forall|u: V| #[trigger] r.contains_spec(u) == (v.rank() <= u.rank()),
    {
        let seg = I::new(Bound::Included(v), V::maximum());
        let r = Self::one(seg);
        proof {
            V::lemma_within_bounds(v);
            Self::lemma_one_wf(seg, v);
            lemma_segs_has_one(interval_bounds(seg));
            assert forall|u: V| #[trigger] r.contains_spec(u) == (v.rank() <= u.rank()) by {
                V::lemma_within_bounds(u);
            }
        }
        r
    }

    /// Set of all versions strictly lower than some version.
    ///
    /// The range is well formed when some version is lower than `v`.
    pub fn strictly_lower_than(v: V) -> (r: Self)
        requires
            I::accepts(V::min_spec(), Bound::Excluded(v)),
        ensures
            (exists|u: V| u.rank() < v.rank()) ==> r.wf(),
            r.all_made(),
            r.bounds().len() == 1,
            forall|u: V| #[trigger] r.contains_spec(u) == (u.rank() < v.rank()),
    {
        let seg = I::new(V::minimum(), Bound::Excluded(v));
        let r = Self::one(seg);
        proof {
            lemma_segs_has_one(interval_bounds(seg));
            assert forall|u: V| #[trigger] r.contains_spec(u) == (u.rank() < v.rank()) by {
                V::lemma_within_bounds(u);
            }
            if exists|u: V| u.rank() < v.rank() {
                let u = choose|u: V| u.rank() < v.rank();
                V::lemma_within_bounds(u);
                Self::lemma_one_wf(seg, u);
            }
        }
        r
    }

    /// Set of all versions comprised between two given versions.
    /// The lower bound is included and the higher bound excluded.
    /// `v1 <= v < v2`.
    ///
    /// The range is well formed when `v1` comes before `v2`.
    pub fn between(v1: V, v2: V) -> (r: Self)
        requires
            I::accepts(Bound::Included(v1), Bound::Excluded(v2)),
        ensures
            v1.rank() < v2.rank() ==> r.wf(),
            r.all_made(),
            r.bounds().len() == 1,
            forall|u: V| #[trigger] r.contains_spec(u) == (v1.rank() <= u.rank() < v2.rank()),
    {
        let seg = I::new(Bound::Included(v1), Bound::Excluded(v2));
        let r = Self::one(seg);
        proof {
            lemma_segs_has_one(interval_bounds(seg));
            if v1.rank() < v2.rank() {
                Self::lemma_one_wf(seg, v1);
            }
        }
        r
    }
}

// Contains.
impl<I: Interval<V>, V: Version> Ranges<I, V> {
    /// What `contains` learns at the interval `k`.
    proof fn lemma_contains_step(self, k: usize, p: int)
        requires
            k < self.segments@.len(),
        ensures
            self.bounds().len() == self.segments@.len(),
            self.bounds()[k as int] == interval_bounds(self.segments@[k as int]),
            seg_has(self.bounds()[k as int], p) ==> segs_has(self.bounds(), p),
            self.wf() ==> valid_seg(self.bounds()[k as int]),
            self.wf() && !seg_has(self.bounds()[k as int], p) && (self.bounds()[k as int].1 is Unbounded
                || p <= end_val(self.bounds()[k as int].1) + 1) && (forall|j: int|
                0 <= j < k ==> !#[trigger] seg_has(self.bounds()[j], p)) ==> !segs_has(self.bounds(), p),
    {
        let b = self.bounds();
        let ki = k as int;
        if self.wf() {
            assert(valid_seg(b[ki]));
            if b[ki].1 is Unbounded || p <= end_val(b[ki].1) + 1 {
                lemma_not_later(b, ki, p);
            }
        }
        if seg_has(b[ki], p) {
            assert(segs_has(b, p));
        }
    }

    /// Check if ranges contain a given version.
    ///
    /// A version found is always in the range; in a well formed range, the
    /// answer is exact.
    pub fn contains(&self, version: &V) -> (r: bool)
        ensures
            r ==> self.contains_spec(*version),
            self.wf() ==> r == self.contains_spec(*version),
    {
        let ghost b = self.bounds();
        let ghost p = point(*version);
        let mut k: usize = 0;
        while k < self.segments.len()
            invariant
                0 <= k <= self.segments@.len(),
                b == self.bounds(),
                b.len() == self.segments@.len(),
                p == point(*version),
                forall|j: int| 0 <= j < k ==> !#[trigger] seg_has(b[j], p),
            decreases self.segments@.len() - k,
        {
            let seg = &self.segments[k];
            proof {
                self.lemma_contains_step(k, p);
            }
            match (seg.start_bound(), seg.end_bound()) {
                (Bound::Unbounded, Bound::Unbounded) => return interval_contains(seg, version),
                (Bound::Unbounded, Bound::Excluded(r)) => match compare_versions(version, r) {
                    Ordering::Less => return interval_contains(seg, version),
                    Ordering::Equal => return false,
                    Ordering::Greater => {},
                },
                (Bound::Unbounded, Bound::Included(r)) => match compare_versions(version, r) {
                    Ordering::Greater => {},
                    _ => return interval_contains(seg, version),
                },
                (Bound::Excluded(l), Bound::Unbounded) => match compare_versions(version, l) {
                    Ordering::Greater => return interval_contains(seg, version),
                    _ => return false,
                },
                (Bound::Excluded(l), Bound::Excluded(r)) => match compare_versions(version, l) {
                    Ordering::Less => return false,
                    Ordering::Equal => return false,
                    Ordering::Greater => match compare_versions(version, r) {
                        Ordering::Less => return interval_contains(seg, version),
                        Ordering::Equal => return false,
                        Ordering::Greater => {},
                    },
                },
                (Bound::Excluded(l), Bound::Included(r)) => match compare_versions(version, l) {
                    Ordering::Less => return false,
                    Ordering::Equal => return false,
                    Ordering::Greater => match compare_versions(version, r) {
                        Ordering::Greater => {},
                        _ => return interval_contains(seg, version),
                    },
                },
                (Bound::Included(l), Bound::Unbounded) => match compare_versions(version, l) {
                    Ordering::Less => return false,
                    _ => return interval_contains(seg, version),
                },
                (Bound::Included(l), Bound::Excluded(r)) => match compare_versions(version, l) {
                    Ordering::Less => return false,
                    Ordering::Equal => return interval_contains(seg, version),
                    Ordering::Greater => match compare_versions(version, r) {
                        Ordering::Less => return interval_contains(seg, version),
                        Ordering::Equal => return false,
                        Ordering::Greater => {},
                    },
                },
                (Bound::Included(l), Bound::Included(r)) => match compare_versions(version, l) {
                    Ordering::Less => return false,
                    Ordering::Equal => return interval_contains(seg, version),
                    Ordering::Greater => match compare_versions(version, r) {
                        Ordering::Greater => {},
                        _ => return interval_contains(seg, version),
                    },
                },
            }
            k = k + 1;
        }
        proof {
            if segs_has(b, p) {
                let j = choose|j: int| 0 <= j < b.len() && #[trigger] seg_has(b[j], p);
            }
        }
        false
    }
}

/// The bounds of a list of intervals.
pub open spec fn bounds_of<I: Interval<V>, V: Version>(s: Seq<I>) -> Seq<(Bound<V>, Bound<V>)> {
    s.map_values(|seg: I| interval_bounds(seg))
}

/// The intervals of a list are all made by `new`.
pub open spec fn all_made_in<I: Interval<V>, V: Version>(s: Seq<I>) -> bool {
    forall|i: int| 0 <= i < s.len() ==> #[trigger] s[i].made()
}

/// The bounds of a list with one more interval.
proof fn lemma_bounds_push<I: Interval<V>, V: Version>(s: Seq<I>, seg: I)
    ensures
        bounds_of(s.push(seg)) == bounds_of(s).push(interval_bounds(seg)),
{
    assert(bounds_of(s.push(seg)) =~= bounds_of(s).push(interval_bounds(seg)));
}

/// The part of a slice from `start` on.
fn slice_from<T>(data: &[T], start: usize) -> (r: &[T])
    requires
        start <= data@.len(),
    ensures
        r@ == data@.subrange(start as int, data@.len() as int),
{
    let (_, tail) = data.split_at(start);
    assert(tail@ =~= data@.subrange(start as int, data@.len() as int));
    tail
}

// Set operations.
impl<I: Interval<V>, V: Version> Ranges<I, V> {
    /// The range of a list of intervals.
    fn from_vec(segments: Vec<I>) -> (r: Self)
        ensures
            r.bounds() == bounds_of(segments@),
            all_made_in(segments@) ==> r.all_made(),
    {
        let r = Self { segments, phantom: PhantomData };
        assert(all_made_in(r.segments@) ==> r.all_made());
        r
    }

    /// The points of a well formed range are at or after the minimum.
    proof fn lemma_after_min(self)
        requires
            self.wf(),
        ensures
            forall|x: int| #[trigger] self.has(x) ==> above_start(V::min_spec(), x),
            forall|i: int| 0 <= i < self.bounds().len() ==> start_le(V::min_spec(), #[trigger] self.bounds()[i].0),
    {
        let b = self.bounds();
        assert forall|i: int| 0 <= i < b.len() implies start_le(V::min_spec(), #[trigger] b[i].0) by {
            I::lemma_start_after_min(self.segments@[i]);
        }
        assert forall|x: int| #[trigger] self.has(x) implies above_start(V::min_spec(), x) by {
            let k = choose|k: int| 0 <= k < b.len() && #[trigger] seg_has(b[k], x);
            assert(start_le(V::min_spec(), b[k].0));
        }
    }

    /// Compute the complement set of versions.
    ///
    /// Where the versions have no upper bound, the complement is well formed and
    /// holds exactly the points, from the minimum on, that the range does not.
    pub fn complement(&self) -> (r: Self)
        requires
            self.all_made(),
        ensures
            r.all_made(),
            self.wf() && V::max_spec() is Unbounded ==> r.wf(),
            self.wf() && V::max_spec() is Unbounded ==> forall|x: int| #[trigger] r.has(x) == (above_start(
                V::min_spec(),
                x,
            ) && !self.has(x)),
            self.wf() && V::max_spec() is Unbounded && V::min_spec() is Included && self.ends_open()
                ==> r.starts_included(),
    {
        let ghost b = self.bounds();
        let ghost w = self.wf();
        proof {
            if w {
                self.lemma_after_min();
                assert forall|i: int| 0 < i < b.len() implies !(#[trigger] b[i].0 is Unbounded) by {
                    lemma_unbounded_start_is_first(b, i);
                }
            }
        }
        if self.segments.len() == 0 {
            // Complement of ∅  is *
            let r = Self::full();
            proof {
                lemma_segs_has_one((V::min_spec(), V::max_spec()));
                if w && V::max_spec() is Unbounded {
                    assert forall|x: int| #[trigger] r.has(x) == (above_start(V::min_spec(), x) && !self.has(x)) by {
                        lemma_segs_has_empty(b);
                    }
                }
            }
            return r;
        }
        let seg = &self.segments[0];
        let min = V::minimum();
        proof {
            assert(b[0] == interval_bounds(*seg));
            assert(self.segments@[0].made());
            I::lemma_keeps(*seg, *seg);
        }
        if same_ref_bound(seg.start_bound(), ref_bound(&min)) {
            let start = copied_bound(flip_bound(seg.end_bound()));
            let rest = slice_from(self.segments.as_slice(), 1);
            let ghost t = bounds_of(rest@);
            proof {
                assert(t =~= b.subrange(1, b.len() as int));
                assert forall|k: int| 0 <= k < rest@.len() implies #[trigger] rest@[k].made() by {
                    assert(rest@[k] == self.segments@[k + 1]);
                }
                if b.len() > 1 {
                    assert(t[0] == b[1]);
                    assert(rest@[0] == self.segments@[1]);
                    I::lemma_keeps(*seg, rest@[0]);
                }
                if w {
                    lemma_wf_subrange(b, 1, b.len() as int);
                    lemma_flip(b[0].1);
                    if b.len() > 1 {
                        assert(gap(b[0].1, b[1].0));
                    }
                    if b[0].1 is Unbounded {
                        lemma_unbounded_end_is_last(b, 0);
                        assert(start is Unbounded);
                    }
                    assert forall|i: int| 0 <= i < t.len() implies !(#[trigger] t[i].0 is Unbounded) by {
                        assert(t[i] == b[i + 1]);
                    }
                    assert(Self::negation_ready(start, rest@));
                }
            }
            let r = Self::complement_segments(start, rest);
            proof {
                if w && V::max_spec() is Unbounded {
                    self.lemma_first_and_rest();
                    assert(b[0].0 == V::min_spec());
                    assert(valid_seg(b[0]));
                    assert(t == b.subrange(1, b.len() as int));
                    assert forall|x: int| #[trigger] r.has(x) == (above_start(V::min_spec(), x) && !self.has(x)) by {
                        lemma_flip(b[0].1);
                        assert(self.has(x) == (seg_has(b[0], x) || segs_has(t, x)));
                        if b[0].1 is Unbounded {
                            assert(t.len() == 0);
                            assert(!segs_has(t, x));
                        }
                    }
                    if V::min_spec() is Included && self.ends_open() {
                        assert(!(b[0].1 is Included));
                        assert forall|i: int| 0 <= i < t.len() implies !(#[trigger] t[i].1 is Included) by {
                            assert(t[i] == b[i + 1]);
                        }
                        assert forall|i: int| 0 <= i < r.bounds().len() implies #[trigger] r.bounds()[i].0 is Included by {
                            if b[0].1 is Unbounded {
                                assert(t.len() == 0);
                            }
                        }
                    }
                }
            }
            r
        } else {
            proof {
                assert(bounds_of(self.segments@) == b);
                assert(all_made_in(self.segments@));
                if w {
                    I::lemma_start_after_min(*seg);
                    assert(b[0].0 != V::min_spec());
                    if !(V::min_spec() is Unbounded) {
                        match (V::min_spec(), b[0].0) {
                            (Bound::Included(m), Bound::Included(f)) => V::lemma_rank_injective(m, f),
                            (Bound::Excluded(m), Bound::Excluded(f)) => V::lemma_rank_injective(m, f),
                            _ => {},
                        }
                    }
                    if V::min_spec() is Unbounded {
                        assert(!(b[0].0 is Unbounded));
                    }
                    assert(Self::negation_ready(min, self.segments@));
                }
            }
            let r = Self::complement_segments(min, self.segments.as_slice());
            proof {
                if w && V::max_spec() is Unbounded && V::min_spec() is Included && self.ends_open() {
                    assert forall|i: int| 0 <= i < b.len() implies !(#[trigger] b[i].1 is Included) by {}
                    assert forall|i: int| 0 <= i < r.bounds().len() implies #[trigger] r.bounds()[i].0 is Included by {}
                }
            }
            r
        }
    }

    /// The points of a range are those of its first interval and those of
    /// the others, which come after.
    proof fn lemma_first_and_rest(&self)
        requires
            segs_wf(self.bounds()),
            self.bounds().len() > 0,
        ensures
            forall|x: int| #[trigger] self.has(x) == (seg_has(self.bounds()[0], x) || segs_has(
                self.bounds().subrange(1, self.bounds().len() as int),
                x,
            )),
    {
        let s = self.bounds();
        let t = s.subrange(1, s.len() as int);
        assert forall|x: int| #[trigger] self.has(x) == (seg_has(s[0], x) || segs_has(t, x)) by {
            if self.has(x) {
                let k = choose|k: int| 0 <= k < s.len() && #[trigger] seg_has(s[k], x);
                if k > 0 {
                    assert(t[k - 1] == s[k]);
                }
            }
            if segs_has(t, x) {
                let k = choose|k: int| 0 <= k < t.len() && #[trigger] seg_has(t[k], x);
                assert(t[k] == s[k + 1]);
            }
        }
    }

    /// The intervals and start bound that `complement_segments` negates exactly:
    /// well formed intervals, all with a start, after `start`, and bounds
    /// that `new` keeps.
    pub open spec fn negation_ready(start: Bound<V>, segments: Seq<I>) -> bool {
        let s = bounds_of(segments);
        &&& segs_wf(s)
        &&& forall|i: int| 0 <= i < s.len() ==> !(#[trigger] s[i].0 is Unbounded)
        &&& !(start is Unbounded) && s.len() > 0 ==> start_val(start) < start_val(s[0].0)
        &&& s.len() > 0 ==> I::keeps(start, flip(s[0].0))
        &&& s.len() == 0 && !(start is Unbounded) ==> I::keeps(start, V::max_spec())
    }

    /// Helper function performing the negation of intervals in segments:
    /// the points from `start` on that none of the intervals holds.
    fn complement_segments(start: Bound<V>, segments: &[I]) -> (r: Self)
        requires
            all_made_in(segments@),
            segments@.len() > 0 ==> I::accepts(start, flip(bounds_of(segments@)[0].0)),
            segments@.len() == 0 ==> I::accepts(start, V::max_spec()),
        ensures
            r.all_made(),
            Self::negation_ready(start, segments@) && V::max_spec() is Unbounded ==> segs_wf(r.bounds()),
            Self::negation_ready(start, segments@) && V::max_spec() is Unbounded ==> forall|x: int|
                #[trigger] r.has(x) == (above_start(start, x) && !segs_has(bounds_of(segments@), x) && !(
                start is Unbounded && segments@.len() == 0)),
            Self::negation_ready(start, segments@) && V::max_spec() is Unbounded ==> forall|i: int|
                0 <= i < r.bounds().len() ==> ((#[trigger] r.bounds()[i].0 == start && !(start is Unbounded
                && segments@.len() == 0)) || exists|j: int|
                0 <= j < segments@.len() && !(bounds_of(segments@)[j].1 is Unbounded) && r.bounds()[i].0
                    == flip(bounds_of(segments@)[j].1)),
    {
        let ghost s = bounds_of(segments@);
        let ghost rd = Self::negation_ready(start, segments@);
        let mut out: Vec<I> = Vec::new();
        let mut cur = start;
        let mut i: usize = 0;
        proof {
            assert(bounds_of(out@) =~= Seq::<(Bound<V>, Bound<V>)>::empty());
        }
        while i < segments.len()
            invariant
                0 <= i <= s.len(),
                s == bounds_of(segments@),
                s.len() == segments@.len(),
                all_made_in(segments@),
                all_made_in(out@),
                rd == Self::negation_ready(start, segments@),
                out@.len() == i,
                i == 0 ==> cur == start,
                i > 0 ==> cur == flip(s[i - 1].1),
                i < s.len() ==> I::accepts(cur, flip(s[i as int].0)),
                i == s.len() ==> I::accepts(cur, V::max_spec()),
                rd ==> segs_wf(s),
                rd ==> forall|k: int| 0 <= k < s.len() ==> !(#[trigger] s[k].0 is Unbounded),
                rd ==> (!(start is Unbounded) && s.len() > 0 ==> start_val(start) < start_val(s[0].0)),
                rd ==> (s.len() > 0 ==> I::keeps(start, flip(s[0].0))),
                rd ==> segs_wf(bounds_of(out@)),
                rd ==> (i < s.len() && !(cur is Unbounded) ==> start_val(cur) < start_val(s[i as int].0)),
                rd ==> (i > 0 && cur is Unbounded ==> i == s.len()),
                rd && !(cur is Unbounded) ==> forall|k: int| 0 <= k < out@.len() ==> #[trigger] gap(
                    bounds_of(out@)[k].1,
                    cur,
                ),
                rd && !(cur is Unbounded) ==> above_start(start, start_val(cur)),
                rd && i > 0 ==> forall|x: int| #[trigger] segs_has(bounds_of(out@), x) == (above_start(start, x)
                    && !segs_has(s.subrange(0, i as int), x) && (cur is Unbounded || x < start_val(cur))),
                rd ==> forall|k: int| 0 <= k < out@.len() ==> ((#[trigger] bounds_of(out@)[k].0 == start && !(
                    start is Unbounded && s.len() == 0)) || exists|j: int|
                    0 <= j < s.len() && !(s[j].1 is Unbounded) && bounds_of(out@)[k].0 == flip(s[j].1)),
            decreases s.len() - i,
        {
            let seg = &segments[i];
            let new_end = copied_bound(flip_bound(seg.start_bound()));
            let next = copied_bound(flip_bound(seg.end_bound()));
            let ghost old_out = out@;
            let ghost ob = bounds_of(old_out);
            let ghost old_cur = cur;
            let ghost iseg = s[i as int];
            proof {
                assert(iseg == interval_bounds(*seg));
                assert(new_end == flip(iseg.0));
                assert(next == flip(iseg.1));
                assert(segments@[i as int].made());
                if i + 1 < s.len() {
                    I::lemma_keeps(*seg, segments@[i + 1]);
                    assert(s[i + 1] == interval_bounds(segments@[i + 1]));
                }
                I::lemma_keeps(*seg, *seg);
                if rd {
                    lemma_flip(iseg.0);
                    lemma_flip(iseg.1);
                    assert(valid_seg(s[i as int]));
                    if i > 0 {
                        assert(!(cur is Unbounded));
                        I::lemma_keeps(segments@[i - 1], *seg);
                        assert(bounds_of(segments@)[i - 1] == interval_bounds(segments@[i - 1]));
                    }
                    lemma_segs_has_push(ob, (old_cur, new_end));
                    lemma_prefix_push(s, i as int);
                    lemma_segs_has_push(s.subrange(0, i as int), iseg);
                    lemma_prefix_before(s, i as int);
                    if next is Unbounded {
                        lemma_unbounded_end_is_last(s, i as int);
                    } else if i + 1 < s.len() {
                        lemma_segs_order(s, i as int, i + 1);
                    }
                }
            }
            let piece = I::new(cur, new_end);
            out.push(piece);
            cur = next;
            i = i + 1;
            proof {
                lemma_bounds_push(old_out, piece);
                assert(all_made_in(out@)) by {
                    assert forall|k: int| 0 <= k < out@.len() implies #[trigger] out@[k].made() by {
                        if k < out@.len() - 1 {
                            assert(out@[k] == old_out[k]);
                        }
                    }
                }
                if rd {
                    assert(bounds_of(out@) == ob.push((old_cur, new_end)));
                    let nb = bounds_of(out@);
                    assert forall|k: int| 0 <= k < nb.len() implies #[trigger] valid_seg(nb[k]) by {
                        if k < nb.len() - 1 {
                            assert(nb[k] == ob[k]);
                        }
                    }
                    assert forall|a: int, c: int| 0 <= a < c < nb.len() implies #[trigger] gap(nb[a].1, nb[c].0) by {
                        if c < nb.len() - 1 {
                            assert(gap(ob[a].1, ob[c].0));
                        } else {
                            assert(gap(ob[a].1, old_cur));
                        }
                    }
                    if !(cur is Unbounded) {
                        assert forall|k: int| 0 <= k < nb.len() implies #[trigger] gap(nb[k].1, cur) by {
                            if k < nb.len() - 1 {
                                assert(gap(ob[k].1, old_cur));
                            }
                        }
                    }
                    assert forall|x: int| #[trigger] segs_has(nb, x) == (above_start(start, x) && !segs_has(
                        s.subrange(0, i as int),
                        x,
                    ) && (cur is Unbounded || x < start_val(cur))) by {
                        let j = i - 1;
                        if j > 0 {
                            assert(segs_has(ob, x) == (above_start(start, x) && !segs_has(s.subrange(0, j), x)
                                && (old_cur is Unbounded || x < start_val(old_cur))));
                            lemma_wf_subrange(s, 0, j);
                            assert(s.subrange(0, j)[j - 1] == s[j - 1]);
                            lemma_points_before_end(s.subrange(0, j));
                            lemma_flip(s[j - 1].1);
                        } else {
                            assert(ob.len() == 0);
                            assert(!segs_has(ob, x));
                            assert(s.subrange(0, 0).len() == 0);
                            assert(!segs_has(s.subrange(0, 0), x));
                        }
                    }
                    assert forall|k: int| 0 <= k < nb.len() implies ((#[trigger] nb[k].0 == start && !(
                        start is Unbounded && s.len() == 0)) || exists|j: int|
                        0 <= j < s.len() && !(s[j].1 is Unbounded) && nb[k].0 == flip(s[j].1)) by {
                        if k < nb.len() - 1 {
                            assert(nb[k] == ob[k]);
                        } else if i - 1 > 0 {
                            assert(!(s[i - 2].1 is Unbounded));
                            assert(nb[k].0 == flip(s[i - 2].1));
                        }
                    }
                    assert(cur == flip(s[i - 1].1));
                }
            }
        }
        let max = V::maximum();
        if !same_ref_bound(ref_bound(&cur), ref_bound(&max)) {
            let ghost before = out@;
            let ghost bb = bounds_of(before);
            proof {
                if rd {
                    if s.len() > 0 {
                        assert(cur == flip(s[s.len() - 1].1));
                        assert(s[s.len() - 1] == interval_bounds(segments@[s.len() - 1]));
                        I::lemma_keeps(segments@[s.len() - 1], segments@[s.len() - 1]);
                    }
                    lemma_segs_has_push(bb, (cur, max));
                    if s.len() > 0 {
                        if !(cur is Unbounded) {
                            lemma_points_before_end(s);
                            lemma_flip(s[s.len() - 1].1);
                        }
                        assert(s.subrange(0, s.len() as int) =~= s);
                    } else {
                        assert(bb.len() == 0);
                        assert(!segs_has(bb, 0));
                    }
                }
            }
            let piece = I::new(cur, max);
            out.push(piece);
            proof {
                lemma_bounds_push(before, piece);
                let nb = bounds_of(out@);
                assert(all_made_in(out@)) by {
                    assert forall|k: int| 0 <= k < out@.len() implies #[trigger] out@[k].made() by {
                        if k < out@.len() - 1 {
                            assert(out@[k] == before[k]);
                        }
                    }
                }
                if rd && V::max_spec() is Unbounded {
                    assert(nb == bb.push((cur, max)));
                    assert forall|k: int| 0 <= k < nb.len() implies #[trigger] valid_seg(nb[k]) by {
                        if k < nb.len() - 1 {
                            assert(nb[k] == bb[k]);
                        }
                    }
                    assert forall|a: int, c: int| 0 <= a < c < nb.len() implies #[trigger] gap(nb[a].1, nb[c].0) by {
                        if c < nb.len() - 1 {
                            assert(gap(bb[a].1, bb[c].0));
                        } else {
                            assert(gap(bb[a].1, cur));
                        }
                    }
                    assert forall|x: int| #[trigger] segs_has(nb, x) == (above_start(start, x) && !segs_has(s, x)
                        && !(start is Unbounded && s.len() == 0)) by {
                        if s.len() == 0 {
                            assert(!segs_has(s, x));
                        }
                    }
                    assert forall|k: int| 0 <= k < nb.len() implies ((#[trigger] nb[k].0 == start && !(
                        start is Unbounded && s.len() == 0)) || exists|j: int|
                        0 <= j < s.len() && !(s[j].1 is Unbounded) && nb[k].0 == flip(s[j].1)) by {
                        if k < nb.len() - 1 {
                            assert(nb[k] == bb[k]);
                        } else if s.len() > 0 {
                            assert(!(s[s.len() - 1].1 is Unbounded));
                        }
                    }
                }
            }
        } else {
            proof {
                if rd {
                    assert(s.subrange(0, s.len() as int) =~= s);
                    if V::max_spec() is Unbounded {
                        assert(cur is Unbounded);
                        if s.len() > 0 {
                            assert(s[s.len() - 1].1 is Unbounded);
                        } else {
                            assert(bounds_of(out@).len() == 0);
                            assert forall|x: int| !#[trigger] segs_has(bounds_of(out@), x) by {}
                        }
                    }
                }
            }
        }
        Self::from_vec(out)
    }
}

/// The points that the intersection of `s` and `t` holds once the segments of
/// `s` before `i` and those of `t` before `j` are done with.
pub open spec fn inter_done<V: Ranked>(
    s: Seq<(Bound<V>, Bound<V>)>,
    t: Seq<(Bound<V>, Bound<V>)>,
    i: int,
    j: int,
    x: int,
) -> bool {
    segs_has(s, x) && segs_has(t, x) && (segs_has(s.subrange(0, i), x) || segs_has(t.subrange(0, j), x))
}

/// A point of well formed segments, before the start of the `j`th one, is in
/// one of the segments before it.
proof fn lemma_in_prefix<V: Ranked>(t: Seq<(Bound<V>, Bound<V>)>, j: int, x: int)
    requires
        segs_wf(t),
        0 <= j < t.len(),
        !(t[j].0 is Unbounded),
        segs_has(t, x),
        x < start_val(t[j].0),
    ensures
        segs_has(t.subrange(0, j), x),
{
    let k = choose|k: int| 0 <= k < t.len() && #[trigger] seg_has(t[k], x);
    if k > j {
        lemma_segs_order(t, j, k);
    }
    assert(k < j);
    assert(t.subrange(0, j)[k] == t[k]);
}

/// Done with a segment of `s` that ends before the `j`th segment of `t` starts.
proof fn lemma_inter_skip<V: Ranked>(
    s: Seq<(Bound<V>, Bound<V>)>,
    t: Seq<(Bound<V>, Bound<V>)>,
    i: int,
    j: int,
)
    requires
        segs_wf(s),
        segs_wf(t),
        0 <= i < s.len(),
        0 <= j < t.len(),
        !(s[i].1 is Unbounded),
        !(t[j].0 is Unbounded),
        end_val(s[i].1) + 1 <= start_val(t[j].0),
    ensures
        forall|x: int| #[trigger] inter_done(s, t, i + 1, j, x) == inter_done(s, t, i, j, x),
        forall|x: int| #[trigger] inter_done(t, s, j, i + 1, x) == inter_done(t, s, j, i, x),
{
    assert forall|x: int| #[trigger] inter_done(s, t, i + 1, j, x) == inter_done(s, t, i, j, x) by {
        lemma_prefix_push(s, i);
        lemma_segs_has_push(s.subrange(0, i), s[i]);
        if seg_has(s[i], x) && segs_has(t, x) {
            lemma_in_prefix(t, j, x);
        }
    }
    assert forall|x: int| #[trigger] inter_done(t, s, j, i + 1, x) == inter_done(t, s, j, i, x) by {
        assert(inter_done(t, s, j, i + 1, x) == inter_done(s, t, i + 1, j, x));
        assert(inter_done(t, s, j, i, x) == inter_done(s, t, i, j, x));
    }
}

/// Done with a segment of `s` that ends no later than the `j`th segment of
/// `t`, which it meets: their common part is added.
proof fn lemma_inter_take<V: Ranked>(
    s: Seq<(Bound<V>, Bound<V>)>,
    t: Seq<(Bound<V>, Bound<V>)>,
    i: int,
    j: int,
    piece: (Bound<V>, Bound<V>),
)
    requires
        segs_wf(s),
        segs_wf(t),
        0 <= i < s.len(),
        0 <= j < t.len(),
        crate::range::end_le(s[i].1, t[j].1),
        piece.1 == s[i].1,
        piece.0 == s[i].0 || piece.0 == t[j].0,
        start_le(s[i].0, piece.0),
        start_le(t[j].0, piece.0),
    ensures
        forall|x: int| #[trigger] inter_done(s, t, i + 1, j, x) == (inter_done(s, t, i, j, x) || seg_has(
            piece,
            x,
        )),
        forall|x: int| #[trigger] inter_done(t, s, j, i + 1, x) == (inter_done(t, s, j, i, x) || seg_has(
            piece,
            x,
        )),
{
    assert forall|x: int| #[trigger] inter_done(s, t, i + 1, j, x) == (inter_done(s, t, i, j, x) || seg_has(
        piece,
        x,
    )) by {
        lemma_prefix_push(s, i);
        lemma_segs_has_push(s.subrange(0, i), s[i]);
        if seg_has(piece, x) {
            assert(seg_has(s[i], x));
            assert(seg_has(t[j], x));
            assert(segs_has(s, x));
            assert(segs_has(t, x));
        }
        if inter_done(s, t, i + 1, j, x) && !inter_done(s, t, i, j, x) {
            assert(seg_has(s[i], x));
            let k = choose|k: int| 0 <= k < t.len() && #[trigger] seg_has(t[k], x);
            if k < j {
                assert(t.subrange(0, j)[k] == t[k]);
            } else if k > j {
                lemma_segs_order(t, j, k);
            }
            assert(k == j);
        }
    }
    assert forall|x: int| #[trigger] inter_done(t, s, j, i + 1, x) == (inter_done(t, s, j, i, x) || seg_has(
        piece,
        x,
    )) by {
        assert(inter_done(t, s, j, i + 1, x) == inter_done(s, t, i + 1, j, x));
        assert(inter_done(t, s, j, i, x) == inter_done(s, t, i, j, x));
    }
}

/// Done with two segments that end at the same point: their common part is added.
proof fn lemma_inter_take_both<V: Ranked>(
    s: Seq<(Bound<V>, Bound<V>)>,
    t: Seq<(Bound<V>, Bound<V>)>,
    i: int,
    j: int,
    piece: (Bound<V>, Bound<V>),
)
    requires
        segs_wf(s),
        segs_wf(t),
        0 <= i < s.len(),
        0 <= j < t.len(),
        crate::range::end_le(s[i].1, t[j].1),
        crate::range::end_le(t[j].1, s[i].1),
        piece.1 == s[i].1,
        piece.0 == s[i].0 || piece.0 == t[j].0,
        start_le(s[i].0, piece.0),
        start_le(t[j].0, piece.0),
    ensures
        forall|x: int| #[trigger] inter_done(s, t, i + 1, j + 1, x) == (inter_done(s, t, i, j, x)
            || seg_has(piece, x)),
{
    lemma_inter_take(s, t, i, j, piece);
    assert forall|x: int| #[trigger] inter_done(s, t, i + 1, j + 1, x) == (inter_done(s, t, i, j, x)
        || seg_has(piece, x)) by {
        assert(inter_done(s, t, i + 1, j, x) == (inter_done(s, t, i, j, x) || seg_has(piece, x)));
        lemma_prefix_push(t, j);
        lemma_segs_has_push(t.subrange(0, j), t[j]);
        if inter_done(s, t, i + 1, j + 1, x) && !inter_done(s, t, i + 1, j, x) {
            assert(seg_has(t[j], x));
            let k = choose|k: int| 0 <= k < s.len() && #[trigger] seg_has(s[k], x);
            if k < i + 1 {
                lemma_prefix_push(s, i);
                assert(s.subrange(0, i + 1)[k] == s[k]);
            } else {
                lemma_segs_order(s, i, k);
            }
        }
    }
}

// Intersection.
impl<I: Interval<V>, V: Version> Ranges<I, V> {
    /// Compute the intersection of two sets of versions.
    ///
    /// Of well formed ranges, the result is well formed and holds exactly the
    /// points of both.
    pub fn intersection(&self, other: &Self) -> (r: Self)
        requires
            self.all_made(),
            other.all_made(),
        ensures
            r.all_made(),
            self.wf() && other.wf() ==> {
                &&& r.wf()
                &&& forall|x: int| #[trigger] r.has(x) == (self.has(x) && other.has(x))
            },
    {
        let ghost s = self.bounds();
        let ghost t = other.bounds();
        let ghost c = self.wf() && other.wf();
        let mut segments: Vec<I> = Vec::new();
        let mut i: usize = 0;
        let mut j: usize = 0;
        let ghost mut gi: int = 0;
        let ghost mut gj: int = 0;
        proof {
            assert(bounds_of(segments@) =~= Seq::<(Bound<V>, Bound<V>)>::empty());
            assert forall|x: int| !#[trigger] inter_done(s, t, 0, 0, x) by {
                assert(s.subrange(0, 0).len() == 0);
                assert(t.subrange(0, 0).len() == 0);
            }
        }
        while i < self.segments.len() && j < other.segments.len()
            invariant
                gi == i,
                gj == j,
                0 <= gi <= s.len(),
                0 <= gj <= t.len(),
                s == self.bounds(),
                t == other.bounds(),
                s.len() == self.segments@.len(),
                t.len() == other.segments@.len(),
                self.all_made(),
                other.all_made(),
                c == (self.wf() && other.wf()),
                all_made_in(segments@),
                c ==> segs_wf(bounds_of(segments@)),
                c ==> forall|x: int| #[trigger] segs_has(bounds_of(segments@), x) == inter_done(s, t, gi, gj, x),
                c && gi < s.len() && gj < t.len() ==> forall|k: int| 0 <= k < bounds_of(segments@).len() ==> (gap(
                    #[trigger] bounds_of(segments@)[k].1,
                    s[gi].0,
                ) || gap(bounds_of(segments@)[k].1, t[gj].0)),
            decreases s.len() + t.len() - gi - gj,
        {
            let seg_left = &self.segments[i];
            let seg_right = &other.segments[j];
            let l1 = seg_left.start_bound();
            let l2 = seg_left.end_bound();
            let r1 = seg_right.start_bound();
            let r2 = seg_right.end_bound();
            let ghost old_segments = segments@;
            let ghost ob = bounds_of(old_segments);
            proof {
                assert(s[gi] == interval_bounds(self.segments@[gi]));
                assert(t[gj] == interval_bounds(other.segments@[gj]));
                assert(self.segments@[gi].made());
                assert(other.segments@[gj].made());
                I::lemma_keeps(*seg_left, *seg_left);
                I::lemma_keeps(*seg_left, *seg_right);
                I::lemma_keeps(*seg_right, *seg_left);
                I::lemma_keeps(*seg_right, *seg_right);
                if c {
                    assert(valid_seg(s[gi]));
                    assert(valid_seg(t[gj]));
                    if gi + 1 < s.len() {
                        lemma_segs_order(s, gi, gi + 1);
                    }
                    if gj + 1 < t.len() {
                        lemma_segs_order(t, gj, gj + 1);
                    }
                    if s[gi].1 is Unbounded {
                        lemma_unbounded_end_is_last(s, gi);
                    }
                    if t[gj].1 is Unbounded {
                        lemma_unbounded_end_is_last(t, gj);
                    }
                }
            }
            match SidedBound::Right(l2).compare(&SidedBound::Left(r1)) {
                // Disjoint intervals with left < right.
                Ordering::Less | Ordering::Equal => {
                    proof {
                        if c {
                            lemma_inter_skip(s, t, gi, gj);
                        }
                        gi = gi + 1;
                    }
                    i = i + 1;
                },
                // Possible intersection with left >= right.
                Ordering::Greater => {
                    match SidedBound::Right(r2).compare(&SidedBound::Left(l1)) {
                        // Disjoint intervals with left < right.
                        Ordering::Less | Ordering::Equal => {
                            proof {
                                if c {
                                    lemma_inter_skip(t, s, gj, gi);
                                }
                                gj = gj + 1;
                            }
                            j = j + 1;
                        },
                        // Intersection for sure.
                        Ordering::Greater => {
                            let start = match SidedBound::Left(l1).compare(&SidedBound::Left(r1)) {
                                Ordering::Less => r1,
                                _ => l1,
                            };
                            match SidedBound::Right(l2).compare(&SidedBound::Right(r2)) {
                                Ordering::Less => {
                                    let piece = I::new(copied_bound(start), copied_bound(l2));
                                    segments.push(piece);
                                    proof {
                                        lemma_bounds_push(old_segments, piece);
                                        lemma_segs_has_push(ob, interval_bounds(piece));
                                        if c {
                                            lemma_inter_take(s, t, gi, gj, interval_bounds(piece));
                                            self.lemma_intersection_push(*other, ob, gi, gj, interval_bounds(piece), 1);
                                        }
                                        gi = gi + 1;
                                    }
                                    i = i + 1;
                                },
                                Ordering::Equal => {
                                    let piece = I::new(copied_bound(start), copied_bound(l2));
                                    segments.push(piece);
                                    proof {
                                        lemma_bounds_push(old_segments, piece);
                                        lemma_segs_has_push(ob, interval_bounds(piece));
                                        if c {
                                            lemma_inter_take_both(s, t, gi, gj, interval_bounds(piece));
                                            self.lemma_intersection_push(*other, ob, gi, gj, interval_bounds(piece), 3);
                                        }
                                        gi = gi + 1;
                                        gj = gj + 1;
                                    }
                                    i = i + 1;
                                    j = j + 1;
                                },
                                Ordering::Greater => {
                                    let piece = I::new(copied_bound(start), copied_bound(r2));
                                    segments.push(piece);
                                    proof {
                                        lemma_bounds_push(old_segments, piece);
                                        lemma_segs_has_push(ob, interval_bounds(piece));
                                        if c {
                                            lemma_inter_take(t, s, gj, gi, interval_bounds(piece));
                                            self.lemma_intersection_push(*other, ob, gi, gj, interval_bounds(piece), 2);
                                        }
                                        gj = gj + 1;
                                    }
                                    j = j + 1;
                                },
                            }
                            proof {
                                assert(all_made_in(segments@)) by {
                                    assert forall|k: int| 0 <= k < segments@.len() implies #[trigger] segments@[k].made() by {
                                        if k < segments@.len() - 1 {
                                            assert(segments@[k] == old_segments[k]);
                                        }
                                    }
                                }
                            }
                        },
                    }
                },
            }
        }
        proof {
            if c {
                assert forall|x: int| #[trigger] inter_done(s, t, gi, gj, x) == (segs_has(s, x) && segs_has(t, x)) by {
                    if gi == s.len() {
                        assert(s.subrange(0, gi) =~= s);
                    } else {
                        assert(t.subrange(0, gj) =~= t);
                    }
                }
            }
        }
        Self::from_vec(segments)
    }

    /// Pushing the common part of the current segments keeps the result well
    /// formed, with the gaps before the next segments; `advance` says which
    /// of the two lists moves on: 1 for `self`, 2 for `other`, 3 for both.
    proof fn lemma_intersection_push(
        self,
        other: Self,
        ob: Seq<(Bound<V>, Bound<V>)>,
        i: int,
        j: int,
        piece: (Bound<V>, Bound<V>),
        advance: int,
    )
        requires
            self.wf(),
            other.wf(),
            0 <= i < self.bounds().len(),
            0 <= j < other.bounds().len(),
            segs_wf(ob),
            forall|k: int| 0 <= k < ob.len() ==> (gap(#[trigger] ob[k].1, self.bounds()[i].0) || gap(
                ob[k].1,
                other.bounds()[j].0,
            )),
            piece.0 == self.bounds()[i].0 || piece.0 == other.bounds()[j].0,
            start_le(self.bounds()[i].0, piece.0),
            start_le(other.bounds()[j].0, piece.0),
            advance == 1 ==> piece.1 == self.bounds()[i].1 && crate::range::end_le(self.bounds()[i].1, other.bounds()[j].1),
            advance == 2 ==> piece.1 == other.bounds()[j].1 && crate::range::end_le(other.bounds()[j].1, self.bounds()[i].1),
            advance == 3 ==> piece.1 == self.bounds()[i].1 && crate::range::end_le(self.bounds()[i].1, other.bounds()[j].1)
                && crate::range::end_le(other.bounds()[j].1, self.bounds()[i].1),
            1 <= advance <= 3,
            self.bounds()[i].1 is Unbounded || other.bounds()[j].0 is Unbounded || end_val(self.bounds()[i].1)
                >= start_val(other.bounds()[j].0),
            other.bounds()[j].1 is Unbounded || self.bounds()[i].0 is Unbounded || end_val(other.bounds()[j].1)
                >= start_val(self.bounds()[i].0),
        ensures
            ({
                let nb = ob.push(piece);
                let ni = if advance == 1 || advance == 3 { i + 1 } else { i };
                let nj = if advance == 2 || advance == 3 { j + 1 } else { j };
                &&& segs_wf(nb)
                &&& ni < self.bounds().len() && nj < other.bounds().len() ==> forall|k: int|
                    0 <= k < nb.len() ==> (gap(#[trigger] nb[k].1, self.bounds()[ni].0) || gap(
                    nb[k].1,
                    other.bounds()[nj].0,
                ))
            }),
    {
        let s = self.bounds();
        let t = other.bounds();
        let nb = ob.push(piece);
        assert(valid_seg(s[i]));
        assert(valid_seg(t[j]));
        if i + 1 < s.len() {
            lemma_segs_order(s, i, i + 1);
        }
        if j + 1 < t.len() {
            lemma_segs_order(t, j, j + 1);
        }
        assert forall|k: int| 0 <= k < nb.len() implies #[trigger] valid_seg(nb[k]) by {
            if k < ob.len() {
                assert(nb[k] == ob[k]);
            }
        }
        assert forall|a: int, b: int| 0 <= a < b < nb.len() implies #[trigger] gap(nb[a].1, nb[b].0) by {
            if b < ob.len() {
                assert(gap(ob[a].1, ob[b].0));
            } else {
                assert(nb[a] == ob[a]);
            }
        }
        let ni = if advance == 1 || advance == 3 { i + 1 } else { i };
        let nj = if advance == 2 || advance == 3 { j + 1 } else { j };
        if ni < s.len() && nj < t.len() {
            assert forall|k: int| 0 <= k < nb.len() implies (gap(#[trigger] nb[k].1, s[ni].0) || gap(
                nb[k].1,
                t[nj].0,
            )) by {
                if k < ob.len() {
                    assert(nb[k] == ob[k]);
                } else {
                    if advance == 1 || advance == 3 {
                        assert(gap(s[i].1, s[i + 1].0));
                    } else {
                        assert(gap(t[j].1, t[j + 1].0));
                    }
                }
            }
        }
    }
}

// Union.
impl<I: Interval<V>, V: Version> Ranges<I, V> {
    /// Compute the union of two sets of versions.
    ///
    /// Where the versions have no upper bound, the union of well formed ranges
    /// is well formed and holds exactly the points of either.
    pub fn union(&self, other: &Self) -> (r: Self)
        requires
            self.all_made(),
            other.all_made(),
        ensures
            r.all_made(),
            self.wf() && other.wf() && V::max_spec() is Unbounded ==> r.wf() && forall|x: int| #[trigger] r.has(x)
                == (self.has(x) || other.has(x)),
    {
        let a = self.complement();
        let b = other.complement();
        let i = a.intersection(&b);
        let r = i.complement();
        proof {
            if self.wf() && other.wf() && V::max_spec() is Unbounded {
                self.lemma_after_min();
                other.lemma_after_min();
                assert forall|x: int| #[trigger] r.has(x) == (self.has(x) || other.has(x)) by {
                    assert(r.has(x) == (above_start(V::min_spec(), x) && !i.has(x)));
                    assert(i.has(x) == (a.has(x) && b.has(x)));
                }
            }
        }
        r
    }
}

// Laws ########################################################################

/// A point of a segment that holds one.
pub open spec fn a_point<V: Ranked>(s: (Bound<V>, Bound<V>)) -> int {
    match (s.0, s.1) {
        (Bound::Unbounded, Bound::Unbounded) => 0,
        (Bound::Unbounded, _) => end_val(s.1),
        (_, _) => start_val(s.0),
    }
}

/// A well formed range without points has no interval.
proof fn lemma_no_point_no_interval<I: Interval<V>, V: Version>(r: Ranges<I, V>)
    requires
        r.wf(),
        forall|x: int| !#[trigger] r.has(x),
    ensures
        r.bounds().len() == 0,
{
    let b = r.bounds();
    if b.len() > 0 {
        assert(valid_seg(b[0]));
        assert(seg_has(b[0], a_point(b[0])));
        assert(r.has(a_point(b[0])));
    }
}

/// A version is in the complement of a range exactly when it is not in the range.
pub proof fn law_complement_contains_opposite<I: Interval<V>, V: Version>(
    r: Ranges<I, V>,
    c: Ranges<I, V>,
    v: V,
)
    requires
        forall|x: int| #[trigger] c.has(x) == (above_start(V::min_spec(), x) && !r.has(x)),
    ensures
        c.contains_spec(v) != r.contains_spec(v),
{
    V::lemma_within_bounds(v);
    assert(c.has(point(v)) == (above_start(V::min_spec(), point(v)) && !r.has(point(v))));
}

/// The complement of a range is another range.
pub proof fn law_complement_differs<I: Interval<V>, V: Version>(r: Ranges<I, V>, c: Ranges<I, V>)
    requires
        forall|x: int| #[trigger] c.has(x) == (above_start(V::min_spec(), x) && !r.has(x)),
    ensures
        c.bounds() != r.bounds(),
{
    let v: V = vstd::pervasive::arbitrary();
    law_complement_contains_opposite(r, c, v);
}

/// Taking the complement twice gives back the range, interval by interval.
pub proof fn law_double_complement<I: Interval<V>, V: Version>(
    r: Ranges<I, V>,
    c: Ranges<I, V>,
    cc: Ranges<I, V>,
)
    requires
        r.wf(),
        cc.wf(),
        forall|x: int| #[trigger] c.has(x) == (above_start(V::min_spec(), x) && !r.has(x)),
        forall|x: int| #[trigger] cc.has(x) == (above_start(V::min_spec(), x) && !c.has(x)),
    ensures
        cc.bounds() == r.bounds(),
{
    r.lemma_after_min();
    assert forall|x: int| #[trigger] segs_has(cc.bounds(), x) == segs_has(r.bounds(), x) by {
        assert(cc.has(x) == (above_start(V::min_spec(), x) && !c.has(x)));
        assert(c.has(x) == (above_start(V::min_spec(), x) && !r.has(x)));
    }
    lemma_points_determine_segs(cc.bounds(), r.bounds());
}

/// Intersection does not depend on the order of its operands.
pub proof fn law_intersection_symmetric<I: Interval<V>, V: Version>(
    r1: Ranges<I, V>,
    r2: Ranges<I, V>,
    a: Ranges<I, V>,
    b: Ranges<I, V>,
)
    requires
        a.wf(),
        b.wf(),
        forall|x: int| #[trigger] a.has(x) == (r1.has(x) && r2.has(x)),
        forall|x: int| #[trigger] b.has(x) == (r2.has(x) && r1.has(x)),
    ensures
        a.bounds() == b.bounds(),
{
    assert forall|x: int| #[trigger] segs_has(a.bounds(), x) == segs_has(b.bounds(), x) by {
        assert(a.has(x) == b.has(x));
    }
    lemma_points_determine_segs(a.bounds(), b.bounds());
}

/// Intersecting with the full range changes nothing.
pub proof fn law_intersection_with_full<I: Interval<V>, V: Version>(
    r: Ranges<I, V>,
    f: Ranges<I, V>,
    a: Ranges<I, V>,
)
    requires
        r.wf(),
        a.wf(),
        forall|x: int| #[trigger] f.has(x) == above_start(V::min_spec(), x),
        forall|x: int| #[trigger] a.has(x) == (f.has(x) && r.has(x)),
    ensures
        a.bounds() == r.bounds(),
{
    r.lemma_after_min();
    assert forall|x: int| #[trigger] segs_has(a.bounds(), x) == segs_has(r.bounds(), x) by {
        assert(a.has(x) == (f.has(x) && r.has(x)));
    }
    lemma_points_determine_segs(a.bounds(), r.bounds());
}

/// Intersecting with the empty range gives the empty range.
pub proof fn law_intersection_with_empty<I: Interval<V>, V: Version>(
    r: Ranges<I, V>,
    e: Ranges<I, V>,
    a: Ranges<I, V>,
)
    requires
        a.wf(),
        forall|x: int| !#[trigger] e.has(x),
        forall|x: int| #[trigger] a.has(x) == (e.has(x) && r.has(x)),
    ensures
        a.bounds().len() == 0,
{
    assert forall|x: int| !#[trigger] a.has(x) by {
        assert(!e.has(x));
    }
    lemma_no_point_no_interval(a);
}

/// Intersecting twice with the same range changes nothing more.
pub proof fn law_intersection_idempotent<I: Interval<V>, V: Version>(
    r1: Ranges<I, V>,
    r2: Ranges<I, V>,
    a: Ranges<I, V>,
    b: Ranges<I, V>,
)
    requires
        a.wf(),
        b.wf(),
        forall|x: int| #[trigger] a.has(x) == (r1.has(x) && r2.has(x)),
        forall|x: int| #[trigger] b.has(x) == (a.has(x) && r2.has(x)),
    ensures
        b.bounds() == a.bounds(),
{
    assert forall|x: int| #[trigger] segs_has(b.bounds(), x) == segs_has(a.bounds(), x) by {
        assert(b.has(x) == (a.has(x) && r2.has(x)));
        assert(a.has(x) == (r1.has(x) && r2.has(x)));
    }
    lemma_points_determine_segs(b.bounds(), a.bounds());
}

/// The grouping of intersections does not matter.
pub proof fn law_intersection_associative<I: Interval<V>, V: Version>(
    r1: Ranges<I, V>,
    r2: Ranges<I, V>,
    r3: Ranges<I, V>,
    a12: Ranges<I, V>,
    a: Ranges<I, V>,
    a23: Ranges<I, V>,
    b: Ranges<I, V>,
)
    requires
        a.wf(),
        b.wf(),
        forall|x: int| #[trigger] a12.has(x) == (r1.has(x) && r2.has(x)),
        forall|x: int| #[trigger] a.has(x) == (a12.has(x) && r3.has(x)),
        forall|x: int| #[trigger] a23.has(x) == (r2.has(x) && r3.has(x)),
        forall|x: int| #[trigger] b.has(x) == (r1.has(x) && a23.has(x)),
    ensures
        a.bounds() == b.bounds(),
{
    assert forall|x: int| #[trigger] segs_has(a.bounds(), x) == segs_has(b.bounds(), x) by {
        assert(a.has(x) == (a12.has(x) && r3.has(x)));
        assert(b.has(x) == (r1.has(x) && a23.has(x)));
        assert(a12.has(x) == (r1.has(x) && r2.has(x)));
        assert(a23.has(x) == (r2.has(x) && r3.has(x)));
    }
    lemma_points_determine_segs(a.bounds(), b.bounds());
}

/// A range and its complement have nothing in common.
pub proof fn law_intersection_of_complements_is_empty<I: Interval<V>, V: Version>(
    r: Ranges<I, V>,
    c: Ranges<I, V>,
    a: Ranges<I, V>,
)
    requires
        a.wf(),
        forall|x: int| #[trigger] c.has(x) == (above_start(V::min_spec(), x) && !r.has(x)),
        forall|x: int| #[trigger] a.has(x) == (c.has(x) && r.has(x)),
    ensures
        a.bounds().len() == 0,
{
    assert forall|x: int| !#[trigger] a.has(x) by {
        assert(c.has(x) == (above_start(V::min_spec(), x) && !r.has(x)));
    }
    lemma_no_point_no_interval(a);
}

/// A range and its complement together make the full range.
pub proof fn law_union_of_complements_is_full<I: Interval<V>, V: Version>(
    r: Ranges<I, V>,
    c: Ranges<I, V>,
    u: Ranges<I, V>,
)
    requires
        r.wf(),
        u.wf(),
        V::max_spec() is Unbounded,
        !(V::min_spec() is Unbounded),
        forall|x: int| #[trigger] c.has(x) == (above_start(V::min_spec(), x) && !r.has(x)),
        forall|x: int| #[trigger] u.has(x) == (c.has(x) || r.has(x)),
    ensures
        u.bounds() == seq![(V::min_spec(), V::max_spec())],
{
    r.lemma_after_min();
    let f = seq![(V::min_spec(), V::max_spec())];
    lemma_segs_has_one((V::min_spec(), V::max_spec()));
    assert(segs_wf(f)) by {
        assert(valid_seg(f[0]));
    }
    assert forall|x: int| #[trigger] segs_has(u.bounds(), x) == segs_has(f, x) by {
        assert(u.has(x) == (c.has(x) || r.has(x)));
        assert(c.has(x) == (above_start(V::min_spec(), x) && !r.has(x)));
    }
    lemma_points_determine_segs(u.bounds(), f);
}

/// A version is in the intersection of two ranges exactly when it is in both.
pub proof fn law_intersection_contains_both<I: Interval<V>, V: Version>(
    r1: Ranges<I, V>,
    r2: Ranges<I, V>,
    a: Ranges<I, V>,
    v: V,
)
    requires
        forall|x: int| #[trigger] a.has(x) == (r1.has(x) && r2.has(x)),
    ensures
        a.contains_spec(v) == (r1.contains_spec(v) && r2.contains_spec(v)),
{
    assert(a.has(point(v)) == (r1.has(point(v)) && r2.has(point(v))));
}

/// A version is in the union of two ranges exactly when it is in either.
pub proof fn law_union_contains_either<I: Interval<V>, V: Version>(
    r1: Ranges<I, V>,
    r2: Ranges<I, V>,
    u: Ranges<I, V>,
    v: V,
)
    requires
        forall|x: int| #[trigger] u.has(x) == (r1.has(x) || r2.has(x)),
    ensures
        u.contains_spec(v) == (r1.contains_spec(v) || r2.contains_spec(v)),
{
    assert(u.has(point(v)) == (r1.has(point(v)) || r2.has(point(v))));
}

/// A range that holds a version meets the range of that single version; where
/// that range holds no other point, a range that meets it holds the version.
pub proof fn law_contains_through_intersection<I: Interval<V>, V: Version>(
    r: Ranges<I, V>,
    one: Ranges<I, V>,
    a: Ranges<I, V>,
    v: V,
)
    requires
        a.wf(),
        one.contains_spec(v),
        forall|x: int| #[trigger] a.has(x) == (r.has(x) && one.has(x)),
    ensures
        r.contains_spec(v) ==> a.bounds().len() > 0,
        (forall|x: int| #[trigger] one.has(x) ==> x == point(v)) ==> (r.contains_spec(v) == (a.bounds().len()
            > 0)),
{
    assert(a.has(point(v)) == (r.has(point(v)) && one.has(point(v))));
    if r.contains_spec(v) {
        assert(a.has(point(v)));
        if a.bounds().len() == 0 {
            assert(!segs_has(a.bounds(), point(v)));
        }
    }
    if (forall|x: int| #[trigger] one.has(x) ==> x == point(v)) && !r.contains_spec(v) {
        assert forall|x: int| !#[trigger] a.has(x) by {
            if a.has(x) {
                assert(one.has(x));
            }
        }
        lemma_no_point_no_interval(a);
    }
}

} // verus!
