//! Ranges are constraints defining sets of versions.
//!
//! Concretely, those constraints correspond to any set of versions
//! representable as the concatenation, union, and complement
//! of the ranges building blocks.
//!
//! Those building blocks are:
//!  - [empty()](Ranges::empty): the empty set
//!  - [full()](Ranges::full): the set of all possible versions
//!  - [singleton(v)](Ranges::singleton): the set containing only the version v
//!  - [higher_than(v)](Ranges::higher_than): the set defined by `v <= versions`
//!  - [strictly_higher_than(v)](Ranges::strictly_higher_than): the set defined by `v < versions`
//!  - [lower_than(v)](Ranges::lower_than): the set defined by `versions <= v`
//!  - [strictly_lower_than(v)](Ranges::strictly_lower_than): the set defined by `versions < v`
//!  - [between(v1, v2)](Ranges::between): the set defined by `v1 <= versions < v2`
//!
//! # Model
//!
//! A range is read as a set of points on the line of integers: the version
//! `v` sits at the even point `2 * v.rank()`, and the odd points stand for the
//! places between two consecutive ranks, where versions unknown to this crate
//! may lie. A range is thus a continuous set of versions: `(Excluded(1),
//! Excluded(2))` is not empty, it holds the point `3`.

use vstd::prelude::*;

use crate::small_vec::SmallVec;
use crate::version_trait::{Bound, Ranked};

verus! {

/// A segment of versions, given by its two endpoints.
pub type Interval<V> = (Bound<V>, Bound<V>);

/// The point at which a version sits.
pub open spec fn point<V: Ranked>(v: V) -> int {
    2 * v.rank()
}

/// The first point at or after a start bound (for a bounded one).
pub open spec fn start_val<V: Ranked>(b: Bound<V>) -> int {
    match b {
        Bound::Included(v) => 2 * v.rank(),
        Bound::Excluded(v) => 2 * v.rank() + 1,
        Bound::Unbounded => 0,
    }
}

/// The last point at or before an end bound (for a bounded one).
pub open spec fn end_val<V: Ranked>(b: Bound<V>) -> int {
    match b {
        Bound::Included(v) => 2 * v.rank(),
        Bound::Excluded(v) => 2 * v.rank() - 1,
        Bound::Unbounded => 0,
    }
}

/// Whether the point `x` lies after the start bound `b`.
pub open spec fn above_start<V: Ranked>(b: Bound<V>, x: int) -> bool {
    b is Unbounded || start_val(b) <= x
}

/// Whether the point `x` lies before the end bound `b`.
pub open spec fn below_end<V: Ranked>(b: Bound<V>, x: int) -> bool {
    b is Unbounded || x <= end_val(b)
}

/// Whether a segment holds the point `x`.
pub open spec fn seg_has<V: Ranked>(s: Interval<V>, x: int) -> bool {
    above_start(s.0, x) && below_end(s.1, x)
}

/// A segment holding at least one point.
pub open spec fn valid_seg<V: Ranked>(s: Interval<V>) -> bool {
    s.0 is Unbounded || s.1 is Unbounded || start_val(s.0) <= end_val(s.1)
}

/// There is at least one point strictly between the end bound `e` and the
/// start bound `s`.
pub open spec fn gap<V: Ranked>(e: Bound<V>, s: Bound<V>) -> bool {
    !(e is Unbounded) && !(s is Unbounded) && end_val(e) + 1 < start_val(s)
}

/// The start bound `a` comes at or before the start bound `b`.
pub open spec fn start_le<V: Ranked>(a: Bound<V>, b: Bound<V>) -> bool {
    a is Unbounded || (!(b is Unbounded) && start_val(a) <= start_val(b))
}

/// The end bound `a` comes at or before the end bound `b`.
pub open spec fn end_le<V: Ranked>(a: Bound<V>, b: Bound<V>) -> bool {
    b is Unbounded || (!(a is Unbounded) && end_val(a) <= end_val(b))
}

/// The invariants of the segments of a range:
/// 1. each segment contains at least one point;
/// 2. the segments are sorted, with at least one point between two of them.
pub open spec fn segs_wf<V: Ranked>(s: Seq<Interval<V>>) -> bool {
    &&& forall|i: int| 0 <= i < s.len() ==> #[trigger] valid_seg(s[i])
    &&& forall|i: int, j: int| 0 <= i < j < s.len() ==> #[trigger] gap(s[i].1, s[j].0)
}

/// Whether one of the segments holds the point `x`.
pub open spec fn segs_has<V: Ranked>(s: Seq<Interval<V>>, x: int) -> bool {
    exists|i: int| 0 <= i < s.len() && #[trigger] seg_has(s[i], x)
}

/// The points of a pushed segment.
pub proof fn lemma_segs_has_push<V: Ranked>(s: Seq<Interval<V>>, e: Interval<V>)
    ensures
        forall|x: int| #[trigger] segs_has(s.push(e), x) == (segs_has(s, x) || seg_has(e, x)),
{
    assert forall|x: int| #[trigger] segs_has(s.push(e), x) == (segs_has(s, x) || seg_has(e, x)) by {
        if segs_has(s, x) {
            let i = choose|i: int| 0 <= i < s.len() && #[trigger] seg_has(s[i], x);
            assert(s.push(e)[i] == s[i]);
        }
        if seg_has(e, x) {
            assert(s.push(e)[s.len() as int] == e);
        }
        if segs_has(s.push(e), x) {
            let i = choose|i: int| 0 <= i < s.push(e).len() && #[trigger] seg_has(s.push(e)[i], x);
            if i < s.len() {
                assert(s.push(e)[i] == s[i]);
            }
        }
    }
}

/// The points of the empty list of segments.
pub proof fn lemma_segs_has_empty<V: Ranked>(s: Seq<Interval<V>>)
    requires
        s.len() == 0,
    ensures
        forall|x: int| !#[trigger] segs_has(s, x),
{
}

/// The points of a single segment.
pub proof fn lemma_segs_has_one<V: Ranked>(e: Interval<V>)
    ensures
        forall|x: int| #[trigger] segs_has(seq![e], x) == seg_has(e, x),
{
    assert forall|x: int| #[trigger] segs_has(seq![e], x) == seg_has(e, x) by {
        if seg_has(e, x) {
            assert(seq![e][0] == e);
        }
    }
}

/// In well formed segments, starts and ends grow, and each segment is
/// bounded where another one follows it.
pub proof fn lemma_segs_order<V: Ranked>(s: Seq<Interval<V>>, i: int, j: int)
    requires
        segs_wf(s),
        0 <= i < j < s.len(),
    ensures
        !(s[i].1 is Unbounded),
        !(s[j].0 is Unbounded),
        end_val(s[i].1) + 1 < start_val(s[j].0),
        start_le(s[i].0, s[j].0),
        !(s[i].0 is Unbounded) ==> start_val(s[i].0) < start_val(s[j].0),
        !(s[j].1 is Unbounded) ==> end_val(s[i].1) < end_val(s[j].1),
        forall|x: int| seg_has(s[i], x) ==> x < start_val(s[j].0),
        forall|x: int| seg_has(s[j], x) ==> x > end_val(s[i].1),
{
    assert(gap(s[i].1, s[j].0));
    assert(valid_seg(s[i]));
    assert(valid_seg(s[j]));
}

/// A start bound turned into the end bound of the points before it, or an
/// end bound turned into the start bound of the points after it.
pub open spec fn flip<V>(b: Bound<V>) -> Bound<V> {
    match b {
        Bound::Included(v) => Bound::Excluded(v),
        Bound::Excluded(v) => Bound::Included(v),
        Bound::Unbounded => Bound::Unbounded,
    }
}

/// Flipping a bound moves it by one point.
pub proof fn lemma_flip<V: Ranked>(b: Bound<V>)
    ensures
        flip(b) is Unbounded <==> b is Unbounded,
        !(b is Unbounded) ==> end_val(flip(b)) == start_val(b) - 1,
        !(b is Unbounded) ==> start_val(flip(b)) == end_val(b) + 1,
{
}

/// A prefix grows by one segment.
pub proof fn lemma_prefix_push<T>(s: Seq<T>, i: int)
    requires
        0 <= i < s.len(),
    ensures
        s.subrange(0, i + 1) == s.subrange(0, i).push(s[i]),
{
    assert(s.subrange(0, i + 1) =~= s.subrange(0, i).push(s[i]));
}

/// Segments taken out of well formed segments are well formed.
pub proof fn lemma_wf_subrange<V: Ranked>(s: Seq<Interval<V>>, a: int, b: int)
    requires
        segs_wf(s),
        0 <= a <= b <= s.len(),
    ensures
        segs_wf(s.subrange(a, b)),
{
    let t = s.subrange(a, b);
    assert forall|i: int| 0 <= i < t.len() implies #[trigger] valid_seg(t[i]) by {
        assert(t[i] == s[a + i]);
    }
    assert forall|i: int, j: int| 0 <= i < j < t.len() implies #[trigger] gap(t[i].1, t[j].0) by {
        assert(t[i] == s[a + i]);
        assert(t[j] == s[a + j]);
    }
}

/// The points of the segments before the `j`th one lie before it.
pub proof fn lemma_prefix_before<V: Ranked>(s: Seq<Interval<V>>, j: int)
    requires
        segs_wf(s),
        0 <= j < s.len(),
    ensures
        forall|x: int| #[trigger] segs_has(s.subrange(0, j), x) ==> x < start_val(s[j].0),
        j > 0 ==> !(s[j].0 is Unbounded),
{
    if j > 0 {
        lemma_segs_order(s, 0, j);
    }
    assert forall|x: int| #[trigger] segs_has(s.subrange(0, j), x) implies x < start_val(s[j].0) by {
        let t = s.subrange(0, j);
        let k = choose|k: int| 0 <= k < t.len() && #[trigger] seg_has(t[k], x);
        assert(t[k] == s[k]);
        lemma_segs_order(s, k, j);
    }
}

/// The points of the segments lie before the end of the last one.
pub proof fn lemma_points_before_end<V: Ranked>(s: Seq<Interval<V>>)
    requires
        segs_wf(s),
        s.len() > 0,
        !(s[s.len() - 1].1 is Unbounded),
    ensures
        forall|x: int| #[trigger] segs_has(s, x) ==> x <= end_val(s[s.len() - 1].1),
{
    assert forall|x: int| #[trigger] segs_has(s, x) implies x <= end_val(s[s.len() - 1].1) by {
        let k = choose|k: int| 0 <= k < s.len() && #[trigger] seg_has(s[k], x);
        if k < s.len() - 1 {
            lemma_segs_order(s, k, s.len() - 1);
        }
    }
}

/// Only the last segment can go on forever.
pub proof fn lemma_unbounded_end_is_last<V: Ranked>(s: Seq<Interval<V>>, i: int)
    requires
        segs_wf(s),
        0 <= i < s.len(),
        s[i].1 is Unbounded,
    ensures
        i == s.len() - 1,
{
    if i < s.len() - 1 {
        assert(gap(s[i].1, s[i + 1].0));
    }
}

/// Only the first segment can have come from forever.
pub proof fn lemma_unbounded_start_is_first<V: Ranked>(s: Seq<Interval<V>>, i: int)
    requires
        segs_wf(s),
        0 <= i < s.len(),
    ensures
        i > 0 ==> !(s[i].0 is Unbounded),
{
    if i > 0 {
        assert(gap(s[0].1, s[i].0));
    }
}

/// Ranges represents multiple intervals of a continuous range of monotone increasing values.
///
/// Internally, [`Ranges`] are an ordered list of segments, where segment is a bounds pair.
///
/// Invariants:
/// 1. The segments are sorted, from lowest to highest.
/// 2. Each segment contains at least one version (start < end).
/// 3. There is at least one version between two segments.
#[derive(Debug, Eq, Hash)]
pub struct Ranges<V: Ranked> {
    segments: SmallVec<Interval<V>>,
}

/// The former name of [`Ranges`].
pub type Range<V> = Ranges<V>;

impl<V: Ranked> Ranges<V> {
    #[verifier::type_invariant]
    spec fn inv(self) -> bool {
        &&& segs_wf(self.segments@)
        &&& self.segments.canonical()
    }

    /// The segments of the range, in order.
    pub closed spec fn segs(self) -> Seq<Interval<V>> {
        self.segments@
    }

    /// Whether the range holds the point `x`.
    pub open spec fn has(self, x: int) -> bool {
        segs_has(self.segs(), x)
    }

    /// Whether the range holds the version `v`.
    pub open spec fn contains_spec(self, v: V) -> bool {
        self.has(point(v))
    }

    /// Build a range from segments that meet the invariants.
    fn from_segments(segments: SmallVec<Interval<V>>) -> (r: Self)
        requires
            segs_wf(segments@),
            segments.canonical(),
        ensures
            r.segs() == segments@,
    {
        Ranges { segments }
    }

    /// The segments of a range meet the invariants.
    pub fn segments_wf(&self) -> (r: &[Interval<V>])
        ensures
            r@ == self.segs(),
            segs_wf(self.segs()),
    {
        proof {
            use_type_invariant(self);
        }
        self.segments.as_slice()
    }

    /// Empty set of versions.
    pub fn empty() -> (r: Self)
        ensures
            segs_wf(r.segs()),
            r.segs() == Seq::<Interval<V>>::empty(),
            forall|x: int| !#[trigger] r.has(x),
    {
        let r = Self::from_segments(SmallVec::empty());
        r
    }

    /// Set of all possible versions.
    pub fn full() -> (r: Self)
        ensures
            segs_wf(r.segs()),
            r.segs() == seq![(Bound::<V>::Unbounded, Bound::<V>::Unbounded)],
            forall|x: int| #[trigger] r.has(x),
    {
        let s = SmallVec::one((Bound::Unbounded, Bound::Unbounded));
        proof {
            lemma_segs_has_one((Bound::<V>::Unbounded, Bound::<V>::Unbounded));
        }
        Self::from_segments(s)
    }

    /// Set of all versions higher or equal to some version.
    pub fn higher_than(v: V) -> (r: Self)
        ensures
            segs_wf(r.segs()),
            r.segs() == seq![(Bound::Included(v), Bound::<V>::Unbounded)],
            forall|x: int| #[trigger] r.has(x) == (point(v) <= x),
    {
        let s = SmallVec::one((Bound::Included(v), Bound::Unbounded));
        proof {
            lemma_segs_has_one((Bound::Included(v), Bound::<V>::Unbounded));
        }
        Self::from_segments(s)
    }

    /// Set of all versions strictly higher than some version.
    pub fn strictly_higher_than(v: V) -> (r: Self)
        ensures
            segs_wf(r.segs()),
            r.segs() == seq![(Bound::Excluded(v), Bound::<V>::Unbounded)],
            forall|x: int| #[trigger] r.has(x) == (point(v) < x),
    {
        let s = SmallVec::one((Bound::Excluded(v), Bound::Unbounded));
        proof {
            lemma_segs_has_one((Bound::Excluded(v), Bound::<V>::Unbounded));
        }
        Self::from_segments(s)
    }

    /// Set of all versions strictly lower than some version.
    pub fn strictly_lower_than(v: V) -> (r: Self)
        ensures
            segs_wf(r.segs()),
            r.segs() == seq![(Bound::<V>::Unbounded, Bound::Excluded(v))],
            forall|x: int| #[trigger] r.has(x) == (x < point(v)),
    {
        let s = SmallVec::one((Bound::Unbounded, Bound::Excluded(v)));
        proof {
            lemma_segs_has_one((Bound::<V>::Unbounded, Bound::Excluded(v)));
        }
        Self::from_segments(s)
    }

    /// Set of all versions lower or equal to some version.
    pub fn lower_than(v: V) -> (r: Self)
        ensures
            segs_wf(r.segs()),
            r.segs() == seq![(Bound::<V>::Unbounded, Bound::Included(v))],
            forall|x: int| #[trigger] r.has(x) == (x <= point(v)),
    {
        let s = SmallVec::one((Bound::Unbounded, Bound::Included(v)));
        proof {
            lemma_segs_has_one((Bound::<V>::Unbounded, Bound::Included(v)));
        }
        Self::from_segments(s)
    }

    /// Set of versions greater or equal to `v1` but less than `v2`.
    ///
    /// When `v2` does not come after `v1`, no version fits and the set is empty.
    pub fn between(v1: V, v2: V) -> (r: Self)
        ensures
            segs_wf(r.segs()),
            v1.rank() < v2.rank() ==> r.segs() == seq![(Bound::Included(v1), Bound::Excluded(v2))],
            v1.rank() >= v2.rank() ==> r.segs() == Seq::<Interval<V>>::empty(),
            forall|x: int| #[trigger] r.has(x) == (point(v1) <= x < point(v2)),
    {
        if v1.rank_lt(&v2) {
            let s = SmallVec::one((Bound::Included(v1), Bound::Excluded(v2)));
            proof {
                lemma_segs_has_one((Bound::Included(v1), Bound::Excluded(v2)));
            }
            Self::from_segments(s)
        } else {
            Self::empty()
        }
    }

    /// Whether the set is empty, i.e. it has not ranges.
    pub fn is_empty(&self) -> (r: bool)
        ensures
            r == (self.segs().len() == 0),
            r == (forall|x: int| !#[trigger] self.has(x)),
    {
        let s = self.segments_wf();
        proof {
            if s.len() > 0 {
                let x = Self::some_point(self.segs()[0]);
                assert(valid_seg(self.segs()[0]));
                assert(seg_has(self.segs()[0], x));
                assert(self.has(x));
            }
        }
        s.len() == 0
    }

    /// A point held by a valid segment.
    spec fn some_point(s: Interval<V>) -> int {
        match (s.0, s.1) {
            (Bound::Unbounded, Bound::Unbounded) => 0,
            (Bound::Unbounded, _) => end_val(s.1),
            (_, _) => start_val(s.0),
        }
    }

    /// Set containing exactly one version.
    pub fn singleton(v: V) -> (r: Self)
        ensures
            segs_wf(r.segs()),
            r.segs() == seq![(Bound::Included(v), Bound::Included(v))],
            forall|x: int| #[trigger] r.has(x) == (x == point(v)),
    {
        let s = SmallVec::one((Bound::Included(v), Bound::Included(v)));
        proof {
            lemma_segs_has_one((Bound::Included(v), Bound::Included(v)));
        }
        Self::from_segments(s)
    }

    /// Returns true if this range contains the specified value.
    pub fn contains(&self, version: &V) -> (r: bool)
        ensures
            r == self.contains_spec(*version),
    {
        let segs = self.segments_wf();
        let ghost s = self.segs();
        let ghost p = point(*version);
        let mut lo: usize = 0;
        let mut hi: usize = segs.len();
        while lo < hi
            invariant
                0 <= lo <= hi <= segs@.len(),
                segs@ == s,
                s == self.segs(),
                segs_wf(s),
                p == point(*version),
                forall|k: int| 0 <= k < lo ==> !#[trigger] seg_has(s[k], p),
                forall|k: int| hi <= k < s.len() ==> !#[trigger] seg_has(s[k], p),
            decreases hi - lo,
        {
            let mid = lo + (hi - lo) / 2;
            match within_bounds(version, &segs[mid]) {
                Location::Less => {
                    proof {
                        assert forall|k: int| mid <= k < s.len() implies !#[trigger] seg_has(s[k], p) by {
                            if k > mid {
                                lemma_segs_order(s, mid as int, k);
                            }
                        }
                    }
                    hi = mid;
                },
                Location::Equal => {
                    assert(seg_has(s[mid as int], p));
                    assert(self.has(p));
                    return true;
                },
                Location::Greater => {
                    proof {
                        assert forall|k: int| 0 <= k <= mid implies !#[trigger] seg_has(s[k], p) by {
                            if k < mid {
                                lemma_segs_order(s, k, mid as int);
                            }
                        }
                    }
                    lo = mid + 1;
                },
            }
        }
        false
    }
}

/// Whether two bounds are the same bound.
pub fn same_bound<V: Ranked>(a: &Bound<V>, b: &Bound<V>) -> (r: bool)
    ensures
        r == (*a == *b),
{
    match (a, b) {
        (Bound::Included(x), Bound::Included(y)) => {
            proof {
                V::lemma_rank_injective(*x, *y);
            }
            x.rank_le(y) && y.rank_le(x)
        },
        (Bound::Excluded(x), Bound::Excluded(y)) => {
            proof {
                V::lemma_rank_injective(*x, *y);
            }
            x.rank_le(y) && y.rank_le(x)
        },
        (Bound::Unbounded, Bound::Unbounded) => true,
        _ => false,
    }
}

impl<V: Ranked> PartialEq for Ranges<V> {
    /// Two ranges are equal when they have the same segments.
    fn eq(&self, other: &Self) -> (r: bool) {
        let a = self.segments_wf();
        let b = other.segments_wf();
        if a.len() != b.len() {
            return false;
        }
        let mut i: usize = 0;
        while i < a.len()
            invariant
                0 <= i <= a@.len(),
                a@.len() == b@.len(),
                a@ == self.segs(),
                b@ == other.segs(),
                forall|k: int| 0 <= k < i ==> #[trigger] a@[k] == b@[k],
            decreases a@.len() - i,
        {
            if !same_bound(&a[i].0, &b[i].0) || !same_bound(&a[i].1, &b[i].1) {
                return false;
            }
            i = i + 1;
        }
        assert(a@ =~= b@);
        true
    }
}

impl<V: Ranked> vstd::std_specs::cmp::PartialEqSpecImpl for Ranges<V> {
    open spec fn obeys_eq_spec() -> bool {
        true
    }

    open spec fn eq_spec(&self, other: &Self) -> bool {
        self.segs() == other.segs()
    }
}

impl<V: Ranked> Clone for Ranges<V> {
    /// A range with the same segments.
    fn clone(&self) -> (r: Self)
        ensures
            r.segs() == self.segs(),
    {
        let segs = self.segments_wf();
        let mut out: SmallVec<Interval<V>> = SmallVec::empty();
        let mut i: usize = 0;
        while i < segs.len()
            invariant
                0 <= i <= segs@.len(),
                segs@ == self.segs(),
                out@ == segs@.subrange(0, i as int),
                out.canonical(),
            decreases segs@.len() - i,
        {
            out.push(segs[i]);
            i = i + 1;
            assert(out@ =~= segs@.subrange(0, i as int));
        }
        assert(segs@.subrange(0, segs@.len() as int) =~= segs@);
        Self::from_segments(out)
    }
}


impl<V: Ranked> Ranges<V> {
    /// Returns the complement of this range.
    pub fn complement(&self) -> (r: Self)
        ensures
            segs_wf(r.segs()),
            forall|x: int| #[trigger] r.has(x) == !self.has(x),
    {
        let segs = self.segments_wf();
        let ghost s = self.segs();
        if segs.len() == 0 {
            // Complement of ∅ is ∞
            return Self::full();
        }
        proof {
            assert forall|i: int| 0 < i < s.len() implies !(#[trigger] s[i].0 is Unbounded) by {
                lemma_unbounded_start_is_first(s, i);
            }
        }
        let r = match segs[0] {
            // Complement of ∞ is ∅
            (Bound::Unbounded, Bound::Unbounded) => {
                proof {
                    lemma_unbounded_end_is_last(s, 0);
                    assert forall|x: int| #[trigger] self.has(x) by {
                        assert(seg_has(s[0], x));
                    }
                }
                Self::empty()
            },
            // First high bound is +∞
            (Bound::Included(v), Bound::Unbounded) => {
                proof {
                    lemma_unbounded_end_is_last(s, 0);
                    lemma_segs_has_one(s[0]);
                    assert(s =~= seq![s[0]]);
                }
                Self::strictly_lower_than(v)
            },
            (Bound::Excluded(v), Bound::Unbounded) => {
                proof {
                    lemma_unbounded_end_is_last(s, 0);
                    lemma_segs_has_one(s[0]);
                    assert(s =~= seq![s[0]]);
                }
                Self::lower_than(v)
            },
            (Bound::Unbounded, Bound::Included(v)) => {
                let rest = &segs[1..segs.len()];
                proof {
                    self.lemma_first_and_rest();
                    lemma_wf_subrange(s, 1, s.len() as int);
                    if s.len() > 1 {
                        assert(gap(s[0].1, s[1].0));
                        assert(rest@[0] == s[1]);
                    }
                }
                Self::negate_segments(Bound::Excluded(v), rest)
            },
            (Bound::Unbounded, Bound::Excluded(v)) => {
                let rest = &segs[1..segs.len()];
                proof {
                    self.lemma_first_and_rest();
                    lemma_wf_subrange(s, 1, s.len() as int);
                    if s.len() > 1 {
                        assert(gap(s[0].1, s[1].0));
                        assert(rest@[0] == s[1]);
                    }
                }
                Self::negate_segments(Bound::Included(v), rest)
            },
            _ => Self::negate_segments(Bound::Unbounded, segs),
        };
        proof {
            use_type_invariant(&r);
        }
        r
    }

    /// The points of a range are those of its first segment and those of
    /// the others, which come after.
    proof fn lemma_first_and_rest(&self)
        requires
            segs_wf(self.segs()),
            self.segs().len() > 0,
        ensures
            forall|x: int| #[trigger] self.has(x) == (seg_has(self.segs()[0], x) || segs_has(
                self.segs().subrange(1, self.segs().len() as int),
                x,
            )),
    {
        let s = self.segs();
        let t = s.subrange(1, s.len() as int);
        assert forall|x: int| #[trigger] self.has(x) == (seg_has(s[0], x) || segs_has(t, x)) by {
            if self.has(x) {
                let k = choose|k: int| 0 <= k < s.len() && #[trigger] seg_has(s[k], x);
                if k > 0 {
                    assert(t[k - 1] == s[k]);
                }
            }
            if segs_has(t, x) {
                let k = choose|k: int| 0 <= k < t.len() && #[trigger] seg_has(t[k], x);
                assert(t[k] == s[k + 1]);
            }
        }
    }

    /// Helper function performing the negation of intervals in segments:
    /// the points after `start` that none of the segments holds.
    fn negate_segments(start: Bound<V>, segments: &[Interval<V>]) -> (r: Self)
        requires
            segs_wf(segments@),
            forall|i: int| 0 <= i < segments@.len() ==> !(#[trigger] segments@[i].0 is Unbounded),
            start is Unbounded ==> segments@.len() > 0,
            !(start is Unbounded) && segments@.len() > 0 ==> start_val(start) < start_val(
                segments@[0].0,
            ),
        ensures
            forall|x: int| #[trigger] r.has(x) == (above_start(start, x) && !segs_has(segments@, x)),
    {
        let ghost s = segments@;
        let mut out: SmallVec<Interval<V>> = SmallVec::empty();
        let mut cur = start;
        let mut i: usize = 0;
        while i < segments.len()
            invariant
                0 <= i <= s.len(),
                segments@ == s,
                segs_wf(s),
                forall|k: int| 0 <= k < s.len() ==> !(#[trigger] s[k].0 is Unbounded),
                start is Unbounded ==> s.len() > 0,
                !(start is Unbounded) && s.len() > 0 ==> start_val(start) < start_val(s[0].0),
                out.canonical(),
                segs_wf(out@),
                out@.len() == i,
                i == 0 ==> cur == start,
                i > 0 ==> cur == flip(s[i - 1].1),
                i < s.len() && !(cur is Unbounded) ==> start_val(cur) < start_val(s[i as int].0),
                i > 0 && cur is Unbounded ==> i == s.len(),
                !(cur is Unbounded) ==> forall|k: int| 0 <= k < out@.len() ==> #[trigger] gap(out@[k].1, cur),
                !(cur is Unbounded) ==> above_start(start, start_val(cur)),
                i > 0 ==> forall|x: int| #[trigger] segs_has(out@, x) == (above_start(start, x)
                    && !segs_has(s.subrange(0, i as int), x) && (cur is Unbounded || x < start_val(cur))),
            decreases s.len() - i,
        {
            let seg = segments[i];
            let new_end = match seg.0 {
                Bound::Included(v) => Bound::Excluded(v),
                Bound::Excluded(v) => Bound::Included(v),
                Bound::Unbounded => Bound::Unbounded,
            };
            let next = match seg.1 {
                Bound::Included(v) => Bound::Excluded(v),
                Bound::Excluded(v) => Bound::Included(v),
                Bound::Unbounded => Bound::Unbounded,
            };
            let ghost old_out = out@;
            let ghost old_cur = cur;
            proof {
                lemma_flip(seg.0);
                lemma_flip(seg.1);
                assert(valid_seg(s[i as int]));
                assert(new_end == flip(seg.0));
                assert(next == flip(seg.1));
                lemma_segs_has_push(old_out, (old_cur, new_end));
                lemma_prefix_push(s, i as int);
                lemma_segs_has_push(s.subrange(0, i as int), seg);
                lemma_prefix_before(s, i as int);
                if next is Unbounded {
                    lemma_unbounded_end_is_last(s, i as int);
                } else if i + 1 < s.len() {
                    lemma_segs_order(s, i as int, i + 1);
                }
            }
            out.push((cur, new_end));
            cur = next;
            i = i + 1;
            proof {
                assert(out@ == old_out.push((old_cur, new_end)));
                assert forall|a: int, b: int| 0 <= a < b < out@.len() implies #[trigger] gap(out@[a].1, out@[b].0) by {
                    if b < out@.len() - 1 {
                        assert(gap(old_out[a].1, old_out[b].0));
                    } else {
                        assert(gap(old_out[a].1, old_cur));
                    }
                }
                if !(cur is Unbounded) {
                    assert forall|k: int| 0 <= k < out@.len() implies #[trigger] gap(out@[k].1, cur) by {
                        if k < out@.len() - 1 {
                            assert(gap(old_out[k].1, old_cur));
                        }
                    }
                }
                assert forall|x: int| #[trigger] segs_has(out@, x) == (above_start(start, x)
                    && !segs_has(s.subrange(0, i as int), x) && (cur is Unbounded || x < start_val(cur))) by {
                    let j = i - 1;
                    if j > 0 {
                        assert(segs_has(old_out, x) == (above_start(start, x) && !segs_has(
                            s.subrange(0, j),
                            x,
                        ) && (old_cur is Unbounded || x < start_val(old_cur))));
                        lemma_wf_subrange(s, 0, j);
                        assert(s.subrange(0, j)[j - 1] == s[j - 1]);
                        lemma_points_before_end(s.subrange(0, j));
                        lemma_flip(s[j - 1].1);
                    } else {
                        assert(old_out.len() == 0);
                        assert(!segs_has(old_out, x));
                        assert(s.subrange(0, 0).len() == 0);
                        assert(!segs_has(s.subrange(0, 0), x));
                    }
                }
            }
        }
        let ghost before = out@;
        match cur {
            Bound::Unbounded => {},
            _ => {
                proof {
                    lemma_segs_has_push(before, (cur, Bound::Unbounded));
                    if s.len() > 0 {
                        lemma_points_before_end(s);
                        lemma_flip(s[s.len() - 1].1);
                        assert(s.subrange(0, s.len() as int) =~= s);
                    } else {
                        assert(before.len() == 0);
                        assert(!segs_has(before, 0));
                    }
                }
                out.push((cur, Bound::Unbounded));
                proof {
                    assert forall|a: int, b: int| 0 <= a < b < out@.len() implies #[trigger] gap(out@[a].1, out@[b].0) by {
                        if b < out@.len() - 1 {
                            assert(gap(before[a].1, before[b].0));
                        } else {
                            assert(gap(before[a].1, cur));
                        }
                    }
                }
            },
        }
        proof {
            assert(s.subrange(0, s.len() as int) =~= s);
            if s.len() > 0 && cur is Unbounded {
                assert(s[s.len() - 1].1 is Unbounded);
            }
        }
        Self::from_segments(out)
    }
}


impl<V: Ranked> Ranges<V> {
    /// The end bound reaching further of the two, keeping the first on a tie.
    fn union_end(a: Bound<V>, b: Bound<V>) -> (r: Bound<V>)
        ensures
            end_le(a, r),
            end_le(b, r),
            r == a || r == b,
    {
        match (a, b) {
            (_, Bound::Unbounded) => Bound::Unbounded,
            (Bound::Unbounded, _) => Bound::Unbounded,
            (Bound::Included(l), Bound::Excluded(r)) => {
                if l.rank_le(&r) && r.rank_le(&l) {
                    a
                } else if r.rank_lt(&l) {
                    a
                } else {
                    b
                }
            },
            (Bound::Included(l), Bound::Included(r)) => {
                if l.rank_le(&r) && r.rank_le(&l) {
                    a
                } else if r.rank_lt(&l) {
                    a
                } else {
                    b
                }
            },
            (Bound::Excluded(l), Bound::Included(r)) => {
                if r.rank_lt(&l) {
                    a
                } else {
                    b
                }
            },
            (Bound::Excluded(l), Bound::Excluded(r)) => {
                if r.rank_lt(&l) {
                    a
                } else {
                    b
                }
            },
        }
    }

    /// Computes the union of this range and another.
    pub fn union(&self, other: &Self) -> (r: Self)
        ensures
            segs_wf(r.segs()),
            forall|x: int| #[trigger] r.has(x) == (self.has(x) || other.has(x)),
    {
        let left = self.segments_wf();
        let right = other.segments_wf();
        let ghost ls = self.segs();
        let ghost rs = other.segs();
        let mut output: SmallVec<Interval<V>> = SmallVec::empty();
        let mut acc: Option<Interval<V>> = None;
        let mut li: usize = 0;
        let mut ri: usize = 0;
        while li < left.len() || ri < right.len()
            invariant
                0 <= li <= ls.len(),
                0 <= ri <= rs.len(),
                left@ == ls,
                right@ == rs,
                ls == self.segs(),
                rs == other.segs(),
                segs_wf(ls),
                segs_wf(rs),
                output.canonical(),
                segs_wf(output@),
                acc is None ==> li == 0 && ri == 0 && output@.len() == 0,
                acc matches Some(a) ==> valid_seg(a),
                acc matches Some(a) ==> forall|k: int| 0 <= k < output@.len() ==> #[trigger] gap(output@[k].1, a.0),
                acc matches Some(a) ==> (li < ls.len() ==> start_le(a.0, ls[li as int].0)),
                acc matches Some(a) ==> (ri < rs.len() ==> start_le(a.0, rs[ri as int].0)),
                forall|x: int| (#[trigger] segs_has(output@, x) || (acc matches Some(a) && seg_has(a, x)))
                    == (segs_has(ls.subrange(0, li as int), x) || segs_has(rs.subrange(0, ri as int), x)),
            decreases ls.len() + rs.len() - li - ri,
        {
            let ghost old_li = li;
            let ghost old_ri = ri;
            let ghost from_left: bool;
            let smaller: Interval<V>;
            if li < left.len() && ri < right.len() {
                if left_start_is_smaller(&left[li].0, &right[ri].0) {
                    smaller = left[li];
                    li = li + 1;
                    proof { from_left = true; }
                } else {
                    smaller = right[ri];
                    ri = ri + 1;
                    proof { from_left = false; }
                }
            } else if li < left.len() {
                smaller = left[li];
                li = li + 1;
                proof { from_left = true; }
            } else {
                smaller = right[ri];
                ri = ri + 1;
                proof { from_left = false; }
            }
            proof {
                if from_left {
                    assert(smaller == ls[old_li as int]);
                    assert(valid_seg(ls[old_li as int]));
                    lemma_prefix_push(ls, old_li as int);
                    lemma_segs_has_push(ls.subrange(0, old_li as int), smaller);
                    if li < ls.len() {
                        lemma_segs_order(ls, old_li as int, li as int);
                    }
                    assert(ri < rs.len() ==> start_le(smaller.0, rs[ri as int].0));
                } else {
                    assert(smaller == rs[old_ri as int]);
                    assert(valid_seg(rs[old_ri as int]));
                    lemma_prefix_push(rs, old_ri as int);
                    lemma_segs_has_push(rs.subrange(0, old_ri as int), smaller);
                    if ri < rs.len() {
                        lemma_segs_order(rs, old_ri as int, ri as int);
                    }
                    assert(li < ls.len() ==> start_le(smaller.0, ls[li as int].0));
                }
            }
            let ghost old_output = output@;
            match acc {
                Some(a) => {
                    if end_before_start_with_gap(&a.1, &smaller.0) {
                        output.push(a);
                        acc = Some(smaller);
                        proof {
                            lemma_segs_has_push(old_output, a);
                            assert forall|i: int, j: int| 0 <= i < j < output@.len() implies #[trigger] gap(output@[i].1, output@[j].0) by {
                                if j < output@.len() - 1 {
                                    assert(gap(old_output[i].1, old_output[j].0));
                                } else {
                                    assert(gap(old_output[i].1, a.0));
                                }
                            }
                            assert forall|k: int| 0 <= k < output@.len() implies #[trigger] gap(output@[k].1, smaller.0) by {
                                if k < output@.len() - 1 {
                                    assert(gap(old_output[k].1, a.0));
                                }
                            }
                        }
                    } else {
                        let end = Self::union_end(a.1, smaller.1);
                        acc = Some((a.0, end));
                        proof {
                            assert forall|x: int| seg_has((a.0, end), x) == (seg_has(a, x) || seg_has(smaller, x)) by {
                            }
                        }
                    }
                },
                None => {
                    acc = Some(smaller);
                },
            }
        }
        let ghost before = output@;
        match acc {
            Some(a) => {
                output.push(a);
                proof {
                    lemma_segs_has_push(before, a);
                    assert forall|i: int, j: int| 0 <= i < j < output@.len() implies #[trigger] gap(output@[i].1, output@[j].0) by {
                        if j < output@.len() - 1 {
                            assert(gap(before[i].1, before[j].0));
                        } else {
                            assert(gap(before[i].1, a.0));
                        }
                    }
                }
            },
            None => {},
        }
        proof {
            assert(ls.subrange(0, ls.len() as int) =~= ls);
            assert(rs.subrange(0, rs.len() as int) =~= rs);
        }
        Self::from_segments(output)
    }
}


impl<V: Ranked> Ranges<V> {
    /// The start bound coming later of the two.
    fn intersection_start(a: Bound<V>, b: Bound<V>) -> (r: Bound<V>)
        ensures
            start_le(a, r),
            start_le(b, r),
            r == a || r == b,
    {
        match (a, b) {
            (Bound::Included(l), Bound::Included(r)) => {
                if r.rank_lt(&l) {
                    a
                } else {
                    b
                }
            },
            (Bound::Excluded(l), Bound::Excluded(r)) => {
                if r.rank_lt(&l) {
                    a
                } else {
                    b
                }
            },
            (Bound::Included(i), Bound::Excluded(e)) => {
                if i.rank_le(&e) {
                    b
                } else {
                    a
                }
            },
            (Bound::Excluded(e), Bound::Included(i)) => {
                if i.rank_le(&e) {
                    a
                } else {
                    b
                }
            },
            (_, Bound::Unbounded) => a,
            (Bound::Unbounded, _) => b,
        }
    }

    /// Computes the intersection of two sets of versions.
    pub fn intersection(&self, other: &Self) -> (r: Self)
        ensures
            segs_wf(r.segs()),
            forall|x: int| #[trigger] r.has(x) == (self.has(x) && other.has(x)),
    {
        let left = self.segments_wf();
        let right = other.segments_wf();
        let ghost ls = self.segs();
        let ghost rs = other.segs();
        let mut output: SmallVec<Interval<V>> = SmallVec::empty();
        let mut li: usize = 0;
        let mut ri: usize = 0;
        // Every point up to `t` (or every point when `t_inf`) has been dealt with.
        let ghost mut consumed = false;
        let ghost mut t: int = 0;
        let ghost mut t_inf = false;
        let ghost mut last_left = true;
        while li < left.len() && ri < right.len()
            invariant
                0 <= li <= ls.len(),
                0 <= ri <= rs.len(),
                left@ == ls,
                right@ == rs,
                ls == self.segs(),
                rs == other.segs(),
                segs_wf(ls),
                segs_wf(rs),
                output.canonical(),
                segs_wf(output@),
                !consumed ==> li == 0 && ri == 0 && output@.len() == 0 && !t_inf,
                t_inf ==> li == ls.len() || ri == rs.len(),
                forall|k: int, x: int| 0 <= k < li && #[trigger] seg_has(ls[k], x) ==> t_inf || x <= t,
                forall|k: int, x: int| 0 <= k < ri && #[trigger] seg_has(rs[k], x) ==> t_inf || x <= t,
                !t_inf ==> forall|k: int| 0 <= k < output@.len() ==> !(output@[k].1 is Unbounded)
                    && #[trigger] end_val(output@[k].1) <= t,
                consumed && !t_inf && last_left && li < ls.len() ==> !(ls[li as int].0 is Unbounded)
                    && start_val(ls[li as int].0) > t + 1,
                consumed && !t_inf && !last_left && ri < rs.len() ==> !(rs[ri as int].0 is Unbounded)
                    && start_val(rs[ri as int].0) > t + 1,
                consumed && !t_inf && li < ls.len() ==> (ls[li as int].1 is Unbounded || end_val(ls[li as int].1) >= t),
                consumed && !t_inf && ri < rs.len() ==> (rs[ri as int].1 is Unbounded || end_val(rs[ri as int].1) >= t),
                forall|x: int| #[trigger] segs_has(output@, x) == (self.has(x) && other.has(x)
                    && consumed && (t_inf || x <= t)),
            decreases ls.len() + rs.len() - li - ri,
        {
            let l = left[li];
            let r = right[ri];
            let ghost old_li = li;
            let ghost old_ri = ri;
            let ghost old_t = t;
            let ghost old_consumed = consumed;
            let ghost old_last_left = last_left;
            let ghost old_output = output@;
            // The next smallest `end` value is going to come from one of the inputs.
            let left_end_is_smaller = left_end_is_smaller(&l.1, &r.1);
            let other_start;
            let end;
            if left_end_is_smaller {
                li = li + 1;
                other_start = r.0;
                end = l.1;
            } else {
                ri = ri + 1;
                other_start = l.0;
                end = r.1;
            }
            proof {
                let li0 = old_li as int;
                let ri0 = old_ri as int;
                assert(valid_seg(l));
                assert(valid_seg(r));
                // What the two lists hold between the old threshold and `end`.
                assert forall|x: int| (!old_consumed || x > old_t) && below_end(end, x) implies
                    (self.has(x) == seg_has(l, x)) && (other.has(x) == seg_has(r, x)) by {
                    if self.has(x) {
                        let k = choose|k: int| 0 <= k < ls.len() && #[trigger] seg_has(ls[k], x);
                        if k > li0 {
                            lemma_segs_order(ls, li0, k);
                        }
                    }
                    if other.has(x) {
                        let k = choose|k: int| 0 <= k < rs.len() && #[trigger] seg_has(rs[k], x);
                        if k > ri0 {
                            lemma_segs_order(rs, ri0, k);
                        }
                    }
                }
                if end is Unbounded {
                    if left_end_is_smaller {
                        lemma_unbounded_end_is_last(ls, li0);
                    } else {
                        lemma_unbounded_end_is_last(rs, ri0);
                        assert(l.1 is Unbounded);
                        lemma_unbounded_end_is_last(ls, li0);
                    }
                    t_inf = true;
                } else {
                    t = end_val(end);
                    if left_end_is_smaller && li < ls.len() {
                        lemma_segs_order(ls, li0, li as int);
                    }
                    if !left_end_is_smaller && ri < rs.len() {
                        lemma_segs_order(rs, ri0, ri as int);
                    }
                }
                consumed = true;
                last_left = left_end_is_smaller;
            }
            if valid_segment(&other_start, &end) {
                let start = Self::intersection_start(l.0, r.0);
                output.push((start, end));
                proof {
                    lemma_segs_has_push(old_output, (start, end));
                    if old_consumed {
                        if old_last_left {
                            assert(start_val(ls[old_li as int].0) > old_t + 1);
                        } else {
                            assert(start_val(rs[old_ri as int].0) > old_t + 1);
                        }
                    }
                    assert(valid_seg((start, end)));
                    assert forall|i: int, j: int| 0 <= i < j < output@.len() implies #[trigger] gap(output@[i].1, output@[j].0) by {
                        if j < output@.len() - 1 {
                            assert(gap(old_output[i].1, old_output[j].0));
                        } else {
                            assert(end_val(old_output[i].1) <= old_t);
                        }
                    }
                    assert forall|x: int| #[trigger] segs_has(output@, x) == (self.has(x) && other.has(x)
                        && consumed && (t_inf || x <= t)) by {
                        if old_consumed && x <= old_t {
                            assert(segs_has(old_output, x) == (self.has(x) && other.has(x)));
                        }
                    }
                }
            } else {
                proof {
                    assert forall|x: int| #[trigger] segs_has(output@, x) == (self.has(x) && other.has(x)
                        && consumed && (t_inf || x <= t)) by {
                        if old_consumed && x <= old_t {
                            assert(segs_has(old_output, x) == (self.has(x) && other.has(x)));
                        }
                    }
                }
            }
            proof {
                if !t_inf {
                    assert(!(end is Unbounded) && t == end_val(end));
                    assert(old_consumed ==> old_t <= t);
                    assert forall|k: int| 0 <= k < output@.len() implies !(output@[k].1 is Unbounded)
                        && #[trigger] end_val(output@[k].1) <= t by {
                        if k < old_output.len() {
                            assert(output@[k] == old_output[k]);
                            assert(end_val(old_output[k].1) <= old_t);
                        } else {
                            assert(output@[k].1 == end);
                        }
                    }
                }
            }
        }
        proof {
            assert forall|x: int| #[trigger] segs_has(output@, x) == (self.has(x) && other.has(x)) by {
                if self.has(x) && other.has(x) {
                    let k = choose|k: int| 0 <= k < ls.len() && #[trigger] seg_has(ls[k], x);
                    let k2 = choose|k: int| 0 <= k < rs.len() && #[trigger] seg_has(rs[k], x);
                    assert(t_inf || x <= t);
                }
            }
        }
        Self::from_segments(output)
    }
}


/// A point held by both segments, when each starts before the other ends.
pub open spec fn common_point<V: Ranked>(a: Interval<V>, b: Interval<V>) -> int {
    if !(a.0 is Unbounded) && !(b.0 is Unbounded) {
        if start_val(a.0) <= start_val(b.0) {
            start_val(b.0)
        } else {
            start_val(a.0)
        }
    } else if !(a.0 is Unbounded) {
        start_val(a.0)
    } else if !(b.0 is Unbounded) {
        start_val(b.0)
    } else if !(a.1 is Unbounded) && !(b.1 is Unbounded) {
        if end_val(a.1) <= end_val(b.1) {
            end_val(a.1)
        } else {
            end_val(b.1)
        }
    } else if !(a.1 is Unbounded) {
        end_val(a.1)
    } else if !(b.1 is Unbounded) {
        end_val(b.1)
    } else {
        0
    }
}

/// Two valid segments, each starting before the other ends, share a point.
pub proof fn lemma_common_point<V: Ranked>(a: Interval<V>, b: Interval<V>)
    requires
        valid_seg(a),
        valid_seg(b),
        valid_seg((a.0, b.1)),
        valid_seg((b.0, a.1)),
    ensures
        seg_has(a, common_point(a, b)),
        seg_has(b, common_point(a, b)),
{
}

impl<V: Ranked> Ranges<V> {
    /// Return true if there can be no `V` so that `V` is contained in both `self` and `other`.
    ///
    /// Note that we don't know that set of all existing `V`s here, so we only check if the segments
    /// are disjoint, not if no version is contained in both.
    pub fn is_disjoint(&self, other: &Self) -> (r: bool)
        ensures
            r == (forall|x: int| !(#[trigger] self.has(x) && other.has(x))),
    {
        let left = self.segments_wf();
        let right = other.segments_wf();
        let ghost ls = self.segs();
        let ghost rs = other.segs();
        let mut li: usize = 0;
        let mut ri: usize = 0;
        while li < left.len() && ri < right.len()
            invariant
                0 <= li <= ls.len(),
                0 <= ri <= rs.len(),
                left@ == ls,
                right@ == rs,
                ls == self.segs(),
                rs == other.segs(),
                segs_wf(ls),
                segs_wf(rs),
                forall|k: int, x: int| 0 <= k < li && #[trigger] seg_has(ls[k], x) ==> !other.has(x),
                forall|k: int, x: int| 0 <= k < ri && #[trigger] seg_has(rs[k], x) ==> !self.has(x),
            decreases ls.len() + rs.len() - li - ri,
        {
            let l = left[li];
            let r = right[ri];
            proof {
                assert(valid_seg(l));
                assert(valid_seg(r));
            }
            if !valid_segment(&r.0, &l.1) {
                proof {
                    assert forall|x: int| #[trigger] seg_has(l, x) implies !other.has(x) by {
                        if other.has(x) {
                            let k = choose|k: int| 0 <= k < rs.len() && #[trigger] seg_has(rs[k], x);
                            if k > ri {
                                lemma_segs_order(rs, ri as int, k);
                            }
                            if k < ri {
                                assert(seg_has(ls[li as int], x));
                                assert(self.has(x));
                            }
                        }
                    }
                }
                li = li + 1;
            } else if !valid_segment(&l.0, &r.1) {
                proof {
                    assert forall|x: int| #[trigger] seg_has(r, x) implies !self.has(x) by {
                        if self.has(x) {
                            let k = choose|k: int| 0 <= k < ls.len() && #[trigger] seg_has(ls[k], x);
                            if k > li {
                                lemma_segs_order(ls, li as int, k);
                            }
                            if k < li {
                                assert(seg_has(rs[ri as int], x));
                                assert(other.has(x));
                            }
                        }
                    }
                }
                ri = ri + 1;
            } else {
                proof {
                    lemma_common_point(l, r);
                    let x = common_point(l, r);
                    assert(self.has(x) && other.has(x));
                }
                return false;
            }
        }
        proof {
            assert forall|x: int| !(#[trigger] self.has(x) && other.has(x)) by {
                if self.has(x) && other.has(x) {
                    let k = choose|k: int| 0 <= k < ls.len() && #[trigger] seg_has(ls[k], x);
                    let k2 = choose|k: int| 0 <= k < rs.len() && #[trigger] seg_has(rs[k], x);
                }
            }
        }
        true
    }

    /// Return true if any `V` that is contained in `self` is also contained in `other`.
    ///
    /// Note that we don't know that set of all existing `V`s here, so we only check if all
    /// segments `self` are contained in a segment of `other`.
    pub fn subset_of(&self, other: &Self) -> (r: bool)
        ensures
            r == (forall|x: int| #[trigger] self.has(x) ==> other.has(x)),
    {
        let subset = self.segments_wf();
        let containing = other.segments_wf();
        let ghost ss = self.segs();
        let ghost os = other.segs();
        if containing.len() == 0 {
            // As long as we have subset elements, we need containing elements
            proof {
                if ss.len() > 0 {
                    let x = Self::some_point(ss[0]);
                    assert(valid_seg(ss[0]));
                    assert(seg_has(ss[0], x));
                    assert(self.has(x));
                }
            }
            return subset.len() == 0;
        }
        let mut ci: usize = 0;
        let mut si: usize = 0;
        while si < subset.len()
            invariant
                0 <= si <= ss.len(),
                0 <= ci < os.len(),
                subset@ == ss,
                containing@ == os,
                ss == self.segs(),
                os == other.segs(),
                segs_wf(ss),
                segs_wf(os),
                forall|k: int, x: int| 0 <= k < si && #[trigger] seg_has(ss[k], x) ==> other.has(x),
                forall|k: int, j: int| 0 <= k < ci && si <= j < ss.len() ==> !(#[trigger] os[k].1 is Unbounded)
                    && !(#[trigger] ss[j].0 is Unbounded) && end_val(os[k].1) < start_val(ss[j].0),
            decreases ss.len() - si,
        {
            let sub = subset[si];
            proof {
                assert(valid_seg(sub));
            }
            // Check if the current containing element ends before the subset element.
            // There needs to be another containing element for our subset element in this case.
            while !valid_segment(&sub.0, &containing[ci].1)
                invariant
                    0 <= si < ss.len(),
                    0 <= ci < os.len(),
                    subset@ == ss,
                    containing@ == os,
                    ss == self.segs(),
                    os == other.segs(),
                    segs_wf(ss),
                    segs_wf(os),
                    sub == ss[si as int],
                    valid_seg(sub),
                    forall|k: int, j: int| 0 <= k < ci && si <= j < ss.len() ==> !(#[trigger] os[k].1 is Unbounded)
                        && !(#[trigger] ss[j].0 is Unbounded) && end_val(os[k].1) < start_val(ss[j].0),
                decreases os.len() - ci,
            {
                proof {
                    assert forall|j: int| si <= j < ss.len() implies !(#[trigger] ss[j].0 is Unbounded)
                        && end_val(os[ci as int].1) < start_val(ss[j].0) by {
                        if j > si {
                            lemma_segs_order(ss, si as int, j);
                        }
                    }
                }
                if ci + 1 < containing.len() {
                    ci = ci + 1;
                } else {
                    proof {
                        let x = Self::some_point(sub);
                        assert(seg_has(ss[si as int], x));
                        assert(self.has(x));
                        assert(!other.has(x)) by {
                            if other.has(x) {
                                let k = choose|k: int| 0 <= k < os.len() && #[trigger] seg_has(os[k], x);
                                assert(!(os[k].1 is Unbounded) && end_val(os[k].1) < start_val(ss[si as int].0));
                            }
                        }
                    }
                    return false;
                }
            }
            let cont = containing[ci];
            proof {
                assert(valid_seg(cont));
            }
            if !left_start_is_smaller(&cont.0, &sub.0) {
                // The start element is not contained
                proof {
                    let x = if sub.0 is Unbounded {
                        if sub.1 is Unbounded || start_val(cont.0) - 1 <= end_val(sub.1) {
                            start_val(cont.0) - 1
                        } else {
                            end_val(sub.1)
                        }
                    } else {
                        start_val(sub.0)
                    };
                    assert(seg_has(ss[si as int], x));
                    assert(self.has(x));
                    assert(!other.has(x)) by {
                        if other.has(x) {
                            let k = choose|k: int| 0 <= k < os.len() && #[trigger] seg_has(os[k], x);
                            if k < ci {
                                assert(!(os[k].1 is Unbounded) && end_val(os[k].1) < start_val(ss[si as int].0));
                            } else if k > ci {
                                lemma_segs_order(os, ci as int, k);
                            }
                        }
                    }
                }
                return false;
            }
            if !left_end_is_smaller(&sub.1, &cont.1) {
                // The end element is not contained
                proof {
                    let x = end_val(cont.1) + 1;
                    assert(seg_has(ss[si as int], x));
                    assert(self.has(x));
                    assert(!other.has(x)) by {
                        if other.has(x) {
                            let k = choose|k: int| 0 <= k < os.len() && #[trigger] seg_has(os[k], x);
                            if k < ci {
                                assert(!(os[k].1 is Unbounded) && end_val(os[k].1) < start_val(ss[si as int].0));
                            } else if k > ci {
                                lemma_segs_order(os, ci as int, k);
                            }
                        }
                    }
                }
                return false;
            }
            proof {
                assert forall|x: int| #[trigger] seg_has(ss[si as int], x) implies other.has(x) by {
                    assert(seg_has(os[ci as int], x));
                }
                assert forall|k: int, j: int| 0 <= k < ci && si + 1 <= j < ss.len() implies !(#[trigger] os[k].1 is Unbounded)
                    && !(#[trigger] ss[j].0 is Unbounded) && end_val(os[k].1) < start_val(ss[j].0) by {
                    assert(si <= j);
                }
            }
            si = si + 1;
        }
        proof {
            assert forall|x: int| #[trigger] self.has(x) implies other.has(x) by {
                let k = choose|k: int| 0 <= k < ss.len() && #[trigger] seg_has(ss[k], x);
            }
        }
        true
    }
}


/// The bound, read through the reference it holds.
pub open spec fn deref_bound<V>(b: Bound<&V>) -> Bound<V> {
    match b {
        Bound::Included(v) => Bound::Included(*v),
        Bound::Excluded(v) => Bound::Excluded(*v),
        Bound::Unbounded => Bound::Unbounded,
    }
}

/// Versions sorted in increasing order.
pub open spec fn sorted_versions<V: Ranked>(vs: Seq<V>) -> bool {
    forall|i: int, j: int| 0 <= i <= j < vs.len() ==> #[trigger] vs[i].rank() <= #[trigger] vs[j].rank()
}

impl<V: Ranked> Ranges<V> {
    /// If self contains exactly a single version, return it, otherwise, return [None].
    pub fn as_singleton(&self) -> (r: Option<&V>)
        ensures
            r is Some <==> (self.segs().len() == 1 && self.segs()[0].0 is Included
                && self.segs()[0].1 == self.segs()[0].0),
            r matches Some(v) ==> self.segs()[0] == (Bound::Included(*v), Bound::Included(*v)),
            r matches Some(v) ==> forall|x: int| #[trigger] self.has(x) == (x == point(*v)),
    {
        let segs = self.segments_wf();
        if segs.len() != 1 {
            return None;
        }
        match &segs[0] {
            (Bound::Included(v1), Bound::Included(v2)) => {
                if v1.rank_le(v2) && v2.rank_le(v1) {
                    proof {
                        V::lemma_rank_injective(*v1, *v2);
                        lemma_segs_has_one(self.segs()[0]);
                        assert(self.segs() =~= seq![self.segs()[0]]);
                    }
                    Some(v1)
                } else {
                    proof {
                        if *v1 == *v2 {
                            assert(v1.rank() == v2.rank());
                        }
                    }
                    None
                }
            },
            _ => None,
        }
    }

    /// Convert to something that can be used with
    /// [BTreeMap::range](std::collections::BTreeMap::range).
    /// All versions contained in self, will be in the output,
    /// but there may be versions in the output that are not contained in self.
    /// Returns None if the range is empty.
    pub fn bounding_range(&self) -> (r: Option<(Bound<&V>, Bound<&V>)>)
        ensures
            r is None <==> self.segs().len() == 0,
            r matches Some(b) ==> deref_bound(b.0) == self.segs()[0].0 && deref_bound(b.1)
                == self.segs()[self.segs().len() - 1].1,
            r matches Some(b) ==> forall|x: int| #[trigger] self.has(x) ==> seg_has(
                (deref_bound(b.0), deref_bound(b.1)),
                x,
            ),
    {
        let segs = self.segments_wf();
        if segs.len() == 0 {
            return None;
        }
        let first = &segs[0];
        let last = &segs[segs.len() - 1];
        let start = match &first.0 {
            Bound::Included(v) => Bound::Included(v),
            Bound::Excluded(v) => Bound::Excluded(v),
            Bound::Unbounded => Bound::Unbounded,
        };
        let end = match &last.1 {
            Bound::Included(v) => Bound::Included(v),
            Bound::Excluded(v) => Bound::Excluded(v),
            Bound::Unbounded => Bound::Unbounded,
        };
        proof {
            let s = self.segs();
            assert forall|x: int| #[trigger] self.has(x) implies seg_has((deref_bound(start), deref_bound(end)), x) by {
                let k = choose|k: int| 0 <= k < s.len() && #[trigger] seg_has(s[k], x);
                if k > 0 {
                    lemma_segs_order(s, 0, k);
                }
                if k < s.len() - 1 {
                    lemma_segs_order(s, k, s.len() - 1);
                }
            }
        }
        Some((start, end))
    }

    /// Iterate over the parts of the range.
    pub fn iter(&self) -> (r: &[Interval<V>])
        ensures
            r@ == self.segs(),
    {
        self.segments_wf()
    }

    /// Construct a simple range from its two bounds, as written `v1..v2`.
    pub fn from_range_bounds(bounds: (Bound<V>, Bound<V>)) -> (r: Self)
        ensures
            segs_wf(r.segs()),
            valid_seg(bounds) ==> r.segs() == seq![bounds],
            !valid_seg(bounds) ==> r.segs().len() == 0,
            forall|x: int| #[trigger] r.has(x) == seg_has(bounds, x),
    {
        let (start, end) = bounds;
        if valid_segment(&start, &end) {
            proof {
                lemma_segs_has_one(bounds);
            }
            Self::from_segments(SmallVec::one((start, end)))
        } else {
            proof {
                assert forall|x: int| !seg_has(bounds, x) by {}
            }
            Self::empty()
        }
    }

    /// Returns true if self contains the specified values.
    ///
    /// The `versions` must be sorted.
    /// Functionally equivalent to `versions.map(|v| self.contains(v))`.
    /// Except it runs in `O(size_of_range + len_of_versions)` not `O(size_of_range * len_of_versions)`
    pub fn contains_many(&self, versions: &[V]) -> (r: Vec<bool>)
        requires
            sorted_versions(versions@),
        ensures
            r@.len() == versions@.len(),
            forall|k: int| 0 <= k < versions@.len() ==> #[trigger] r@[k] == self.contains_spec(versions@[k]),
    {
        let locations = self.locate_all(versions);
        let mut out: Vec<bool> = Vec::new();
        let mut k: usize = 0;
        while k < locations.len()
            invariant
                0 <= k <= locations@.len(),
                locations@.len() == versions@.len(),
                out@.len() == k,
                forall|j: int| 0 <= j < versions@.len() ==> (#[trigger] locations@[j] is Some)
                    == self.contains_spec(versions@[j]),
                forall|j: int| 0 <= j < k ==> #[trigger] out@[j] == self.contains_spec(versions@[j]),
            decreases locations@.len() - k,
        {
            out.push(locations[k].is_some());
            k = k + 1;
        }
        out
    }

    /// For each of the sorted `versions`, the index of the segment holding
    /// it, if any.
    fn locate_all(&self, versions: &[V]) -> (r: Vec<Option<usize>>)
        requires
            sorted_versions(versions@),
        ensures
            r@.len() == versions@.len(),
            forall|k: int| 0 <= k < versions@.len() ==> (#[trigger] r@[k] is Some) == self.contains_spec(versions@[k]),
            forall|k: int| 0 <= k < versions@.len() && #[trigger] r@[k] is Some ==> r@[k]->0 < self.segs().len()
                && seg_has(self.segs()[r@[k]->0 as int], point(versions@[k])),
    {
        let segs = self.segments_wf();
        let ghost s = self.segs();
        let mut out: Vec<Option<usize>> = Vec::new();
        let mut i: usize = 0;
        let mut k: usize = 0;
        while k < versions.len()
            invariant
                0 <= k <= versions@.len(),
                0 <= i <= s.len(),
                segs@ == s,
                s == self.segs(),
                segs_wf(s),
                sorted_versions(versions@),
                out@.len() == k,
                forall|j: int| 0 <= j < k ==> (#[trigger] out@[j] is Some) == self.contains_spec(versions@[j]),
                forall|j: int| 0 <= j < k && #[trigger] out@[j] is Some ==> out@[j]->0 < s.len()
                    && seg_has(s[out@[j]->0 as int], point(versions@[j])),
                // Every segment before `i` ends before the versions still to come.
                forall|m: int, j: int| 0 <= m < i && k <= j < versions@.len() ==> !#[trigger] below_end(
                    s[m].1,
                    point(#[trigger] versions@[j]),
                ),
            decreases versions@.len() - k,
        {
            let v = &versions[k];
            let mut found: Option<usize> = None;
            loop
                invariant_except_break
                    0 <= i <= s.len(),
                    found is None,
                invariant
                    segs@ == s,
                    s == self.segs(),
                    segs_wf(s),
                    *v == versions@[k as int],
                    k < versions@.len(),
                    sorted_versions(versions@),
                    forall|m: int, j: int| 0 <= m < i && k <= j < versions@.len() ==> !#[trigger] below_end(
                        s[m].1,
                        point(#[trigger] versions@[j]),
                    ),
                ensures
                    0 <= i <= s.len(),
                    found is Some ==> found->0 == i && i < s.len() && seg_has(s[i as int], point(*v)),
                    found is None ==> !self.contains_spec(*v),
                decreases s.len() - i,
            {
                if i >= segs.len() {
                    proof {
                        assert forall|x: int| #[trigger] self.has(x) implies x != point(*v) by {
                            let m = choose|m: int| 0 <= m < s.len() && #[trigger] seg_has(s[m], x);
                            if x == point(*v) {
                                assert(!below_end(s[m].1, point(versions@[k as int])));
                            }
                        }
                    }
                    break;
                }
                match within_bounds(v, &segs[i]) {
                    Location::Less => {
                        proof {
                            assert forall|x: int| #[trigger] self.has(x) implies x != point(*v) by {
                                let m = choose|m: int| 0 <= m < s.len() && #[trigger] seg_has(s[m], x);
                                if x == point(*v) {
                                    if m < i {
                                        assert(!below_end(s[m].1, point(versions@[k as int])));
                                    } else if m > i {
                                        lemma_segs_order(s, i as int, m);
                                    }
                                }
                            }
                        }
                        break;
                    },
                    Location::Equal => {
                        found = Some(i);
                        break;
                    },
                    Location::Greater => {
                        proof {
                            assert forall|m: int, j: int| 0 <= m < i + 1 && k <= j < versions@.len() implies !#[trigger] below_end(
                                s[m].1,
                                point(#[trigger] versions@[j]),
                            ) by {
                                if m == i {
                                    assert(versions@[k as int].rank() <= versions@[j].rank());
                                }
                            }
                        }
                        i = i + 1;
                    },
                }
            }
            out.push(found);
            proof {
                assert forall|m: int, j: int| 0 <= m < i && k + 1 <= j < versions@.len() implies !#[trigger] below_end(
                    s[m].1,
                    point(#[trigger] versions@[j]),
                ) by {
                    assert(k <= j);
                }
            }
            k = k + 1;
        }
        out
    }
}


/// Whether a run of located versions starts at `i`.
pub open spec fn run_start(locs: Seq<Option<usize>>, i: int) -> bool {
    0 <= i < locs.len() && locs[i] is Some && (i == 0 || locs[i - 1] is None)
}

/// The positions `a` to `b` are a maximal run of located versions.
pub open spec fn is_run(locs: Seq<Option<usize>>, a: int, b: int) -> bool {
    &&& 0 <= a <= b < locs.len()
    &&& a == 0 || locs[a - 1] is None
    &&& b == locs.len() - 1 || locs[b + 1] is None
    &&& forall|j: int| a <= j <= b ==> #[trigger] locs[j] is Some
}

/// The number of runs starting before position `i`.
pub open spec fn runs_before(locs: Seq<Option<usize>>, i: int) -> nat
    decreases i,
{
    if i <= 0 {
        0
    } else {
        runs_before(locs, i - 1) + if run_start(locs, i - 1) { 1nat } else { 0nat }
    }
}

/// The pair of segment locations a run of versions is grouped into: no
/// lower location when the run opens the list, no upper one when it closes it.
pub open spec fn run_group(locs: Seq<Option<usize>>, a: int, b: int) -> (Option<usize>, Option<usize>) {
    (
        if a == 0 { None } else { locs[a] },
        if b == locs.len() - 1 { None } else { locs[b] },
    )
}

/// The `k`th group is that of the `k`th run of located versions.
pub open spec fn is_group_at(
    locs: Seq<Option<usize>>,
    groups: Seq<(Option<usize>, Option<usize>)>,
    k: int,
) -> bool {
    exists|a: int, b: int| #[trigger] is_run(locs, a, b) && runs_before(locs, a) == k && groups[k]
        == run_group(locs, a, b)
}

/// Counting runs never goes down.
pub proof fn lemma_runs_before_monotone(locs: Seq<Option<usize>>, i: int, j: int)
    requires
        i <= j,
    ensures
        runs_before(locs, i) <= runs_before(locs, j),
        run_start(locs, i) && i < j ==> runs_before(locs, i) < runs_before(locs, j),
    decreases j - i,
{
    if i < j {
        lemma_runs_before_monotone(locs, i, j - 1);
        if run_start(locs, i) && i == j - 1 {
            assert(runs_before(locs, j) == runs_before(locs, i) + 1);
        }
    }
}

/// Group adjacent versions locations.
///
/// ```text
/// [None, 3, 6, 7, None] -> [(3, 7)]
/// [3, 6, 7, None] -> [(None, 7)]
/// [3, 6, 7] -> [(None, None)]
/// [None, 1, 4, 7, None, None, None, 8, None, 9] -> [(1, 7), (8, 8), (9, None)]
/// ```
pub fn group_adjacent_locations(locations: &[Option<usize>]) -> (r: Vec<(Option<usize>, Option<usize>)>)
    ensures
        r@.len() == runs_before(locations@, locations@.len() as int),
        forall|a: int, b: int| #[trigger] is_run(locations@, a, b) ==> r@[runs_before(locations@, a) as int]
            == run_group(locations@, a, b),
        forall|k: int| 0 <= k < r@.len() ==> #[trigger] is_group_at(locations@, r@, k),
        (r@.len() == 0) == (forall|j: int| 0 <= j < locations@.len() ==> #[trigger] locations@[j] is None),
{
    let ghost locs = locations@;
    let mut out: Vec<(Option<usize>, Option<usize>)> = Vec::new();
    if locations.len() == 0 {
        return out;
    }
    // If the first version matched, then the lower bound of that segment is not needed
    let mut seg: Option<(Option<usize>, Option<usize>)> = match locations[0] {
        Some(ver) => Some((None, Some(ver))),
        None => None,
    };
    let ghost mut a: int = 0;
    let mut i: usize = 1;
    while i < locations.len()
        invariant
            1 <= i <= locs.len(),
            locations@ == locs,
            seg is Some <==> locs[i - 1] is Some,
            seg is Some ==> 0 <= a < i && run_start(locs, a) && (forall|j: int| a <= j < i ==> #[trigger] locs[j] is Some)
                && seg == Some((if a == 0 { None } else { locs[a] }, locs[i - 1])) && out@.len() == runs_before(locs, a),
            seg is None ==> out@.len() == runs_before(locs, i as int),
            forall|a2: int, b2: int| #[trigger] is_run(locs, a2, b2) && b2 + 1 < i ==> out@[runs_before(locs, a2) as int]
                == run_group(locs, a2, b2),
            forall|k: int| 0 <= k < out@.len() ==> #[trigger] is_group_at(locs, out@, k),
            seg is Some ==> runs_before(locs, i as int) == runs_before(locs, a) + 1,
            (out@.len() == 0 && seg is None) == (forall|j: int| 0 <= j < i ==> #[trigger] locs[j] is None),
        decreases locs.len() - i,
    {
        let ghost old_out = out@;
        let ghost old_seg = seg;
        let ghost old_a = a;
        match locations[i] {
            Some(ver) => {
                // As long as were still matching versions, we keep merging into the currently matching segment
                seg = match seg {
                    Some((s, _)) => Some((s, Some(ver))),
                    None => {
                        proof {
                            a = i as int;
                        }
                        Some((Some(ver), Some(ver)))
                    },
                };
                proof {
                    if old_seg is None {
                        assert(run_start(locs, i as int));
                        lemma_runs_before_monotone(locs, i as int, i as int);
                    }
                    assert forall|a2: int, b2: int| #[trigger] is_run(locs, a2, b2) && b2 + 1 < i + 1 implies out@[runs_before(locs, a2) as int]
                        == run_group(locs, a2, b2) by {
                        assert(b2 + 1 != i);
                    }
                }
            },
            None => {
                // If we have found a version that doesn't match, then right the merge segment and prepare for a new one.
                match seg {
                    Some(done) => {
                        out.push(done);
                        seg = None;
                        proof {
                            let b = i - 1;
                            assert(is_run(locs, old_a, b));
                            assert(run_group(locs, old_a, b) == done);
                            assert forall|a2: int, b2: int| #[trigger] is_run(locs, a2, b2) && b2 + 1 < i + 1 implies out@[runs_before(locs, a2) as int]
                                == run_group(locs, a2, b2) by {
                                if b2 + 1 == i {
                                    if a2 < old_a {
                                        assert(locs[old_a - 1] is Some);
                                    } else if a2 > old_a {
                                        assert(locs[a2 - 1] is Some);
                                    }
                                } else {
                                    assert(b2 < old_a) by {
                                        if b2 >= old_a {
                                            assert(locs[b2 + 1] is Some);
                                        }
                                    }
                                    assert(a2 <= b2);
                                    lemma_runs_before_monotone(locs, a2, old_a);
                                    assert(run_start(locs, a2));
                                    assert(out@[runs_before(locs, a2) as int] == old_out[runs_before(locs, a2) as int]);
                                }
                            }
                            assert forall|k: int| 0 <= k < out@.len() implies #[trigger] is_group_at(locs, out@, k) by {
                                if k < old_out.len() {
                                    assert(is_group_at(locs, old_out, k));
                                    let (a2, b2) = choose|a2: int, b2: int| #[trigger] is_run(locs, a2, b2)
                                        && runs_before(locs, a2) == k && old_out[k] == run_group(locs, a2, b2);
                                    assert(is_run(locs, a2, b2));
                                } else {
                                    assert(is_run(locs, old_a, b));
                                }
                            }
                        }
                    },
                    None => {
                        proof {
                            assert forall|a2: int, b2: int| #[trigger] is_run(locs, a2, b2) && b2 + 1 < i + 1 implies out@[runs_before(locs, a2) as int]
                                == run_group(locs, a2, b2) by {
                                assert(b2 + 1 != i);
                            }
                        }
                    },
                }
            },
        }
        proof {
            assert(runs_before(locs, i + 1) == runs_before(locs, i as int) + if run_start(locs, i as int) { 1nat } else { 0nat });
        }
        i = i + 1;
    }
    // If the last version matched, then write out the merged segment but the upper bound is not needed.
    let ghost before = out@;
    match seg {
        Some((s, _)) => {
            out.push((s, None));
            proof {
                let b = locs.len() - 1;
                assert(is_run(locs, a, b));
                assert forall|a2: int, b2: int| #[trigger] is_run(locs, a2, b2) implies out@[runs_before(locs, a2) as int]
                    == run_group(locs, a2, b2) by {
                    if b2 == b {
                        if a2 < a {
                            assert(locs[a - 1] is Some);
                        } else if a2 > a {
                            assert(locs[a2 - 1] is Some);
                        }
                    } else {
                        assert(b2 < a) by {
                            if b2 >= a {
                                assert(locs[b2 + 1] is Some);
                            }
                        }
                        lemma_runs_before_monotone(locs, a2, a);
                        assert(run_start(locs, a2));
                        assert(out@[runs_before(locs, a2) as int] == before[runs_before(locs, a2) as int]);
                    }
                }
                assert forall|k: int| 0 <= k < out@.len() implies #[trigger] is_group_at(locs, out@, k) by {
                    if k < before.len() {
                        assert(is_group_at(locs, before, k));
                        let (a2, b2) = choose|a2: int, b2: int| #[trigger] is_run(locs, a2, b2)
                            && runs_before(locs, a2) == k && before[k] == run_group(locs, a2, b2);
                        assert(is_run(locs, a2, b2));
                    } else {
                        assert(is_run(locs, a, b));
                    }
                }
            }
        },
        None => {
            proof {
                assert forall|a2: int, b2: int| #[trigger] is_run(locs, a2, b2) implies out@[runs_before(locs, a2) as int]
                    == run_group(locs, a2, b2) by {
                    assert(b2 + 1 < locs.len());
                }
            }
        },
    }
    out
}


/// A run holds exactly one run start.
pub proof fn lemma_run_count(locs: Seq<Option<usize>>, a: int, b: int)
    requires
        0 <= a <= b < locs.len(),
        run_start(locs, a),
        forall|j: int| a <= j <= b ==> #[trigger] locs[j] is Some,
    ensures
        runs_before(locs, b + 1) == runs_before(locs, a) + 1,
    decreases b - a,
{
    if b > a {
        lemma_run_count(locs, a, b - 1);
        assert(locs[b - 1] is Some);
        assert(!run_start(locs, b));
    }
}

/// A located version lies in a run.
pub proof fn lemma_run_around(locs: Seq<Option<usize>>, k: int) -> (ab: (int, int))
    requires
        0 <= k < locs.len(),
        locs[k] is Some,
    ensures
        is_run(locs, ab.0, ab.1),
        ab.0 <= k <= ab.1,
{
    let a = lemma_run_start_before(locs, k);
    let b = lemma_run_end_after(locs, k);
    assert forall|j: int| a <= j <= b implies #[trigger] locs[j] is Some by {
        if j < k {
            assert(locs[j] is Some);
        }
    }
    (a, b)
}

/// The first position of the run holding the located position `k`.
proof fn lemma_run_start_before(locs: Seq<Option<usize>>, k: int) -> (a: int)
    requires
        0 <= k < locs.len(),
        locs[k] is Some,
    ensures
        0 <= a <= k,
        a == 0 || locs[a - 1] is None,
        forall|j: int| a <= j <= k ==> #[trigger] locs[j] is Some,
    decreases k,
{
    if k == 0 || locs[k - 1] is None {
        k
    } else {
        lemma_run_start_before(locs, k - 1)
    }
}

/// The last position of the run holding the located position `k`.
proof fn lemma_run_end_after(locs: Seq<Option<usize>>, k: int) -> (b: int)
    requires
        0 <= k < locs.len(),
        locs[k] is Some,
    ensures
        k <= b < locs.len(),
        b == locs.len() - 1 || locs[b + 1] is None,
        forall|j: int| k <= j <= b ==> #[trigger] locs[j] is Some,
    decreases locs.len() - k,
{
    if k == locs.len() - 1 || locs[k + 1] is None {
        k
    } else {
        lemma_run_end_after(locs, k + 1)
    }
}

/// The segment kept for a pair of segment locations: from the start of the
/// first to the end of the second, open where a location is missing.
pub open spec fn kept_segment<V: Ranked>(s: Seq<Interval<V>>, g: (Option<usize>, Option<usize>)) -> Interval<V> {
    (
        match g.0 {
            Some(i) => s[i as int].0,
            None => Bound::Unbounded,
        },
        match g.1 {
            Some(i) => s[i as int].1,
            None => Bound::Unbounded,
        },
    )
}

/// Pairs of segment locations that make well formed segments: in range,
/// ordered, apart from each other, and open only at the two ends.
pub open spec fn kept_ok<V: Ranked>(s: Seq<Interval<V>>, kept: Seq<(Option<usize>, Option<usize>)>) -> bool {
    &&& forall|k: int| 0 <= k < kept.len() && (#[trigger] kept[k]).0 is Some ==> kept[k].0->0 < s.len()
    &&& forall|k: int| 0 <= k < kept.len() && (#[trigger] kept[k]).1 is Some ==> kept[k].1->0 < s.len()
    &&& forall|k: int| 0 < k < kept.len() ==> (#[trigger] kept[k]).0 is Some
    &&& forall|k: int| 0 <= k < kept.len() - 1 ==> (#[trigger] kept[k]).1 is Some
    &&& forall|k: int| 0 <= k < kept.len() && (#[trigger] kept[k]).0 is Some && kept[k].1 is Some
        ==> kept[k].0->0 <= kept[k].1->0
    &&& forall|j: int, k: int| 0 <= j < k < kept.len() ==> (#[trigger] kept[j]).1->0 < (#[trigger] kept[k]).0->0
}

/// Before the last pair, the end location of the `k`th pair is at least `k`.
proof fn lemma_kept_index_grows<V: Ranked>(s: Seq<Interval<V>>, kept: Seq<(Option<usize>, Option<usize>)>, k: int)
    requires
        kept_ok(s, kept),
        0 <= k < kept.len() - 1,
    ensures
        kept[k].1->0 >= k,
    decreases k,
{
    if k > 0 {
        lemma_kept_index_grows(s, kept, k - 1);
        assert(kept[k - 1].1->0 < kept[k].0->0);
        assert(kept[k].0 is Some && kept[k].1 is Some);
    }
}

/// Well formed pairs of segment locations are no more than the segments.
proof fn lemma_kept_count<V: Ranked>(s: Seq<Interval<V>>, kept: Seq<(Option<usize>, Option<usize>)>)
    requires
        kept_ok(s, kept),
        s.len() > 0,
    ensures
        kept.len() <= s.len(),
{
    let n = kept.len();
    if n > 1 {
        lemma_kept_index_grows(s, kept, n - 2);
        assert(kept[n - 2].1->0 < kept[n - 1].0->0);
        assert(kept[n - 1].0 is Some);
    }
}

impl<V: Ranked> Ranges<V> {
    /// Create a new range with a subset of segments at given location bounds.
    ///
    /// Each new segment is constructed from a pair of segments, taking the
    /// start of the first and the end of the second.
    fn keep_segments(&self, kept: &[(Option<usize>, Option<usize>)]) -> (r: Ranges<V>)
        requires
            kept_ok(self.segs(), kept@),
        ensures
            r.segs() == kept@.map_values(|g: (Option<usize>, Option<usize>)| kept_segment(self.segs(), g)),
    {
        let segs = self.segments_wf();
        let ghost s = self.segs();
        let ghost want = kept@.map_values(|g: (Option<usize>, Option<usize>)| kept_segment(s, g));
        let mut out: SmallVec<Interval<V>> = SmallVec::empty();
        let mut k: usize = 0;
        while k < kept.len()
            invariant
                0 <= k <= kept@.len(),
                segs@ == s,
                s == self.segs(),
                segs_wf(s),
                kept_ok(s, kept@),
                want == kept@.map_values(|g: (Option<usize>, Option<usize>)| kept_segment(s, g)),
                out.canonical(),
                segs_wf(out@),
                out@ == want.subrange(0, k as int),
            decreases kept@.len() - k,
        {
            let (first, second) = kept[k];
            let start = match first {
                Some(i) => segs[i].0,
                None => Bound::Unbounded,
            };
            let end = match second {
                Some(i) => segs[i].1,
                None => Bound::Unbounded,
            };
            let ghost old_out = out@;
            proof {
                assert(kept@[k as int] == (first, second));
                assert((start, end) == want[k as int]);
                if first is Some && second is Some {
                    let i = first->0 as int;
                    let e = second->0 as int;
                    assert(valid_seg(s[e]));
                    if i < e {
                        lemma_segs_order(s, i, e);
                    } else {
                        assert(valid_seg(s[i]));
                    }
                }
                assert(valid_seg((start, end)));
            }
            out.push((start, end));
            proof {
                lemma_prefix_push(want, k as int);
                assert forall|a: int, b: int| 0 <= a < b < out@.len() implies #[trigger] gap(out@[a].1, out@[b].0) by {
                    if b < out@.len() - 1 {
                        assert(gap(old_out[a].1, old_out[b].0));
                    } else {
                        assert(out@[a] == want[a]);
                        let ea = kept@[a].1->0 as int;
                        let sb = kept@[b].0->0 as int;
                        assert(kept@[a].1 is Some);
                        assert(kept@[b].0 is Some);
                        assert(ea < sb);
                        assert(gap(s[ea].1, s[sb].0));
                    }
                }
                assert forall|a: int| 0 <= a < out@.len() implies #[trigger] valid_seg(out@[a]) by {
                    if a < out@.len() - 1 {
                        assert(valid_seg(old_out[a]));
                    }
                }
            }
            k = k + 1;
        }
        proof {
            assert(want.subrange(0, kept@.len() as int) =~= want);
        }
        Self::from_segments(out)
    }

    /// Returns a simpler representation that contains the same versions.
    ///
    /// For every one of the Versions provided in versions the existing range and the simplified range will agree on whether it is contained.
    /// The simplified version may include or exclude versions that are not in versions as the implementation wishes.
    ///
    /// If none of the versions are contained in the original than the range will be returned unmodified.
    /// If the range includes a single version, it will be returned unmodified.
    /// If all the versions are contained in the original than the range will be simplified to `full`.
    ///
    /// The given versions must be sorted.
    pub fn simplify(&self, versions: &[V]) -> (r: Self)
        requires
            sorted_versions(versions@),
        ensures
            segs_wf(r.segs()),
            forall|k: int| 0 <= k < versions@.len() ==> #[trigger] r.contains_spec(versions@[k])
                == self.contains_spec(versions@[k]),
            (forall|k: int| 0 <= k < versions@.len() ==> !#[trigger] self.contains_spec(versions@[k]))
                ==> r.segs() == self.segs(),
            (self.segs().len() == 1 && self.segs()[0].0 is Included && self.segs()[0].1 == self.segs()[0].0)
                ==> r.segs() == self.segs(),
            versions@.len() > 0 && (forall|k: int| 0 <= k < versions@.len() ==> #[trigger] self.contains_spec(versions@[k]))
                && !(self.segs().len() == 1 && self.segs()[0].0 is Included && self.segs()[0].1 == self.segs()[0].0)
                ==> r.segs() == seq![(Bound::<V>::Unbounded, Bound::<V>::Unbounded)],
            r.segs().len() <= self.segs().len(),
    {
        // Do not simplify singletons
        if self.as_singleton().is_some() {
            return self.clone();
        }
        let _ = self.segments_wf();
        // Return the segment index in the range for each version in the range, None otherwise
        let locations = self.locate_all(versions);
        let kept = group_adjacent_locations(locations.as_slice());
        // Do not return null sets
        if kept.len() == 0 {
            proof {
                assert forall|k: int| 0 <= k < versions@.len() implies !#[trigger] self.contains_spec(versions@[k]) by {
                    assert(locations@[k] is None);
                }
            }
            return self.clone();
        }
        proof {
            self.lemma_kept_ok(versions@, locations@, kept@);
            let j = choose|j: int| 0 <= j < locations@.len() && !(#[trigger] locations@[j] is None);
            assert(locations@[j]->0 < self.segs().len());
            lemma_kept_count(self.segs(), kept@);
        }
        let r = self.keep_segments(kept.as_slice());
        proof {
            self.lemma_simplify_agrees(versions@, locations@, kept@, r);
            let locs = locations@;
            if forall|k: int| 0 <= k < versions@.len() ==> #[trigger] self.contains_spec(versions@[k]) {
                let n = locs.len() - 1;
                assert forall|j: int| 0 <= j <= n implies #[trigger] locs[j] is Some by {
                    assert(self.contains_spec(versions@[j]));
                }
                assert(is_run(locs, 0, n));
                lemma_run_count(locs, 0, n);
                assert(kept@[0] == run_group(locs, 0, n));
                assert(r.segs() =~= seq![(Bound::<V>::Unbounded, Bound::<V>::Unbounded)]);
            }
            use_type_invariant(&r);
        }
        r
    }

    /// Segment locations of sorted versions never go down, and go strictly
    /// up across a version that no segment holds.
    proof fn lemma_locations_order(&self, versions: Seq<V>, locs: Seq<Option<usize>>, j: int, k: int)
        requires
            segs_wf(self.segs()),
            sorted_versions(versions),
            locs.len() == versions.len(),
            forall|i: int| 0 <= i < versions.len() ==> (#[trigger] locs[i] is Some) == self.contains_spec(versions[i]),
            forall|i: int| 0 <= i < versions.len() && #[trigger] locs[i] is Some ==> locs[i]->0 < self.segs().len()
                && seg_has(self.segs()[locs[i]->0 as int], point(versions[i])),
            0 <= j <= k < locs.len(),
            locs[j] is Some,
            locs[k] is Some,
        ensures
            locs[j]->0 <= locs[k]->0,
            (exists|m: int| j < m < k && #[trigger] locs[m] is None) ==> locs[j]->0 < locs[k]->0,
    {
        let s = self.segs();
        let mj = locs[j]->0 as int;
        let mk = locs[k]->0 as int;
        assert(versions[j].rank() <= versions[k].rank());
        if mk < mj {
            lemma_segs_order(s, mk, mj);
        }
        if exists|m: int| j < m < k && #[trigger] locs[m] is None {
            let m = choose|m: int| j < m < k && #[trigger] locs[m] is None;
            assert(versions[j].rank() <= versions[m].rank());
            assert(versions[m].rank() <= versions[k].rank());
            if mj == mk {
                assert(seg_has(s[mj], point(versions[m])));
                assert(self.contains_spec(versions[m]));
            }
        }
    }

    /// The groups of located versions make well formed segments.
    proof fn lemma_kept_ok(
        &self,
        versions: Seq<V>,
        locs: Seq<Option<usize>>,
        kept: Seq<(Option<usize>, Option<usize>)>,
    )
        requires
            segs_wf(self.segs()),
            sorted_versions(versions),
            locs.len() == versions.len(),
            forall|i: int| 0 <= i < versions.len() ==> (#[trigger] locs[i] is Some) == self.contains_spec(versions[i]),
            forall|i: int| 0 <= i < versions.len() && #[trigger] locs[i] is Some ==> locs[i]->0 < self.segs().len()
                && seg_has(self.segs()[locs[i]->0 as int], point(versions[i])),
            kept.len() == runs_before(locs, locs.len() as int),
            forall|k: int| 0 <= k < kept.len() ==> #[trigger] is_group_at(locs, kept, k),
        ensures
            kept_ok(self.segs(), kept),
    {
        let s = self.segs();
        assert forall|k: int| 0 <= k < kept.len() implies {
            &&& (#[trigger] kept[k]).0 is Some ==> kept[k].0->0 < s.len()
            &&& kept[k].1 is Some ==> kept[k].1->0 < s.len()
            &&& k > 0 ==> kept[k].0 is Some
            &&& k < kept.len() - 1 ==> kept[k].1 is Some
            &&& kept[k].0 is Some && kept[k].1 is Some ==> kept[k].0->0 <= kept[k].1->0
        } by {
            assert(is_group_at(locs, kept, k));
            let (a, b) = choose|a: int, b: int| #[trigger] is_run(locs, a, b) && runs_before(locs, a) == k
                && kept[k] == run_group(locs, a, b);
            assert(locs[a] is Some);
            assert(locs[b] is Some);
            lemma_run_count(locs, a, b);
            lemma_runs_before_monotone(locs, b + 1, locs.len() as int);
            if a > 0 && b < locs.len() - 1 {
                self.lemma_locations_order(versions, locs, a, b);
            }
        }
        assert forall|j: int, k: int| 0 <= j < k < kept.len() implies (#[trigger] kept[j]).1->0 < (#[trigger] kept[k]).0->0 by {
            assert(is_group_at(locs, kept, j));
            assert(is_group_at(locs, kept, k));
            let (a1, b1) = choose|a: int, b: int| #[trigger] is_run(locs, a, b) && runs_before(locs, a) == j
                && kept[j] == run_group(locs, a, b);
            let (a2, b2) = choose|a: int, b: int| #[trigger] is_run(locs, a, b) && runs_before(locs, a) == k
                && kept[k] == run_group(locs, a, b);
            assert(locs[a1] is Some);
            assert(locs[a2] is Some);
            assert(locs[b1] is Some);
            if a2 <= a1 {
                lemma_runs_before_monotone(locs, a2, a1);
            }
            assert(a1 < a2);
            if a2 <= b1 {
                assert(locs[a2 - 1] is Some);
            }
            assert(b1 + 1 < a2);
            assert(locs[b1 + 1] is None);
            self.lemma_locations_order(versions, locs, b1, a2);
        }
    }

    /// The segments kept from the groups of located versions hold the given
    /// versions that the range holds, and no other of them.
    proof fn lemma_simplify_agrees(
        &self,
        versions: Seq<V>,
        locs: Seq<Option<usize>>,
        kept: Seq<(Option<usize>, Option<usize>)>,
        r: Self,
    )
        requires
            segs_wf(self.segs()),
            sorted_versions(versions),
            locs.len() == versions.len(),
            forall|i: int| 0 <= i < versions.len() ==> (#[trigger] locs[i] is Some) == self.contains_spec(versions[i]),
            forall|i: int| 0 <= i < versions.len() && #[trigger] locs[i] is Some ==> locs[i]->0 < self.segs().len()
                && seg_has(self.segs()[locs[i]->0 as int], point(versions[i])),
            kept.len() == runs_before(locs, locs.len() as int),
            forall|a: int, b: int| #[trigger] is_run(locs, a, b) ==> kept[runs_before(locs, a) as int]
                == run_group(locs, a, b),
            forall|k: int| 0 <= k < kept.len() ==> #[trigger] is_group_at(locs, kept, k),
            kept_ok(self.segs(), kept),
            r.segs() == kept.map_values(|g: (Option<usize>, Option<usize>)| kept_segment(self.segs(), g)),
        ensures
            forall|k: int| 0 <= k < versions.len() ==> #[trigger] r.contains_spec(versions[k])
                == self.contains_spec(versions[k]),
    {
        let s = self.segs();
        assert forall|k: int| 0 <= k < versions.len() implies #[trigger] r.contains_spec(versions[k])
            == self.contains_spec(versions[k]) by {
            let p = point(versions[k]);
            if locs[k] is Some {
                let (a, b) = lemma_run_around(locs, k);
                let idx = runs_before(locs, a) as int;
                lemma_runs_before_monotone(locs, a, locs.len() as int);
                assert(run_start(locs, a));
                assert(kept[idx] == run_group(locs, a, b));
                let m = locs[k]->0 as int;
                assert(seg_has(s[m], p));
                if a > 0 {
                    self.lemma_locations_order(versions, locs, a, k);
                    let ma = locs[a]->0 as int;
                    if ma < m {
                        lemma_segs_order(s, ma, m);
                    }
                }
                if b < locs.len() - 1 {
                    self.lemma_locations_order(versions, locs, k, b);
                    let mb = locs[b]->0 as int;
                    if m < mb {
                        lemma_segs_order(s, m, mb);
                    }
                }
                assert(seg_has(r.segs()[idx], p));
                assert(r.has(p));
            } else {
                if r.has(p) {
                    let idx = choose|idx: int| 0 <= idx < r.segs().len() && #[trigger] seg_has(r.segs()[idx], p);
                    assert(is_group_at(locs, kept, idx));
                    let (a, b) = choose|a: int, b: int| #[trigger] is_run(locs, a, b) && runs_before(locs, a) == idx
                        && kept[idx] == run_group(locs, a, b);
                    assert(seg_has(kept_segment(s, kept[idx]), p));
                    if b < k {
                        assert(locs[b] is Some);
                        let mb = locs[b]->0 as int;
                        assert(versions[b].rank() <= versions[k].rank());
                        assert(seg_has(s[mb], point(versions[b])));
                        assert(seg_has(s[mb], p));
                        assert(self.has(p));
                    } else {
                        assert(k < a);
                        assert(locs[a] is Some);
                        let ma = locs[a]->0 as int;
                        assert(versions[k].rank() <= versions[a].rank());
                        assert(seg_has(s[ma], point(versions[a])));
                        assert(seg_has(s[ma], p));
                        assert(self.has(p));
                    }
                }
            }
        }
    }
}


/// The start bound `a` comes strictly before the start bound `b`.
pub open spec fn start_lt<V: Ranked>(a: Bound<V>, b: Bound<V>) -> bool {
    !start_le(b, a)
}

/// The points of two lists of segments put one after the other.
pub proof fn lemma_segs_has_concat<V: Ranked>(a: Seq<Interval<V>>, b: Seq<Interval<V>>)
    ensures
        forall|x: int| #[trigger] segs_has(a + b, x) == (segs_has(a, x) || segs_has(b, x)),
{
    assert forall|x: int| #[trigger] segs_has(a + b, x) == (segs_has(a, x) || segs_has(b, x)) by {
        if segs_has(a, x) {
            let i = choose|i: int| 0 <= i < a.len() && #[trigger] seg_has(a[i], x);
            assert((a + b)[i] == a[i]);
        }
        if segs_has(b, x) {
            let i = choose|i: int| 0 <= i < b.len() && #[trigger] seg_has(b[i], x);
            assert((a + b)[a.len() + i] == b[i]);
        }
        if segs_has(a + b, x) {
            let i = choose|i: int| 0 <= i < (a + b).len() && #[trigger] seg_has((a + b)[i], x);
            if i < a.len() {
                assert((a + b)[i] == a[i]);
            } else {
                assert((a + b)[i] == b[i - a.len()]);
            }
        }
    }
}

/// Replacing the segments from `lo` to `hi` by a segment `m` that holds
/// them and `seg`, and no more, adds the points of `seg`, and keeps the
/// segments well formed where `m` is apart from its neighbours.
pub proof fn lemma_splice<V: Ranked>(old: Seq<Interval<V>>, lo: int, hi: int, m: Interval<V>, seg: Interval<V>)
    requires
        segs_wf(old),
        0 <= lo <= hi <= old.len(),
        valid_seg(m),
        lo > 0 ==> gap(old[lo - 1].1, m.0),
        hi < old.len() ==> gap(m.1, old[hi].0),
        forall|x: int| #[trigger] seg_has(m, x) == (seg_has(seg, x) || segs_has(old.subrange(lo, hi), x)),
    ensures
        segs_wf(old.subrange(0, lo) + seq![m] + old.subrange(hi, old.len() as int)),
        forall|x: int| #[trigger] segs_has(old.subrange(0, lo) + seq![m] + old.subrange(hi, old.len() as int), x)
            == (segs_has(old, x) || seg_has(seg, x)),
{
    let n = old.len() as int;
    let pre = old.subrange(0, lo);
    let mid = old.subrange(lo, hi);
    let suf = old.subrange(hi, n);
    let fin = pre + seq![m] + suf;
    lemma_segs_has_concat(pre, seq![m]);
    lemma_segs_has_concat(pre + seq![m], suf);
    lemma_segs_has_one(m);
    lemma_segs_has_concat(pre, mid);
    lemma_segs_has_concat(pre + mid, suf);
    assert(old =~= pre + mid + suf);
    assert forall|i: int| 0 <= i < fin.len() implies #[trigger] valid_seg(fin[i]) by {
        if i < lo {
            assert(fin[i] == old[i]);
        } else if i > lo {
            assert(fin[i] == old[i - lo - 1 + hi]);
        }
    }
    assert forall|i: int, j: int| 0 <= i < j < fin.len() implies #[trigger] gap(fin[i].1, fin[j].0) by {
        if j < lo {
            assert(fin[i] == old[i] && fin[j] == old[j]);
        } else if j == lo {
            assert(fin[i] == old[i]);
            if i < lo - 1 {
                lemma_segs_order(old, i, lo - 1);
            }
        } else if i > lo {
            assert(fin[i] == old[i - lo - 1 + hi] && fin[j] == old[j - lo - 1 + hi]);
        } else if i == lo {
            assert(fin[j] == old[j - lo - 1 + hi]);
            if j - lo - 1 + hi > hi {
                lemma_segs_order(old, hi, j - lo - 1 + hi);
            }
        } else {
            assert(fin[i] == old[i]);
            assert(fin[j] == old[j - lo - 1 + hi]);
            assert(gap(old[i].1, old[j - lo - 1 + hi].0));
        }
    }
}

/// Where a segment starting at `start` goes in well formed segments: after
/// the ones starting strictly before it.
fn insertion_point<V: Ranked>(segments: &Vec<Interval<V>>, start: &Bound<V>) -> (r: usize)
    requires
        segs_wf(segments@),
    ensures
        r <= segments@.len(),
        forall|k: int| 0 <= k < r ==> #[trigger] start_lt(segments@[k].0, *start),
        forall|k: int| r <= k < segments@.len() ==> !#[trigger] start_lt(segments@[k].0, *start),
{
    let ghost s = segments@;
    let mut lo: usize = 0;
    let mut hi: usize = segments.len();
    while lo < hi
        invariant
            0 <= lo <= hi <= s.len(),
            segments@ == s,
            segs_wf(s),
            forall|k: int| 0 <= k < lo ==> #[trigger] start_lt(s[k].0, *start),
            forall|k: int| hi <= k < s.len() ==> !#[trigger] start_lt(s[k].0, *start),
        decreases hi - lo,
    {
        let mid = lo + (hi - lo) / 2;
        if !left_start_is_smaller(start, &segments[mid].0) {
            proof {
                assert forall|k: int| 0 <= k <= mid implies #[trigger] start_lt(s[k].0, *start) by {
                    if k < mid {
                        lemma_segs_order(s, k, mid as int);
                    }
                }
            }
            lo = mid + 1;
        } else {
            proof {
                assert forall|k: int| mid <= k < s.len() implies !#[trigger] start_lt(s[k].0, *start) by {
                    if k > mid {
                        lemma_segs_order(s, mid as int, k);
                    }
                }
            }
            hi = mid;
        }
    }
    lo
}

impl<V: Ranked> Ranges<V> {
    /// Constructor from arbitrary, unsorted and potentially overlapping ranges.
    ///
    /// This is equivalent, but faster, to computing the [`Ranges::union`] of the
    /// [`Ranges::from_range_bounds`] of each segment.
    pub fn from_iter(iter: &[Interval<V>]) -> (r: Self)
        ensures
            segs_wf(r.segs()),
            forall|x: int| #[trigger] r.has(x) == segs_has(iter@, x),
    {
        // We have three constraints we need to fulfil:
        // 1. The segments are sorted, from lowest to highest: By sorting.
        // 2. Each segment contains at least one version (start < end): By skipping invalid
        //    segments.
        // 3. There is at least one version between two segments: By merging overlapping elements.
        let mut segments: Vec<Interval<V>> = Vec::new();
        let mut n: usize = 0;
        while n < iter.len()
            invariant
                0 <= n <= iter@.len(),
                segs_wf(segments@),
                forall|x: int| #[trigger] segs_has(segments@, x) == segs_has(iter@.subrange(0, n as int), x),
            decreases iter@.len() - n,
        {
            let segment = iter[n];
            let ghost old = segments@;
            proof {
                lemma_prefix_push(iter@, n as int);
                lemma_segs_has_push(iter@.subrange(0, n as int), segment);
            }
            if valid_segment(&segment.0, &segment.1) {
                Self::insert_segment(&mut segments, segment);
            }
            n = n + 1;
        }
        proof {
            assert(iter@.subrange(0, iter@.len() as int) =~= iter@);
        }
        let mut out: SmallVec<Interval<V>> = SmallVec::empty();
        let mut i: usize = 0;
        while i < segments.len()
            invariant
                0 <= i <= segments@.len(),
                out@ == segments@.subrange(0, i as int),
                out.canonical(),
            decreases segments@.len() - i,
        {
            out.push(segments[i]);
            i = i + 1;
            assert(out@ =~= segments@.subrange(0, i as int));
        }
        proof {
            assert(segments@.subrange(0, segments@.len() as int) =~= segments@);
        }
        Self::from_segments(out)
    }

    /// Add the points of a valid segment to well formed segments, keeping
    /// them well formed.
    #[verifier::spinoff_prover]
    #[verifier::rlimit(40)]
    fn insert_segment(segments: &mut Vec<Interval<V>>, segment: Interval<V>)
        requires
            segs_wf(old(segments)@),
            valid_seg(segment),
        ensures
            segs_wf(final(segments)@),
            forall|x: int| #[trigger] segs_has(final(segments)@, x) == (segs_has(old(segments)@, x) || seg_has(segment, x)),
    {
        let ghost old = segments@;
        let ghost n = old.len() as int;
        // Find where to insert the new segment
        let insertion_point = insertion_point(segments, &segment.0);
        let ip = insertion_point;
        // Is it overlapping with the previous segment?
        let previous_overlapping = insertion_point > 0 && !end_before_start_with_gap(
            &segments[insertion_point - 1].1,
            &segment.0,
        );
        // Is it overlapping with the following segment? We'll check if there's more than one
        // overlap later.
        let next_overlapping = insertion_point < segments.len() && !end_before_start_with_gap(
            &segment.1,
            &segments[insertion_point].0,
        );
        proof {
            // Every segment from the insertion point on starts at or after the new one.
            assert forall|k: int| ip <= k < n implies #[trigger] start_le(segment.0, old[k].0) by {
                assert(!start_lt(old[k].0, segment.0));
            }
        }
        if previous_overlapping && next_overlapping {
            // previous:  |------|
            // segment:       |------|
            // following:          |------|
            // final:     |---------------|
            // We merge all three segments into one, which is effectively removing one of
            // two previously inserted and changing the bounds on the other.
            // Remove all elements covered by the final element
            let mut following = segments.remove(insertion_point);
            let ghost mut j: int = ip + 1;
            proof {
                assert(segments@ =~= old.subrange(0, ip as int) + old.subrange(j, n));
            }
            while insertion_point < segments.len() && !end_before_start_with_gap(
                &segment.1,
                &segments[insertion_point].0,
            )
                invariant
                    ip == insertion_point,
                    0 < ip < j <= n,
                    n == old.len(),
                    segments@ == old.subrange(0, ip as int) + old.subrange(j, n),
                    following == old[j - 1],
                    forall|k: int| ip <= k < j ==> !#[trigger] gap(segment.1, old[k].0),
                decreases n - j,
            {
                proof {
                    assert(segments@[ip as int] == old[j]);
                }
                following = segments.remove(insertion_point);
                proof {
                    j = j + 1;
                    assert(segments@ =~= old.subrange(0, ip as int) + old.subrange(j, n));
                }
            }
            // Set end to max(segment.end, <last overlapping segment>.end)
            let prev = segments[insertion_point - 1];
            let end = if !left_end_is_smaller(&following.1, &segment.1) {
                following.1
            } else {
                segment.1
            };
            let merged = (prev.0, end);
            segments.set(insertion_point - 1, merged);
            proof {
                let lo = ip - 1;
                assert(prev == old[lo]);
                assert(j < n ==> segments@[ip as int] == old[j]);
                assert(j < n ==> gap(segment.1, old[j].0));
                assert(j < n ==> gap(following.1, old[j].0)) by {
                    if j < n {
                        assert(gap(old[j - 1].1, old[j].0));
                    }
                }
                if lo > 0 {
                    assert(gap(old[lo - 1].1, old[lo].0));
                }
                assert(valid_seg(prev));
                assert(valid_seg(following)) by {
                    assert(valid_seg(old[j - 1]));
                }
                assert(!gap(segment.1, old[j - 1].0));
                assert(!gap(old[lo].1, segment.0));
                assert(start_lt(old[lo].0, segment.0));
                lemma_segs_order(old, lo, ip as int);
                if j - 1 > ip {
                    lemma_segs_order(old, ip as int, j - 1);
                }
                // The segments merged hold the points between the start of the
                // previous one and the end of the last one overlapping.
                assert forall|x: int| #[trigger] seg_has(merged, x) == (seg_has(segment, x) || segs_has(
                    old.subrange(lo, j),
                    x,
                )) by {
                    let mid = old.subrange(lo, j);
                    assert(mid[0] == prev);
                    assert(mid[mid.len() - 1] == following);
                    if segs_has(mid, x) {
                        let k = choose|k: int| 0 <= k < mid.len() && #[trigger] seg_has(mid[k], x);
                        assert(mid[k] == old[lo + k]);
                        if lo + k > lo {
                            lemma_segs_order(old, lo, lo + k);
                        }
                        if lo + k < j - 1 {
                            lemma_segs_order(old, lo + k, j - 1);
                        }
                    }
                    if seg_has(merged, x) && !seg_has(segment, x) && !seg_has(prev, x) {
                        assert(seg_has(following, x));
                        assert(seg_has(mid[mid.len() - 1], x));
                    }
                    if seg_has(merged, x) && seg_has(prev, x) {
                        assert(seg_has(mid[0], x));
                    }
                }
                assert(segments@ =~= old.subrange(0, lo) + seq![merged] + old.subrange(j, n));
                lemma_splice(old, lo, j, merged, segment);
            }
        } else if previous_overlapping {
            // previous:  |------|
            // segment:       |------|
            // following:                |------|
            // final:     |----------|   |------|
            // We can reuse the existing element by extending it.
            let prev = segments[insertion_point - 1];
            // Set end to max(segment.end, <previous>.end)
            let end = if !left_end_is_smaller(&segment.1, &prev.1) {
                segment.1
            } else {
                prev.1
            };
            let merged = (prev.0, end);
            segments.set(insertion_point - 1, merged);
            proof {
                let lo = ip - 1;
                assert(prev == old[lo]);
                assert(valid_seg(prev));
                assert(!gap(old[lo].1, segment.0));
                assert(start_lt(old[lo].0, segment.0));
                if lo > 0 {
                    assert(gap(old[lo - 1].1, old[lo].0));
                }
                if ip < n {
                    assert(gap(old[lo].1, old[ip as int].0));
                }
                assert forall|x: int| #[trigger] seg_has(merged, x) == (seg_has(segment, x) || segs_has(
                    old.subrange(lo, ip as int),
                    x,
                )) by {
                    let mid = old.subrange(lo, ip as int);
                    assert(mid =~= seq![prev]);
                    lemma_segs_has_one(prev);
                }
                assert(segments@ =~= old.subrange(0, lo) + seq![merged] + old.subrange(ip as int, n));
                lemma_splice(old, lo, ip as int, merged, segment);
            }
        } else if next_overlapping {
            // previous:  |------|
            // segment:             |------|
            // following:               |------|
            // final:    |------|   |----------|
            // We can reuse the existing element by extending it.
            // Remove all fully covered segments so the next element is the last one that
            // overlaps.
            let ghost mut jj: int = ip as int;
            while insertion_point < segments.len() - 1 && !end_before_start_with_gap(
                &segment.1,
                &segments[insertion_point + 1].0,
            )
                invariant
                    ip == insertion_point,
                    0 <= ip <= jj < n,
                    ip < segments@.len(),
                    n == old.len(),
                    segments@ == old.subrange(0, ip as int) + old.subrange(jj, n),
                    forall|k: int| ip <= k <= jj ==> !#[trigger] gap(segment.1, old[k].0),
                decreases n - jj,
            {
                proof {
                    assert(segments@[ip + 1] == old[jj + 1]);
                }
                // We know that the one after also overlaps, so we can drop the current
                // following.
                segments.remove(insertion_point);
                proof {
                    jj = jj + 1;
                    assert(segments@ =~= old.subrange(0, ip as int) + old.subrange(jj, n));
                }
            }
            let last = segments[insertion_point];
            // Set end to max(segment.end, <last overlapping segment>.end)
            let end = if !left_end_is_smaller(&segment.1, &last.1) {
                segment.1
            } else {
                last.1
            };
            let merged = (segment.0, end);
            segments.set(insertion_point, merged);
            proof {
                let j = jj + 1;
                assert(last == old[jj]);
                assert(valid_seg(last));
                assert(!gap(segment.1, old[jj].0));
                assert(j < n ==> segments@[ip + 1] == old[j]);
                assert(j < n ==> gap(segment.1, old[j].0));
                assert(j < n ==> gap(last.1, old[j].0)) by {
                    if j < n {
                        assert(gap(old[jj].1, old[j].0));
                    }
                }
                if jj > ip {
                    lemma_segs_order(old, ip as int, jj);
                }
                assert forall|x: int| #[trigger] seg_has(merged, x) == (seg_has(segment, x) || segs_has(
                    old.subrange(ip as int, j),
                    x,
                )) by {
                    let mid = old.subrange(ip as int, j);
                    assert(mid[mid.len() - 1] == last);
                    if segs_has(mid, x) {
                        let k = choose|k: int| 0 <= k < mid.len() && #[trigger] seg_has(mid[k], x);
                        assert(mid[k] == old[ip + k]);
                        assert(start_le(segment.0, old[ip + k].0));
                        if ip + k < jj {
                            lemma_segs_order(old, ip + k, jj);
                        }
                    }
                    if seg_has(merged, x) && !seg_has(segment, x) {
                        assert(seg_has(last, x));
                        assert(seg_has(mid[mid.len() - 1], x));
                    }
                }
                assert(segments@ =~= old.subrange(0, ip as int) + seq![merged] + old.subrange(j, n));
                lemma_splice(old, ip as int, j, merged, segment);
            }
        } else {
            // previous:  |------|
            // segment:             |------|
            // following:                      |------|
            // final:    |------|   |------|   |------|
            segments.insert(insertion_point, segment);
            proof {
                assert forall|x: int| #[trigger] seg_has(segment, x) == (seg_has(segment, x) || segs_has(
                    old.subrange(ip as int, ip as int),
                    x,
                )) by {
                    assert(old.subrange(ip as int, ip as int).len() == 0);
                }
                assert(segments@ =~= old.subrange(0, ip as int) + seq![segment] + old.subrange(ip as int, n));
                lemma_splice(old, ip as int, ip as int, segment, segment);
            }
        }
    }
}


/// A bounded start bound is given back by its first point.
pub proof fn lemma_start_val_injective<V: Ranked>(a: Bound<V>, b: Bound<V>)
    requires
        !(a is Unbounded),
        !(b is Unbounded),
        start_val(a) == start_val(b),
    ensures
        a == b,
{
    match (a, b) {
        (Bound::Included(x), Bound::Included(y)) => V::lemma_rank_injective(x, y),
        (Bound::Excluded(x), Bound::Excluded(y)) => V::lemma_rank_injective(x, y),
        _ => {},
    }
}

/// A bounded end bound is given back by its last point.
pub proof fn lemma_end_val_injective<V: Ranked>(a: Bound<V>, b: Bound<V>)
    requires
        !(a is Unbounded),
        !(b is Unbounded),
        end_val(a) == end_val(b),
    ensures
        a == b,
{
    match (a, b) {
        (Bound::Included(x), Bound::Included(y)) => V::lemma_rank_injective(x, y),
        (Bound::Excluded(x), Bound::Excluded(y)) => V::lemma_rank_injective(x, y),
        _ => {},
    }
}

/// The points of well formed segments lie after the start of the first one.
pub proof fn lemma_points_after_start<V: Ranked>(s: Seq<Interval<V>>)
    requires
        segs_wf(s),
        s.len() > 0,
        !(s[0].0 is Unbounded),
    ensures
        forall|x: int| #[trigger] segs_has(s, x) ==> start_val(s[0].0) <= x,
{
    assert forall|x: int| #[trigger] segs_has(s, x) implies start_val(s[0].0) <= x by {
        let k = choose|k: int| 0 <= k < s.len() && #[trigger] seg_has(s[k], x);
        if k > 0 {
            lemma_segs_order(s, 0, k);
        }
    }
}

/// Well formed segments with the same points start with the same segment.
proof fn lemma_same_first_segment<V: Ranked>(s: Seq<Interval<V>>, t: Seq<Interval<V>>)
    requires
        segs_wf(s),
        segs_wf(t),
        s.len() > 0,
        t.len() > 0,
        forall|x: int| #[trigger] segs_has(s, x) == segs_has(t, x),
    ensures
        s[0] == t[0],
{
    let a = s[0];
    let b = t[0];
    assert(valid_seg(a));
    assert(valid_seg(b));
    assert forall|x: int| seg_has(a, x) implies #[trigger] segs_has(s, x) by {}
    assert forall|x: int| seg_has(b, x) implies #[trigger] segs_has(t, x) by {}
    // The starts.
    if !(a.0 is Unbounded) {
        lemma_points_after_start(s);
    }
    if !(b.0 is Unbounded) {
        lemma_points_after_start(t);
    }
    if a.0 is Unbounded && !(b.0 is Unbounded) {
        let y = start_val(b.0);
        let x = if !(a.1 is Unbounded) && end_val(a.1) < y - 1 { end_val(a.1) } else { y - 1 };
        assert(seg_has(a, x));
        assert(segs_has(s, x));
        assert(segs_has(t, x));
        assert(false);
    }
    if b.0 is Unbounded && !(a.0 is Unbounded) {
        let y = start_val(a.0);
        let x = if !(b.1 is Unbounded) && end_val(b.1) < y - 1 { end_val(b.1) } else { y - 1 };
        assert(seg_has(b, x));
        assert(segs_has(t, x));
        assert(segs_has(s, x));
        assert(false);
    }
    if !(a.0 is Unbounded) && !(b.0 is Unbounded) {
        let ya = start_val(a.0);
        let yb = start_val(b.0);
        assert(seg_has(a, ya));
        assert(seg_has(b, yb));
        assert(segs_has(s, ya));
        assert(segs_has(t, yb));
        assert(segs_has(t, ya));
        assert(segs_has(s, yb));
        assert(yb <= ya);
        assert(ya <= yb);
        lemma_start_val_injective(a.0, b.0);
    }
    assert(a.0 == b.0);
    // The ends.
    if s.len() > 1 {
        lemma_segs_order(s, 0, 1);
    }
    if t.len() > 1 {
        lemma_segs_order(t, 0, 1);
    }
    assert forall|x: int| #[trigger] segs_has(s, x) && !(a.1 is Unbounded) && x > end_val(a.1) implies x > end_val(a.1) + 1 by {
        let k = choose|k: int| 0 <= k < s.len() && #[trigger] seg_has(s[k], x);
        if k > 0 {
            lemma_segs_order(s, 0, k);
        }
    }
    assert forall|x: int| #[trigger] segs_has(t, x) && !(b.1 is Unbounded) && x > end_val(b.1) implies x > end_val(b.1) + 1 by {
        let k = choose|k: int| 0 <= k < t.len() && #[trigger] seg_has(t[k], x);
        if k > 0 {
            lemma_segs_order(t, 0, k);
        }
    }
    if a.1 is Unbounded && !(b.1 is Unbounded) {
        let x = end_val(b.1) + 1;
        assert(seg_has(a, x));
        assert(segs_has(s, x));
        assert(segs_has(t, x));
        assert(false);
    }
    if b.1 is Unbounded && !(a.1 is Unbounded) {
        let x = end_val(a.1) + 1;
        assert(seg_has(b, x));
        assert(segs_has(t, x));
        assert(segs_has(s, x));
        assert(false);
    }
    if !(a.1 is Unbounded) && !(b.1 is Unbounded) {
        if end_val(a.1) < end_val(b.1) {
            let x = end_val(a.1) + 1;
            assert(seg_has(b, x));
            assert(segs_has(t, x));
            assert(segs_has(s, x));
            assert(false);
        }
        if end_val(b.1) < end_val(a.1) {
            let x = end_val(b.1) + 1;
            assert(seg_has(a, x));
            assert(segs_has(s, x));
            assert(segs_has(t, x));
            assert(false);
        }
        lemma_end_val_injective(a.1, b.1);
    }
}

/// Well formed segments are given by their points.
pub proof fn lemma_points_determine_segs<V: Ranked>(s: Seq<Interval<V>>, t: Seq<Interval<V>>)
    requires
        segs_wf(s),
        segs_wf(t),
        forall|x: int| #[trigger] segs_has(s, x) == segs_has(t, x),
    ensures
        s == t,
    decreases s.len(),
{
    if s.len() == 0 || t.len() == 0 {
        if s.len() > 0 {
            assert(valid_seg(s[0]));
            let x = Ranges::<V>::some_point(s[0]);
            assert(seg_has(s[0], x));
            assert(segs_has(s, x));
            assert(segs_has(t, x));
            assert(false);
        }
        if t.len() > 0 {
            assert(valid_seg(t[0]));
            let x = Ranges::<V>::some_point(t[0]);
            assert(seg_has(t[0], x));
            assert(segs_has(t, x));
            assert(segs_has(s, x));
            assert(false);
        }
        assert(s =~= t);
    } else {
        lemma_same_first_segment(s, t);
        let s2 = s.subrange(1, s.len() as int);
        let t2 = t.subrange(1, t.len() as int);
        lemma_wf_subrange(s, 1, s.len() as int);
        lemma_wf_subrange(t, 1, t.len() as int);
        assert forall|x: int| #[trigger] segs_has(s2, x) == segs_has(t2, x) by {
            lemma_rest_points(s, x);
            lemma_rest_points(t, x);
        }
        lemma_points_determine_segs(s2, t2);
        assert(s =~= seq![s[0]] + s2);
        assert(t =~= seq![t[0]] + t2);
    }
}

/// The points of the segments after the first one are the points not in the first one.
proof fn lemma_rest_points<V: Ranked>(s: Seq<Interval<V>>, x: int)
    requires
        segs_wf(s),
        s.len() > 0,
    ensures
        segs_has(s.subrange(1, s.len() as int), x) == (segs_has(s, x) && !seg_has(s[0], x)),
{
    let t = s.subrange(1, s.len() as int);
    if segs_has(t, x) {
        let k = choose|k: int| 0 <= k < t.len() && #[trigger] seg_has(t[k], x);
        assert(t[k] == s[k + 1]);
        lemma_segs_order(s, 0, k + 1);
        assert(seg_has(s[k + 1], x));
    }
    if segs_has(s, x) && !seg_has(s[0], x) {
        let k = choose|k: int| 0 <= k < s.len() && #[trigger] seg_has(s[k], x);
        assert(k > 0);
        assert(t[k - 1] == s[k]);
    }
}

/// Where a version lies with respect to a segment.
#[derive(Debug, Clone, Copy, PartialEq, Eq, Structural)]
pub enum Location {
    /// Before the start of the segment.
    Less,
    /// Inside the segment.
    Equal,
    /// After the end of the segment.
    Greater,
}

/// The ordering of the version wrt to the interval.
/// ```text
///      |-------|
///   ^      ^      ^
///   less   equal  greater
/// ```
pub fn within_bounds<V: Ranked>(version: &V, segment: &Interval<V>) -> (r: Location)
    ensures
        r == Location::Less <==> !above_start(segment.0, point(*version)),
        r == Location::Equal <==> seg_has(*segment, point(*version)),
        r == Location::Greater <==> above_start(segment.0, point(*version)) && !below_end(
            segment.1,
            point(*version),
        ),
{
    let below_lower_bound = match &segment.0 {
        Bound::Excluded(start) => version.rank_le(start),
        Bound::Included(start) => version.rank_lt(start),
        Bound::Unbounded => false,
    };
    if below_lower_bound {
        return Location::Less;
    }
    let below_upper_bound = match &segment.1 {
        Bound::Unbounded => true,
        Bound::Included(end) => version.rank_le(end),
        Bound::Excluded(end) => version.rank_lt(end),
    };
    if below_upper_bound {
        return Location::Equal;
    }
    Location::Greater
}

/// A valid segment is one where at least one version fits between start and end.
pub fn valid_segment<V: Ranked>(start: &Bound<V>, end: &Bound<V>) -> (r: bool)
    ensures
        r == valid_seg((*start, *end)),
{
    match (start, end) {
        // Singleton interval are allowed
        (Bound::Included(s), Bound::Included(e)) => s.rank_le(e),
        (Bound::Included(s), Bound::Excluded(e)) => s.rank_lt(e),
        (Bound::Excluded(s), Bound::Included(e)) => s.rank_lt(e),
        (Bound::Excluded(s), Bound::Excluded(e)) => s.rank_lt(e),
        (Bound::Unbounded, _) | (_, Bound::Unbounded) => true,
    }
}

/// The end of one interval is before the start of the next one, so they can't be concatenated
/// into a single interval. The `union` method calling with both intervals and then the intervals
/// switched. If either is true, the intervals are separate in the union and if both are false, they
/// are merged.
/// ```text
/// True for these two:
///  |----|
///                |-----|
///       ^ end    ^ start
/// False for these two:
///  |----|
///     |-----|
/// Here it depends: If they both exclude the position they share, there is a version in between
/// them that blocks concatenation
///  |----|
///       |-----|
/// ```
pub fn end_before_start_with_gap<V: Ranked>(end: &Bound<V>, start: &Bound<V>) -> (r: bool)
    ensures
        r == gap(*end, *start),
{
    match (end, start) {
        (_, Bound::Unbounded) => false,
        (Bound::Unbounded, _) => false,
        (Bound::Included(left), Bound::Included(right)) => left.rank_lt(right),
        (Bound::Included(left), Bound::Excluded(right)) => left.rank_lt(right),
        (Bound::Excluded(left), Bound::Included(right)) => left.rank_lt(right),
        (Bound::Excluded(left), Bound::Excluded(right)) => left.rank_le(right),
    }
}

/// Whether the start bound `left` comes at or before the start bound `right`.
pub fn left_start_is_smaller<V: Ranked>(left: &Bound<V>, right: &Bound<V>) -> (r: bool)
    ensures
        r == start_le(*left, *right),
{
    match (left, right) {
        (Bound::Unbounded, _) => true,
        (_, Bound::Unbounded) => false,
        (Bound::Included(l), Bound::Included(r)) => l.rank_le(r),
        (Bound::Excluded(l), Bound::Excluded(r)) => l.rank_le(r),
        (Bound::Included(l), Bound::Excluded(r)) => l.rank_le(r),
        (Bound::Excluded(l), Bound::Included(r)) => l.rank_lt(r),
    }
}

/// Whether the end bound `left` comes at or before the end bound `right`.
pub fn left_end_is_smaller<V: Ranked>(left: &Bound<V>, right: &Bound<V>) -> (r: bool)
    ensures
        r == end_le(*left, *right),
{
    match (left, right) {
        (_, Bound::Unbounded) => true,
        (Bound::Unbounded, _) => false,
        (Bound::Included(l), Bound::Included(r)) => l.rank_le(r),
        (Bound::Excluded(l), Bound::Excluded(r)) => l.rank_le(r),
        (Bound::Excluded(l), Bound::Included(r)) => l.rank_le(r),
        (Bound::Included(l), Bound::Excluded(r)) => l.rank_lt(r),
    }
}

/// The complement of a range is another range.
pub proof fn law_complement_differs<V: Ranked>(r: Ranges<V>, c: Ranges<V>)
    requires
        forall|x: int| #[trigger] c.has(x) == !r.has(x),
    ensures
        c.segs() != r.segs(),
{
    assert(c.has(0) != r.has(0));
}

/// A version is in the intersection of two ranges exactly when it is in both.
pub proof fn law_intersection_contains_both<V: Ranked>(r1: Ranges<V>, r2: Ranges<V>, a: Ranges<V>, v: V)
    requires
        forall|x: int| #[trigger] a.has(x) == (r1.has(x) && r2.has(x)),
    ensures
        a.contains_spec(v) == (r1.contains_spec(v) && r2.contains_spec(v)),
{
    assert(a.has(point(v)) == (r1.has(point(v)) && r2.has(point(v))));
}

/// A version is in the union of two ranges exactly when it is in either.
pub proof fn law_union_contains_either<V: Ranked>(r1: Ranges<V>, r2: Ranges<V>, u: Ranges<V>, v: V)
    requires
        forall|x: int| #[trigger] u.has(x) == (r1.has(x) || r2.has(x)),
    ensures
        u.contains_spec(v) == (r1.contains_spec(v) || r2.contains_spec(v)),
{
    assert(u.has(point(v)) == (r1.has(point(v)) || r2.has(point(v))));
}

/// A range holds a version exactly when its intersection with the range of
/// that single version is not empty.
pub proof fn law_contains_through_intersection<V: Ranked>(r: Ranges<V>, one: Ranges<V>, a: Ranges<V>, v: V)
    requires
        segs_wf(a.segs()),
        forall|x: int| #[trigger] one.has(x) == (x == point(v)),
        forall|x: int| #[trigger] a.has(x) == (r.has(x) && one.has(x)),
    ensures
        r.contains_spec(v) == (a.segs().len() > 0),
{
    assert(a.has(point(v)) == (r.has(point(v)) && one.has(point(v))));
    if r.contains_spec(v) {
        assert(a.has(point(v)));
        if a.segs().len() == 0 {
            assert(!segs_has(a.segs(), point(v)));
        }
    } else if a.segs().len() > 0 {
        assert(valid_seg(a.segs()[0]));
        let x = Ranges::<V>::some_point(a.segs()[0]);
        assert(seg_has(a.segs()[0], x));
        assert(a.has(x));
        assert(one.has(x));
    }
}

/// The bounding range of a range holds every version of the range.
pub proof fn law_bounding_range_contains<V: Ranked>(r: Ranges<V>, b: (Bound<V>, Bound<V>), v: V)
    requires
        r.contains_spec(v),
        r.segs().len() > 0,
        forall|x: int| #[trigger] r.has(x) ==> seg_has(b, x),
    ensures
        seg_has(b, point(v)),
{
}

/// The range of the bounds of a single segment range is that range.
pub proof fn law_from_range_bounds_round_trip<V: Ranked>(r: Ranges<V>, b: (Bound<V>, Bound<V>), r2: Ranges<V>)
    requires
        segs_wf(r.segs()),
        r.segs().len() == 1,
        b == (r.segs()[0].0, r.segs()[r.segs().len() - 1].1),
        valid_seg(b) ==> r2.segs() == seq![b],
    ensures
        r2.segs() == r.segs(),
{
    assert(valid_seg(r.segs()[0]));
    assert(r.segs() =~= seq![b]);
}

} // verus!

verus! {

/// Two ranges with the same versions (and the same points between them) are
/// the same range: every set of versions has one representation.
pub proof fn law_points_determine_segments<V: Ranked>(a: Ranges<V>, b: Ranges<V>)
    requires
        segs_wf(a.segs()),
        segs_wf(b.segs()),
        forall|x: int| #[trigger] a.has(x) == b.has(x),
    ensures
        a.segs() == b.segs(),
{
    assert forall|x: int| #[trigger] segs_has(a.segs(), x) == segs_has(b.segs(), x) by {
        assert(a.has(x) == b.has(x));
    }
    lemma_points_determine_segs(a.segs(), b.segs());
}

/// A version is in the complement of a range exactly when it is not in the range.
pub proof fn law_complement_contains_opposite<V: Ranked>(r: Ranges<V>, c: Ranges<V>, v: V)
    requires
        forall|x: int| #[trigger] c.has(x) == !r.has(x),
    ensures
        c.contains_spec(v) != r.contains_spec(v),
{
}

/// Taking the complement twice gives back the range.
pub proof fn law_double_complement<V: Ranked>(r: Ranges<V>, c: Ranges<V>, cc: Ranges<V>)
    requires
        segs_wf(r.segs()),
        segs_wf(cc.segs()),
        forall|x: int| #[trigger] c.has(x) == !r.has(x),
        forall|x: int| #[trigger] cc.has(x) == !c.has(x),
    ensures
        cc.segs() == r.segs(),
{
    assert forall|x: int| #[trigger] cc.has(x) == r.has(x) by {}
    law_points_determine_segments(cc, r);
}

/// Intersection does not depend on the order of its operands.
pub proof fn law_intersection_symmetric<V: Ranked>(r1: Ranges<V>, r2: Ranges<V>, a: Ranges<V>, b: Ranges<V>)
    requires
        segs_wf(a.segs()),
        segs_wf(b.segs()),
        forall|x: int| #[trigger] a.has(x) == (r1.has(x) && r2.has(x)),
        forall|x: int| #[trigger] b.has(x) == (r2.has(x) && r1.has(x)),
    ensures
        a.segs() == b.segs(),
{
    assert forall|x: int| #[trigger] a.has(x) == b.has(x) by {}
    law_points_determine_segments(a, b);
}

/// Intersecting with the full range changes nothing.
pub proof fn law_intersection_with_full<V: Ranked>(r: Ranges<V>, f: Ranges<V>, a: Ranges<V>)
    requires
        segs_wf(r.segs()),
        segs_wf(a.segs()),
        forall|x: int| #[trigger] f.has(x),
        forall|x: int| #[trigger] a.has(x) == (r.has(x) && f.has(x)),
    ensures
        a.segs() == r.segs(),
{
    assert forall|x: int| #[trigger] a.has(x) == r.has(x) by {}
    law_points_determine_segments(a, r);
}

/// Intersecting with the empty range gives the empty range.
pub proof fn law_intersection_with_empty<V: Ranked>(r: Ranges<V>, e: Ranges<V>, a: Ranges<V>)
    requires
        segs_wf(a.segs()),
        forall|x: int| !#[trigger] e.has(x),
        forall|x: int| #[trigger] a.has(x) == (r.has(x) && e.has(x)),
    ensures
        a.segs().len() == 0,
{
    if a.segs().len() > 0 {
        assert(valid_seg(a.segs()[0]));
        let x = Ranges::<V>::some_point(a.segs()[0]);
        assert(seg_has(a.segs()[0], x));
        assert(a.has(x));
    }
}

/// Intersecting again with one of the operands changes nothing.
pub proof fn law_intersection_idempotent<V: Ranked>(r1: Ranges<V>, r2: Ranges<V>, a: Ranges<V>, b: Ranges<V>)
    requires
        segs_wf(a.segs()),
        segs_wf(b.segs()),
        forall|x: int| #[trigger] a.has(x) == (r1.has(x) && r2.has(x)),
        forall|x: int| #[trigger] b.has(x) == (a.has(x) && r2.has(x)),
    ensures
        b.segs() == a.segs(),
{
    assert forall|x: int| #[trigger] b.has(x) == a.has(x) by {}
    law_points_determine_segments(b, a);
}

/// Intersection is associative.
pub proof fn law_intersection_associative<V: Ranked>(
    r1: Ranges<V>,
    r2: Ranges<V>,
    r3: Ranges<V>,
    r12: Ranges<V>,
    left: Ranges<V>,
    r23: Ranges<V>,
    right: Ranges<V>,
)
    requires
        segs_wf(left.segs()),
        segs_wf(right.segs()),
        forall|x: int| #[trigger] r12.has(x) == (r1.has(x) && r2.has(x)),
        forall|x: int| #[trigger] left.has(x) == (r12.has(x) && r3.has(x)),
        forall|x: int| #[trigger] r23.has(x) == (r2.has(x) && r3.has(x)),
        forall|x: int| #[trigger] right.has(x) == (r1.has(x) && r23.has(x)),
    ensures
        left.segs() == right.segs(),
{
    assert forall|x: int| #[trigger] left.has(x) == right.has(x) by {}
    law_points_determine_segments(left, right);
}

/// A range and its complement have no version in common.
pub proof fn law_intersection_of_complements_is_empty<V: Ranked>(r: Ranges<V>, c: Ranges<V>, a: Ranges<V>)
    requires
        segs_wf(a.segs()),
        forall|x: int| #[trigger] c.has(x) == !r.has(x),
        forall|x: int| #[trigger] a.has(x) == (r.has(x) && c.has(x)),
    ensures
        a.segs().len() == 0,
{
    if a.segs().len() > 0 {
        assert(valid_seg(a.segs()[0]));
        let x = Ranges::<V>::some_point(a.segs()[0]);
        assert(seg_has(a.segs()[0], x));
        assert(a.has(x));
    }
}

/// A range and its complement together hold every version.
pub proof fn law_union_of_complements_is_full<V: Ranked>(r: Ranges<V>, c: Ranges<V>, u: Ranges<V>)
    requires
        segs_wf(u.segs()),
        forall|x: int| #[trigger] c.has(x) == !r.has(x),
        forall|x: int| #[trigger] u.has(x) == (r.has(x) || c.has(x)),
    ensures
        u.segs() == seq![(Bound::<V>::Unbounded, Bound::<V>::Unbounded)],
{
    let full = seq![(Bound::<V>::Unbounded, Bound::<V>::Unbounded)];
    lemma_segs_has_one((Bound::<V>::Unbounded, Bound::<V>::Unbounded));
    assert forall|i: int, j: int| 0 <= i < j < full.len() implies #[trigger] gap(full[i].1, full[j].0) by {}
    assert forall|x: int| #[trigger] segs_has(u.segs(), x) == segs_has(full, x) by {
        assert(u.has(x));
    }
    lemma_points_determine_segs(u.segs(), full);
}

/// The union is the complement of the intersection of the complements.
pub proof fn law_union_through_intersection<V: Ranked>(
    r1: Ranges<V>,
    r2: Ranges<V>,
    u: Ranges<V>,
    c1: Ranges<V>,
    c2: Ranges<V>,
    i: Ranges<V>,
    w: Ranges<V>,
)
    requires
        segs_wf(u.segs()),
        segs_wf(w.segs()),
        forall|x: int| #[trigger] u.has(x) == (r1.has(x) || r2.has(x)),
        forall|x: int| #[trigger] c1.has(x) == !r1.has(x),
        forall|x: int| #[trigger] c2.has(x) == !r2.has(x),
        forall|x: int| #[trigger] i.has(x) == (c1.has(x) && c2.has(x)),
        forall|x: int| #[trigger] w.has(x) == !i.has(x),
    ensures
        u.segs() == w.segs(),
{
    assert forall|x: int| #[trigger] u.has(x) == w.has(x) by {}
    law_points_determine_segments(u, w);
}

/// Two ranges are disjoint exactly when their intersection is empty.
pub proof fn law_disjoint_through_intersection<V: Ranked>(r1: Ranges<V>, r2: Ranges<V>, i: Ranges<V>)
    requires
        segs_wf(i.segs()),
        forall|x: int| #[trigger] i.has(x) == (r1.has(x) && r2.has(x)),
    ensures
        (forall|x: int| !(#[trigger] r1.has(x) && r2.has(x))) == (i.segs().len() == 0),
{
    if i.segs().len() > 0 {
        assert(valid_seg(i.segs()[0]));
        let x = Ranges::<V>::some_point(i.segs()[0]);
        assert(seg_has(i.segs()[0], x));
        assert(i.has(x));
        assert(r1.has(x) && r2.has(x));
    } else {
        assert forall|x: int| !(#[trigger] r1.has(x) && r2.has(x)) by {
            assert(!i.has(x));
        }
    }
}

/// A range is a subset of another exactly when intersecting them gives back the first.
pub proof fn law_subset_through_intersection<V: Ranked>(r1: Ranges<V>, r2: Ranges<V>, i: Ranges<V>)
    requires
        segs_wf(r1.segs()),
        segs_wf(i.segs()),
        forall|x: int| #[trigger] i.has(x) == (r1.has(x) && r2.has(x)),
    ensures
        (forall|x: int| #[trigger] r1.has(x) ==> r2.has(x)) == (i.segs() == r1.segs()),
{
    if forall|x: int| #[trigger] r1.has(x) ==> r2.has(x) {
        assert forall|x: int| #[trigger] i.has(x) == r1.has(x) by {}
        law_points_determine_segments(i, r1);
    }
    if i.segs() == r1.segs() {
        assert forall|x: int| #[trigger] r1.has(x) implies r2.has(x) by {
            assert(i.has(x));
        }
    }
}

/// A range built from segments holds the same versions as the union of the
/// ranges built from each segment.
pub proof fn law_from_iter_is_union_of_bounds<V: Ranked>(
    segments: Seq<Interval<V>>,
    r: Ranges<V>,
    parts: Seq<Ranges<V>>,
    u: Ranges<V>,
)
    requires
        segs_wf(r.segs()),
        segs_wf(u.segs()),
        parts.len() == segments.len(),
        forall|x: int| #[trigger] r.has(x) == segs_has(segments, x),
        forall|k: int, x: int| 0 <= k < parts.len() ==> #[trigger] parts[k].has(x) == seg_has(segments[k], x),
        forall|x: int| #[trigger] u.has(x) == exists|k: int| 0 <= k < parts.len() && #[trigger] parts[k].has(x),
    ensures
        r.segs() == u.segs(),
{
    assert forall|x: int| #[trigger] r.has(x) == u.has(x) by {
        if r.has(x) {
            let k = choose|k: int| 0 <= k < segments.len() && #[trigger] seg_has(segments[k], x);
            assert(parts[k].has(x));
        }
        if u.has(x) {
            let k = choose|k: int| 0 <= k < parts.len() && #[trigger] parts[k].has(x);
            assert(seg_has(segments[k], x));
        }
    }
    assert forall|x: int| #[trigger] r.has(x) == u.has(x) by {}
    law_points_determine_segments(r, u);
}

/// After folding the first `k` segments, the accumulated range holds the points of those segments.
proof fn lemma_fold_prefix<V: Ranked>(segments: Seq<Interval<V>>, parts: Seq<Ranges<V>>, acc: Seq<Ranges<V>>, k: int)
    requires
        0 <= k <= segments.len(),
        parts.len() == segments.len(),
        acc.len() == segments.len() + 1,
        forall|j: int, x: int| 0 <= j < parts.len() ==> #[trigger] parts[j].has(x) == seg_has(segments[j], x),
        forall|x: int| !#[trigger] acc[0].has(x),
        forall|j: int, x: int| 0 <= j < segments.len() ==> #[trigger] acc[j + 1].has(x) == (acc[j].has(x) || parts[j].has(x)),
    ensures
        forall|x: int| #[trigger] acc[k].has(x) == segs_has(segments.subrange(0, k), x),
    decreases k,
{
    if k == 0 {
        assert forall|x: int| #[trigger] acc[k].has(x) == segs_has(segments.subrange(0, k), x) by {
            lemma_segs_has_empty(segments.subrange(0, 0));
        }
    } else {
        lemma_fold_prefix(segments, parts, acc, k - 1);
        lemma_prefix_push(segments, k - 1);
        lemma_segs_has_push(segments.subrange(0, k - 1), segments[k - 1]);
        assert forall|x: int| #[trigger] acc[k].has(x) == segs_has(segments.subrange(0, k), x) by {
            assert(acc[(k - 1) + 1].has(x) == (acc[k - 1].has(x) || parts[k - 1].has(x)));
        }
    }
}

/// A range built from segments is the range that folding the union over the ranges built
/// from each segment gives, starting from the empty range.
pub proof fn law_from_iter_is_fold_of_unions<V: Ranked>(
    segments: Seq<Interval<V>>,
    r: Ranges<V>,
    parts: Seq<Ranges<V>>,
    acc: Seq<Ranges<V>>,
)
    requires
        segs_wf(r.segs()),
        forall|x: int| #[trigger] r.has(x) == segs_has(segments, x),
        parts.len() == segments.len(),
        forall|j: int, x: int| 0 <= j < parts.len() ==> #[trigger] parts[j].has(x) == seg_has(segments[j], x),
        acc.len() == segments.len() + 1,
        forall|x: int| !#[trigger] acc[0].has(x),
        forall|j: int, x: int| 0 <= j < segments.len() ==> #[trigger] acc[j + 1].has(x) == (acc[j].has(x) || parts[j].has(x)),
        segs_wf(acc.last().segs()),
    ensures
        r.segs() == acc.last().segs(),
{
    let n = segments.len() as int;
    lemma_fold_prefix(segments, parts, acc, n);
    assert(segments.subrange(0, n) =~= segments);
    assert(acc.last() == acc[n]);
    assert forall|x: int| #[trigger] r.has(x) == acc.last().has(x) by {
        assert(acc[n].has(x) == segs_has(segments.subrange(0, n), x));
    }
    law_points_determine_segments(r, acc.last());
}

} // verus!
