//! The order of ranges: segments compared bound by bound.

use core::cmp::Ordering;
use vstd::prelude::*;

use crate::range::{end_le, start_le, Interval, Ranges};
use crate::version_trait::{Bound, Ranked};

verus! {

/// How two start bounds compare: the one letting in more versions below is smaller.
pub open spec fn start_order<V: Ranked>(a: Bound<V>, b: Bound<V>) -> Ordering {
    if start_le(a, b) && start_le(b, a) {
        Ordering::Equal
    } else if start_le(a, b) {
        Ordering::Less
    } else {
        Ordering::Greater
    }
}

/// How two end bounds compare: the one letting in more versions above is greater.
pub open spec fn end_order<V: Ranked>(a: Bound<V>, b: Bound<V>) -> Ordering {
    if end_le(a, b) && end_le(b, a) {
        Ordering::Equal
    } else if end_le(a, b) {
        Ordering::Less
    } else {
        Ordering::Greater
    }
}

/// How two lists of segments compare from position `i` on: bound by bound,
/// then the longer one is greater.
pub open spec fn segments_order<V: Ranked>(a: Seq<Interval<V>>, b: Seq<Interval<V>>, i: int) -> Ordering
    decreases a.len() - i,
{
    if i < 0 || i >= a.len() || i >= b.len() {
        if a.len() < b.len() {
            Ordering::Less
        } else if a.len() == b.len() {
            Ordering::Equal
        } else {
            Ordering::Greater
        }
    } else if start_order(a[i].0, b[i].0) != Ordering::Equal {
        start_order(a[i].0, b[i].0)
    } else if end_order(a[i].1, b[i].1) != Ordering::Equal {
        end_order(a[i].1, b[i].1)
    } else {
        segments_order(a, b, i + 1)
    }
}

/// Implementing `PartialOrd` for start `Bound` of an interval.
///
/// Legend: `∞` is unbounded, `[1,2]` is `>=1,<=2`, `]1,2[` is `>1,<2`.
///
/// ```text
/// left:   ∞-------]
/// right:    [-----]
/// left is smaller, since it starts earlier.
///
/// left:   [-----]
/// right:  ]-----]
/// left is smaller, since it starts earlier.
/// ```
pub fn cmp_bounds_start<V: Ranked>(left: &Bound<V>, right: &Bound<V>) -> (r: Option<Ordering>)
    ensures
        r == Some(start_order(*left, *right)),
{
    Some(
        match (left, right) {
            // left:   ∞-----
            // right:  ∞-----
            (Bound::Unbounded, Bound::Unbounded) => Ordering::Equal,
            // left:     [---
            // right:  ∞-----
            (Bound::Included(_left), Bound::Unbounded) => Ordering::Greater,
            // left:     ]---
            // right:  ∞-----
            (Bound::Excluded(_left), Bound::Unbounded) => Ordering::Greater,
            // left:   ∞-----
            // right:    [---
            (Bound::Unbounded, Bound::Included(_right)) => Ordering::Less,
            // left:   [----- OR [----- OR   [-----
            // right:    [--- OR [----- OR [---
            (Bound::Included(l), Bound::Included(r)) => compare_versions(l, r),
            (Bound::Excluded(l), Bound::Included(r)) => match compare_versions(l, r) {
                // left:   ]-----
                // right:    [---
                Ordering::Less => Ordering::Less,
                // left:   ]-----
                // right:  [---
                Ordering::Equal => Ordering::Greater,
                // left:     ]---
                // right:  [-----
                Ordering::Greater => Ordering::Greater,
            },
            // left:   ∞-----
            // right:    ]---
            (Bound::Unbounded, Bound::Excluded(_right)) => Ordering::Less,
            (Bound::Included(l), Bound::Excluded(r)) => match compare_versions(l, r) {
                // left:   [-----
                // right:    ]---
                Ordering::Less => Ordering::Less,
                // left:   [-----
                // right:  ]---
                Ordering::Equal => Ordering::Less,
                // left:     [---
                // right:  ]-----
                Ordering::Greater => Ordering::Greater,
            },
            // left:   ]----- OR ]----- OR   ]---
            // right:    ]--- OR ]----- OR ]-----
            (Bound::Excluded(l), Bound::Excluded(r)) => compare_versions(l, r),
        },
    )
}

/// Implementing `PartialOrd` for end `Bound` of an interval.
///
/// We flip the unbounded ranges from `-∞` to `∞`, while `V`-valued bounds checks remain the same.
///
/// ```text
/// left:   [--------∞
/// right:  [-----]
/// left is greater, since it starts earlier.
///
/// left:   [-----[
/// right:  [-----]
/// left is smaller, since it ends earlier.
/// ```
pub fn cmp_bounds_end<V: Ranked>(left: &Bound<V>, right: &Bound<V>) -> (r: Option<Ordering>)
    ensures
        r == Some(end_order(*left, *right)),
{
    Some(
        match (left, right) {
            // left:   -----∞
            // right:  -----∞
            (Bound::Unbounded, Bound::Unbounded) => Ordering::Equal,
            // left:   ---]
            // right:  -----∞
            (Bound::Included(_left), Bound::Unbounded) => Ordering::Less,
            // left:   ---[
            // right:  -----∞
            (Bound::Excluded(_left), Bound::Unbounded) => Ordering::Less,
            // left:  -----∞
            // right: ---]
            (Bound::Unbounded, Bound::Included(_right)) => Ordering::Greater,
            // left:   -----] OR -----] OR ---]
            // right:    ---] OR -----] OR -----]
            (Bound::Included(l), Bound::Included(r)) => compare_versions(l, r),
            (Bound::Excluded(l), Bound::Included(r)) => match compare_versions(l, r) {
                // left:   ---[
                // right:  -----]
                Ordering::Less => Ordering::Less,
                // left:   -----[
                // right:  -----]
                Ordering::Equal => Ordering::Less,
                // left:   -----[
                // right:  ---]
                Ordering::Greater => Ordering::Greater,
            },
            (Bound::Unbounded, Bound::Excluded(_right)) => Ordering::Greater,
            (Bound::Included(l), Bound::Excluded(r)) => match compare_versions(l, r) {
                // left:   ---]
                // right:  -----[
                Ordering::Less => Ordering::Less,
                // left:   -----]
                // right:  -----[
                Ordering::Equal => Ordering::Greater,
                // left:   -----]
                // right:  ---[
                Ordering::Greater => Ordering::Greater,
            },
            // left:   -----[ OR -----[ OR ---[
            // right:  ---[   OR -----[ OR -----[
            (Bound::Excluded(l), Bound::Excluded(r)) => compare_versions(l, r),
        },
    )
}

/// How two versions compare, by their ranks.
pub fn compare_versions<V: Ranked>(a: &V, b: &V) -> (r: Ordering)
    ensures
        r == Ordering::Less <==> a.rank() < b.rank(),
        r == Ordering::Equal <==> a.rank() == b.rank(),
        r == Ordering::Greater <==> a.rank() > b.rank(),
{
    if a.rank_lt(b) {
        Ordering::Less
    } else if b.rank_lt(a) {
        Ordering::Greater
    } else {
        Ordering::Equal
    }
}

impl<V: Ranked> Ranges<V> {
    /// A simple ordering scheme where we zip the segments and compare all bounds in order. If all
    /// bounds are equal, the longer range is considered greater. (And if all zipped bounds are
    /// equal and we have the same number of segments, the ranges are equal).
    pub fn compare(&self, other: &Self) -> (r: Option<Ordering>)
        ensures
            r == Some(segments_order(self.segs(), other.segs(), 0)),
    {
        let left = self.iter();
        let right = other.iter();
        let mut i: usize = 0;
        let ghost mut gi: int = 0;
        while i < left.len() && i < right.len()
            invariant
                gi == i,
                0 <= i <= left@.len(),
                i <= right@.len(),
                left@ == self.segs(),
                right@ == other.segs(),
                segments_order(self.segs(), other.segs(), 0) == segments_order(self.segs(), other.segs(), gi),
            decreases left@.len() - i,
        {
            let start_cmp = cmp_bounds_start(&left[i].0, &right[i].0);
            match start_cmp {
                Some(Ordering::Equal) => {},
                _ => {
                    return start_cmp;
                },
            }
            let end_cmp = cmp_bounds_end(&left[i].1, &right[i].1);
            match end_cmp {
                Some(Ordering::Equal) => {},
                _ => {
                    return end_cmp;
                },
            }
            i = i + 1;
            proof {
                gi = gi + 1;
            }
        }
        let r = if left.len() < right.len() {
            Ordering::Less
        } else if left.len() == right.len() {
            Ordering::Equal
        } else {
            Ordering::Greater
        };
        Some(r)
    }
}

impl<V: Ranked + PartialEq> PartialOrd for Ranges<V> {
    /// Ranges ordered as [`Ranges::compare`] orders them.
    fn partial_cmp(&self, other: &Self) -> (r: Option<Ordering>) {
        self.compare(other)
    }
}

impl<V: Ranked + PartialEq> vstd::std_specs::cmp::PartialOrdSpecImpl for Ranges<V> {
    open spec fn obeys_partial_cmp_spec() -> bool {
        true
    }

    open spec fn partial_cmp_spec(&self, other: &Self) -> Option<Ordering> {
        Some(segments_order(self.segs(), other.segs(), 0))
    }
}

} // verus!
