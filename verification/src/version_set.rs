//! Sets of versions, seen as sets of points on the line of versions.

use vstd::prelude::*;
use vstd::std_specs::cmp::PartialEqSpec;

use crate::range::{point, segs_wf, Ranges};
use crate::version_trait::Ranked;

verus! {

/// How a set of versions relates to another.
#[derive(Debug, Clone, Copy, PartialEq, Eq, Structural)]
pub enum SetRelation {
    /// Every version of the first set is in the second.
    Subset,
    /// No version is in both sets.
    Disjoint,
    /// Some versions are in both sets, some only in the first.
    Overlapping,
}

/// A set of versions.
///
/// See [`Ranges`] for an implementation.
///
/// The methods with default implementations can be overwritten for better performance, but their
/// output must be equal to the default implementation.
///
/// # Model
///
/// A set is read as the set of points it holds on the line of integers
/// (see [`point`]): the version `v` sits at `point(v)`, and the points in
/// between stand for versions this crate does not know about. The contract
/// is about upholding the mathematical properties of set operations,
/// assuming all versions are possible.
///
/// # Equality
///
/// Two sets holding the same points must be equal under `==`: sets are
/// always stored in canonical representations.
pub trait VersionSet: Sized + Clone + PartialEq + core::fmt::Debug {
    /// Version type associated with the sets manipulated.
    type V: Ranked;

    /// Whether the set holds the point `x`.
    spec fn has_point(&self, x: int) -> bool;

    /// The representation of the set is canonical.
    spec fn valid(&self) -> bool;

    /// Sets are equal exactly when they hold the same points.
    proof fn lemma_eq(a: &Self, b: &Self)
        requires
            a.valid(),
            b.valid(),
        ensures
            <Self as PartialEqSpec>::obeys_eq_spec(),
            a.eq_spec(b) == (forall|x: int| #[trigger] a.has_point(x) == b.has_point(x)),
    ;

    /// A clone holds the same points.
    proof fn lemma_clone(a: Self, b: Self)
        requires
            a.valid(),
            vstd::pervasive::cloned(a, b),
        ensures
            b.valid(),
            forall|x: int| #[trigger] b.has_point(x) == a.has_point(x),
    ;

    // Constructors

    /// An empty set containing no version.
    fn empty() -> (r: Self)
        ensures
            r.valid(),
            forall|x: int| !#[trigger] r.has_point(x),
    ;

    /// A set containing only the given version.
    fn singleton(v: Self::V) -> (r: Self)
        ensures
            r.valid(),
            forall|x: int| #[trigger] r.has_point(x) == (x == point(v)),
    ;

    // Operations

    /// The set of all version that are not in this set.
    fn complement(&self) -> (r: Self)
        ensures
            r.valid(),
            forall|x: int| #[trigger] r.has_point(x) == !self.has_point(x),
    ;

    /// The set of all versions that are in both sets.
    fn intersection(&self, other: &Self) -> (r: Self)
        ensures
            r.valid(),
            forall|x: int| #[trigger] r.has_point(x) == (self.has_point(x) && other.has_point(x)),
    ;

    /// Whether the version is part of this set.
    fn contains(&self, v: &Self::V) -> (r: bool)
        ensures
            r == self.has_point(point(*v)),
    ;

    // Automatically implemented functions

    /// Whether each version is part of this set, in order.
    ///
    /// `versions` must be in nondecreasing order. Implementations can override this to walk the
    /// versions and the set together.
    fn contains_many(&self, versions: &[Self::V]) -> (r: Vec<bool>)
        ensures
            r@.len() == versions@.len(),
            forall|k: int| 0 <= k < versions@.len() ==> #[trigger] r@[k] == self.has_point(point(versions@[k])),
    {
        let mut out: Vec<bool> = Vec::new();
        let mut k: usize = 0;
        while k < versions.len()
            invariant
                0 <= k <= versions@.len(),
                out@.len() == k,
                forall|j: int| 0 <= j < k ==> #[trigger] out@[j] == self.has_point(point(versions@[j])),
            decreases versions@.len() - k,
        {
            out.push(self.contains(&versions[k]));
            k = k + 1;
        }
        out
    }

    /// The set containing all versions.
    ///
    /// The default implementation is the complement of the empty set.
    fn full() -> (r: Self)
        ensures
            r.valid(),
            forall|x: int| #[trigger] r.has_point(x),
    {
        Self::empty().complement()
    }

    /// The set of all versions that are either (or both) of the sets.
    ///
    /// The default implementation is complement of the intersection of the complements of both sets
    /// (De Morgan's law).
    fn union(&self, other: &Self) -> (r: Self)
        ensures
            r.valid(),
            forall|x: int| #[trigger] r.has_point(x) == (self.has_point(x) || other.has_point(x)),
    {
        self.complement().intersection(&other.complement()).complement()
    }

    /// The set of versions that are in `self` but not in `other`.
    ///
    /// Implementations can override this to avoid materializing the complement.
    fn difference(&self, other: &Self) -> (r: Self)
        ensures
            r.valid(),
            forall|x: int| #[trigger] r.has_point(x) == (self.has_point(x) && !other.has_point(x)),
    {
        self.intersection(&other.complement())
    }

    /// Whether the ranges have no overlapping segments.
    fn is_disjoint(&self, other: &Self) -> (r: bool)
        ensures
            r == (forall|x: int| !(#[trigger] self.has_point(x) && other.has_point(x))),
    {
        let i = self.intersection(other);
        let e = Self::empty();
        proof {
            Self::lemma_eq(&i, &e);
            if forall|x: int| !(#[trigger] self.has_point(x) && other.has_point(x)) {
                assert forall|x: int| #[trigger] i.has_point(x) == e.has_point(x) by {
                    assert(!(self.has_point(x) && other.has_point(x)));
                }
            }
            if forall|x: int| #[trigger] i.has_point(x) == e.has_point(x) {
                assert forall|x: int| !(#[trigger] self.has_point(x) && other.has_point(x)) by {
                    assert(i.has_point(x) == e.has_point(x));
                }
            }
        }
        i == e
    }

    /// Whether all ranges of `self` are contained in `other`.
    fn subset_of(&self, other: &Self) -> (r: bool)
        requires
            self.valid(),
        ensures
            r == (forall|x: int| #[trigger] self.has_point(x) ==> other.has_point(x)),
    {
        let i = self.intersection(other);
        proof {
            Self::lemma_eq(self, &i);
            if forall|x: int| #[trigger] self.has_point(x) ==> other.has_point(x) {
                assert forall|x: int| #[trigger] self.has_point(x) == i.has_point(x) by {
                    if self.has_point(x) {
                        assert(other.has_point(x));
                    }
                }
            }
            if forall|x: int| #[trigger] self.has_point(x) == i.has_point(x) {
                assert forall|x: int| #[trigger] self.has_point(x) implies other.has_point(x) by {
                    assert(self.has_point(x) == i.has_point(x));
                }
            }
        }
        self == &i
    }

    /// Classifies `self` as a subset of, disjoint from, or partially overlapping with `other`.
    ///
    /// Implementations can override this to avoid traversing both sets once for [`Self::subset_of`]
    /// and again for [`Self::is_disjoint`].
    /// An empty `self` must be classified as [`SetRelation::Subset`].
    fn relation(&self, other: &Self) -> (r: SetRelation)
        requires
            self.valid(),
        ensures
            (r == SetRelation::Subset) == (forall|x: int| #[trigger] self.has_point(x) ==> other.has_point(x)),
            (r == SetRelation::Disjoint) == (!(forall|x: int| #[trigger] self.has_point(x) ==> other.has_point(x))
                && (forall|x: int| !(#[trigger] self.has_point(x) && other.has_point(x)))),
            (r == SetRelation::Overlapping) == (!(forall|x: int| #[trigger] self.has_point(x) ==> other.has_point(x))
                && !(forall|x: int| !(#[trigger] self.has_point(x) && other.has_point(x)))),
    {
        if self.subset_of(other) {
            SetRelation::Subset
        } else if self.is_disjoint(other) {
            SetRelation::Disjoint
        } else {
            SetRelation::Overlapping
        }
    }
}

impl<V: Ranked> Ranges<V> {
    /// The set of versions that are in `self` but not in `other`.
    pub fn difference(&self, other: &Self) -> (r: Self)
        ensures
            forall|x: int| #[trigger] r.has(x) == (self.has(x) && !other.has(x)),
    {
        self.intersection(&other.complement())
    }

    /// Classifies `self` as a subset of, disjoint from, or partially overlapping with `other`.
    pub fn relation(&self, other: &Self) -> (r: SetRelation)
        ensures
            (r == SetRelation::Subset) == (forall|x: int| #[trigger] self.has(x) ==> other.has(x)),
            (r == SetRelation::Disjoint) == (!(forall|x: int| #[trigger] self.has(x) ==> other.has(x))
                && (forall|x: int| !(#[trigger] self.has(x) && other.has(x)))),
            (r == SetRelation::Overlapping) == (!(forall|x: int| #[trigger] self.has(x) ==> other.has(x))
                && !(forall|x: int| !(#[trigger] self.has(x) && other.has(x)))),
    {
        if self.subset_of(other) {
            SetRelation::Subset
        } else if self.is_disjoint(other) {
            SetRelation::Disjoint
        } else {
            SetRelation::Overlapping
        }
    }

    /// The segments of the range are well formed.
    fn valid_after(r: Self) -> (out: Self)
        ensures
            out == r,
            segs_wf(out.segs()),
    {
        let _ = r.segments_wf();
        r
    }
}

/// [`Ranges`] contains optimized implementations of all operations.
impl<T: Ranked> VersionSet for Ranges<T> {
    type V = T;

    open spec fn has_point(&self, x: int) -> bool {
        self.has(x)
    }

    open spec fn valid(&self) -> bool {
        segs_wf(self.segs())
    }

    proof fn lemma_eq(a: &Self, b: &Self) {
        if forall|x: int| #[trigger] a.has_point(x) == b.has_point(x) {
            assert forall|x: int| #[trigger] a.has(x) == b.has(x) by {
                assert(a.has_point(x) == b.has_point(x));
            }
            crate::range::law_points_determine_segments(*a, *b);
        }
    }

    proof fn lemma_clone(a: Self, b: Self) {
    }

    fn empty() -> (r: Self) {
        Self::valid_after(Ranges::empty())
    }

    fn singleton(v: Self::V) -> (r: Self) {
        let r = Self::valid_after(Ranges::singleton(v));
        assert forall|x: int| #[trigger] r.has_point(x) == (x == point(v)) by {
            assert(r.has(x) == (x == point(v)));
        }
        r
    }

    fn complement(&self) -> (r: Self) {
        let r = Self::valid_after(Ranges::complement(self));
        assert forall|x: int| #[trigger] r.has_point(x) == !self.has_point(x) by {
            assert(r.has(x) == !self.has(x));
        }
        r
    }

    fn intersection(&self, other: &Self) -> (r: Self) {
        let r = Self::valid_after(Ranges::intersection(self, other));
        assert forall|x: int| #[trigger] r.has_point(x) == (self.has_point(x) && other.has_point(x)) by {
            assert(r.has(x) == (self.has(x) && other.has(x)));
        }
        r
    }

    fn contains(&self, v: &Self::V) -> (r: bool) {
        Ranges::contains(self, v)
    }

    fn full() -> (r: Self) {
        let r = Self::valid_after(Ranges::full());
        assert forall|x: int| #[trigger] r.has_point(x) by {
            assert(r.has(x));
        }
        r
    }

    fn union(&self, other: &Self) -> (r: Self) {
        let r = Self::valid_after(Ranges::union(self, other));
        assert forall|x: int| #[trigger] r.has_point(x) == (self.has_point(x) || other.has_point(x)) by {
            assert(r.has(x) == (self.has(x) || other.has(x)));
        }
        r
    }

    fn difference(&self, other: &Self) -> (r: Self) {
        let r = Self::valid_after(Ranges::difference(self, other));
        assert forall|x: int| #[trigger] r.has_point(x) == (self.has_point(x) && !other.has_point(x)) by {
            assert(r.has(x) == (self.has(x) && !other.has(x)));
        }
        r
    }

    fn is_disjoint(&self, other: &Self) -> (r: bool) {
        let r = Ranges::is_disjoint(self, other);
        proof {
            Self::lemma_same_disjoint(self, other);
        }
        r
    }

    fn subset_of(&self, other: &Self) -> (r: bool) {
        let r = Ranges::subset_of(self, other);
        proof {
            Self::lemma_same_subset(self, other);
        }
        r
    }

    fn relation(&self, other: &Self) -> (r: SetRelation) {
        let r = Ranges::relation(self, other);
        proof {
            Self::lemma_same_disjoint(self, other);
            Self::lemma_same_subset(self, other);
        }
        r
    }
}

impl<T: Ranked> Ranges<T> {
    /// Disjointness read on the points of the set.
    proof fn lemma_same_disjoint(a: &Self, b: &Self)
        ensures
            (forall|x: int| !(#[trigger] a.has(x) && b.has(x))) == (forall|x: int| !(
            #[trigger] a.has_point(x) && b.has_point(x))),
    {
        if forall|x: int| !(#[trigger] a.has(x) && b.has(x)) {
            assert forall|x: int| !(#[trigger] a.has_point(x) && b.has_point(x)) by {
                assert(!(a.has(x) && b.has(x)));
            }
        }
        if forall|x: int| !(#[trigger] a.has_point(x) && b.has_point(x)) {
            assert forall|x: int| !(#[trigger] a.has(x) && b.has(x)) by {
                assert(!(a.has_point(x) && b.has_point(x)));
            }
        }
    }

    /// Inclusion read on the points of the set.
    proof fn lemma_same_subset(a: &Self, b: &Self)
        ensures
            (forall|x: int| #[trigger] a.has(x) ==> b.has(x)) == (forall|x: int| #[trigger] a.has_point(x)
                ==> b.has_point(x)),
    {
        if forall|x: int| #[trigger] a.has(x) ==> b.has(x) {
            assert forall|x: int| #[trigger] a.has_point(x) implies b.has_point(x) by {
                assert(a.has(x) ==> b.has(x));
            }
        }
        if forall|x: int| #[trigger] a.has_point(x) ==> b.has_point(x) {
            assert forall|x: int| #[trigger] a.has(x) implies b.has(x) by {
                assert(a.has_point(x) ==> b.has_point(x));
            }
        }
    }
}

} // verus!
