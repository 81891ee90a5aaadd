//! A term is the fundamental unit of operation of the PubGrub algorithm.
//! It is a positive or negative expression regarding a set of versions.

use vstd::prelude::*;

use crate::version::{
    bit, lemma_bit_single, lemma_bits_consts, lemma_bits_ops, lemma_nonzero_has_bit, VersionIndex,
    VersionSet,
};
use vstd::std_specs::bits::*;

verus! {

/// The outcomes a term can take: `-1` stands for "no version of the package
/// is selected", `i` in `0..63` for "the version with index `i` is selected".
pub open spec fn outcomes() -> Set<int> {
    Set::new(|i: int| -1 <= i < 63)
}

/// The outcomes in which the selected version belongs to a version set.
pub open spec fn selected_in(vs: Set<nat>) -> Set<int> {
    Set::new(|i: int| 0 <= i < 63 && vs.contains(i as nat))
}

/// A positive or negative expression regarding a set of versions.
///
/// `Term::positive(vs)` and `Term::negative(vs.complement())` are not equivalent:
/// * `Term::positive(vs)` is satisfied if the package is selected AND the selected version is in `vs`.
/// * `Term::negative(vs.complement())` is satisfied if the package is not selected OR the selected version is in `vs`.
///
/// Like [`VersionSet`], this is implemented as a `u64` bitset,
/// where the first bit is set if the unselected package is allowed (for a negative term),
/// and the others bits are set if the package selected at the corresponding version index is allowed.
#[derive(Debug, Default, Copy, Clone, PartialEq, Eq, Structural, Hash)]
pub struct Term(u64);

impl View for Term {
    type V = Set<int>;

    /// The outcomes that satisfy the term.
    closed spec fn view(&self) -> Set<int> {
        Set::new(|i: int| -1 <= i < 63 && bit(self.0, (i + 1) as u64))
    }
}

/// Describe a relation between a set of terms S and another term t.
///
/// As a shorthand, we say that a term v
/// satisfies or contradicts a term t if {v} satisfies or contradicts it.
#[derive(Debug, Clone, Copy, PartialEq, Eq, Structural)]
pub enum Relation {
    /// We say that a set of terms S "satisfies" a term t
    /// if t must be true whenever every term in S is true.
    Satisfied,
    /// Conversely, S "contradicts" t if t must be false
    /// whenever every term in S is true.
    Contradicted,
    /// If neither of these is true we say that S is "inconclusive" for t.
    Inconclusive,
}

/// Two words with the same bits at every position are equal.
proof fn lemma_bits_ext(a: u64, b: u64)
    requires
        forall|i: u64| i < 64 ==> #[trigger] bit(a, i) == bit(b, i),
    ensures
        a == b,
{
    let x = a ^ b;
    if x != 0 {
        lemma_nonzero_has_bit(x);
        let j = u64_trailing_zeros(x) as u64;
        assert(bit(x, j) ==> bit(a, j) != bit(b, j)) by (bit_vector)
            requires
                x == a ^ b,
        ;
        assert(bit(a, j) == bit(b, j));
    }
    assert(a ^ b == 0 ==> a == b) by (bit_vector);
}

impl Term {
    /// The raw bits of the term.
    pub closed spec fn bits(self) -> u64 {
        self.0
    }

    /// The outcomes of a term are its set bits.
    pub proof fn lemma_view_bits(self)
        ensures
            forall|i: int| #[trigger] self@.contains(i) == (-1 <= i < 63 && bit(self.bits(), (i + 1) as u64)),
            self@.subset_of(outcomes()),
    {
    }

    /// Two terms with the same outcomes are equal.
    pub proof fn lemma_view_eq(self, other: Self)
        requires
            self@ == other@,
        ensures
            self == other,
    {
        assert forall|i: u64| i < 64 implies #[trigger] bit(self.0, i) == bit(other.0, i) by {
            let j = i - 1;
            assert(self@.contains(j) == bit(self.0, i));
            assert(other@.contains(j) == bit(other.0, i));
        }
        lemma_bits_ext(self.0, other.0);
    }

    /// Construct a positive `Term`.
    /// For example, `[1, 2]` is a positive expression
    /// that is evaluated true if a version with index 1 or 2 is selected.
    pub fn positive(vs: VersionSet) -> (r: Self)
        ensures
            r@ == selected_in(vs@),
            r.bits() == vs.bits(),
    {
        let r = Self(vs.raw());
        proof {
            vs.lemma_view_bits(0);
            assert forall|i: int| #[trigger] r@.contains(i) == selected_in(vs@).contains(i) by {
                if 0 <= i < 63 {
                    vs.lemma_view_bits(i as nat);
                }
            }
        }
        assert(r@ =~= selected_in(vs@));
        r
    }

    /// Construct a negative `Term`.
    /// For example, `not [3, 5]` is a negative expression
    /// that is evaluated true if a version with index 3 or 5 is selected
    /// or if no version is selected at all.
    pub fn negative(vs: VersionSet) -> (r: Self)
        ensures
            r@ == outcomes().difference(selected_in(vs@)),
            r.bits() == !vs.bits(),
    {
        let raw = vs.raw();
        let r = Self(!raw);
        proof {
            lemma_bits_ops(raw, raw);
            assert forall|i: int| #[trigger] r@.contains(i) == outcomes().difference(
                selected_in(vs@),
            ).contains(i) by {
                if 0 <= i < 63 {
                    vs.lemma_view_bits(i as nat);
                }
            }
        }
        assert(r@ =~= outcomes().difference(selected_in(vs@)));
        r
    }

    /// A term that is always true.
    pub fn any() -> (r: Self)
        ensures
            r@ == outcomes(),
            r.bits() == 0xffff_ffff_ffff_ffffu64,
    {
        proof {
            lemma_bits_consts();
        }
        assert(!0u64 == 0xffff_ffff_ffff_ffffu64) by (bit_vector);
        let r = Self(!0);
        assert(r@ =~= outcomes());
        r
    }

    /// A term that is never true.
    pub fn empty() -> (r: Self)
        ensures
            r@ == Set::<int>::empty(),
            r.bits() == 0,
    {
        proof {
            lemma_bits_consts();
        }
        let r = Self(0);
        assert(r@ =~= Set::<int>::empty());
        r
    }

    /// A positive term containing exactly that version.
    pub fn exact(version_index: VersionIndex) -> (r: Self)
        ensures
            r@ == set![version_index@ as int],
    {
        let _ = version_index.get();
        let r = Self::positive(VersionSet::singleton(version_index));
        assert(r@ =~= set![version_index@ as int]);
        r
    }

    /// Simply check if a term is positive.
    pub fn is_positive(self) -> (r: bool)
        ensures
            r == !self@.contains(-1),
    {
        let b = self.0;
        assert((b & 1 == 0) == !bit(b, 0)) by (bit_vector);
        self.0 & 1 == 0
    }

    /// Simply check if a term is negative.
    pub fn is_negative(self) -> (r: bool)
        ensures
            r == self@.contains(-1),
    {
        let b = self.0;
        assert((b & 1 != 0) == bit(b, 0)) by (bit_vector);
        self.0 & 1 != 0
    }

    /// Negate a term.
    /// Evaluation of a negated term always returns
    /// the opposite of the evaluation of the original one.
    pub fn negate(self) -> (r: Self)
        ensures
            r@ == outcomes().difference(self@),
            r.bits() == !self.bits(),
    {
        proof {
            lemma_bits_ops(self.0, self.0);
        }
        let r = Self(!self.0);
        assert(r@ =~= outcomes().difference(self@));
        r
    }

    /// Get the inner version set.
    pub fn version_set(self) -> (r: VersionSet)
        ensures
            !self@.contains(-1) ==> selected_in(r@) == self@,
            self@.contains(-1) ==> selected_in(r@) == outcomes().difference(self@),
    {
        let b = self.0;
        proof {
            lemma_bits_ops(b, b);
        }
        if self.is_positive() {
            assert(!bit(b, 0)) by {
                assert(self@.contains(-1) == bit(b, 0));
            }
            let r = VersionSet::from_bits(self.0);
            proof {
                assert forall|i: int| #[trigger] selected_in(r@).contains(i) == self@.contains(i) by {
                    if 0 <= i < 63 {
                        r.lemma_view_bits(i as nat);
                    }
                }
                assert(selected_in(r@) =~= self@);
            }
            r
        } else {
            assert(!bit(!b, 0)) by {
                assert(self@.contains(-1) == bit(b, 0));
            }
            let r = VersionSet::from_bits(!self.0);
            proof {
                assert forall|i: int| #[trigger] selected_in(r@).contains(i) == outcomes().difference(
                    self@,
                ).contains(i) by {
                    if 0 <= i < 63 {
                        r.lemma_view_bits(i as nat);
                    }
                }
                assert(selected_in(r@) =~= outcomes().difference(self@));
            }
            r
        }
    }

    /// Evaluate a term regarding a given choice of version.
    pub fn contains(self, v: VersionIndex) -> (r: bool)
        ensures
            r == self@.contains(v@ as int),
    {
        let s = VersionSet::singleton(v);
        let sb = s.raw();
        let i = v.get();
        proof {
            lemma_bit_single(i as u64);
            lemma_bits_ops(self.0, sb);
            assert(sb == 2u64 << (i as u64)) by {
                assert(s@.contains(v@));
                let x = sb ^ (2u64 << (i as u64));
                assert forall|j: u64| j < 64 implies #[trigger] bit(sb, j) == bit(2u64 << (i as u64), j) by {
                    if j > 0 {
                        s.lemma_view_bits((j - 1) as nat);
                    }
                }
                lemma_bits_ext(sb, 2u64 << (i as u64));
            }
            let a = self.0 & sb;
            if a != 0 {
                lemma_nonzero_has_bit(a);
            } else {
                lemma_bits_consts();
                assert(!bit(a, (i + 1) as u64));
            }
        }
        self.0 & s.raw() != 0
    }

    /// Unwrap the set contained in a positive term.
    pub fn unwrap_positive(self) -> (r: VersionSet)
        requires
            !self@.contains(-1),
        ensures
            selected_in(r@) == self@,
    {
        self.version_set()
    }

    /// Unwrap the set contained in a negative term.
    pub fn unwrap_negative(self) -> (r: VersionSet)
        requires
            self@.contains(-1),
        ensures
            selected_in(r@) == outcomes().difference(self@),
    {
        self.version_set()
    }

    /// Compute the intersection of two terms.
    /// The intersection is negative (unselected package is allowed)
    /// if all terms are negative.
    pub fn intersection(self, other: Self) -> (r: Self)
        ensures
            r@ == self@.intersect(other@),
            r.bits() == self.bits() & other.bits(),
    {
        proof {
            lemma_bits_ops(self.0, other.0);
        }
        let r = Self(self.0 & other.0);
        assert(r@ =~= self@.intersect(other@));
        r
    }

    /// Compute the union of two terms.
    /// If at least one term is negative, the union is also negative (unselected package is allowed).
    pub fn union(self, other: Self) -> (r: Self)
        ensures
            r@ == self@.union(other@),
            r.bits() == self.bits() | other.bits(),
    {
        proof {
            lemma_bits_ops(self.0, other.0);
        }
        let r = Self(self.0 | other.0);
        assert(r@ =~= self@.union(other@));
        r
    }

    /// Check whether two terms are mutually exclusive.
    pub fn is_disjoint(self, other: Self) -> (r: bool)
        ensures
            r == self@.disjoint(other@),
            r == (self.bits() & other.bits() == 0),
    {
        let a = self.0 & other.0;
        proof {
            lemma_bits_ops(self.0, other.0);
            if a != 0 {
                lemma_nonzero_has_bit(a);
                let j = u64_trailing_zeros(a) as u64;
                assert(self@.contains(j - 1) && other@.contains(j - 1));
            } else {
                lemma_bits_consts();
                assert forall|i: int| !(self@.contains(i) && other@.contains(i)) by {
                    if -1 <= i < 63 {
                        assert(!bit(a, (i + 1) as u64));
                    }
                }
            }
        }
        self.0 & other.0 == 0
    }

    /// Indicate if this term is a subset of another term.
    /// Just like for sets, we say that t1 is a subset of t2
    /// if and only if t1 ∩ t2 = t1.
    pub fn subset_of(self, other: Self) -> (r: bool)
        ensures
            r == self@.subset_of(other@),
            r == (self.bits() & other.bits() == self.bits()),
    {
        let a = self.0;
        let b = self.0 & other.0;
        proof {
            lemma_bits_ops(self.0, other.0);
            if a != b {
                let x = a ^ b;
                assert(a != b ==> a ^ b != 0) by (bit_vector);
                lemma_nonzero_has_bit(x);
                let j = u64_trailing_zeros(x) as u64;
                assert(bit(x, j) ==> bit(a, j) != bit(b, j)) by (bit_vector)
                    requires
                        x == a ^ b,
                ;
                assert(self@.contains(j - 1) && !other@.contains(j - 1));
            }
        }
        self.0 & other.0 == self.0
    }

    /// Check if a set of terms S, given by its intersection, satisfies or
    /// contradicts this term. Otherwise the relation is inconclusive.
    ///
    /// S satisfies t when every outcome allowed by S satisfies t;
    /// S contradicts t when no outcome allowed by S satisfies t.
    /// Satisfaction takes precedence when S allows no outcome at all.
    pub fn relation_with(self, other_terms_intersection: Self) -> (r: Relation)
        ensures
            r == Relation::Satisfied <==> other_terms_intersection@.subset_of(self@),
            r == Relation::Contradicted <==> !other_terms_intersection@.subset_of(self@)
                && other_terms_intersection@.disjoint(self@),
            r == Relation::Inconclusive <==> !other_terms_intersection@.subset_of(self@)
                && !other_terms_intersection@.disjoint(self@),
    {
        if other_terms_intersection.subset_of(self) {
            Relation::Satisfied
        } else if other_terms_intersection.is_disjoint(self) {
            Relation::Contradicted
        } else {
            Relation::Inconclusive
        }
    }

    /// Whether the set of terms whose intersection is given satisfies this term.
    pub fn satisfied_by(self, terms_intersection: Self) -> (r: bool)
        ensures
            r == terms_intersection@.subset_of(self@),
    {
        terms_intersection.subset_of(self)
    }

    /// Whether the set of terms whose intersection is given contradicts this term.
    pub fn contradicted_by(self, terms_intersection: Self) -> (r: bool)
        ensures
            r == terms_intersection@.disjoint(self@),
    {
        let i = terms_intersection.intersection(self);
        let e = Self::empty();
        proof {
            if i == e {
                assert forall|x: int| !(terms_intersection@.contains(x) && self@.contains(x)) by {
                    if terms_intersection@.contains(x) && self@.contains(x) {
                        assert(i@.contains(x));
                    }
                }
            } else {
                assert(i@ != e@) by {
                    if i@ == e@ {
                        i.lemma_view_eq(e);
                    }
                }
                assert(!(i@ =~= Set::<int>::empty()));
            }
        }
        i == e
    }
}

/// The intersection of two terms is positive exactly when one of them is
/// positive, and their union is positive exactly when both are.
pub proof fn law_positive_negative(t1: Term, t2: Term)
    ensures
        !t1@.intersect(t2@).contains(-1) == (!t1@.contains(-1) || !t2@.contains(-1)),
        !t1@.union(t2@).contains(-1) == (!t1@.contains(-1) && !t2@.contains(-1)),
{
}

/// Two terms are disjoint exactly when their intersection is the empty term.
pub proof fn law_disjoint_through_intersection(t1: Term, t2: Term)
    ensures
        t1@.disjoint(t2@) <==> t1@.intersect(t2@) == Set::<int>::empty(),
{
    if t1@.disjoint(t2@) {
        assert(t1@.intersect(t2@) =~= Set::<int>::empty());
    }
    if t1@.intersect(t2@) == Set::<int>::empty() {
        assert forall|x: int| !(t1@.contains(x) && t2@.contains(x)) by {
            if t1@.contains(x) && t2@.contains(x) {
                assert(t1@.intersect(t2@).contains(x));
            }
        }
    }
}

/// A term is a subset of another exactly when their intersection is itself.
pub proof fn law_subset_through_intersection(t1: Term, t2: Term)
    ensures
        t1@.subset_of(t2@) <==> t1@.intersect(t2@) == t1@,
{
    if t1@.subset_of(t2@) {
        assert(t1@.intersect(t2@) =~= t1@);
    }
    if t1@.intersect(t2@) == t1@ {
        assert forall|x: int| t1@.contains(x) implies t2@.contains(x) by {
            assert(t1@.intersect(t2@).contains(x));
        }
    }
}

/// Union is the negation of the intersection of the negations (De Morgan),
/// bit for bit, so the two computations give equal terms.
pub proof fn law_union_through_intersection(t1: Term, t2: Term)
    ensures
        t1.bits() | t2.bits() == !((!t1.bits()) & (!t2.bits())),
{
    let a = t1.bits();
    let b = t2.bits();
    assert(a | b == !((!a) & (!b))) by (bit_vector);
}

/// Negating twice gives the term back, bit for bit.
pub proof fn law_double_negation(t: Term)
    ensures
        !!t.bits() == t.bits(),
{
    let a = t.bits();
    assert(!!a == a) by (bit_vector);
}

} // verus!
