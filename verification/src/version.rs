//! Version indices and bitsets of version indices.
//!
//! A [`VersionSet`] is a `u64` bitset able to hold up to 63 version indices.
//! Bit `i + 1` is set when the version index `i` belongs to the set; bit 0 is
//! always clear, which leaves room for the "unselected package" bit of
//! [`Term`](crate::experimental::Term).

use vstd::prelude::*;
use vstd::std_specs::bits::*;

verus! {

/// The bit of `x` at position `i`.
pub open spec fn bit(x: u64, i: u64) -> bool {
    (x >> i) & 1u64 == 1u64
}

/// Bitwise conjunction, disjunction and negation act position by position.
pub proof fn lemma_bits_ops(a: u64, b: u64)
    ensures
        forall|i: u64| i < 64 ==> #[trigger] bit(a & b, i) == (bit(a, i) && bit(b, i)),
        forall|i: u64| i < 64 ==> #[trigger] bit(a | b, i) == (bit(a, i) || bit(b, i)),
        forall|i: u64| i < 64 ==> #[trigger] bit(!a, i) == !bit(a, i),
{
    assert(forall|i: u64| i < 64 ==> (((a & b) >> i) & 1u64 == 1u64) == (((a >> i) & 1u64
        == 1u64) && ((b >> i) & 1u64 == 1u64))) by (bit_vector);
    assert(forall|i: u64| i < 64 ==> (((a | b) >> i) & 1u64 == 1u64) == (((a >> i) & 1u64
        == 1u64) || ((b >> i) & 1u64 == 1u64))) by (bit_vector);
    assert(forall|i: u64| i < 64 ==> (((!a) >> i) & 1u64 == 1u64) == !(((a >> i) & 1u64
        == 1u64))) by (bit_vector);
}

/// The bits of the constants used to build sets.
pub proof fn lemma_bits_consts()
    ensures
        forall|i: u64| i < 64 ==> !#[trigger] bit(0u64, i),
        forall|i: u64| i < 64 ==> #[trigger] bit(0xffff_ffff_ffff_fffeu64, i) == (i != 0),
        forall|i: u64| i < 64 ==> #[trigger] bit(0xffff_ffff_ffff_ffffu64, i),
{
    assert(forall|i: u64| i < 64 ==> ((0u64 >> i) & 1u64 != 1u64)) by (bit_vector);
    assert(forall|i: u64|
        i < 64 ==> (((0xffff_ffff_ffff_fffeu64 >> i) & 1u64 == 1u64) == (i != 0)))
        by (bit_vector);
    assert(forall|i: u64| i < 64 ==> ((0xffff_ffff_ffff_ffffu64 >> i) & 1u64 == 1u64))
        by (bit_vector);
}

/// The only bit of `2 << v` is at position `v + 1`.
pub proof fn lemma_bit_single(v: u64)
    requires
        v < 63,
    ensures
        forall|i: u64| i < 64 ==> #[trigger] bit(2u64 << v, i) == (i == v + 1),
{
    assert(forall|i: u64| v < 63 && i < 64 ==> (((2u64 << v) >> i) & 1u64 == 1u64) == (i
        == v + 1)) by (bit_vector);
}

/// A non-zero word has a set bit.
pub proof fn lemma_nonzero_has_bit(x: u64)
    requires
        x != 0,
    ensures
        bit(x, u64_trailing_zeros(x) as u64),
        u64_trailing_zeros(x) < 64,
{
    axiom_u64_trailing_zeros(x);
}

/// Type for identifying a version index.
#[derive(Debug, Default, Copy, Clone, PartialEq, Eq, Structural, PartialOrd, Ord, Hash)]
pub struct VersionIndex(u8);

impl View for VersionIndex {
    type V = nat;

    closed spec fn view(&self) -> nat {
        self.0 as nat
    }
}

impl VersionIndex {
    /// Maximum possible version index, which is also the number of indices.
    pub const MAX: u64 = 63;

    #[verifier::type_invariant]
    spec fn inv(self) -> bool {
        self.0 < 63
    }

    /// Constructor for a version index.
    pub fn new(v: u8) -> (r: Option<Self>)
        ensures
            r is Some <==> v < 63,
            r matches Some(i) ==> i@ == v,
    {
        if v < 63 {
            Some(Self(v))
        } else {
            None
        }
    }

    /// Get the inner version index.
    pub fn get(self) -> (r: u8)
        ensures
            r == self@,
            r < 63,
    {
        proof {
            use_type_invariant(&self);
        }
        self.0
    }
}

/// Type for identifying a set of version indices.
///
/// This is implemented as a `u64` bitset which can represent up to 63 versions.
/// The first bit is kept unset to leave space for the positive/negative bit of
/// [`Term`](crate::experimental::Term).
#[derive(Debug, Default, Copy, Clone, PartialEq, Eq, Structural, Hash)]
pub struct VersionSet(pub(crate) u64);

impl View for VersionSet {
    type V = Set<nat>;

    closed spec fn view(&self) -> Set<nat> {
        Set::new(|i: nat| i < 63 && bit(self.0, (i + 1) as u64))
    }
}

impl VersionSet {
    #[verifier::type_invariant]
    pub(crate) open spec fn inv(self) -> bool {
        !bit(self.0, 0)
    }

    /// The raw bits of the set.
    pub closed spec fn bits(self) -> u64 {
        self.0
    }

    /// Membership of a version index, read on the bits.
    pub proof fn lemma_view_bits(self, i: nat)
        ensures
            self@.contains(i) == (i < 63 && bit(self.bits(), (i + 1) as u64)),
    {
    }

    /// The raw bits of the set; the bit that no version index stands for is clear.
    pub(crate) fn raw(self) -> (r: u64)
        ensures
            r == self.bits(),
            !bit(r, 0),
    {
        proof {
            use_type_invariant(&self);
        }
        self.0
    }

    /// Build a set from raw bits whose lowest bit is clear.
    pub(crate) fn from_bits(x: u64) -> (r: Self)
        requires
            !bit(x, 0),
        ensures
            r.bits() == x,
    {
        Self(x)
    }

    /// Constructor for an empty set containing no version index.
    pub fn empty() -> (r: Self)
        ensures
            r@ == Set::<nat>::empty(),
            r.bits() == 0,
    {
        proof {
            lemma_bits_consts();
        }
        let r = Self(0);
        assert(r@ =~= Set::<nat>::empty());
        r
    }

    /// Constructor for the set containing all version indices.
    pub fn full() -> (r: Self)
        ensures
            r@ == Set::new(|i: nat| i < 63),
            r.bits() == 0xffff_ffff_ffff_fffeu64,
    {
        proof {
            lemma_bits_consts();
        }
        assert(u64::MAX & (!1u64) == 0xffff_ffff_ffff_fffeu64) by (bit_vector);
        let r = Self(u64::MAX & (!1));
        assert(r@ =~= Set::new(|i: nat| i < 63));
        r
    }

    /// Constructor for a set containing exactly one version index.
    pub fn singleton(v: VersionIndex) -> (r: Self)
        ensures
            r@ == set![v@],
    {
        let i = v.get();
        proof {
            lemma_bit_single(i as u64);
        }
        let r = Self(2u64 << i);
        assert(r@ =~= set![v@]);
        r
    }

    /// Compute the complement of this set.
    pub fn complement(self) -> (r: Self)
        ensures
            r@ == Set::new(|i: nat| i < 63 && !self@.contains(i)),
            r.bits() == (!self.bits()) & 0xffff_ffff_ffff_fffeu64,
    {
        proof {
            lemma_bits_consts();
            lemma_bits_ops(!self.0, 0xffff_ffff_ffff_fffeu64);
            lemma_bits_ops(self.0, 0);
        }
        let a = self.0;
        let x: u64 = (!a) & (!1);
        assert(!1u64 == 0xffff_ffff_ffff_fffeu64) by (bit_vector);
        assert(!bit(x, 0)) by (bit_vector)
            requires
                x == (!a) & (!1u64),
        ;
        let r = Self(x);
        assert(r@ =~= Set::new(|i: nat| i < 63 && !self@.contains(i)));
        r
    }

    /// Compute the intersection with another set.
    pub fn intersection(self, other: Self) -> (r: Self)
        ensures
            r@ == self@.intersect(other@),
            r.bits() == self.bits() & other.bits(),
    {
        proof {
            use_type_invariant(&self);
            lemma_bits_ops(self.0, other.0);
        }
        let r = Self(self.0 & other.0);
        assert(r@ =~= self@.intersect(other@));
        r
    }

    /// Compute the union with another set.
    pub fn union(self, other: Self) -> (r: Self)
        ensures
            r@ == self@.union(other@),
            r.bits() == self.bits() | other.bits(),
    {
        proof {
            use_type_invariant(&self);
            use_type_invariant(&other);
            lemma_bits_ops(self.0, other.0);
        }
        let r = Self(self.0 | other.0);
        assert(r@ =~= self@.union(other@));
        r
    }

    /// Evaluate membership of a version index in this set.
    pub fn contains(self, v: VersionIndex) -> (r: bool)
        ensures
            r == self@.contains(v@),
    {
        let s = Self::singleton(v);
        let i = self.intersection(s);
        let e = Self::empty();
        proof {
            if i@.contains(v@) {
                assert(i.bits() != 0) by {
                    if i.bits() == 0 {
                        lemma_bits_consts();
                    }
                }
            }
            if i.bits() != 0 {
                lemma_nonzero_has_bit(i.bits());
                let j = u64_trailing_zeros(i.bits()) as u64;
                use_type_invariant(&i);
                assert(j != 0);
                assert(i@.contains((j - 1) as nat));
            }
        }
        i != e
    }

    /// Whether the set holds no version index.
    pub fn is_empty(self) -> (r: bool)
        ensures
            r == (self@ == Set::<nat>::empty()),
    {
        proof {
            use_type_invariant(&self);
            lemma_bits_consts();
            if self.0 != 0 {
                lemma_nonzero_has_bit(self.0);
                let j = u64_trailing_zeros(self.0) as u64;
                assert(j != 0);
                assert(self@.contains((j - 1) as nat));
            } else {
                assert(self@ =~= Set::<nat>::empty());
            }
        }
        self.0 == 0
    }

    /// Whether the two sets have no version index in common.
    pub fn is_disjoint(self, other: Self) -> (r: bool)
        ensures
            r == self@.disjoint(other@),
    {
        let i = self.intersection(other);
        let e = Self::empty();
        proof {
            if i.bits() != 0 {
                lemma_nonzero_has_bit(i.bits());
                let j = u64_trailing_zeros(i.bits()) as u64;
                use_type_invariant(&i);
                assert(j != 0);
                assert(i@.contains((j - 1) as nat));
                assert(!self@.disjoint(other@));
            } else {
                lemma_bits_consts();
                assert(i@ =~= Set::<nat>::empty());
                assert forall|a: nat| !(self@.contains(a) && other@.contains(a)) by {
                    if self@.contains(a) && other@.contains(a) {
                        assert(i@.contains(a));
                    }
                }
            }
        }
        i == e
    }

    /// Whether all version indices of `self` are contained in `other`.
    pub fn subset_of(self, other: Self) -> (r: bool)
        ensures
            r == self@.subset_of(other@),
    {
        let i = self.intersection(other);
        proof {
            if self.bits() != i.bits() {
                let a = self.0;
                let b = i.0;
                let x = a ^ b;
                assert(a != b ==> a ^ b != 0) by (bit_vector);
                lemma_nonzero_has_bit(x);
                let j = u64_trailing_zeros(x) as u64;
                assert(bit(x, j) ==> bit(a, j) != bit(b, j)) by (bit_vector)
                    requires
                        x == a ^ b,
                ;
                use_type_invariant(&self);
                use_type_invariant(&i);
                assert(j != 0);
                assert(self@.contains((j - 1) as nat) != i@.contains((j - 1) as nat));
                assert(!self@.subset_of(other@));
            } else {
                assert(self@ =~= i@);
            }
        }
        self == i
    }

    /// Get the version indices contained in the set, in increasing order.
    pub fn iter(self) -> (r: Vec<VersionIndex>)
        ensures
            forall|k: int| 0 <= k < r.len() ==> self@.contains(#[trigger] r[k]@),
            forall|i: nat| self@.contains(i) ==> exists|k: int| 0 <= k < r.len() && #[trigger] r[k]@ == i,
            forall|k: int, l: int| 0 <= k < l < r.len() ==> r[k]@ < r[l]@,
    {
        let mut r: Vec<VersionIndex> = Vec::new();
        let mut v: u8 = 0;
        while v < 63
            invariant
                v <= 63,
                forall|k: int| 0 <= k < r.len() ==> self@.contains(#[trigger] r[k]@) && r[k]@ < v,
                forall|i: nat| self@.contains(i) && i < v ==> exists|k: int| 0 <= k < r.len() && #[trigger] r[k]@ == i,
                forall|k: int, l: int| 0 <= k < l < r.len() ==> r[k]@ < r[l]@,
            decreases 63 - v,
        {
            let idx = VersionIndex(v);
            let ghost old_r = r@;
            if self.contains(idx) {
                r.push(idx);
                assert(r[r.len() - 1]@ == v as nat);
                assert(forall|k: int| 0 <= k < old_r.len() ==> r[k] == old_r[k]);
            }
            v = v + 1;
        }
        r
    }

    /// Get the first version index of the set.
    pub fn first(self) -> (r: Option<VersionIndex>)
        ensures
            r is None <==> self@ == Set::<nat>::empty(),
            r matches Some(i) ==> self@.contains(i@) && forall|j: nat| #[trigger] self@.contains(j) ==> i@ <= j,
    {
        let e = Self::empty();
        if self != e {
            let a = self.0;
            let x = a >> 1;
            let t = x.trailing_zeros();
            proof {
                use_type_invariant(&self);
                axiom_u64_trailing_zeros(x);
                assert(x != 0) by {
                    if x == 0 {
                        assert(x == 0 && !bit(a, 0) ==> a == 0) by (bit_vector)
                            requires
                                x == a >> 1,
                        ;
                    }
                }
                let tz = t as u64;
                assert(tz < 63) by {
                    assert(x == a >> 1 ==> bit(x, 63) == false) by (bit_vector);
                }
                assert(bit(x, tz) == bit(a, (tz + 1) as u64)) by (bit_vector)
                    requires
                        x == a >> 1,
                        tz < 63,
                ;
                assert(self@.contains(tz as nat));
                assert forall|j: nat| #[trigger] self@.contains(j) implies tz <= j by {
                    if j < tz {
                        let jj = j as u64;
                        assert((x >> jj) & 1u64 == 0u64);
                        assert(bit(x, jj) == bit(a, (jj + 1) as u64)) by (bit_vector)
                            requires
                                x == a >> 1,
                                jj < 63,
                        ;
                    }
                }
            }
            Some(VersionIndex(t as u8))
        } else {
            proof {
                lemma_bits_consts();
                assert(self@ =~= Set::<nat>::empty());
            }
            None
        }
    }

    /// Get the last version index of the set.
    pub fn last(self) -> (r: Option<VersionIndex>)
        ensures
            r is None <==> self@ == Set::<nat>::empty(),
            r matches Some(i) ==> self@.contains(i@) && forall|j: nat| #[trigger] self@.contains(j) ==> j <= i@,
    {
        let e = Self::empty();
        if self != e {
            let a = self.0;
            let x = a >> 1;
            let lz = x.leading_zeros();
            proof {
                use_type_invariant(&self);
                axiom_u64_leading_zeros(x);
                assert(x != 0) by {
                    if x == 0 {
                        assert(x == 0 && !bit(a, 0) ==> a == 0) by (bit_vector)
                            requires
                                x == a >> 1,
                        ;
                    }
                }
                assert(lz >= 1) by {
                    assert(((a >> 1) >> 63u64) & 1u64 == 0u64) by (bit_vector);
                }
                let top = (63 - lz) as u64;
                assert(bit(x, top) == bit(a, (top + 1) as u64)) by (bit_vector)
                    requires
                        x == a >> 1,
                        top < 63,
                ;
                assert((x >> top) & 1u64 != 0u64);
                assert(bit(x, top)) by (bit_vector)
                    requires
                        (x >> top) & 1u64 != 0u64,
                ;
                assert(self@.contains(top as nat));
                assert forall|j: nat| #[trigger] self@.contains(j) implies j <= top by {
                    if j > top {
                        let jj = j as u64;
                        assert((x >> jj) & 1u64 == 0u64);
                        assert(bit(x, jj) == bit(a, (jj + 1) as u64)) by (bit_vector)
                            requires
                                x == a >> 1,
                                jj < 63,
                        ;
                    }
                }
            }
            let v = VersionIndex::MAX - lz as u64;
            Some(VersionIndex(v as u8))
        } else {
            proof {
                lemma_bits_consts();
                assert(self@ =~= Set::<nat>::empty());
            }
            None
        }
    }

    /// Count the number of version indices contained in the set.
    pub fn count(self) -> (r: usize)
        ensures
            r == self@.len(),
    {
        let mut n: usize = 0;
        let mut v: u8 = 0;
        let ghost mut seen: Set<nat> = Set::empty();
        while v < 63
            invariant
                v <= 63,
                seen == self@.filter(|i: nat| i < v),
                seen.finite(),
                n == seen.len(),
                n <= v,
            decreases 63 - v,
        {
            let idx = VersionIndex(v);
            let ghost old_seen = seen;
            if self.contains(idx) {
                n = n + 1;
                proof {
                    seen = seen.insert(v as nat);
                }
            }
            v = v + 1;
            proof {
                assert(seen =~= self@.filter(|i: nat| i < v));
            }
        }
        assert(seen =~= self@);
        n
    }
}

} // verus!
