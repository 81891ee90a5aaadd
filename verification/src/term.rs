//! A term is the fundamental unit of operation of the PubGrub algorithm.
//! It is a positive or negative expression regarding a set of versions.
//!
//! A term is read as the set of choices that make it true: a choice is
//! either `None`, the package is not selected, or `Some(x)`, the package is
//! selected at the point `x` (see [`VersionSet`]).

use vstd::prelude::*;
use vstd::std_specs::cmp::PartialEqSpec;

use crate::range::point;
use crate::version_set::{SetRelation, VersionSet};

verus! {

/// A positive or negative expression regarding a set of versions.
///
/// `Positive(r)` and `Negative(r.complement())` are not equivalent:
/// * the term `Positive(r)` is satisfied if the package is selected AND the selected version is in `r`.
/// * the term `Negative(r.complement())` is satisfied if the package is not selected OR the selected version is in `r`.
///
/// A `Positive` term in the partial solution requires a version to be selected, but a `Negative` term
/// allows for a solution that does not have that package selected.
/// Specifically, `Positive(VS::empty())` means that there was a conflict (we need to select a version for the package
/// but can't pick any), while `Negative(VS::full())` would mean it is fine as long as we don't select the package.
#[derive(Debug)]
pub enum Term<VS: VersionSet> {
    /// For example, `1.0.0 <= v < 2.0.0` is a positive expression
    /// that is evaluated true if a version is selected
    /// and comprised between version 1.0.0 and version 2.0.0.
    Positive(VS),
    /// The term `not (v < 3.0.0)` is a negative expression
    /// that is evaluated true if a version >= 3.0.0 is selected
    /// or if no version is selected at all.
    Negative(VS),
}

/// Describe a relation between a set of terms S and another term t.
///
/// As a shorthand, we say that a term v
/// satisfies or contradicts a term t if {v} satisfies or contradicts it.
#[derive(Debug, Clone, Copy, PartialEq, Eq, Structural)]
pub enum Relation {
    /// We say that a set of terms S "satisfies" a term t
    /// if t must be true whenever every term in S is true.
    Satisfied,
    /// Conversely, S "contradicts" t if t must be false
    /// whenever every term in S is true.
    Contradicted,
    /// If neither of these is true we say that S is "inconclusive" for t.
    Inconclusive,
}

impl<VS: VersionSet> Term<VS> {
    /// The set of versions of the term.
    pub open spec fn set(self) -> VS {
        match self {
            Term::Positive(s) => s,
            Term::Negative(s) => s,
        }
    }

    /// Whether the term is true for a choice: `None` when the package is not
    /// selected, `Some(x)` when it is selected at the point `x`.
    pub open spec fn holds(self, c: Option<int>) -> bool {
        match self {
            Term::Positive(s) => match c {
                Some(x) => s.has_point(x),
                None => false,
            },
            Term::Negative(s) => match c {
                Some(x) => !s.has_point(x),
                None => true,
            },
        }
    }

    /// The set of the term is canonical.
    pub open spec fn valid(self) -> bool {
        self.set().valid()
    }

    /// Every choice that makes `self` true makes `other` true.
    pub open spec fn included_in(self, other: Self) -> bool {
        forall|c: Option<int>| #[trigger] self.holds(c) ==> other.holds(c)
    }

    /// No choice makes both terms true.
    pub open spec fn excludes(self, other: Self) -> bool {
        forall|c: Option<int>| !(#[trigger] self.holds(c) && other.holds(c))
    }

    /// A term that is always true.
    pub fn any() -> (r: Self)
        ensures
            r is Negative,
            r.valid(),
            forall|c: Option<int>| #[trigger] r.holds(c),
    {
        Self::Negative(VS::empty())
    }

    /// A term that is never true.
    pub fn empty() -> (r: Self)
        ensures
            r is Positive,
            r.valid(),
            forall|c: Option<int>| !#[trigger] r.holds(c),
    {
        Self::Positive(VS::empty())
    }

    /// A positive term containing exactly that version.
    pub fn exact(version: VS::V) -> (r: Self)
        ensures
            r is Positive,
            r.valid(),
            forall|c: Option<int>| #[trigger] r.holds(c) == (c == Some(point(version))),
    {
        Self::Positive(VS::singleton(version))
    }

    /// Simply check if a term is positive.
    pub fn is_positive(&self) -> (r: bool)
        ensures
            r == self is Positive,
    {
        match self {
            Self::Positive(_) => true,
            Self::Negative(_) => false,
        }
    }

    /// Negate a term.
    /// Evaluation of a negated term always returns
    /// the opposite of the evaluation of the original one.
    pub fn negate(&self) -> (r: Self)
        requires
            self.valid(),
        ensures
            r is Positive == self is Negative,
            r.valid(),
            forall|c: Option<int>| #[trigger] r.holds(c) == !self.holds(c),
    {
        match self {
            Self::Positive(set) => {
                let s = set.clone();
                proof {
                    VS::lemma_clone(*set, s);
                }
                Self::Negative(s)
            },
            Self::Negative(set) => {
                let s = set.clone();
                proof {
                    VS::lemma_clone(*set, s);
                }
                Self::Positive(s)
            },
        }
    }

    /// Evaluate a term regarding a given choice of version.
    pub fn contains(&self, v: &VS::V) -> (r: bool)
        ensures
            r == self.holds(Some(point(*v))),
    {
        match self {
            Self::Positive(set) => set.contains(v),
            Self::Negative(set) => !set.contains(v),
        }
    }

    /// Unwrap the set contained in a positive term.
    ///
    /// The term must be positive.
    pub fn unwrap_positive(&self) -> (r: &VS)
        requires
            self is Positive,
        ensures
            *r == self.set(),
    {
        match self {
            Self::Positive(set) => set,
            Self::Negative(set) => set,
        }
    }

    /// Unwrap the set contained in a negative term.
    ///
    /// The term must be negative.
    pub fn unwrap_negative(&self) -> (r: &VS)
        requires
            self is Negative,
        ensures
            *r == self.set(),
    {
        match self {
            Self::Negative(set) => set,
            Self::Positive(set) => set,
        }
    }

    /// Compute the intersection of two terms.
    ///
    /// The intersection is negative (unselected package is allowed)
    /// if all terms are negative.
    pub fn intersection(&self, other: &Self) -> (r: Self)
        ensures
            r is Positive == (self is Positive || other is Positive),
            r.valid(),
            forall|c: Option<int>| #[trigger] r.holds(c) == (self.holds(c) && other.holds(c)),
    {
        match (self, other) {
            (Self::Positive(r1), Self::Positive(r2)) => Self::Positive(r1.intersection(r2)),
            (Self::Positive(p), Self::Negative(n)) => Self::Positive(p.difference(n)),
            (Self::Negative(n), Self::Positive(p)) => Self::Positive(p.difference(n)),
            (Self::Negative(r1), Self::Negative(r2)) => Self::Negative(r1.union(r2)),
        }
    }

    /// Check whether two terms are mutually exclusive.
    ///
    /// An optimization for the native implementation of checking whether the intersection of two sets is empty.
    pub fn is_disjoint(&self, other: &Self) -> (r: bool)
        requires
            self.valid(),
            other.valid(),
        ensures
            r == self.excludes(*other),
    {
        match (self, other) {
            (Self::Positive(r1), Self::Positive(r2)) => {
                let r = r1.is_disjoint(r2);
                proof {
                    if !r {
                        let x = choose|x: int| #[trigger] r1.has_point(x) && r2.has_point(x);
                        assert(self.holds(Some(x)) && other.holds(Some(x)));
                    }
                }
                r
            },
            // Unselected package is allowed in both terms, so they are never disjoint.
            (Self::Negative(_), Self::Negative(_)) => {
                assert(self.holds(None) && other.holds(None));
                false
            },
            // If the positive term is a subset of the negative term, it lies fully in the region that the negative
            // term excludes.
            (Self::Positive(p), Self::Negative(n)) => {
                let r = p.subset_of(n);
                proof {
                    if !r {
                        let x = choose|x: int| !(#[trigger] p.has_point(x) ==> n.has_point(x));
                        assert(self.holds(Some(x)) && other.holds(Some(x)));
                    }
                }
                r
            },
            (Self::Negative(n), Self::Positive(p)) => {
                let r = p.subset_of(n);
                proof {
                    if !r {
                        let x = choose|x: int| !(#[trigger] p.has_point(x) ==> n.has_point(x));
                        assert(self.holds(Some(x)) && other.holds(Some(x)));
                    }
                }
                r
            },
        }
    }

    /// Compute the union of two terms.
    /// If at least one term is negative, the union is also negative (unselected package is allowed).
    pub fn union(&self, other: &Self) -> (r: Self)
        ensures
            r is Positive == (self is Positive && other is Positive),
            r.valid(),
            forall|c: Option<int>| #[trigger] r.holds(c) == (self.holds(c) || other.holds(c)),
    {
        match (self, other) {
            (Self::Positive(r1), Self::Positive(r2)) => Self::Positive(r1.union(r2)),
            (Self::Positive(p), Self::Negative(n)) => Self::Negative(n.difference(p)),
            (Self::Negative(n), Self::Positive(p)) => Self::Negative(n.difference(p)),
            (Self::Negative(r1), Self::Negative(r2)) => Self::Negative(r1.intersection(r2)),
        }
    }

    /// Indicate if this term is a subset of another term.
    /// Just like for sets, we say that t1 is a subset of t2
    /// if and only if t1 ∩ t2 = t1.
    pub fn subset_of(&self, other: &Self) -> (r: bool)
        requires
            self.valid(),
            other.valid(),
        ensures
            r == self.included_in(*other),
    {
        match (self, other) {
            (Self::Positive(r1), Self::Positive(r2)) => {
                let r = r1.subset_of(r2);
                proof {
                    if !r {
                        let x = choose|x: int| !(#[trigger] r1.has_point(x) ==> r2.has_point(x));
                        assert(self.holds(Some(x)) && !other.holds(Some(x)));
                    }
                }
                r
            },
            (Self::Positive(r1), Self::Negative(r2)) => {
                let r = r1.is_disjoint(r2);
                proof {
                    if !r {
                        let x = choose|x: int| #[trigger] r1.has_point(x) && r2.has_point(x);
                        assert(self.holds(Some(x)) && !other.holds(Some(x)));
                    }
                }
                r
            },
            // Only a negative term allows the unselected package,
            // so it can never be a subset of a positive term.
            (Self::Negative(_), Self::Positive(_)) => {
                assert(self.holds(None) && !other.holds(None));
                false
            },
            (Self::Negative(r1), Self::Negative(r2)) => {
                let r = r2.subset_of(r1);
                proof {
                    if !r {
                        let x = choose|x: int| !(#[trigger] r2.has_point(x) ==> r1.has_point(x));
                        assert(self.holds(Some(x)) && !other.holds(Some(x)));
                    }
                }
                r
            },
        }
    }

    /// Check if a set of terms satisfies this term.
    ///
    /// We say that a set of terms S "satisfies" a term t
    /// if t must be true whenever every term in S is true.
    ///
    /// It turns out that this can also be expressed with set operations:
    ///    S satisfies t if and only if  ⋂ S ⊆ t
    pub fn satisfied_by(&self, terms_intersection: &Self) -> (r: bool)
        requires
            self.valid(),
            terms_intersection.valid(),
        ensures
            r == terms_intersection.included_in(*self),
    {
        terms_intersection.subset_of(self)
    }

    /// Check if a set of terms contradicts this term.
    ///
    /// We say that a set of terms S "contradicts" a term t
    /// if t must be false whenever every term in S is true.
    ///
    /// It turns out that this can also be expressed with set operations:
    ///    S contradicts t if and only if ⋂ S is disjoint with t
    ///    S contradicts t if and only if  (⋂ S) ⋂ t = ∅
    pub fn contradicted_by(&self, terms_intersection: &Self) -> (r: bool)
        ensures
            r == terms_intersection.excludes(*self),
    {
        let i = terms_intersection.intersection(self);
        let e = Self::empty();
        proof {
            lemma_term_eq(i, e);
            if i.excludes(*self) {
            }
            if !terms_intersection.excludes(*self) {
                let c = choose|c: Option<int>| #[trigger] terms_intersection.holds(c) && self.holds(c);
                assert(i.holds(c));
                assert(!e.holds(c));
            } else {
                assert forall|c: Option<int>| #[trigger] i.holds(c) == e.holds(c) by {
                    assert(!(terms_intersection.holds(c) && self.holds(c)));
                }
            }
        }
        i == e
    }

    /// Check if a set of terms satisfies or contradicts a given term.
    /// Otherwise the relation is inconclusive.
    /// Satisfaction takes precedence when an empty positive intersection both satisfies and
    /// contradicts the term.
    pub fn relation_with(&self, other_terms_intersection: &Self) -> (r: Relation)
        requires
            self.valid(),
            other_terms_intersection.valid(),
        ensures
            (r == Relation::Satisfied) == other_terms_intersection.included_in(*self),
            (r == Relation::Contradicted) == (!other_terms_intersection.included_in(*self)
                && other_terms_intersection.excludes(*self)),
            (r == Relation::Inconclusive) == (!other_terms_intersection.included_in(*self)
                && !other_terms_intersection.excludes(*self)),
    {
        let ghost o = *other_terms_intersection;
        match (self, other_terms_intersection) {
            (Self::Positive(range), Self::Positive(other)) => {
                let rel = other.relation(range);
                proof {
                    lemma_positive_positive(*self, o);
                }
                match rel {
                    SetRelation::Subset => Relation::Satisfied,
                    SetRelation::Disjoint => Relation::Contradicted,
                    SetRelation::Overlapping => Relation::Inconclusive,
                }
            },
            (Self::Positive(range), Self::Negative(other)) => {
                let sub = range.subset_of(other);
                proof {
                    assert(o.holds(None) && !self.holds(None));
                    if !sub {
                        let x = choose|x: int| !(#[trigger] range.has_point(x) ==> other.has_point(x));
                        assert(o.holds(Some(x)) && self.holds(Some(x)));
                    }
                }
                if sub {
                    Relation::Contradicted
                } else {
                    Relation::Inconclusive
                }
            },
            (Self::Negative(range), Self::Positive(other)) => {
                let e = VS::empty();
                proof {
                    VS::lemma_eq(other, &e);
                }
                if other == &e {
                    proof {
                        assert forall|c: Option<int>| #[trigger] o.holds(c) implies self.holds(c) by {
                            if let Some(x) = c {
                                assert(other.has_point(x) == e.has_point(x));
                            }
                        }
                    }
                    Relation::Satisfied
                } else {
                    let rel = other.relation(range);
                    proof {
                        lemma_positive_negative(*self, o);
                    }
                    match rel {
                        SetRelation::Subset => Relation::Contradicted,
                        SetRelation::Disjoint => Relation::Satisfied,
                        SetRelation::Overlapping => Relation::Inconclusive,
                    }
                }
            },
            (Self::Negative(range), Self::Negative(other)) => {
                let sub = range.subset_of(other);
                proof {
                    assert(o.holds(None) && self.holds(None));
                    if sub {
                        assert forall|c: Option<int>| #[trigger] o.holds(c) implies self.holds(c) by {
                            if let Some(x) = c {
                                assert(range.has_point(x) ==> other.has_point(x));
                            }
                        }
                    } else {
                        let x = choose|x: int| !(#[trigger] range.has_point(x) ==> other.has_point(x));
                        assert(o.holds(Some(x)) && !self.holds(Some(x)));
                    }
                }
                if sub {
                    Relation::Satisfied
                } else {
                    Relation::Inconclusive
                }
            },
        }
    }
}

/// A positive term relates to a positive intersection as their sets do.
proof fn lemma_positive_positive<VS: VersionSet>(t: Term<VS>, o: Term<VS>)
    requires
        t is Positive,
        o is Positive,
    ensures
        o.included_in(t) == (forall|x: int| #[trigger] o.set().has_point(x) ==> t.set().has_point(x)),
        o.excludes(t) == (forall|x: int| !(#[trigger] o.set().has_point(x) && t.set().has_point(x))),
{
    if forall|x: int| #[trigger] o.set().has_point(x) ==> t.set().has_point(x) {
        assert forall|c: Option<int>| #[trigger] o.holds(c) implies t.holds(c) by {
            if let Some(x) = c {
                assert(o.set().has_point(x) ==> t.set().has_point(x));
            }
        }
    }
    if o.included_in(t) {
        assert forall|x: int| #[trigger] o.set().has_point(x) implies t.set().has_point(x) by {
            assert(o.holds(Some(x)) ==> t.holds(Some(x)));
        }
    }
    if forall|x: int| !(#[trigger] o.set().has_point(x) && t.set().has_point(x)) {
        assert forall|c: Option<int>| !(#[trigger] o.holds(c) && t.holds(c)) by {
            if let Some(x) = c {
                assert(!(o.set().has_point(x) && t.set().has_point(x)));
            }
        }
    }
    if o.excludes(t) {
        assert forall|x: int| !(#[trigger] o.set().has_point(x) && t.set().has_point(x)) by {
            assert(!(o.holds(Some(x)) && t.holds(Some(x))));
        }
    }
}

/// A negative term relates to a positive, non empty, intersection as the
/// sets do, with satisfaction and contradiction swapped.
proof fn lemma_positive_negative<VS: VersionSet>(t: Term<VS>, o: Term<VS>)
    requires
        t is Negative,
        o is Positive,
        exists|x: int| #[trigger] o.set().has_point(x),
    ensures
        o.excludes(t) == (forall|x: int| #[trigger] o.set().has_point(x) ==> t.set().has_point(x)),
        o.included_in(t) == (forall|x: int| !(#[trigger] o.set().has_point(x) && t.set().has_point(x))),
        (forall|x: int| #[trigger] o.set().has_point(x) ==> t.set().has_point(x)) ==> !(forall|x: int|
            !(#[trigger] o.set().has_point(x) && t.set().has_point(x))),
{
    if forall|x: int| #[trigger] o.set().has_point(x) ==> t.set().has_point(x) {
        assert forall|c: Option<int>| !(#[trigger] o.holds(c) && t.holds(c)) by {
            if let Some(x) = c {
                assert(o.set().has_point(x) ==> t.set().has_point(x));
            }
        }
        let w = choose|x: int| #[trigger] o.set().has_point(x);
        assert(o.set().has_point(w) && t.set().has_point(w));
    }
    if o.excludes(t) {
        assert forall|x: int| #[trigger] o.set().has_point(x) implies t.set().has_point(x) by {
            assert(!(o.holds(Some(x)) && t.holds(Some(x))));
        }
    }
    if forall|x: int| !(#[trigger] o.set().has_point(x) && t.set().has_point(x)) {
        assert forall|c: Option<int>| #[trigger] o.holds(c) implies t.holds(c) by {
            if let Some(x) = c {
                assert(!(o.set().has_point(x) && t.set().has_point(x)));
            }
        }
    }
    if o.included_in(t) {
        assert forall|x: int| !(#[trigger] o.set().has_point(x) && t.set().has_point(x)) by {
            assert(o.holds(Some(x)) ==> t.holds(Some(x)));
        }
    }
}

impl<VS: VersionSet> Clone for Term<VS> {
    /// A term with the same sign and a clone of the set.
    fn clone(&self) -> (r: Self)
        ensures
            r is Positive == self is Positive,
            vstd::pervasive::cloned(self.set(), r.set()),
    {
        match self {
            Self::Positive(set) => Self::Positive(set.clone()),
            Self::Negative(set) => Self::Negative(set.clone()),
        }
    }
}

/// A clone of a valid term is valid and true for the same choices.
pub proof fn lemma_term_clone<VS: VersionSet>(a: Term<VS>, b: Term<VS>)
    requires
        a.valid(),
        b is Positive == a is Positive,
        vstd::pervasive::cloned(a.set(), b.set()),
    ensures
        b.valid(),
        forall|c: Option<int>| #[trigger] b.holds(c) == a.holds(c),
{
    VS::lemma_clone(a.set(), b.set());
}

impl<VS: VersionSet> PartialEq for Term<VS> {
    /// Two terms are equal when they have the same sign and equal sets.
    fn eq(&self, other: &Self) -> (r: bool) {
        match (self, other) {
            (Self::Positive(a), Self::Positive(b)) => a == b,
            (Self::Negative(a), Self::Negative(b)) => a == b,
            _ => false,
        }
    }
}

impl<VS: VersionSet> vstd::std_specs::cmp::PartialEqSpecImpl for Term<VS> {
    open spec fn obeys_eq_spec() -> bool {
        <VS as PartialEqSpec>::obeys_eq_spec()
    }

    open spec fn eq_spec(&self, other: &Self) -> bool {
        (*self is Positive) == (*other is Positive) && self.set().eq_spec(&other.set())
    }
}

/// Terms are equal exactly when they are true for the same choices.
pub proof fn lemma_term_eq<VS: VersionSet>(a: Term<VS>, b: Term<VS>)
    requires
        a.valid(),
        b.valid(),
    ensures
        <Term<VS> as PartialEqSpec>::obeys_eq_spec(),
        a.eq_spec(&b) == (forall|c: Option<int>| #[trigger] a.holds(c) == b.holds(c)),
{
    VS::lemma_eq(&a.set(), &b.set());
    if forall|c: Option<int>| #[trigger] a.holds(c) == b.holds(c) {
        assert(a.holds(None) == b.holds(None));
        assert forall|x: int| #[trigger] a.set().has_point(x) == b.set().has_point(x) by {
            assert(a.holds(Some(x)) == b.holds(Some(x)));
        }
    }
    if a.eq_spec(&b) {
        assert forall|c: Option<int>| #[trigger] a.holds(c) == b.holds(c) by {
            if let Some(x) = c {
                assert(a.set().has_point(x) == b.set().has_point(x));
            }
        }
    }
}

/// Two terms are disjoint exactly when their intersection is the empty term.
pub proof fn law_term_disjoint_through_intersection<VS: VersionSet>(
    r1: Term<VS>,
    r2: Term<VS>,
    i: Term<VS>,
    e: Term<VS>,
)
    requires
        i.valid(),
        e.valid(),
        e is Positive,
        forall|c: Option<int>| !#[trigger] e.holds(c),
        forall|c: Option<int>| #[trigger] i.holds(c) == (r1.holds(c) && r2.holds(c)),
    ensures
        r1.excludes(r2) == i.eq_spec(&e),
{
    lemma_term_eq(i, e);
    if r1.excludes(r2) {
        assert forall|c: Option<int>| #[trigger] i.holds(c) == e.holds(c) by {
            assert(!(r1.holds(c) && r2.holds(c)));
        }
    }
    if i.eq_spec(&e) {
        assert forall|c: Option<int>| !(#[trigger] r1.holds(c) && r2.holds(c)) by {
            assert(i.holds(c) == e.holds(c));
        }
    }
}

/// A term is included in another exactly when intersecting them gives back the first.
pub proof fn law_term_subset_through_intersection<VS: VersionSet>(r1: Term<VS>, r2: Term<VS>, i: Term<VS>)
    requires
        r1.valid(),
        i.valid(),
        forall|c: Option<int>| #[trigger] i.holds(c) == (r1.holds(c) && r2.holds(c)),
    ensures
        r1.included_in(r2) == i.eq_spec(&r1),
{
    lemma_term_eq(i, r1);
    if r1.included_in(r2) {
        assert forall|c: Option<int>| #[trigger] i.holds(c) == r1.holds(c) by {
            assert(r1.holds(c) ==> r2.holds(c));
        }
    }
    if i.eq_spec(&r1) {
        assert forall|c: Option<int>| #[trigger] r1.holds(c) implies r2.holds(c) by {
            assert(i.holds(c) == r1.holds(c));
        }
    }
}

/// The union of two terms is the negation of the intersection of their negations.
pub proof fn law_term_union_through_intersection<VS: VersionSet>(
    r1: Term<VS>,
    r2: Term<VS>,
    u: Term<VS>,
    n1: Term<VS>,
    n2: Term<VS>,
    i: Term<VS>,
    w: Term<VS>,
)
    requires
        u.valid(),
        w.valid(),
        forall|c: Option<int>| #[trigger] u.holds(c) == (r1.holds(c) || r2.holds(c)),
        forall|c: Option<int>| #[trigger] n1.holds(c) == !r1.holds(c),
        forall|c: Option<int>| #[trigger] n2.holds(c) == !r2.holds(c),
        forall|c: Option<int>| #[trigger] i.holds(c) == (n1.holds(c) && n2.holds(c)),
        forall|c: Option<int>| #[trigger] w.holds(c) == !i.holds(c),
    ensures
        u.eq_spec(&w),
{
    lemma_term_eq(u, w);
    assert forall|c: Option<int>| #[trigger] u.holds(c) == w.holds(c) by {
        assert(w.holds(c) == !i.holds(c));
        assert(i.holds(c) == (n1.holds(c) && n2.holds(c)));
    }
}

/// Negating twice gives back the term.
pub proof fn law_term_double_negation<VS: VersionSet>(t: Term<VS>, n: Term<VS>, nn: Term<VS>)
    requires
        t.valid(),
        nn.valid(),
        forall|c: Option<int>| #[trigger] n.holds(c) == !t.holds(c),
        forall|c: Option<int>| #[trigger] nn.holds(c) == !n.holds(c),
    ensures
        nn.eq_spec(&t),
{
    lemma_term_eq(nn, t);
    assert forall|c: Option<int>| #[trigger] nn.holds(c) == t.holds(c) by {
        assert(n.holds(c) == !t.holds(c));
    }
}

} // verus!
