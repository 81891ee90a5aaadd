//! A Memory acts like a structured partial solution
//! where terms are regrouped by package.

use vstd::prelude::*;

use crate::arena::{Arena, Id};
use crate::assignment::Assignment;
use crate::incompatibility::{lookup, Incompatibility};
use crate::range::point;
use crate::term::{lemma_term_clone, Term};
use crate::version_set::VersionSet;

verus! {

/// A package memory contains the potential decision and derivations
/// that have already been made for a given package.
#[derive(Debug)]
pub enum PackageAssignments<VS: VersionSet> {
    /// The decided version, with the term of exactly that version.
    Decision((VS::V, Term<VS>)),
    /// The derivations: the intersection of those already intersected, and
    /// those not intersected yet.
    Derivations { intersected: Term<VS>, not_intersected_yet: Vec<Term<VS>> },
}

/// The choices that every assignment of a package allows.
pub open spec fn pa_holds<VS: VersionSet>(pa: PackageAssignments<VS>, c: Option<int>) -> bool {
    match pa {
        PackageAssignments::Decision((_, t)) => t.holds(c),
        PackageAssignments::Derivations { intersected, not_intersected_yet } => intersected.holds(c)
            && forall|i: int| 0 <= i < not_intersected_yet@.len() ==> #[trigger] not_intersected_yet@[i].holds(c),
    }
}

/// The assignments of a package are well formed: their terms are valid, and
/// the term of a decision is exactly the decided version.
pub open spec fn pa_wf<VS: VersionSet>(pa: PackageAssignments<VS>) -> bool {
    match pa {
        PackageAssignments::Decision((v, t)) => t.valid() && forall|c: Option<int>| #[trigger] t.holds(c) == (c
            == Some(point(v))),
        PackageAssignments::Derivations { intersected, not_intersected_yet } => intersected.valid()
            && forall|i: int| 0 <= i < not_intersected_yet@.len() ==> #[trigger] not_intersected_yet@[i].valid(),
    }
}

/// Some derivation of the package is a positive term.
pub open spec fn pa_positive<VS: VersionSet>(pa: PackageAssignments<VS>) -> bool {
    match pa {
        PackageAssignments::Decision(_) => false,
        PackageAssignments::Derivations { intersected, not_intersected_yet } => intersected is Positive
            || exists|i: int| 0 <= i < not_intersected_yet@.len() && #[trigger] not_intersected_yet@[i] is Positive,
    }
}

/// Whether some entry is for the package at index `k`.
pub open spec fn has_package<P, T>(e: Seq<(Id<P>, T)>, k: int) -> bool {
    exists|i: int| 0 <= i < e.len() && #[trigger] e[i].0.index() == k
}

/// The position of the entry for the package at index `k`.
pub open spec fn position<P, T>(e: Seq<(Id<P>, T)>, k: int) -> int {
    choose|i: int| 0 <= i < e.len() && #[trigger] e[i].0.index() == k
}

/// No two entries are for the same package.
pub open spec fn unique<P, T>(e: Seq<(Id<P>, T)>) -> bool {
    forall|i: int, j: int| 0 <= i < e.len() && 0 <= j < e.len() && #[trigger] e[i].0.index() == #[trigger] e[j].0.index() ==> i == j
}

/// Changing the assignments of one entry keeps the packages, and where they are.
pub proof fn lemma_update_keeps<P, T>(e: Seq<(Id<P>, T)>, e2: Seq<(Id<P>, T)>, i: int)
    requires
        unique(e),
        0 <= i < e.len(),
        e2.len() == e.len(),
        e2[i].0 == e[i].0,
        forall|j: int| 0 <= j < e.len() && j != i ==> e2[j] == e[j],
    ensures
        unique(e2),
        forall|k: int| #[trigger] has_package(e2, k) == has_package(e, k),
        forall|k: int| has_package(e, k) ==> #[trigger] position(e2, k) == position(e, k),
        forall|j: int| 0 <= j < e.len() ==> #[trigger] e2[j].0 == e[j].0,
{
    assert forall|j: int| 0 <= j < e.len() implies #[trigger] e2[j].0 == e[j].0 by {
        if j != i {
            assert(e2[j] == e[j]);
        }
    }
    assert forall|k: int| #[trigger] has_package(e2, k) == has_package(e, k) by {
        if has_package(e, k) {
            let j = choose|j: int| 0 <= j < e.len() && #[trigger] e[j].0.index() == k;
            assert(e2[j].0.index() == k);
        }
        if has_package(e2, k) {
            let j = choose|j: int| 0 <= j < e2.len() && #[trigger] e2[j].0.index() == k;
            assert(e[j].0.index() == k);
        }
    }
    assert forall|k: int| has_package(e, k) implies #[trigger] position(e2, k) == position(e, k) by {
        let p = position(e, k);
        let q = position(e2, k);
        assert(e[p].0.index() == k);
        assert(has_package(e2, k));
        assert(e2[q].0.index() == k);
        assert(e[q].0.index() == k);
    }
}

impl<VS: VersionSet> PackageAssignments<VS> {
    /// Returns intersection of all assignments (decision included).
    /// Mutates itself to store the intersection result.
    pub fn assignment_intersection(&mut self) -> (r: Term<VS>)
        requires
            pa_wf(*old(self)),
        ensures
            pa_wf(*final(self)),
            forall|c: Option<int>| #[trigger] pa_holds(*final(self), c) == pa_holds(*old(self), c),
            pa_positive(*final(self)) == pa_positive(*old(self)),
            (*final(self) is Decision) == (*old(self) is Decision),
            *old(self) matches PackageAssignments::Decision((v, _)) ==> *final(self) matches PackageAssignments::Decision((w, _)) && w == v,
            r.valid(),
            forall|c: Option<int>| #[trigger] r.holds(c) == pa_holds(*old(self), c),
            (*old(self) is Derivations && pa_positive(*old(self))) ==> r is Positive,
    {
        match self {
            PackageAssignments::Decision((_, term)) => {
                let r = term.clone();
                proof {
                    lemma_term_clone(*term, r);
                }
                r
            },
            PackageAssignments::Derivations { intersected, not_intersected_yet } => {
                let ghost rest = not_intersected_yet@;
                let ghost first = *intersected;
                let mut k: usize = 0;
                while k < not_intersected_yet.len()
                    invariant
                        0 <= k <= rest.len(),
                        not_intersected_yet@ == rest,
                        intersected.valid(),
                        forall|i: int| 0 <= i < rest.len() ==> #[trigger] rest[i].valid(),
                        forall|c: Option<int>| #[trigger] intersected.holds(c) == (first.holds(c) && forall|i: int|
                            0 <= i < k ==> #[trigger] rest[i].holds(c)),
                        (first is Positive || exists|i: int| 0 <= i < k && #[trigger] rest[i] is Positive)
                            == (*intersected is Positive),
                    decreases rest.len() - k,
                {
                    let next = intersected.intersection(&not_intersected_yet[k]);
                    proof {
                        assert forall|c: Option<int>| #[trigger] next.holds(c) == (first.holds(c) && forall|i: int|
                            0 <= i < k + 1 ==> #[trigger] rest[i].holds(c)) by {
                            if first.holds(c) && forall|i: int| 0 <= i < k + 1 ==> #[trigger] rest[i].holds(c) {
                                assert(rest[k as int].holds(c));
                            }
                        }
                    }
                    *intersected = next;
                    k = k + 1;
                }
                not_intersected_yet.clear();
                let r = intersected.clone();
                proof {
                    lemma_term_clone(*intersected, r);
                }
                r
            },
        }
    }

    /// A package is a potential pick if there isn't an already
    /// selected version (no "decision")
    /// and if it contains at least one positive derivation term
    /// in the partial solution.
    pub fn potential_package_filter(&mut self) -> (r: Option<VS>)
        requires
            pa_wf(*old(self)),
        ensures
            pa_wf(*final(self)),
            forall|c: Option<int>| #[trigger] pa_holds(*final(self), c) == pa_holds(*old(self), c),
            pa_positive(*final(self)) == pa_positive(*old(self)),
            (*final(self) is Decision) == (*old(self) is Decision),
            *old(self) matches PackageAssignments::Decision((v, _)) ==> *final(self) matches PackageAssignments::Decision((w, _)) && w == v,
            r is Some == (*old(self) is Derivations && pa_positive(*old(self))),
            r matches Some(s) ==> s.valid() && forall|x: int| #[trigger] s.has_point(x) == pa_holds(*old(self), Some(x)),
    {
        let positive = self.has_positive();
        if positive {
            let t = self.assignment_intersection();
            proof {
                assert(t is Positive);
            }
            match t {
                Term::Positive(s) => {
                    proof {
                        assert forall|x: int| #[trigger] s.has_point(x) == pa_holds(*old(self), Some(x)) by {
                            assert(t.holds(Some(x)) == s.has_point(x));
                        }
                    }
                    Some(s)
                },
                Term::Negative(s) => Some(s),
            }
        } else {
            None
        }
    }
}

/// A memory is the set of all assignments in the partial solution,
/// organized by package instead of historically ordered.
///
/// Contrary to PartialSolution, Memory does not store derivations causes, only the terms.
#[derive(Debug)]
pub struct Memory<P, VS: VersionSet> {
    assignments: Vec<(Id<P>, PackageAssignments<VS>)>,
}

impl<P, VS: VersionSet> Memory<P, VS> {
    /// The assignments of the packages, in the order the packages came.
    pub closed spec fn entries(self) -> Seq<(Id<P>, PackageAssignments<VS>)> {
        self.assignments@
    }

    /// One entry per package, each well formed.
    pub open spec fn wf(self) -> bool {
        &&& unique(self.entries())
        &&& forall|i: int| 0 <= i < self.entries().len() ==> #[trigger] pa_wf(self.entries()[i].1)
    }

    /// Whether the memory holds assignments for the package at index `k`.
    pub open spec fn knows(self, k: int) -> bool {
        has_package(self.entries(), k)
    }

    /// The assignments of the package at index `k`.
    pub open spec fn of(self, k: int) -> PackageAssignments<VS> {
        self.entries()[position(self.entries(), k)].1
    }

    /// Initialize an empty memory.
    pub fn empty() -> (r: Self)
        ensures
            r.wf(),
            forall|k: int| !#[trigger] r.knows(k),
    {
        Self { assignments: Vec::new() }
    }

    /// The position of the entry of a package, if any.
    fn find(&self, package: Id<P>) -> (r: Option<usize>)
        requires
            unique(self.entries()),
        ensures
            r is None == !self.knows(package.index()),
            r matches Some(i) ==> i < self.entries().len() && self.entries()[i as int].0.index() == package.index()
                && position(self.entries(), package.index()) == i,
    {
        let mut i: usize = 0;
        while i < self.assignments.len()
            invariant
                0 <= i <= self.entries().len(),
                unique(self.entries()),
                forall|j: int| 0 <= j < i ==> #[trigger] self.entries()[j].0.index() != package.index(),
            decreases self.entries().len() - i,
        {
            if self.assignments[i].0 == package {
                proof {
                    assert(self.entries()[i as int].0.index() == package.index());
                    let p = position(self.entries(), package.index());
                    assert(self.entries()[p].0.index() == package.index());
                }
                return Some(i);
            }
            i = i + 1;
        }
        None
    }

    /// Retrieve intersection of terms in memory related to package.
    pub fn term_intersection_for_package(&mut self, package: Id<P>) -> (r: Option<Term<VS>>)
        requires
            old(self).wf(),
        ensures
            final(self).wf(),
            forall|k: int| #[trigger] final(self).knows(k) == old(self).knows(k),
            forall|k: int, c: Option<int>| old(self).knows(k) ==> #[trigger] pa_holds(final(self).of(k), c)
                == pa_holds(old(self).of(k), c),
            forall|k: int| old(self).knows(k) ==> #[trigger] pa_positive(final(self).of(k)) == pa_positive(
                old(self).of(k),
            ),
            forall|k: int| old(self).knows(k) ==> (#[trigger] final(self).of(k) is Decision) == (old(
                self,
            ).of(k) is Decision),
            r is Some == old(self).knows(package.index()),
            r matches Some(t) ==> t.valid() && forall|c: Option<int>| #[trigger] t.holds(c) == pa_holds(
                old(self).of(package.index()),
                c,
            ),
    {
        match self.find(package) {
            None => None,
            Some(i) => {
                let ghost before = self.entries();
                let (_, pa) = &mut self.assignments[i];
                let t = pa.assignment_intersection();
                proof {
                    lemma_update_keeps(before, self.entries(), i as int);
                    assert forall|j: int| 0 <= j < self.entries().len() implies #[trigger] pa_wf(self.entries()[j].1) by {
                        if j != i {
                            assert(self.entries()[j] == before[j]);
                        }
                    }
                }
                Some(t)
            },
        }
    }
}

impl<P, VS: VersionSet> Memory<P, VS> {
    /// The packages other than the one at index `k` keep their assignments.
    pub open spec fn others_kept(self, old: Self, k: int) -> bool {
        forall|j: int| j != k ==> #[trigger] self.knows(j) == old.knows(j) && (old.knows(j) ==> self.of(j) == old.of(j))
    }

    /// Add a decision to a Memory.
    ///
    /// The package must already have derivations, allowing the version.
    pub fn add_decision(&mut self, package: Id<P>, version: VS::V)
        requires
            old(self).wf(),
            old(self).knows(package.index()),
            old(self).of(package.index()) is Derivations,
            pa_holds(old(self).of(package.index()), Some(point(version))),
        ensures
            final(self).wf(),
            final(self).knows(package.index()),
            final(self).others_kept(*old(self), package.index()),
            final(self).of(package.index()) matches PackageAssignments::Decision((v, _)) && v == version,
            forall|c: Option<int>| #[trigger] pa_holds(final(self).of(package.index()), c) == (c == Some(point(version))),
    {
        let i = self.find(package).unwrap();
        let ghost before = self.entries();
        let term = Term::exact(version);
        self.assignments.set(i, (package, PackageAssignments::Decision((version, term))));
        proof {
            let e = self.entries();
            Id::lemma_index_determines(package, before[i as int].0);
            lemma_update_keeps(before, e, i as int);
            assert forall|j: int| 0 <= j < e.len() implies #[trigger] pa_wf(e[j].1) by {
                if j != i {
                    assert(e[j] == before[j]);
                }
            }
            assert forall|j: int| j != package.index() implies #[trigger] self.knows(j) == old(self).knows(j) && (old(
                self,
            ).knows(j) ==> self.of(j) == old(self).of(j)) by {
                if old(self).knows(j) {
                    let p = position(before, j);
                    assert(before[p].0.index() == j);
                    assert(p != i);
                    assert(e[p] == before[p]);
                }
            }
        }
    }

    /// Add a derivation to a Memory.
    ///
    /// The package must not have a decision.
    pub fn add_derivation(&mut self, package: Id<P>, term: Term<VS>)
        requires
            old(self).wf(),
            term.valid(),
            old(self).knows(package.index()) ==> old(self).of(package.index()) is Derivations,
        ensures
            final(self).wf(),
            final(self).knows(package.index()),
            final(self).others_kept(*old(self), package.index()),
            final(self).of(package.index()) is Derivations,
            forall|c: Option<int>| #[trigger] pa_holds(final(self).of(package.index()), c) == ((old(self).knows(
                package.index(),
            ) ==> pa_holds(old(self).of(package.index()), c)) && term.holds(c)),
            pa_positive(final(self).of(package.index())) == ((old(self).knows(package.index()) && pa_positive(
                old(self).of(package.index()),
            )) || term is Positive),
    {
        let ghost before = self.entries();
        match self.find(package) {
            Some(i) => {
                let ghost t = term;
                let ghost old_pa = before[i as int].1;
                let (_, pa) = &mut self.assignments[i];
                match pa {
                    PackageAssignments::Derivations { intersected: _, not_intersected_yet } => {
                        let ghost old_rest = not_intersected_yet@;
                        not_intersected_yet.push(term);
                        proof {
                            assert(not_intersected_yet@ == old_rest.push(t));
                        }
                    },
                    PackageAssignments::Decision(_) => {},
                }
                proof {
                    let e = self.entries();
                    lemma_update_keeps(before, e, i as int);
                    let k = package.index();
                    assert(position(e, k) == i);
                    let new_pa = e[i as int].1;
                    assert(old_pa is Derivations);
                    assert(new_pa is Derivations);
                    assert(new_pa->intersected == old_pa->intersected);
                    assert(new_pa->not_intersected_yet@ == old_pa->not_intersected_yet@.push(t));
                    assert(pa_wf(old_pa));
                    assert(pa_wf(new_pa)) by {
                        let nv = new_pa->not_intersected_yet@;
                        let ov = old_pa->not_intersected_yet@;
                        assert forall|j: int| 0 <= j < nv.len() implies #[trigger] nv[j].valid() by {
                            if j < ov.len() {
                                assert(nv[j] == ov[j]);
                                assert(ov[j].valid());
                            } else {
                                assert(nv[j] == t);
                            }
                        }
                    }
                    assert forall|j: int| 0 <= j < e.len() implies #[trigger] pa_wf(e[j].1) by {
                        if j != i {
                            assert(e[j] == before[j]);
                        }
                    }
                    assert forall|c: Option<int>| #[trigger] pa_holds(new_pa, c) == (pa_holds(old_pa, c) && t.holds(c)) by {
                        let nv = new_pa->not_intersected_yet@;
                        let ov = old_pa->not_intersected_yet@;
                        if pa_holds(old_pa, c) && t.holds(c) {
                            assert forall|j: int| 0 <= j < nv.len() implies #[trigger] nv[j].holds(c) by {
                                if j < ov.len() {
                                    assert(nv[j] == ov[j]);
                                }
                            }
                        }
                        if pa_holds(new_pa, c) {
                            assert(nv[ov.len() as int] == t);
                            assert forall|j: int| 0 <= j < ov.len() implies #[trigger] ov[j].holds(c) by {
                                assert(nv[j] == ov[j]);
                                assert(nv[j].holds(c));
                            }
                        }
                    }
                    assert(pa_positive(new_pa) == (pa_positive(old_pa) || t is Positive)) by {
                        let nv = new_pa->not_intersected_yet@;
                        let ov = old_pa->not_intersected_yet@;
                        assert(nv[ov.len() as int] == t);
                        if exists|j: int| 0 <= j < ov.len() && #[trigger] ov[j] is Positive {
                            let j = choose|j: int| 0 <= j < ov.len() && #[trigger] ov[j] is Positive;
                            assert(nv[j] == ov[j]);
                        }
                        if exists|j: int| 0 <= j < nv.len() && #[trigger] nv[j] is Positive {
                            let j = choose|j: int| 0 <= j < nv.len() && #[trigger] nv[j] is Positive;
                            if j < ov.len() {
                                assert(nv[j] == ov[j]);
                            }
                        }
                    }
                    assert forall|j: int| j != k implies #[trigger] self.knows(j) == old(self).knows(j) && (old(
                        self,
                    ).knows(j) ==> self.of(j) == old(self).of(j)) by {
                        if old(self).knows(j) {
                            let p = position(before, j);
                            assert(before[p].0.index() == j);
                            assert(p != i);
                            assert(e[p] == before[p]);
                        }
                    }
                }
            },
            None => {
                let v: Vec<Term<VS>> = Vec::new();
                self.assignments.push((package, PackageAssignments::Derivations { intersected: term, not_intersected_yet: v }));
                proof {
                    let e = self.entries();
                    let k = package.index();
                    let n = before.len();
                    assert(e == before.push(e[n as int]));
                    assert(unique(e)) by {
                        assert forall|a: int, b: int| 0 <= a < e.len() && 0 <= b < e.len() && #[trigger] e[a].0.index()
                            == #[trigger] e[b].0.index() implies a == b by {
                            if a < n && b < n {
                                assert(e[a] == before[a]);
                                assert(e[b] == before[b]);
                            } else if a < n {
                                assert(e[a] == before[a]);
                            } else if b < n {
                                assert(e[b] == before[b]);
                            }
                        }
                    }
                    assert(e[n as int].0.index() == k);
                    assert(self.knows(k));
                    assert(position(e, k) == n);
                    assert forall|j: int| 0 <= j < e.len() implies #[trigger] pa_wf(e[j].1) by {
                        if j < n {
                            assert(e[j] == before[j]);
                        }
                    }
                    assert forall|j: int| j != k implies #[trigger] self.knows(j) == old(self).knows(j) && (old(
                        self,
                    ).knows(j) ==> self.of(j) == old(self).of(j)) by {
                        if old(self).knows(j) {
                            let p = position(before, j);
                            assert(before[p].0.index() == j);
                            assert(e[p] == before[p]);
                            assert(position(e, j) == p);
                        }
                        if self.knows(j) {
                            let p = choose|p: int| 0 <= p < e.len() && #[trigger] e[p].0.index() == j;
                            assert(p < n);
                            assert(e[p] == before[p]);
                        }
                    }
                }
            },
        }
    }
}

/// Lists of entries with the same packages, in the same places, have the same
/// packages, in the same places.
pub proof fn lemma_same_packages<P, T>(e: Seq<(Id<P>, T)>, e2: Seq<(Id<P>, T)>)
    requires
        unique(e),
        e2.len() == e.len(),
        forall|j: int| 0 <= j < e.len() ==> #[trigger] e2[j].0 == e[j].0,
    ensures
        unique(e2),
        forall|k: int| #[trigger] has_package(e2, k) == has_package(e, k),
        forall|k: int| has_package(e, k) ==> #[trigger] position(e2, k) == position(e, k),
{
    assert forall|a: int, b: int| 0 <= a < e2.len() && 0 <= b < e2.len() && #[trigger] e2[a].0.index()
        == #[trigger] e2[b].0.index() implies a == b by {
        assert(e2[a].0 == e[a].0);
        assert(e2[b].0 == e[b].0);
    }
    assert forall|k: int| #[trigger] has_package(e2, k) == has_package(e, k) by {
        if has_package(e, k) {
            let j = choose|j: int| 0 <= j < e.len() && #[trigger] e[j].0.index() == k;
            assert(e2[j].0 == e[j].0);
        }
        if has_package(e2, k) {
            let j = choose|j: int| 0 <= j < e2.len() && #[trigger] e2[j].0.index() == k;
            assert(e2[j].0 == e[j].0);
        }
    }
    assert forall|k: int| has_package(e, k) implies #[trigger] position(e2, k) == position(e, k) by {
        let p = position(e, k);
        let q = position(e2, k);
        assert(e[p].0.index() == k);
        assert(has_package(e2, k));
        assert(e2[q].0.index() == k);
        assert(e2[q].0 == e[q].0);
    }
}

/// The assignments of a package are the decision of version `v`.
pub open spec fn decided<VS: VersionSet>(pa: PackageAssignments<VS>, v: VS::V) -> bool {
    pa matches PackageAssignments::Decision((w, _)) && w == v
}

/// The assignments of a package make it a potential pick: no decision, and a
/// positive derivation.
pub open spec fn is_pick<VS: VersionSet>(pa: PackageAssignments<VS>) -> bool {
    pa is Derivations && pa_positive(pa)
}

/// The set is what a potential pick allows.
pub open spec fn picked<VS: VersionSet>(pa: PackageAssignments<VS>, s: VS) -> bool {
    &&& is_pick(pa)
    &&& s.valid()
    &&& forall|x: int| #[trigger] s.has_point(x) == pa_holds(pa, Some(x))
}

/// Two assignments of a package allow the same choices, have the same sign,
/// and the same decision if any.
pub open spec fn pa_same<VS: VersionSet>(a: PackageAssignments<VS>, b: PackageAssignments<VS>) -> bool {
    &&& forall|c: Option<int>| #[trigger] pa_holds(a, c) == pa_holds(b, c)
    &&& pa_positive(a) == pa_positive(b)
    &&& (a is Decision) == (b is Decision)
    &&& b matches PackageAssignments::Decision((v, _)) ==> a matches PackageAssignments::Decision((w, _)) && w == v
}


/// One step of the search for potential picks.
proof fn lemma_pick_step<P, VS: VersionSet>(
    e0: Seq<(Id<P>, PackageAssignments<VS>)>,
    before: Seq<(Id<P>, PackageAssignments<VS>)>,
    e: Seq<(Id<P>, PackageAssignments<VS>)>,
    i: int,
    old_src: Seq<int>,
    src: Seq<int>,
    old_out: Seq<(Id<P>, VS)>,
    out: Seq<(Id<P>, VS)>,
)
    requires
        0 <= i < e0.len(),
        before.len() == e0.len(),
        e.len() == e0.len(),
        forall|j: int| 0 <= j < e0.len() ==> #[trigger] pa_wf(e0[j].1),
        forall|j: int| 0 <= j < e0.len() ==> #[trigger] before[j].0 == e0[j].0,
        forall|j: int| 0 <= j < e0.len() ==> #[trigger] pa_wf(before[j].1),
        forall|j: int| i <= j < e0.len() ==> #[trigger] before[j] == e0[j],
        forall|j: int| 0 <= j < e0.len() ==> pa_same(#[trigger] before[j].1, e0[j].1),
        e[i].0 == before[i].0,
        forall|j: int| 0 <= j < e.len() && j != i ==> e[j] == before[j],
        pa_wf(e[i].1),
        pa_same(e[i].1, before[i].1),
        old_src.len() == old_out.len(),
        forall|j: int| 0 <= j < old_src.len() ==> 0 <= #[trigger] old_src[j] < i,
        forall|j: int| 0 <= j < old_src.len() ==> #[trigger] old_out[j].0 == e0[old_src[j]].0,
        forall|j: int| 0 <= j < old_src.len() ==> picked(e0[#[trigger] old_src[j]].1, old_out[j].1),
        forall|l: int| 0 <= l < i && #[trigger] is_pick(e0[l].1) ==> exists|j: int| 0 <= j < old_src.len() && #[trigger] old_src[j] == l,
        is_pick(before[i].1) ==> src == old_src.push(i) && out.len() == old_out.len() + 1 && out.drop_last() == old_out
            && out.last().0 == e0[i].0 && picked(before[i].1, out.last().1),
        !is_pick(before[i].1) ==> src == old_src && out == old_out,
    ensures
        forall|j: int| 0 <= j < e0.len() ==> #[trigger] e[j].0 == e0[j].0,
        forall|j: int| 0 <= j < e0.len() ==> #[trigger] pa_wf(e[j].1),
        forall|j: int| i + 1 <= j < e0.len() ==> #[trigger] e[j] == e0[j],
        forall|j: int| 0 <= j < e0.len() ==> pa_same(#[trigger] e[j].1, e0[j].1),
        src.len() == out.len(),
        forall|j: int| 0 <= j < src.len() ==> 0 <= #[trigger] src[j] < i + 1,
        forall|j: int| 0 <= j < src.len() ==> #[trigger] out[j].0 == e0[src[j]].0,
        forall|j: int| 0 <= j < src.len() ==> picked(e0[#[trigger] src[j]].1, out[j].1),
        forall|l: int| 0 <= l < i + 1 && #[trigger] is_pick(e0[l].1) ==> exists|j: int| 0 <= j < src.len() && #[trigger] src[j] == l,
{
    assert(before[i] == e0[i]);
    assert forall|j: int| 0 <= j < e0.len() implies #[trigger] e[j].0 == e0[j].0 by {
        if j != i {
            assert(e[j] == before[j]);
        }
    }
    assert forall|j: int| 0 <= j < e0.len() implies #[trigger] pa_wf(e[j].1) by {
        if j != i {
            assert(e[j] == before[j]);
        }
    }
    assert forall|j: int| i + 1 <= j < e0.len() implies #[trigger] e[j] == e0[j] by {
        assert(e[j] == before[j]);
    }
    assert forall|j: int| 0 <= j < e0.len() implies pa_same(#[trigger] e[j].1, e0[j].1) by {
        if j != i {
            assert(e[j] == before[j]);
        }
    }
    if is_pick(before[i].1) {
        assert forall|j: int| 0 <= j < src.len() implies #[trigger] out[j].0 == e0[src[j]].0 && picked(e0[src[j]].1, out[j].1) by {
            if j < old_src.len() {
                assert(src[j] == old_src[j]);
                assert(out[j] == old_out[j]);
            }
        }
        assert forall|l: int| 0 <= l < i + 1 && #[trigger] is_pick(e0[l].1) implies exists|j: int| 0 <= j < src.len() && #[trigger] src[j] == l by {
            if l < i {
                let j = choose|j: int| 0 <= j < old_src.len() && #[trigger] old_src[j] == l;
                assert(src[j] == old_src[j]);
            } else {
                assert(src[old_src.len() as int] == l);
            }
        }
    }
}

/// One step of the collection of decisions.
proof fn lemma_decision_step<P, VS: VersionSet>(
    e: Seq<(Id<P>, PackageAssignments<VS>)>,
    i: int,
    old_src: Seq<int>,
    src: Seq<int>,
    old_sol: Seq<(Id<P>, VS::V)>,
    sol: Seq<(Id<P>, VS::V)>,
)
    requires
        0 <= i < e.len(),
        old_src.len() == old_sol.len(),
        forall|j: int| 0 <= j < old_src.len() ==> 0 <= #[trigger] old_src[j] < i,
        forall|j: int| 0 <= j < old_src.len() ==> #[trigger] old_sol[j].0 == e[old_src[j]].0,
        forall|j: int| 0 <= j < old_src.len() ==> decided(e[#[trigger] old_src[j]].1, old_sol[j].1),
        forall|l: int| 0 <= l < i && #[trigger] e[l].1 is Decision ==> exists|j: int| 0 <= j < old_src.len() && #[trigger] old_src[j] == l,
        e[i].1 is Decision ==> src == old_src.push(i) && sol.len() == old_sol.len() + 1 && sol.drop_last() == old_sol
            && sol.last().0 == e[i].0 && decided(e[i].1, sol.last().1),
        !(e[i].1 is Decision) ==> src == old_src && sol == old_sol,
    ensures
        src.len() == sol.len(),
        forall|j: int| 0 <= j < src.len() ==> 0 <= #[trigger] src[j] < i + 1,
        forall|j: int| 0 <= j < src.len() ==> #[trigger] sol[j].0 == e[src[j]].0,
        forall|j: int| 0 <= j < src.len() ==> decided(e[#[trigger] src[j]].1, sol[j].1),
        forall|l: int| 0 <= l < i + 1 && #[trigger] e[l].1 is Decision ==> exists|j: int| 0 <= j < src.len() && #[trigger] src[j] == l,
{
    if e[i].1 is Decision {
        assert forall|j: int| 0 <= j < src.len() implies #[trigger] sol[j].0 == e[src[j]].0 && decided(e[src[j]].1, sol[j].1) by {
            if j < old_src.len() {
                assert(src[j] == old_src[j]);
                assert(sol[j] == old_sol[j]);
            }
        }
        assert forall|l: int| 0 <= l < i + 1 && #[trigger] e[l].1 is Decision implies exists|j: int| 0 <= j < src.len() && #[trigger] src[j] == l by {
            if l < i {
                let j = choose|j: int| 0 <= j < old_src.len() && #[trigger] old_src[j] == l;
                assert(src[j] == old_src[j]);
            } else {
                assert(src[old_src.len() as int] == l);
            }
        }
    }
}

impl<VS: VersionSet> PackageAssignments<VS> {
    /// Whether the assignments are derivations with a positive term.
    pub fn has_positive(&self) -> (r: bool)
        ensures
            r == is_pick(*self),
    {
        match self {
            PackageAssignments::Decision(_) => false,
            PackageAssignments::Derivations { intersected, not_intersected_yet } => {
                let mut any = intersected.is_positive();
                let mut k: usize = 0;
                while k < not_intersected_yet.len()
                    invariant
                        0 <= k <= not_intersected_yet@.len(),
                        any == (*intersected is Positive || exists|i: int| 0 <= i < k && #[trigger] not_intersected_yet@[i] is Positive),
                    decreases not_intersected_yet@.len() - k,
                {
                    if not_intersected_yet[k].is_positive() {
                        any = true;
                    }
                    k = k + 1;
                }
                any
            },
        }
    }
}

impl<P, VS: VersionSet> Memory<P, VS> {
    /// Building step of a Memory from a given assignment.
    pub fn add_assignment<M>(&mut self, assignment: &Assignment<P, VS, M>, store: &Arena<Incompatibility<P, VS, M>>)
        requires
            old(self).wf(),
            assignment matches Assignment::Decision { package, version } ==> old(self).knows(package.index())
                && old(self).of(package.index()) is Derivations && pa_holds(old(self).of(package.index()), Some(point(*version))),
            assignment matches Assignment::Derivation { package, cause } ==> cause.index() < store@.len()
                && store@[cause.index()].wf() && lookup(store@[cause.index()].entries(), package.index()) is Some
                && (old(self).knows(package.index()) ==> old(self).of(package.index()) is Derivations),
        ensures
            final(self).wf(),
            final(self).knows(assignment.package_spec().index()),
            final(self).others_kept(*old(self), assignment.package_spec().index()),
            assignment matches Assignment::Decision { package, version } ==> decided(final(self).of(package.index()), *version)
                && forall|c: Option<int>| #[trigger] pa_holds(final(self).of(package.index()), c) == (c == Some(point(*version))),
            assignment matches Assignment::Derivation { package, cause } ==> final(self).of(package.index()) is Derivations
                && forall|c: Option<int>| #[trigger] pa_holds(final(self).of(package.index()), c) == ((old(self).knows(package.index())
                    ==> pa_holds(old(self).of(package.index()), c)) && !lookup(store@[cause.index()].entries(), package.index())->0.holds(c)),
    {
        match assignment {
            Assignment::Decision { package, version } => self.add_decision(*package, *version),
            Assignment::Derivation { package, cause: _ } => {
                let t = assignment.as_term(store);
                self.add_derivation(*package, t);
            },
        }
    }

    /// Extract all packages that may potentially be picked next
    /// to continue solving package dependencies.
    /// A package is a potential pick if there isn't an already
    /// selected version (no "decision")
    /// and if it contains at least one positive derivation term
    /// in the partial solution.
    ///
    /// Each comes with the versions that its assignments allow.
    pub fn potential_packages(&mut self) -> (r: Vec<(Id<P>, VS)>)
        requires
            old(self).wf(),
        ensures
            final(self).wf(),
            forall|k: int| #[trigger] final(self).knows(k) == old(self).knows(k),
            forall|k: int| old(self).knows(k) ==> pa_same(#[trigger] final(self).of(k), old(self).of(k)),
            forall|j: int| 0 <= j < r@.len() ==> old(self).knows(#[trigger] r@[j].0.index()) && picked(old(self).of(r@[j].0.index()), r@[j].1),
            forall|k: int| old(self).knows(k) && old(self).of(k) is Derivations && pa_positive(#[trigger] old(self).of(k))
                ==> exists|j: int| 0 <= j < r@.len() && #[trigger] r@[j].0.index() == k,
    {
        let ghost e0 = self.entries();
        let ghost mut src: Seq<int> = Seq::empty();
        let mut out: Vec<(Id<P>, VS)> = Vec::new();
        let mut i: usize = 0;
        while i < self.assignments.len()
            invariant
                0 <= i <= e0.len(),
                self.entries().len() == e0.len(),
                unique(e0),
                forall|j: int| 0 <= j < e0.len() ==> #[trigger] pa_wf(e0[j].1),
                forall|j: int| 0 <= j < e0.len() ==> #[trigger] self.entries()[j].0 == e0[j].0,
                forall|j: int| 0 <= j < e0.len() ==> #[trigger] pa_wf(self.entries()[j].1),
                forall|j: int| i <= j < e0.len() ==> #[trigger] self.entries()[j] == e0[j],
                forall|j: int| 0 <= j < e0.len() ==> pa_same(#[trigger] self.entries()[j].1, e0[j].1),
                src.len() == out@.len(),
                forall|j: int| 0 <= j < src.len() ==> 0 <= #[trigger] src[j] < i,
                forall|j: int| 0 <= j < src.len() ==> #[trigger] out@[j].0 == e0[src[j]].0,
                forall|j: int| 0 <= j < src.len() ==> picked(e0[#[trigger] src[j]].1, out@[j].1),
                forall|l: int| 0 <= l < i && #[trigger] is_pick(e0[l].1) ==> exists|j: int| 0 <= j < src.len() && #[trigger] src[j] == l,
            decreases e0.len() - i,
        {
            let ghost before = self.entries();
            let ghost old_out = out@;
            let ghost old_src = src;
            let (p, pa) = &mut self.assignments[i];
            let package = *p;
            let found = pa.potential_package_filter();
            match found {
                Some(vs) => {
                    out.push((package, vs));
                    proof {
                        src = src.push(i as int);
                        assert(out@.drop_last() =~= old_out);
                    }
                },
                None => {},
            }
            proof {
                lemma_pick_step(e0, before, self.entries(), i as int, old_src, src, old_out, out@);
            }
            i = i + 1;
        }
        proof {
            let e = self.entries();
            lemma_same_packages(e0, e);
            assert forall|j: int| 0 <= j < out@.len() implies old(self).knows(#[trigger] out@[j].0.index()) && picked(
                old(self).of(out@[j].0.index()),
                out@[j].1,
            ) by {
                let l = src[j];
                let k = out@[j].0.index();
                assert(e0[l].0.index() == k);
                assert(has_package(e0, k));
                let p = position(e0, k);
                assert(e0[p].0.index() == k);
                assert(p == l);
            }
            assert forall|k: int| old(self).knows(k) && old(self).of(k) is Derivations && pa_positive(#[trigger] old(self).of(k))
                implies exists|j: int| 0 <= j < out@.len() && #[trigger] out@[j].0.index() == k by {
                let p = position(e0, k);
                assert(e0[p].0.index() == k);
                assert(is_pick(e0[p].1));
                let j = choose|j: int| 0 <= j < src.len() && #[trigger] src[j] == p;
                assert(out@[j].0 == e0[p].0);
            }
            assert forall|k: int| old(self).knows(k) implies pa_same(#[trigger] self.of(k), old(self).of(k)) by {
                let p = position(e0, k);
                assert(position(e, k) == p);
                assert(pa_same(e[p].1, e0[p].1));
            }
        }
        out
    }

    /// If a partial solution has, for every positive derivation,
    /// a corresponding decision that satisfies that assignment,
    /// it's a total solution and version solving has succeeded.
    ///
    /// The solution lists the decided packages with their versions.
    pub fn extract_solution(&self) -> (r: Option<Vec<(Id<P>, VS::V)>>)
        requires
            self.wf(),
        ensures
            r is None == exists|k: int| self.knows(k) && #[trigger] is_pick(self.of(k)),
            r matches Some(s) ==> forall|j: int| 0 <= j < s@.len() ==> self.knows(#[trigger] s@[j].0.index()) && decided(
                self.of(s@[j].0.index()),
                s@[j].1,
            ),
            r matches Some(s) ==> forall|k: int| self.knows(k) && #[trigger] self.of(k) is Decision ==> exists|j: int|
                0 <= j < s@.len() && #[trigger] s@[j].0.index() == k,
    {
        let ghost e = self.entries();
        let ghost mut src: Seq<int> = Seq::empty();
        let mut solution: Vec<(Id<P>, VS::V)> = Vec::new();
        let mut i: usize = 0;
        while i < self.assignments.len()
            invariant
                0 <= i <= e.len(),
                e == self.entries(),
                unique(e),
                forall|l: int| 0 <= l < i ==> !#[trigger] is_pick(e[l].1),
                src.len() == solution@.len(),
                forall|j: int| 0 <= j < src.len() ==> 0 <= #[trigger] src[j] < i,
                forall|j: int| 0 <= j < src.len() ==> #[trigger] solution@[j].0 == e[src[j]].0,
                forall|j: int| 0 <= j < src.len() ==> decided(e[#[trigger] src[j]].1, solution@[j].1),
                forall|l: int| 0 <= l < i && #[trigger] e[l].1 is Decision ==> exists|j: int| 0 <= j < src.len() && #[trigger] src[j] == l,
            decreases e.len() - i,
        {
            let ghost old_src = src;
            let ghost old_sol = solution@;
            let (p, pa) = &self.assignments[i];
            if pa.has_positive() {
                proof {
                    let q = e[i as int].0.index();
                    assert(has_package(e, q));
                    let p = position(e, q);
                    assert(e[p].0.index() == q);
                    assert(p == i);
                    assert(is_pick(self.of(q)));
                }
                return None;
            }
            match pa {
                PackageAssignments::Decision((v, _)) => {
                    solution.push((*p, *v));
                    proof {
                        src = src.push(i as int);
                        assert(solution@.drop_last() =~= old_sol);
                    }
                },
                PackageAssignments::Derivations { .. } => {},
            }
            proof {
                lemma_decision_step(e, i as int, old_src, src, old_sol, solution@);
            }
            i = i + 1;
        }
        proof {
            assert forall|k: int| !(self.knows(k) && #[trigger] is_pick(self.of(k))) by {
                if self.knows(k) {
                    let p = position(e, k);
                    assert(e[p].0.index() == k);
                    assert(!is_pick(e[p].1));
                }
            }
            assert forall|j: int| 0 <= j < solution@.len() implies self.knows(#[trigger] solution@[j].0.index()) && decided(
                self.of(solution@[j].0.index()),
                solution@[j].1,
            ) by {
                let l = src[j];
                let k = solution@[j].0.index();
                assert(e[l].0.index() == k);
                assert(has_package(e, k));
                let p = position(e, k);
                assert(e[p].0.index() == k);
                assert(p == l);
            }
            assert forall|k: int| self.knows(k) && #[trigger] self.of(k) is Decision implies exists|j: int|
                0 <= j < solution@.len() && #[trigger] solution@[j].0.index() == k by {
                let p = position(e, k);
                assert(e[p].0.index() == k);
                assert(e[p].1 is Decision);
                let j = choose|j: int| 0 <= j < src.len() && #[trigger] src[j] == p;
                assert(solution@[j].0 == e[p].0);
            }
        }
        Some(solution)
    }
}

} // verus!
