//! The partial solution contains all package assignments, organized by package and
//! historically ordered.

use vstd::prelude::*;

use crate::experimental::term::{outcomes, selected_in, Relation as TermRelation};
use crate::experimental::VersionSet;
use crate::experimental::Term;
use crate::incompatibility::ContradictionCache;
use crate::package::{arena_wf, PackageArena, PackageId};
use crate::pairs::{
    distinct_keys, last_index_of_key, lemma_distinct_push, lemma_last_index_of_key, lemma_lookup_absent, lemma_lookup_at,
    lemma_lookup_push, lemma_lookup_update, lookup,
};
use crate::version_trait::Ranked;
use crate::version::VersionIndex;

verus! {

/// The number of decisions taken so far in the partial solution.
#[derive(Debug, Copy, Clone, Ord, PartialOrd, Eq, PartialEq, Structural)]
pub struct DecisionLevel(pub u32);

impl DecisionLevel {
    /// The largest decision level.
    pub fn max() -> (r: Self)
        ensures
            r.0 == u32::MAX,
    {
        Self(u32::MAX)
    }

    /// The level, as a number.
    pub fn get(self) -> (r: u32)
        ensures
            r == self.0,
    {
        self.0
    }

    /// The next level.
    pub fn increment(self) -> (r: Self)
        requires
            self.0 < u32::MAX,
        ensures
            r.0 == self.0 + 1,
    {
        Self(self.0 + 1)
    }
}

/// The intersection of the assignments of a package: the term they allow,
/// and the decision among them, if any.
#[derive(Clone, Copy, Debug)]
pub struct AssignmentsIntersection {
    /// The intersection of the terms of the assignments.
    pub term: Term,
    /// Whether a version was decided.
    pub is_decision: bool,
    /// The global index of the decision.
    pub decision_global_index: u32,
    /// The version index decided.
    pub decision_version_index: VersionIndex,
}

impl AssignmentsIntersection {
    /// The intersection holding a decision for a version.
    pub fn decision(global_index: u32, version_index: VersionIndex) -> (r: Self)
        ensures
            r.term@ == set![version_index@ as int],
            r.is_decision,
            r.decision_global_index == global_index,
            r.decision_version_index == version_index,
    {
        Self {
            term: Term::exact(version_index),
            is_decision: true,
            decision_global_index: global_index,
            decision_version_index: version_index,
        }
    }

    /// The intersection of derivations only, allowing the term.
    pub fn derivations(term: Term) -> (r: Self)
        ensures
            r.term == term,
            !r.is_decision,
            r.decision_global_index == 0,
            r.decision_version_index@ == 0,
    {
        Self {
            term,
            is_decision: false,
            decision_global_index: 0,
            decision_version_index: VersionIndex::new(0).unwrap(),
        }
    }
}

/// Identifier of an incompatibility in the store of incompatibilities.
#[derive(Debug, Copy, Clone, PartialEq, Eq, Structural, Hash)]
pub struct IncompatId(pub u32);

/// A derivation of a package: the intersection of the terms derived for the package up to and
/// including this one, when it was derived, and from which incompatibility.
#[derive(Clone, Copy, Debug)]
pub struct DatedDerivation {
    /// Position of the derivation in the history of the whole partial solution.
    pub global_index: u32,
    /// The decision level at which it was derived.
    pub decision_level: DecisionLevel,
    /// The incompatibility it was derived from.
    pub cause: IncompatId,
    /// The intersection of the terms derived so far for the package.
    pub accumulated_intersection: Term,
}

/// Package assignments contain the potential decision and derivations
/// that have already been made for a given package,
/// as well as the intersection of terms by all of these.
#[derive(Clone, Debug)]
pub struct PackageAssignments {
    /// The package.
    pub package_id: PackageId,
    /// The level of the latest assignment.
    pub highest_decision_level: DecisionLevel,
    /// The derivations, oldest first.
    pub dated_derivations: Vec<DatedDerivation>,
    /// The intersection of all the assignments, and the decision, if any.
    pub assignments_intersection: AssignmentsIntersection,
}

impl PackageAssignments {
    /// A copy of the assignments.
    fn duplicate(&self) -> (r: Self)
        ensures
            r.package_id == self.package_id,
            r.highest_decision_level == self.highest_decision_level,
            r.dated_derivations@ == self.dated_derivations@,
            r.assignments_intersection == self.assignments_intersection,
    {
        let mut dd: Vec<DatedDerivation> = Vec::new();
        let mut k: usize = 0;
        while k < self.dated_derivations.len()
            invariant
                0 <= k <= self.dated_derivations@.len(),
                dd@ == self.dated_derivations@.subrange(0, k as int),
            decreases self.dated_derivations@.len() - k,
        {
            dd.push(self.dated_derivations[k]);
            k = k + 1;
        }
        proof {
            assert(dd@ =~= self.dated_derivations@);
        }
        Self {
            package_id: self.package_id,
            highest_decision_level: self.highest_decision_level,
            dated_derivations: dd,
            assignments_intersection: self.assignments_intersection,
        }
    }

    /// When the history of the package first satisfies the negation of `start_term`: the
    /// first derivation whose intersection is disjoint from it, else the decision.
    pub fn satisfier(&self, start_term: Term) -> (r: Satisfier)
        requires
            has_satisfier(*self, start_term@),
        ensures
            r == satisfier_of(*self, start_term@),
    {
        let ghost dd = self.dated_derivations@;
        // Indicate if we found a satisfier in the list of derivations, otherwise it will be the decision.
        let mut idx: usize = 0;
        while idx < self.dated_derivations.len() && !self.dated_derivations[idx].accumulated_intersection.is_disjoint(start_term)
            invariant
                0 <= idx <= dd.len(),
                dd == self.dated_derivations@,
                forall|j: int| 0 <= j < idx ==> !(#[trigger] dd[j]).accumulated_intersection@.disjoint(start_term@),
            decreases dd.len() - idx,
        {
            idx = idx + 1;
        }
        proof {
            lemma_first_disjoint(dd, start_term@);
            let f = first_disjoint(dd, start_term@);
            if f < idx {
                assert(!dd[f].accumulated_intersection@.disjoint(start_term@));
            }
            if idx < f {
                assert(!dd[idx as int].accumulated_intersection@.disjoint(start_term@));
            }
        }
        if idx < self.dated_derivations.len() {
            let dd = self.dated_derivations[idx];
            return Satisfier { cause: Some(dd.cause), global_index: dd.global_index, decision_level: dd.decision_level };
        }
        // If it wasn't found in the derivations, it must be the decision which is last.
        let ai = self.assignments_intersection;
        Satisfier { cause: None, global_index: ai.decision_global_index, decision_level: self.highest_decision_level }
    }
}

/// The assignments of a package make a history: at least one derivation, each one at a later
/// global index and a level no lower than the one before, each allowing no more than the one
/// before; the intersection is that of the last derivation, or a decision for one of the
/// versions it allows, taken after it at a higher level.
pub open spec fn pa_wf(pa: PackageAssignments, level: u32, next: u32) -> bool {
    let dd = pa.dated_derivations@;
    let ai = pa.assignments_intersection;
    &&& dd.len() >= 1
    &&& forall|i: int, j: int| 0 <= i < j < dd.len() ==> {
        &&& (#[trigger] dd[j]).accumulated_intersection@.subset_of((#[trigger] dd[i]).accumulated_intersection@)
        &&& dd[i].decision_level.0 <= dd[j].decision_level.0
        &&& dd[i].global_index < dd[j].global_index
    }
    &&& forall|i: int| 0 <= i < dd.len() ==> (#[trigger] dd[i]).global_index < next && dd[i].decision_level.0 <= level
    &&& if ai.is_decision {
        &&& ai.term@ == set![ai.decision_version_index@ as int]
        &&& dd.last().accumulated_intersection@.contains(ai.decision_version_index@ as int)
        &&& dd.last().global_index < ai.decision_global_index < next
        &&& dd.last().decision_level.0 < pa.highest_decision_level.0 <= level
    } else {
        &&& ai.term == dd.last().accumulated_intersection
        &&& pa.highest_decision_level == dd.last().decision_level
    }
}

/// `after` is what is left of the assignments `before` of a package once the decisions above
/// `level` are undone: untouched if nothing was assigned to the package above that level, else
/// only the derivations up to that level, the last of which gives the intersection.
pub open spec fn rewound(before: PackageAssignments, after: PackageAssignments, level: u32) -> bool {
    let dd = before.dated_derivations@;
    let kept = after.dated_derivations@;
    let ai = after.assignments_intersection;
    &&& after.package_id == before.package_id
    &&& if before.highest_decision_level.0 <= level {
        &&& after.highest_decision_level == before.highest_decision_level
        &&& kept == dd
        &&& ai == before.assignments_intersection
    } else {
        &&& 0 < kept.len() <= dd.len()
        &&& kept == dd.subrange(0, kept.len() as int)
        &&& forall|i: int| 0 <= i < kept.len() ==> (#[trigger] dd[i]).decision_level.0 <= level
        &&& kept.len() < dd.len() ==> dd[kept.len() as int].decision_level.0 > level
        &&& after.highest_decision_level == kept.last().decision_level
        &&& ai.term == kept.last().accumulated_intersection
        &&& !ai.is_decision
        &&& ai.decision_global_index == 0
        &&& ai.decision_version_index@ == 0
    }
}

/// The number of leading derivations at `level` or below.
fn kept_count(dd: &[DatedDerivation], level: DecisionLevel) -> (n: usize)
    requires
        forall|i: int, j: int| 0 <= i < j < dd@.len() ==> (#[trigger] dd@[i]).decision_level.0 <= (#[trigger] dd@[j]).decision_level.0,
    ensures
        n <= dd@.len(),
        forall|i: int| 0 <= i < n ==> (#[trigger] dd@[i]).decision_level.0 <= level.0,
        n < dd@.len() ==> dd@[n as int].decision_level.0 > level.0,
{
    let mut n: usize = 0;
    while n < dd.len() && dd[n].decision_level.0 <= level.0
        invariant
            0 <= n <= dd@.len(),
            forall|i: int| 0 <= i < n ==> (#[trigger] dd@[i]).decision_level.0 <= level.0,
        decreases dd@.len() - n,
    {
        n = n + 1;
    }
    n
}

/// When an assignment satisfied a term: the incompatibility it was derived from (none for a
/// decision), its global index and its decision level.
#[derive(Clone, Copy, Debug)]
pub struct Satisfier {
    /// The incompatibility the assignment was derived from; none for a decision.
    pub cause: Option<IncompatId>,
    /// The global index of the assignment.
    pub global_index: u32,
    /// The decision level of the assignment.
    pub decision_level: DecisionLevel,
}

/// The position of the first derivation whose intersection has nothing in common with the
/// outcomes `t`, or the number of derivations where there is none.
pub open spec fn first_disjoint(dd: Seq<DatedDerivation>, t: Set<int>) -> int
    decreases dd.len(),
{
    if dd.len() == 0 {
        0
    } else if dd[0].accumulated_intersection@.disjoint(t) {
        0
    } else {
        1 + first_disjoint(dd.drop_first(), t)
    }
}

/// The first derivation disjoint from `t` is disjoint from it, and none before it is.
pub proof fn lemma_first_disjoint(dd: Seq<DatedDerivation>, t: Set<int>)
    ensures
        0 <= first_disjoint(dd, t) <= dd.len(),
        forall|j: int| 0 <= j < first_disjoint(dd, t) ==> !(#[trigger] dd[j]).accumulated_intersection@.disjoint(t),
        first_disjoint(dd, t) < dd.len() ==> dd[first_disjoint(dd, t)].accumulated_intersection@.disjoint(t),
    decreases dd.len(),
{
    if dd.len() > 0 && !dd[0].accumulated_intersection@.disjoint(t) {
        let rest = dd.drop_first();
        lemma_first_disjoint(rest, t);
        assert forall|j: int| 0 <= j < first_disjoint(dd, t) implies !(#[trigger] dd[j]).accumulated_intersection@.disjoint(t) by {
            if j > 0 {
                assert(dd[j] == rest[j - 1]);
            }
        }
        if first_disjoint(dd, t) < dd.len() {
            assert(dd[first_disjoint(dd, t)] == rest[first_disjoint(rest, t)]);
        }
    }
}

/// When the history of a package first satisfies the negation of `start`: the first
/// derivation whose intersection has nothing in common with `start`, else the decision.
/// Gives the cause of that derivation (none for the decision), its global index and its level.
pub open spec fn satisfier_of(pa: PackageAssignments, start: Set<int>) -> Satisfier {
    let dd = pa.dated_derivations@;
    let i = first_disjoint(dd, start);
    if i < dd.len() {
        Satisfier { cause: Some(dd[i].cause), global_index: dd[i].global_index, decision_level: dd[i].decision_level }
    } else {
        Satisfier {
            cause: None,
            global_index: pa.assignments_intersection.decision_global_index,
            decision_level: pa.highest_decision_level,
        }
    }
}

/// Whether the history of a package satisfies the negation of `start`: by some derivation, or
/// else by its decision.
pub open spec fn has_satisfier(pa: PackageAssignments, start: Set<int>) -> bool {
    first_disjoint(pa.dated_derivations@, start) < pa.dated_derivations@.len() || pa.assignments_intersection.is_decision
}

/// For some packages, when each was satisfied: the cause, the global index and the level.
pub type SatisfiedMap = Vec<(PackageId, Satisfier)>;

/// The position of the last entry with the highest global index.
pub open spec fn latest(m: Seq<(PackageId, Satisfier)>) -> int
    decreases m.len(),
{
    if m.len() <= 1 {
        0
    } else {
        let i = latest(m.drop_last());
        if m.last().1.global_index >= m[i].1.global_index {
            m.len() - 1
        } else {
            i
        }
    }
}

/// The latest entry is an entry.
pub proof fn lemma_latest(m: Seq<(PackageId, Satisfier)>)
    requires
        m.len() > 0,
    ensures
        0 <= latest(m) < m.len(),
    decreases m.len(),
{
    if m.len() > 1 {
        lemma_latest(m.drop_last());
    }
}

/// The position of the last entry with the highest global index.
fn latest_entry(m: &[(PackageId, Satisfier)]) -> (r: usize)
    requires
        m@.len() > 0,
    ensures
        r == latest(m@),
        r < m@.len(),
{
    let mut best: usize = 0;
    let mut k: usize = 1;
    while k < m.len()
        invariant
            1 <= k <= m@.len(),
            best < k,
            best == latest(m@.subrange(0, k as int)),
        decreases m@.len() - k,
    {
        proof {
            let s = m@.subrange(0, k + 1);
            assert(s.drop_last() =~= m@.subrange(0, k as int));
            assert(s.last() == m@[k as int]);
            assert(s[best as int] == m@[best as int]);
        }
        if m[k].1.global_index >= m[best].1.global_index {
            best = k;
        }
        k = k + 1;
    }
    proof {
        assert(m@.subrange(0, m@.len() as int) =~= m@);
    }
    best
}

/// The position of the last pair naming the package, if any.
fn last_position<X>(s: &[(PackageId, X)], p: PackageId) -> (r: Option<usize>)
    ensures
        match r {
            Some(i) => i == last_index_of_key(s@, p),
            None => last_index_of_key(s@, p) == -1,
        },
{
    let mut i: usize = s.len();
    proof {
        assert(s@.subrange(0, s@.len() as int) =~= s@);
    }
    while i > 0
        invariant
            0 <= i <= s@.len(),
            last_index_of_key(s@, p) == last_index_of_key(s@.subrange(0, i as int), p),
        decreases i,
    {
        proof {
            let t = s@.subrange(0, i as int);
            assert(t.drop_last() =~= s@.subrange(0, i - 1));
            assert(t.last() == s@[i - 1]);
        }
        if s[i - 1].0 == p {
            return Some(i - 1);
        }
        i = i - 1;
    }
    proof {
        assert(s@.subrange(0, 0) =~= Seq::<(PackageId, X)>::empty());
    }
    None
}

/// Once a term decides the relation, the terms after it do not change it.
pub proof fn lemma_relation_decided<Pr: Ranked>(ps: PartialSolution<Pr>, incompat: Seq<(PackageId, Term)>, k: int)
    requires
        0 <= k <= incompat.len(),
        ps.relation_upto(incompat, k) is Contradicted || ps.relation_upto(incompat, k) is Inconclusive,
    ensures
        ps.relation_upto(incompat, incompat.len() as int) == ps.relation_upto(incompat, k),
    decreases incompat.len() - k,
{
    if k < incompat.len() {
        assert(ps.relation_upto(incompat, k + 1) == ps.relation_upto(incompat, k));
        lemma_relation_decided(ps, incompat, k + 1);
    }
}

/// How a partial solution relates to an incompatibility.
#[derive(Debug, Clone, Copy, PartialEq, Eq, Structural)]
pub enum IncompatRelation {
    /// The partial solution satisfies every term of the incompatibility.
    Satisfied,
    /// The partial solution contradicts the term of this package.
    Contradicted(PackageId),
    /// The partial solution satisfies every term but the one of this package, for which it is
    /// inconclusive.
    AlmostSatisfied(PackageId),
    /// Otherwise.
    Inconclusive,
}

/// How the intersection of the terms of a package, where it has any, relates to a term.
pub open spec fn term_status(term: Term, known: Option<Term>) -> TermRelation {
    match known {
        None => TermRelation::Inconclusive,
        Some(k) => if k@.subset_of(term@) {
            TermRelation::Satisfied
        } else if k@.disjoint(term@) {
            TermRelation::Contradicted
        } else {
            TermRelation::Inconclusive
        },
    }
}

/// Whether the satisfier and the previous satisfier of a conflict are at different decision
/// levels.
#[derive(Clone, Copy, Debug)]
pub enum SatisfierSearch {
    /// The previous satisfier is at a lower level: backtrack to it.
    DifferentDecisionLevels {
        /// The level of the previous satisfier.
        previous_satisfier_level: DecisionLevel,
    },
    /// Both are at the same level: resolve the conflict with the cause of the satisfier.
    SameDecisionLevels {
        /// The incompatibility the satisfier was derived from.
        satisfier_cause: IncompatId,
    },
}

/// `after` is `before` once the version was decided for the package: one level up, its
/// assignments end with the decision, and everything else is as it was.
pub open spec fn decided<Pr: Ranked>(before: PartialSolution<Pr>, after: PartialSolution<Pr>, package_id: PackageId, version_index: VersionIndex) -> bool {
    &&& after.level() == before.level() + 1
    &&& after.next_index() == before.next_index() + 1
    &&& after.assignment(package_id) is Some
    &&& ({
        let pa = after.assignment(package_id)->0;
        let earlier = before.assignment(package_id)->0;
        &&& pa.package_id == package_id
        &&& pa.dated_derivations@ == earlier.dated_derivations@
        &&& pa.highest_decision_level == DecisionLevel(after.level())
        &&& pa.assignments_intersection.is_decision
        &&& pa.assignments_intersection.term@ == set![version_index@ as int]
        &&& pa.assignments_intersection.decision_global_index == before.next_index()
        &&& pa.assignments_intersection.decision_version_index == version_index
    })
    &&& forall|p: PackageId| p != package_id ==> #[trigger] after.assignment(p) == before.assignment(p)
    &&& after.picks() == before.picks()
    &&& after.last_valid() == before.last_valid()
}

/// `after` is `before` once a derivation was added for the package from the incompatibility
/// `cause`, whose term for the package is `incompat_term`: at the current level and the next
/// global index, the package's term is narrowed to the outcomes that `incompat_term` does not
/// allow, and the package becomes a potential pick if that term is positive.
pub open spec fn derived<Pr: Ranked>(
    before: PartialSolution<Pr>,
    after: PartialSolution<Pr>,
    package_id: PackageId,
    cause: IncompatId,
    incompat_term: Term,
) -> bool {
    &&& after.level() == before.level()
    &&& after.next_index() == before.next_index() + 1
    &&& after.assignment(package_id) is Some
    &&& ({
        let pa = after.assignment(package_id)->0;
        let ai = pa.assignments_intersection;
        let previous = match before.assignment(package_id) {
            Some(o) => o.dated_derivations@,
            None => Seq::<DatedDerivation>::empty(),
        };
        &&& pa.package_id == package_id
        &&& pa.highest_decision_level == DecisionLevel(before.level())
        &&& pa.dated_derivations@ == previous.push(
            DatedDerivation {
                global_index: before.next_index(),
                decision_level: DecisionLevel(before.level()),
                cause,
                accumulated_intersection: ai.term,
            },
        )
        &&& !ai.is_decision
        &&& match before.assignment(package_id) {
            Some(o) => {
                &&& ai.term@ == o.assignments_intersection.term@.intersect(outcomes().difference(incompat_term@))
                &&& ai.decision_global_index == o.assignments_intersection.decision_global_index
                &&& ai.decision_version_index == o.assignments_intersection.decision_version_index
            },
            None => {
                &&& ai.term@ == outcomes().difference(incompat_term@)
                &&& ai.decision_global_index == 0
                &&& ai.decision_version_index@ == 0
            },
        }
    })
    &&& forall|p: PackageId| p != package_id ==> #[trigger] after.assignment(p) == before.assignment(p)
    &&& after.picks() == if after.assignment(package_id)->0.assignments_intersection.term@.contains(-1)
        || before.picks().contains(package_id) {
        before.picks()
    } else {
        before.picks().push(package_id)
    }
    &&& after.last_valid() == before.last_valid()
    &&& after.queue() == before.queue()
}

/// `after` is `before` once backtracked to `level`: the packages first assigned above that
/// level are forgotten, the others are rewound to it, the potential picks are the packages left
/// without decision whose term is positive, the priorities are forgotten, and the backtracking
/// is recorded in the levels gone back to.
pub open spec fn backtracked<Pr: Ranked>(before: PartialSolution<Pr>, after: PartialSolution<Pr>, level: DecisionLevel) -> bool {
    &&& after.level() == level.0
    &&& after.next_index() == before.next_index()
    &&& forall|p: PackageId| match before.assignment(p) {
        None => #[trigger] after.assignment(p) is None,
        Some(b) => if b.dated_derivations@[0].decision_level.0 > level.0 {
            after.assignment(p) is None
        } else {
            after.assignment(p) is Some && rewound(b, after.assignment(p)->0, level.0)
        },
    }
    &&& forall|a: int, b: int| 0 <= a < b < after.picks().len() ==> after.picks()[a] != after.picks()[b]
    &&& forall|p: PackageId| #[trigger] after.picks().contains(p) <==> {
        &&& after.assignment(p) is Some
        &&& !after.assignment(p)->0.assignments_intersection.is_decision
        &&& !after.assignment(p)->0.assignments_intersection.term@.contains(-1)
    }
    &&& after.last_valid().len() == before.last_valid().len() + 1
    &&& forall|i: int| 0 <= i < before.last_valid().len() ==> #[trigger] after.last_valid()[i] == if before.last_valid()[i].0
        <= level.0 {
        before.last_valid()[i]
    } else {
        level
    }
    &&& after.last_valid()[before.last_valid().len() as int] == level
    &&& after.queue() == Seq::<(PackageId, Pr)>::empty()
}

/// Whether the contradiction recorded in the cache still holds, given the levels gone back to:
/// the generation in which it was recorded has no backtrack yet, or its first backtrack did not
/// go below the level at which it was recorded.
pub open spec fn contradiction_holds(cache: ContradictionCache, last_valid: Seq<DecisionLevel>) -> bool {
    cache.backtrack_generation < last_valid.len() ==> cache.decision_level.0 <= last_valid[cache.backtrack_generation as int].0
}

/// Whether the terms known for the packages, with the decision of the version for the package,
/// satisfy every term of the incompatibility.
pub open spec fn satisfied_with<Pr: Ranked>(ps: PartialSolution<Pr>, incompat: Seq<(PackageId, Term)>, package_id: PackageId, version_index: VersionIndex) -> bool {
    forall|k: int| 0 <= k < incompat.len() ==> if (#[trigger] incompat[k]).0 == package_id {
        set![version_index@ as int].subset_of(incompat[k].1@)
    } else {
        ps.assignment(incompat[k].0) is Some && ps.assignment(incompat[k].0)->0.assignments_intersection.term@.subset_of(
            incompat[k].1@,
        )
    }
}

/// The partial solution contains all package assignments,
/// organized by package and historically ordered.
#[derive(Debug)]
pub struct PartialSolution<Pr> {
    next_global_index: u32,
    current_decision_level: DecisionLevel,
    package_assignments: Vec<PackageAssignments>,
    package_assignments_indices: Vec<u32>,
    package_assignments_lengths: Vec<u32>,
    /// A package is a potential pick if there isn't an already selected version (no "decision")
    /// and if it contains at least one positive derivation term in the partial solution.
    potential_picks: Vec<PackageId>,
    /// The packages with no decision and a positive assignment, each with its priority.
    prioritized_potential_packages: Vec<(PackageId, Pr)>,
    last_valid_decision_levels: Vec<DecisionLevel>,
}

impl<Pr: Ranked> PartialSolution<Pr> {
    /// The current decision level: the number of decisions taken.
    pub closed spec fn level(self) -> u32 {
        self.current_decision_level.0
    }

    /// The global index that the next assignment gets.
    pub closed spec fn next_index(self) -> u32 {
        self.next_global_index
    }

    /// The assignments of all packages, in the order in which their first derivation came.
    pub closed spec fn pas(self) -> Seq<PackageAssignments> {
        self.package_assignments@
    }

    /// Whether the package has a slot: an identifier that the partial solution can look up.
    pub closed spec fn covers(self, p: PackageId) -> bool {
        (p.0 as int) < self.package_assignments_indices@.len()
    }

    /// The position of the assignments of the package, if it has any.
    pub closed spec fn slot(self, p: PackageId) -> Option<int> {
        if self.covers(p) && (self.package_assignments_indices@[p.0 as int] as int) < self.package_assignments@.len() {
            Some(self.package_assignments_indices@[p.0 as int] as int)
        } else {
            None
        }
    }

    /// The assignments of the package, if it has any.
    pub open spec fn assignment(self, p: PackageId) -> Option<PackageAssignments> {
        match self.slot(p) {
            Some(i) => Some(self.pas()[i]),
            None => None,
        }
    }

    /// The packages that may be picked next, each once.
    pub closed spec fn picks(self) -> Seq<PackageId> {
        self.potential_picks@
    }

    /// The packages waiting to be picked, each with its priority.
    pub closed spec fn queue(self) -> Seq<(PackageId, Pr)> {
        self.prioritized_potential_packages@
    }

    /// For each backtracking so far, the level it went back to; the first entry is level 0.
    pub closed spec fn last_valid(self) -> Seq<DecisionLevel> {
        self.last_valid_decision_levels@
    }

    /// The number of package assignments when each decision was taken.
    closed spec fn lengths(self) -> Seq<u32> {
        self.package_assignments_lengths@
    }

    /// Each package's assignments are found through its slot, and a slot either names the
    /// position of the package's assignments or holds `u32::MAX`.
    closed spec fn slots_wf(self) -> bool {
        let pas = self.package_assignments@;
        let idx = self.package_assignments_indices@;
        &&& pas.len() < u32::MAX
        &&& forall|k: int| 0 <= k < pas.len() ==> {
            &&& ((#[trigger] pas[k]).package_id.0 as int) < idx.len()
            &&& idx[pas[k].package_id.0 as int] == k
        }
        &&& forall|p: int| 0 <= p < idx.len() && (#[trigger] idx[p] as int) < pas.len() ==> pas[idx[p] as int].package_id.0 == p
        &&& forall|p: int| 0 <= p < idx.len() ==> (#[trigger] idx[p] as int) < pas.len() || idx[p] == u32::MAX
    }

    /// The assignments of each package make a history up to the current level.
    closed spec fn histories_wf(self) -> bool {
        let pas = self.package_assignments@;
        forall|k: int| 0 <= k < pas.len() ==> pa_wf(#[trigger] pas[k], self.level(), self.next_index())
    }

    /// One count of assignments per decision: the packages first assigned before that decision.
    closed spec fn lengths_wf(self) -> bool {
        let pas = self.package_assignments@;
        let lengths = self.package_assignments_lengths@;
        &&& lengths.len() == self.level()
        &&& forall|d: int| 0 <= d < lengths.len() ==> (#[trigger] lengths[d] as int) <= pas.len()
        &&& forall|d: int, k: int| 0 <= d < lengths.len() && 0 <= k < pas.len() ==> ((k < #[trigger] lengths[d]) == (
            (#[trigger] pas[k]).dated_derivations@[0].decision_level.0 <= d))
    }

    /// The potential picks are packages without decision whose term is positive, each once.
    closed spec fn picks_wf(self) -> bool {
        let picks = self.potential_picks@;
        &&& forall|a: int, b: int| 0 <= a < b < picks.len() ==> picks[a] != picks[b]
        &&& forall|a: int| 0 <= a < picks.len() ==> {
            &&& self.assignment(#[trigger] picks[a]) is Some
            &&& !self.assignment(picks[a])->0.assignments_intersection.is_decision
            &&& !self.assignment(picks[a])->0.assignments_intersection.term@.contains(-1)
        }
    }

    /// The levels gone back to start at 0 and never go down.
    closed spec fn levels_wf(self) -> bool {
        let levels = self.last_valid_decision_levels@;
        &&& levels.len() >= 1
        &&& levels[0].0 == 0
        &&& forall|a: int, b: int| 0 <= a < b < levels.len() ==> levels[a].0 <= levels[b].0
    }

    /// The well formedness of the partial solution.
    pub closed spec fn wf(self) -> bool {
        &&& distinct_keys(self.prioritized_potential_packages@)
        &&& self.slots_wf()
        &&& self.histories_wf()
        &&& self.lengths_wf()
        &&& self.picks_wf()
        &&& self.levels_wf()
    }

    /// Initialize an empty `PartialSolution`.
    pub fn empty(root_package: PackageId) -> (r: Self)
        requires
            root_package.0 + 1 <= usize::MAX,
        ensures
            r.wf(),
            r.level() == 0,
            r.next_index() == 0,
            forall|p: PackageId| #[trigger] r.assignment(p) is None,
            forall|p: PackageId| #[trigger] r.covers(p) == (p.0 <= root_package.0),
            r.picks() == Seq::<PackageId>::empty(),
            r.last_valid() == seq![DecisionLevel(0)],
    {
        let r = Self {
            next_global_index: 0,
            current_decision_level: DecisionLevel(0),
            potential_picks: Vec::new(),
            prioritized_potential_packages: Vec::new(),
            package_assignments: Vec::new(),
            package_assignments_indices: vec![u32::MAX; root_package.get() as usize + 1],
            package_assignments_lengths: Vec::new(),
            last_valid_decision_levels: vec![DecisionLevel(0)],
        };
        proof {
            assert(r.last_valid() =~= seq![DecisionLevel(0)]);
        }
        r
    }

    /// Retrieve intersection of terms related to package.
    pub fn term_intersection_for_package(&self, package_id: PackageId) -> (r: Option<Term>)
        requires
            self.covers(package_id),
        ensures
            r == match self.assignment(package_id) {
                Some(pa) => Some(pa.assignments_intersection.term),
                None => None::<Term>,
            },
    {
        let i = self.package_assignments_indices[package_id.get() as usize] as usize;
        if i < self.package_assignments.len() {
            Some(self.package_assignments[i].assignments_intersection.term)
        } else {
            None
        }
    }

    /// Make room for the package among the slots.
    fn resize_package_assignments_indices(&mut self, package: PackageId)
        requires
            old(self).wf(),
            package.0 + 1 <= usize::MAX,
        ensures
            final(self).wf(),
            final(self).covers(package),
            forall|p: PackageId| old(self).covers(p) ==> #[trigger] final(self).covers(p),
            forall|p: PackageId| #[trigger] final(self).slot(p) == old(self).slot(p),
            final(self).level() == old(self).level(),
            final(self).next_index() == old(self).next_index(),
            final(self).pas() == old(self).pas(),
            final(self).picks() == old(self).picks(),
            final(self).last_valid() == old(self).last_valid(),
            final(self).queue() == old(self).queue(),
            final(self).lengths() == old(self).lengths(),
    {
        let idx = package.get() as usize;
        if idx + 1 > self.package_assignments_indices.len() {
            let ghost before = self.package_assignments_indices@;
            self.package_assignments_indices.resize(idx + 1, u32::MAX);
            proof {
                let after = self.package_assignments_indices@;
                assert forall|q: int| 0 <= q < after.len() implies #[trigger] after[q] == if q < before.len() { before[q] } else { u32::MAX } by {
                    if q < before.len() {
                        assert(after[q] == after.subrange(0, before.len() as int)[q]);
                    }
                }
                assert forall|p: PackageId| #[trigger] self.slot(p) == old(self).slot(p) by {
                }
            }
        }
    }

    /// Add a decision.
    pub fn add_decision(&mut self, package_id: PackageId, version_index: VersionIndex)
        requires
            old(self).wf(),
            old(self).assignment(package_id) is Some,
            !old(self).assignment(package_id)->0.assignments_intersection.is_decision,
            old(self).assignment(package_id)->0.assignments_intersection.term@.contains(version_index@ as int),
            old(self).picks().len() == 0,
            old(self).level() < u32::MAX,
            old(self).next_index() < u32::MAX,
        ensures
            final(self).wf(),
            decided(*old(self), *final(self), package_id, version_index),
            forall|p: PackageId| #[trigger] final(self).covers(p) == old(self).covers(p),
            final(self).queue() == old(self).queue(),
    {
        let len = self.package_assignments.len();
        let i = self.package_assignments_indices[package_id.get() as usize] as usize;
        let ghost before = self.package_assignments@;
        self.package_assignments_lengths.push(len as u32);
        self.current_decision_level = self.current_decision_level.increment();
        let decision = AssignmentsIntersection::decision(self.next_global_index, version_index);
        let mut pa = self.package_assignments[i].duplicate();
        pa.highest_decision_level = self.current_decision_level;
        pa.assignments_intersection = decision;
        self.package_assignments.set(i, pa);
        self.next_global_index = self.next_global_index + 1;
        proof {
            let pas = self.package_assignments@;
            assert forall|k: int| 0 <= k < pas.len() implies pa_wf(pas[k], self.level(), self.next_index()) by {
                assert(pa_wf(before[k], old(self).level(), old(self).next_index()));
            }
            assert forall|p: PackageId| p != package_id implies #[trigger] self.assignment(p) == old(self).assignment(p) by {
                if self.slot(p) is Some {
                    assert(self.slot(p)->0 != i);
                }
            }
            let lengths = self.package_assignments_lengths@;
            assert forall|d: int, k: int| 0 <= d < lengths.len() && 0 <= k < pas.len() implies ((k < #[trigger] lengths[d]) == (
                (#[trigger] pas[k]).dated_derivations@[0].decision_level.0 <= d)) by {
                assert(pas[k].dated_derivations@ == before[k].dated_derivations@);
                if d == lengths.len() - 1 {
                    assert(pa_wf(before[k], old(self).level(), old(self).next_index()));
                }
            }
        }
    }

    /// Mark the package as a potential pick, unless it already is.
    fn insert_pick(&mut self, package_id: PackageId)
        ensures
            final(self).picks() == if old(self).picks().contains(package_id) {
                old(self).picks()
            } else {
                old(self).picks().push(package_id)
            },
            final(self).level() == old(self).level(),
            final(self).next_index() == old(self).next_index(),
            final(self).pas() == old(self).pas(),
            forall|p: PackageId| #[trigger] final(self).slot(p) == old(self).slot(p),
            forall|p: PackageId| #[trigger] final(self).covers(p) == old(self).covers(p),
            final(self).last_valid() == old(self).last_valid(),
            final(self).queue() == old(self).queue(),
            final(self).lengths() == old(self).lengths(),
            final(self).package_assignments_indices@ == old(self).package_assignments_indices@,
            final(self).current_decision_level == old(self).current_decision_level,
    {
        let mut k: usize = 0;
        while k < self.potential_picks.len()
            invariant
                0 <= k <= self.potential_picks@.len(),
                self.potential_picks@ == old(self).potential_picks@,
                forall|j: int| 0 <= j < k ==> self.potential_picks@[j] != package_id,
            decreases self.potential_picks@.len() - k,
        {
            if self.potential_picks[k] == package_id {
                proof {
                    assert(old(self).picks()[k as int] == package_id);
                }
                return;
            }
            k = k + 1;
        }
        self.potential_picks.push(package_id);
    }

    /// Add a derivation to the package whose assignments are at `pa_idx`, with the intersection
    /// of its term and the negated term of the incompatibility.
    fn derive_existing(&mut self, pa_idx: usize, cause: IncompatId, negated: Term) -> (term: Term)
        requires
            old(self).wf(),
            old(self).next_index() < u32::MAX,
            0 <= pa_idx < old(self).pas().len(),
            !old(self).pas()[pa_idx as int].assignments_intersection.is_decision,
        ensures
            final(self).wf(),
            final(self).level() == old(self).level(),
            final(self).next_index() == old(self).next_index() + 1,
            forall|p: PackageId| #[trigger] final(self).covers(p) == old(self).covers(p),
            forall|p: PackageId| #[trigger] final(self).slot(p) == old(self).slot(p),
            final(self).pas().len() == old(self).pas().len(),
            forall|k: int| 0 <= k < old(self).pas().len() && k != pa_idx ==> #[trigger] final(self).pas()[k] == old(self).pas()[k],
            ({
                let pa = final(self).pas()[pa_idx as int];
                let o = old(self).pas()[pa_idx as int];
                &&& pa.package_id == o.package_id
                &&& pa.highest_decision_level == DecisionLevel(old(self).level())
                &&& pa.dated_derivations@ == o.dated_derivations@.push(
                    DatedDerivation {
                        global_index: old(self).next_index(),
                        decision_level: DecisionLevel(old(self).level()),
                        cause,
                        accumulated_intersection: term,
                    },
                )
                &&& pa.assignments_intersection == (AssignmentsIntersection { term, ..o.assignments_intersection })
                &&& term@ == o.assignments_intersection.term@.intersect(negated@)
            }),
            final(self).picks() == old(self).picks(),
            final(self).last_valid() == old(self).last_valid(),
            final(self).queue() == old(self).queue(),
            final(self).package_assignments_indices@ == old(self).package_assignments_indices@,
    {
        let ghost level = self.level();
        let ghost next = self.next_index();
        let ghost before = self.package_assignments@;
        let mut pa = self.package_assignments[pa_idx].duplicate();
        let ghost old_pa = before[pa_idx as int];
        proof {
            assert(pa_wf(old_pa, level, next));
        }
        pa.highest_decision_level = self.current_decision_level;
        let term = pa.assignments_intersection.term.intersection(negated);
        pa.assignments_intersection.term = term;
        pa.dated_derivations.push(
            DatedDerivation {
                global_index: self.next_global_index,
                decision_level: self.current_decision_level,
                cause,
                accumulated_intersection: term,
            },
        );
        self.package_assignments.set(pa_idx, pa);
        self.next_global_index = self.next_global_index + 1;
        proof {
            let dd = pa.dated_derivations@;
            let od = old_pa.dated_derivations@;
            assert forall|i: int, j: int| 0 <= i < j < dd.len() implies {
                &&& (#[trigger] dd[j]).accumulated_intersection@.subset_of((#[trigger] dd[i]).accumulated_intersection@)
                &&& dd[i].decision_level.0 <= dd[j].decision_level.0
                &&& dd[i].global_index < dd[j].global_index
            } by {
                if j == dd.len() - 1 {
                    assert(dd[i] == od[i]);
                } else {
                    assert(dd[i] == od[i] && dd[j] == od[j]);
                }
            }
            assert(pa_wf(pa, level, (next + 1) as u32));
            let pas = self.package_assignments@;
            assert forall|k: int| 0 <= k < pas.len() implies pa_wf(pas[k], level, (next + 1) as u32) by {
                if k != pa_idx {
                    assert(pa_wf(before[k], level, next));
                }
            }
            assert forall|k: int| 0 <= k < pas.len() implies #[trigger] pas[k].package_id == before[k].package_id
                && pas[k].dated_derivations@[0] == before[k].dated_derivations@[0] by {
            }
            assert forall|p: PackageId| #[trigger] self.slot(p) == old(self).slot(p) by {
            }
            assert forall|a: int| 0 <= a < self.picks().len() implies {
                &&& self.assignment(#[trigger] self.picks()[a]) is Some
                &&& !self.assignment(self.picks()[a])->0.assignments_intersection.is_decision
                &&& !self.assignment(self.picks()[a])->0.assignments_intersection.term@.contains(-1)
            } by {
                let q = self.picks()[a];
                assert(old(self).assignment(q) is Some);
            }
        }
        term
    }

    /// Add the first assignments of a package: a derivation with the term.
    fn derive_new(&mut self, package_id: PackageId, cause: IncompatId, term: Term)
        requires
            old(self).wf(),
            old(self).next_index() < u32::MAX,
            old(self).pas().len() + 1 < u32::MAX,
            old(self).covers(package_id),
            old(self).slot(package_id) is None,
        ensures
            final(self).wf(),
            final(self).level() == old(self).level(),
            final(self).next_index() == old(self).next_index() + 1,
            forall|p: PackageId| #[trigger] final(self).covers(p) == old(self).covers(p),
            final(self).slot(package_id) == Some(old(self).pas().len() as int),
            forall|p: PackageId| p != package_id ==> #[trigger] final(self).slot(p) == old(self).slot(p),
            final(self).pas() == old(self).pas().push(
                PackageAssignments {
                    package_id,
                    highest_decision_level: DecisionLevel(old(self).level()),
                    dated_derivations: final(self).pas().last().dated_derivations,
                    assignments_intersection: final(self).pas().last().assignments_intersection,
                },
            ),
            final(self).pas().last().dated_derivations@ == seq![
                DatedDerivation {
                    global_index: old(self).next_index(),
                    decision_level: DecisionLevel(old(self).level()),
                    cause,
                    accumulated_intersection: term,
                },
            ],
            ({
                let ai = final(self).pas().last().assignments_intersection;
                &&& ai.term == term
                &&& !ai.is_decision
                &&& ai.decision_global_index == 0
                &&& ai.decision_version_index@ == 0
            }),
            final(self).picks() == old(self).picks(),
            final(self).last_valid() == old(self).last_valid(),
            final(self).queue() == old(self).queue(),
    {
        let ghost level = self.level();
        let ghost next = self.next_index();
        let ghost before = self.package_assignments@;
        let ghost before_idx = self.package_assignments_indices@;
        let len = self.package_assignments.len();
        self.package_assignments_indices.set(package_id.get() as usize, len as u32);
        let mut dd: Vec<DatedDerivation> = Vec::new();
        dd.push(
            DatedDerivation {
                global_index: self.next_global_index,
                decision_level: self.current_decision_level,
                cause,
                accumulated_intersection: term,
            },
        );
        self.package_assignments.push(
            PackageAssignments {
                package_id,
                highest_decision_level: self.current_decision_level,
                dated_derivations: dd,
                assignments_intersection: AssignmentsIntersection::derivations(term),
            },
        );
        self.next_global_index = self.next_global_index + 1;
        proof {
            let pas = self.package_assignments@;
            let idx = self.package_assignments_indices@;
            assert forall|k: int| 0 <= k < pas.len() implies ((#[trigger] pas[k]).package_id.0 as int) < idx.len()
                && idx[pas[k].package_id.0 as int] == k by {
                if k < before.len() {
                    assert(pas[k] == before[k]);
                    assert(before_idx[before[k].package_id.0 as int] == k);
                }
            }
            assert forall|k: int| 0 <= k < pas.len() implies pa_wf(pas[k], level, (next + 1) as u32) by {
                if k < before.len() {
                    assert(pas[k] == before[k]);
                    assert(pa_wf(before[k], level, next));
                }
            }
            assert forall|p: PackageId| p != package_id implies #[trigger] self.slot(p) == old(self).slot(p) by {
                if self.covers(p) {
                    assert(idx[p.0 as int] == before_idx[p.0 as int]);
                }
            }
            assert forall|a: int| 0 <= a < self.picks().len() implies {
                &&& self.assignment(#[trigger] self.picks()[a]) is Some
                &&& !self.assignment(self.picks()[a])->0.assignments_intersection.is_decision
                &&& !self.assignment(self.picks()[a])->0.assignments_intersection.term@.contains(-1)
            } by {
                let q = self.picks()[a];
                assert(old(self).assignment(q) is Some);
                assert(q != package_id);
            }
            assert(pas =~= before.push(pas.last()));
        }
    }

    /// Add a derivation.
    pub fn add_derivation(&mut self, package_id: PackageId, cause: IncompatId, incompat_term: Term)
        requires
            old(self).wf(),
            old(self).next_index() < u32::MAX,
            old(self).pas().len() + 1 < u32::MAX,
            package_id.0 + 1 <= usize::MAX,
            old(self).assignment(package_id) is Some ==> !old(self).assignment(package_id)->0.assignments_intersection.is_decision,
        ensures
            final(self).wf(),
            final(self).covers(package_id),
            forall|p: PackageId| old(self).covers(p) ==> #[trigger] final(self).covers(p),
            derived(*old(self), *final(self), package_id, cause, incompat_term),

    {
        let negated = incompat_term.negate();
        self.resize_package_assignments_indices(package_id);
        let ghost mid = *self;
        let pa_idx = self.package_assignments_indices[package_id.get() as usize] as usize;
        let term = if pa_idx < self.package_assignments.len() {
            let term = self.derive_existing(pa_idx, cause, negated);
            proof {
                assert forall|p: PackageId| p != package_id implies #[trigger] self.assignment(p) == old(self).assignment(p) by {
                    if self.slot(p) is Some {
                        assert(self.slot(p)->0 != pa_idx);
                    }
                }
            }
            term
        } else {
            self.derive_new(package_id, cause, negated);
            negated
        };
        proof {
            assert(self.assignment(package_id)->0.assignments_intersection.term == term);
        }
        if term.is_positive() {
            let ghost before_pick = *self;
            self.insert_pick(package_id);
            proof {
                let picks = self.potential_picks@;
                assert forall|a: int| 0 <= a < picks.len() implies {
                    &&& self.assignment(#[trigger] picks[a]) is Some
                    &&& !self.assignment(picks[a])->0.assignments_intersection.is_decision
                    &&& !self.assignment(picks[a])->0.assignments_intersection.term@.contains(-1)
                } by {
                    if a < before_pick.potential_picks@.len() {
                        assert(picks[a] == before_pick.potential_picks@[a]);
                    }
                }
                assert forall|a: int, b: int| 0 <= a < b < picks.len() implies picks[a] != picks[b] by {
                    if b == before_pick.potential_picks@.len() {
                        assert(before_pick.potential_picks@.contains(picks[a]));
                    }
                }
            }
        }
    }

    /// Forget the assignments from position `max_len` on, with their slots.
    fn truncate_assignments(&mut self, max_len: usize)
        requires
            old(self).slots_wf(),
            max_len <= old(self).pas().len(),
        ensures
            final(self).slots_wf(),
            final(self).pas() == old(self).pas().subrange(0, max_len as int),
            final(self).package_assignments_indices@.len() == old(self).package_assignments_indices@.len(),
            forall|p: PackageId| #[trigger] final(self).covers(p) == old(self).covers(p),
            forall|p: PackageId| #[trigger] final(self).slot(p) == match old(self).slot(p) {
                Some(i) => if i < max_len { Some(i) } else { None::<int> },
                None => None::<int>,
            },
            final(self).current_decision_level == old(self).current_decision_level,
            final(self).next_global_index == old(self).next_global_index,
            final(self).potential_picks@ == old(self).potential_picks@,
            final(self).last_valid_decision_levels@ == old(self).last_valid_decision_levels@,
            final(self).queue() == old(self).queue(),
            final(self).package_assignments_lengths@ == old(self).package_assignments_lengths@,
    {
        let ghost pas = self.package_assignments@;
        let ghost idx = self.package_assignments_indices@;
        let mut k: usize = max_len;
        while k < self.package_assignments.len()
            invariant
                max_len <= k <= pas.len(),
                self.package_assignments@ == pas,
                self.package_assignments_indices@.len() == idx.len(),
                old(self).slots_wf(),
                pas == old(self).package_assignments@,
                idx == old(self).package_assignments_indices@,
                self.current_decision_level == old(self).current_decision_level,
                self.next_global_index == old(self).next_global_index,
                self.prioritized_potential_packages@ == old(self).prioritized_potential_packages@,
                self.potential_picks@ == old(self).potential_picks@,
                self.last_valid_decision_levels@ == old(self).last_valid_decision_levels@,
                self.package_assignments_lengths@ == old(self).package_assignments_lengths@,
                forall|p: int| 0 <= p < idx.len() ==> #[trigger] self.package_assignments_indices@[p] == if max_len <= idx[p] < k {
                    u32::MAX
                } else {
                    idx[p]
                },
            decreases pas.len() - k,
        {
            let pid = self.package_assignments[k].package_id;
            let ghost before = self.package_assignments_indices@;
            self.package_assignments_indices.set(pid.get() as usize, u32::MAX);
            proof {
                assert(idx[pid.0 as int] == k);
                assert forall|p: int| 0 <= p < idx.len() implies #[trigger] self.package_assignments_indices@[p] == if max_len <= idx[p] < k + 1 {
                    u32::MAX
                } else {
                    idx[p]
                } by {
                    if p != pid.0 {
                        assert(self.package_assignments_indices@[p] == before[p]);
                        if idx[p] == k {
                            assert(pas[idx[p] as int].package_id.0 == p);
                        }
                    }
                }
            }
            k = k + 1;
        }
        self.package_assignments.truncate(max_len);
        proof {
            let pas2 = self.package_assignments@;
            let idx2 = self.package_assignments_indices@;
            assert forall|j: int| 0 <= j < pas2.len() implies ((#[trigger] pas2[j]).package_id.0 as int) < idx2.len()
                && idx2[pas2[j].package_id.0 as int] == j by {
                assert(pas2[j] == pas[j]);
                assert(idx[pas[j].package_id.0 as int] == j);
            }
            assert forall|p: int| 0 <= p < idx2.len() && (#[trigger] idx2[p] as int) < pas2.len() implies pas2[idx2[p] as int].package_id.0 == p by {
                assert(idx2[p] == idx[p]);
            }
            assert forall|p: PackageId| #[trigger] self.slot(p) == match old(self).slot(p) {
                Some(i) => if i < max_len { Some(i) } else { None::<int> },
                None => None::<int>,
            } by {
            }
        }
    }

    /// Undo the decisions above `level` in every package's assignments, and make the packages
    /// without decision whose term is positive the potential picks.
    fn rewind_assignments(&mut self, level: DecisionLevel)
        requires
            old(self).slots_wf(),
            old(self).potential_picks@.len() == 0,
            forall|k: int| 0 <= k < old(self).pas().len() ==> {
                &&& pa_wf(#[trigger] old(self).pas()[k], old(self).level(), old(self).next_index())
                &&& old(self).pas()[k].dated_derivations@[0].decision_level.0 <= level.0
            },
            level.0 <= old(self).level(),
        ensures
            final(self).slots_wf(),
            final(self).pas().len() == old(self).pas().len(),
            forall|k: int| 0 <= k < old(self).pas().len() ==> {
                &&& rewound(old(self).pas()[k], #[trigger] final(self).pas()[k], level.0)
                &&& pa_wf(final(self).pas()[k], level.0, old(self).next_index())
            },
            forall|p: PackageId| #[trigger] final(self).slot(p) == old(self).slot(p),
            forall|p: PackageId| #[trigger] final(self).covers(p) == old(self).covers(p),
            forall|a: int, b: int| 0 <= a < b < final(self).picks().len() ==> final(self).picks()[a] != final(self).picks()[b],
            forall|p: PackageId| #[trigger] final(self).picks().contains(p) <==> (exists|k: int| 0 <= k < final(self).pas().len()
                && #[trigger] final(self).pas()[k].package_id == p
                && !final(self).pas()[k].assignments_intersection.is_decision
                && !final(self).pas()[k].assignments_intersection.term@.contains(-1)),
            final(self).current_decision_level == old(self).current_decision_level,
            final(self).next_global_index == old(self).next_global_index,
            final(self).last_valid_decision_levels@ == old(self).last_valid_decision_levels@,
            final(self).queue() == old(self).queue(),
            final(self).package_assignments_lengths@ == old(self).package_assignments_lengths@,
            final(self).package_assignments_indices@ == old(self).package_assignments_indices@,
    {
        let ghost pas = self.package_assignments@;
        let ghost old_level = self.level();
        let ghost next = self.next_index();
        proof {
            assert forall|j: int| 0 <= j < pas.len() implies {
                &&& pa_wf(#[trigger] pas[j], old_level, next)
                &&& pas[j].dated_derivations@[0].decision_level.0 <= level.0
            } by {
                assert(pas[j] == old(self).pas()[j]);
            }
        }
        let mut k: usize = 0;
        while k < self.package_assignments.len()
            invariant
                0 <= k <= pas.len(),
                self.package_assignments@.len() == pas.len(),
                pas == old(self).package_assignments@,
                old_level == old(self).level(),
                next == old(self).next_index(),
                self.package_assignments_indices@ == old(self).package_assignments_indices@,
                self.current_decision_level == old(self).current_decision_level,
                self.next_global_index == old(self).next_global_index,
                self.prioritized_potential_packages@ == old(self).prioritized_potential_packages@,
                self.last_valid_decision_levels@ == old(self).last_valid_decision_levels@,
                self.package_assignments_lengths@ == old(self).package_assignments_lengths@,
                forall|j: int| 0 <= j < pas.len() ==> {
                    &&& pa_wf(#[trigger] pas[j], old_level, next)
                    &&& pas[j].dated_derivations@[0].decision_level.0 <= level.0
                },
                forall|j: int| k <= j < pas.len() ==> #[trigger] self.package_assignments@[j] == pas[j],
                forall|j: int| 0 <= j < k ==> {
                    &&& rewound(pas[j], #[trigger] self.package_assignments@[j], level.0)
                    &&& pa_wf(self.package_assignments@[j], level.0, next)
                },
                forall|j: int| 0 <= j < pas.len() ==> (#[trigger] self.package_assignments@[j]).package_id == pas[j].package_id,
                forall|a: int, b: int| 0 <= a < b < self.potential_picks@.len() ==> self.potential_picks@[a] != self.potential_picks@[b],
                forall|p: PackageId| #[trigger] self.potential_picks@.contains(p) <==> (exists|j: int| 0 <= j < k
                    && #[trigger] self.package_assignments@[j].package_id == p
                    && !self.package_assignments@[j].assignments_intersection.is_decision
                    && !self.package_assignments@[j].assignments_intersection.term@.contains(-1)),
                old(self).slots_wf(),
            decreases pas.len() - k,
        {
            let ghost before = self.package_assignments@;
            let ghost b = pas[k as int];
            proof {
                assert(pa_wf(b, old_level, next));
            }
            if self.package_assignments[k].highest_decision_level.0 > level.0 {
                // Since level < highest_decision_level, no decision is left after backtracking:
                // such a decision would have been the last assignment and would have the highest
                // decision level.
                let mut pa = self.package_assignments[k].duplicate();
                let last_idx = kept_count(pa.dated_derivations.as_slice(), level);
                pa.dated_derivations.truncate(last_idx);
                let last = pa.dated_derivations[last_idx - 1];
                pa.highest_decision_level = last.decision_level;
                pa.assignments_intersection = AssignmentsIntersection::derivations(last.accumulated_intersection);
                self.package_assignments.set(k, pa);
                proof {
                    let dd = b.dated_derivations@;
                    let kept = pa.dated_derivations@;
                    assert(kept =~= dd.subrange(0, last_idx as int));
                    assert(pa_wf(pa, level.0, next)) by {
                        assert forall|i: int, j: int| 0 <= i < j < kept.len() implies {
                            &&& (#[trigger] kept[j]).accumulated_intersection@.subset_of((#[trigger] kept[i]).accumulated_intersection@)
                            &&& kept[i].decision_level.0 <= kept[j].decision_level.0
                            &&& kept[i].global_index < kept[j].global_index
                        } by {
                            assert(kept[i] == dd[i] && kept[j] == dd[j]);
                        }
                        assert forall|i: int| 0 <= i < kept.len() implies (#[trigger] kept[i]).global_index < next
                            && kept[i].decision_level.0 <= level.0 by {
                            assert(kept[i] == dd[i]);
                        }
                    }
                }
            } else {
                proof {
                    let dd = b.dated_derivations@;
                    assert forall|i: int| 0 <= i < dd.len() implies (#[trigger] dd[i]).decision_level.0 <= level.0 by {
                        if i < dd.len() - 1 {
                            assert(dd[i].decision_level.0 <= dd[dd.len() - 1].decision_level.0);
                        }
                    }
                }
            }
            let ghost mid = self.package_assignments@;
            let ghost picks_before = self.potential_picks@;
            let pai = self.package_assignments[k].assignments_intersection;
            if !pai.is_decision && pai.term.is_positive() {
                self.potential_picks.push(self.package_assignments[k].package_id);
                proof {
                    let q = self.package_assignments@[k as int].package_id;
                    assert(!picks_before.contains(q)) by {
                        if picks_before.contains(q) {
                            let j = choose|j: int| 0 <= j < k && #[trigger] self.package_assignments@[j].package_id == q
                                && !self.package_assignments@[j].assignments_intersection.is_decision
                                && !self.package_assignments@[j].assignments_intersection.term@.contains(-1);
                            assert(pas[j].package_id == q);
                            assert(old(self).package_assignments_indices@[q.0 as int] == j);
                            assert(old(self).package_assignments_indices@[q.0 as int] == k);
                        }
                    }
                    assert forall|a: int, c: int| 0 <= a < c < self.potential_picks@.len() implies self.potential_picks@[a] != self.potential_picks@[c] by {
                        if c == picks_before.len() {
                            assert(picks_before.contains(self.potential_picks@[a]));
                        } else {
                            assert(self.potential_picks@[a] == picks_before[a] && self.potential_picks@[c] == picks_before[c]);
                        }
                    }
                }
            }
            proof {
                let now = self.package_assignments@;
                let picks = self.potential_picks@;
                let qualifies = !now[k as int].assignments_intersection.is_decision
                    && !now[k as int].assignments_intersection.term@.contains(-1);
                assert(now == mid);
                assert(qualifies ==> picks == picks_before.push(now[k as int].package_id));
                assert(!qualifies ==> picks == picks_before);
                assert forall|p: PackageId| #[trigger] picks.contains(p) <==> (exists|j: int| 0 <= j < k + 1
                    && #[trigger] now[j].package_id == p
                    && !now[j].assignments_intersection.is_decision
                    && !now[j].assignments_intersection.term@.contains(-1)) by {
                    if picks.contains(p) {
                        let a = choose|a: int| 0 <= a < picks.len() && picks[a] == p;
                        if a < picks_before.len() {
                            assert(picks_before[a] == p);
                            assert(picks_before.contains(p));
                            let j = choose|j: int| 0 <= j < k && #[trigger] before[j].package_id == p
                                && !before[j].assignments_intersection.is_decision
                                && !before[j].assignments_intersection.term@.contains(-1);
                            assert(now[j] == before[j]);
                            assert(now[j].package_id == p);
                        } else {
                            assert(qualifies);
                            assert(now[k as int].package_id == p);
                        }
                    }
                    if exists|j: int| 0 <= j < k + 1 && #[trigger] now[j].package_id == p
                        && !now[j].assignments_intersection.is_decision
                        && !now[j].assignments_intersection.term@.contains(-1) {
                        let j = choose|j: int| 0 <= j < k + 1 && #[trigger] now[j].package_id == p
                            && !now[j].assignments_intersection.is_decision
                            && !now[j].assignments_intersection.term@.contains(-1);
                        if j < k {
                            assert(before[j] == now[j]);
                            assert(before[j].package_id == p);
                            assert(picks_before.contains(p));
                            let a = choose|a: int| 0 <= a < picks_before.len() && picks_before[a] == p;
                            assert(picks[a] == p);
                        } else {
                            assert(qualifies);
                            assert(picks[picks.len() - 1] == p);
                        }
                    }
                }
                assert forall|j: int| 0 <= j < k + 1 implies {
                    &&& rewound(pas[j], #[trigger] now[j], level.0)
                    &&& pa_wf(now[j], level.0, next)
                } by {
                    if j < k {
                        assert(now[j] == before[j]);
                    }
                }
            }
            k = k + 1;
        }
        proof {
            let now = self.package_assignments@;
            let idx = self.package_assignments_indices@;
            assert forall|p: PackageId| #[trigger] self.picks().contains(p) <==> (exists|k: int| 0 <= k < self.pas().len()
                && #[trigger] self.pas()[k].package_id == p
                && !self.pas()[k].assignments_intersection.is_decision
                && !self.pas()[k].assignments_intersection.term@.contains(-1)) by {
                assert(self.potential_picks@.contains(p) <==> (exists|j: int| 0 <= j < pas.len()
                    && #[trigger] self.package_assignments@[j].package_id == p
                    && !self.package_assignments@[j].assignments_intersection.is_decision
                    && !self.package_assignments@[j].assignments_intersection.term@.contains(-1)));
            }
            assert forall|j: int| 0 <= j < now.len() implies ((#[trigger] now[j]).package_id.0 as int) < idx.len()
                && idx[now[j].package_id.0 as int] == j by {
                assert(now[j].package_id == pas[j].package_id);
            }
            assert forall|p: int| 0 <= p < idx.len() && (#[trigger] idx[p] as int) < now.len() implies now[idx[p] as int].package_id.0 == p by {
                assert(now[idx[p] as int].package_id == pas[idx[p] as int].package_id);
            }
        }
    }

    /// Record a backtracking to `level`: every level gone back to above it becomes `level`,
    /// and `level` is added at the end.
    fn rewind_levels(&mut self, level: DecisionLevel)
        requires
            old(self).levels_wf(),
            level.0 < u32::MAX,
        ensures
            final(self).levels_wf(),
            final(self).last_valid().len() == old(self).last_valid().len() + 1,
            forall|i: int| 0 <= i < old(self).last_valid().len() ==> #[trigger] final(self).last_valid()[i] == if old(
                self,
            ).last_valid()[i].0 <= level.0 {
                old(self).last_valid()[i]
            } else {
                level
            },
            final(self).last_valid()[old(self).last_valid().len() as int] == level,
            final(self).package_assignments@ == old(self).package_assignments@,
            final(self).package_assignments_indices@ == old(self).package_assignments_indices@,
            final(self).package_assignments_lengths@ == old(self).package_assignments_lengths@,
            final(self).potential_picks@ == old(self).potential_picks@,
            final(self).current_decision_level == old(self).current_decision_level,
            final(self).next_global_index == old(self).next_global_index,
            final(self).queue() == old(self).queue(),
    {
        let ghost levels = self.last_valid_decision_levels@;
        self.last_valid_decision_levels.push(DecisionLevel(u32::MAX));
        let len = self.last_valid_decision_levels.len();
        let mut index: usize = 0;
        while index < len && self.last_valid_decision_levels[index].0 <= level.0
            invariant
                0 <= index <= len,
                len == levels.len() + 1,
                self.last_valid_decision_levels@ == levels.push(DecisionLevel(u32::MAX)),
                self.package_assignments@ == old(self).package_assignments@,
                self.package_assignments_indices@ == old(self).package_assignments_indices@,
                self.package_assignments_lengths@ == old(self).package_assignments_lengths@,
                self.potential_picks@ == old(self).potential_picks@,
                self.current_decision_level == old(self).current_decision_level,
                self.next_global_index == old(self).next_global_index,
                self.prioritized_potential_packages@ == old(self).prioritized_potential_packages@,
                forall|i: int| 0 <= i < index ==> (#[trigger] self.last_valid_decision_levels@[i]).0 <= level.0,
            decreases len - index,
        {
            index = index + 1;
        }
        let ghost pushed = self.last_valid_decision_levels@;
        let mut j: usize = index;
        while j < len
            invariant
                index <= j <= len,
                len == levels.len() + 1,
                self.last_valid_decision_levels@.len() == len,
                self.package_assignments@ == old(self).package_assignments@,
                self.package_assignments_indices@ == old(self).package_assignments_indices@,
                self.package_assignments_lengths@ == old(self).package_assignments_lengths@,
                self.potential_picks@ == old(self).potential_picks@,
                self.current_decision_level == old(self).current_decision_level,
                self.next_global_index == old(self).next_global_index,
                self.prioritized_potential_packages@ == old(self).prioritized_potential_packages@,
                forall|i: int| 0 <= i < index ==> #[trigger] self.last_valid_decision_levels@[i] == pushed[i],
                forall|i: int| index <= i < j ==> #[trigger] self.last_valid_decision_levels@[i] == level,
                forall|i: int| j <= i < len ==> #[trigger] self.last_valid_decision_levels@[i] == pushed[i],
            decreases len - j,
        {
            self.last_valid_decision_levels.set(j, level);
            j = j + 1;
        }
        proof {
            let now = self.last_valid_decision_levels@;
            assert(index < len) by {
                if index == len {
                    assert(pushed[len - 1].0 <= level.0);
                }
            }
            assert forall|i: int| 0 <= i < levels.len() implies #[trigger] now[i] == if levels[i].0 <= level.0 {
                levels[i]
            } else {
                level
            } by {
                assert(pushed[i] == levels[i]);
                if i >= index {
                    assert(levels[index as int].0 > level.0 || index == levels.len());
                    if index < levels.len() && levels[i].0 <= level.0 {
                        assert(levels[index as int].0 <= levels[i].0);
                    }
                } else {
                    assert(pushed[i].0 <= level.0);
                }
            }
            assert forall|a: int, b: int| 0 <= a < b < now.len() implies now[a].0 <= now[b].0 by {
                if b < levels.len() {
                    assert(levels[a].0 <= levels[b].0);
                }
            }
        }
    }

    /// Backtrack the partial solution to a given decision level.
    pub fn backtrack(&mut self, decision_level: DecisionLevel)
        requires
            old(self).wf(),
            decision_level.0 < old(self).level(),
        ensures
            final(self).wf(),
            forall|p: PackageId| #[trigger] final(self).covers(p) == old(self).covers(p),
            backtracked(*old(self), *final(self), decision_level),

    {
        let ghost start = *self;
        let ghost pas = self.package_assignments@;
        let ghost lengths = self.package_assignments_lengths@;
        let max_len = self.package_assignments_lengths[decision_level.get() as usize] as usize;
        self.potential_picks.clear();
        self.prioritized_potential_packages.clear();
        self.truncate_assignments(max_len);
        self.package_assignments_lengths.truncate(decision_level.get() as usize);
        proof {
            assert forall|k: int| 0 <= k < self.pas().len() implies {
                &&& pa_wf(#[trigger] self.pas()[k], start.level(), start.next_index())
                &&& self.pas()[k].dated_derivations@[0].decision_level.0 <= decision_level.0
            } by {
                assert(self.pas()[k] == pas[k]);
                assert(pa_wf(pas[k], start.level(), start.next_index()));
                assert(k < lengths[decision_level.0 as int]);
            }
        }
        let ghost truncated = *self;
        self.rewind_assignments(decision_level);
        let ghost rewound_state = *self;
        self.current_decision_level = decision_level;
        self.rewind_levels(decision_level);
        proof {
            let now = self.package_assignments@;
            assert(rewound_state.slots_wf());
            assert(self.package_assignments_indices@ == rewound_state.package_assignments_indices@);
            assert(self.package_assignments@ == rewound_state.package_assignments@);
            assert(self.slots_wf());
            // What happened to each package.
            assert forall|p: PackageId| match start.assignment(p) {
                None => #[trigger] self.assignment(p) is None,
                Some(b) => if b.dated_derivations@[0].decision_level.0 > decision_level.0 {
                    self.assignment(p) is None
                } else {
                    self.assignment(p) is Some && rewound(b, self.assignment(p)->0, decision_level.0)
                },
            } by {
                if let Some(i) = start.slot(p) {
                    assert(pas[i] == start.assignment(p)->0);
                    assert((i < lengths[decision_level.0 as int]) == (pas[i].dated_derivations@[0].decision_level.0 <= decision_level.0));
                    if i < max_len {
                        assert(truncated.pas()[i] == pas[i]);
                    }
                }
            }
            // The lengths of the remaining decisions.
            assert forall|d: int| 0 <= d < self.package_assignments_lengths@.len() implies (#[trigger] self.package_assignments_lengths@[d] as int) <= now.len() by {
                assert(self.package_assignments_lengths@[d] == lengths[d]);
                if lengths[d] > max_len {
                    let k = max_len as int;
                    assert(pas[k].dated_derivations@[0].decision_level.0 <= d);
                    assert(!(k < lengths[decision_level.0 as int]));
                }
            }
            assert forall|d: int, k: int| 0 <= d < self.package_assignments_lengths@.len() && 0 <= k < now.len() implies ((k < #[trigger] self.package_assignments_lengths@[d]) == (
                (#[trigger] now[k]).dated_derivations@[0].decision_level.0 <= d)) by {
                assert(self.package_assignments_lengths@[d] == lengths[d]);
                assert(rewound(truncated.pas()[k], now[k], decision_level.0));
                assert(truncated.pas()[k] == pas[k]);
                assert(now[k].dated_derivations@[0] == pas[k].dated_derivations@[0]);
            }
            assert forall|p: PackageId| #[trigger] self.picks().contains(p) <==> {
                &&& self.assignment(p) is Some
                &&& !self.assignment(p)->0.assignments_intersection.is_decision
                &&& !self.assignment(p)->0.assignments_intersection.term@.contains(-1)
            } by {
                if self.picks().contains(p) {
                    assert(rewound_state.picks().contains(p));
                    let rp = rewound_state.pas();
                    let k = choose|k: int| 0 <= k < rp.len() && #[trigger] rp[k].package_id == p
                        && !rp[k].assignments_intersection.is_decision
                        && !rp[k].assignments_intersection.term@.contains(-1);
                    assert(rewound_state.package_assignments_indices@[rp[k].package_id.0 as int] == k);
                    assert(now[k] == rp[k]);
                    assert(self.slot(p) == Some(k));
                }
                if self.assignment(p) is Some && !self.assignment(p)->0.assignments_intersection.is_decision
                    && !self.assignment(p)->0.assignments_intersection.term@.contains(-1) {
                    let k = self.slot(p)->0;
                    let rp = rewound_state.pas();
                    assert(now[k] == rp[k]);
                    assert(rp[k].package_id == p);
                    assert(rewound_state.picks().contains(p));
                }
            }
            assert forall|a: int| 0 <= a < self.picks().len() implies {
                &&& self.assignment(#[trigger] self.picks()[a]) is Some
                &&& !self.assignment(self.picks()[a])->0.assignments_intersection.is_decision
                &&& !self.assignment(self.picks()[a])->0.assignments_intersection.term@.contains(-1)
            } by {
                assert(self.picks().contains(self.picks()[a]));
            }
            assert(self.potential_picks@ == rewound_state.potential_picks@);
            assert forall|a: int, b: int| 0 <= a < b < self.potential_picks@.len() implies self.potential_picks@[a]
                != self.potential_picks@[b] by {
                assert(rewound_state.picks()[a] != rewound_state.picks()[b]);
            }
            assert(self.picks_wf());
            assert(self.lengths_wf());
            assert(self.package_assignments_indices@.len() == start.package_assignments_indices@.len());
            assert(self.histories_wf());
        }
    }

    /// The packages among the first `n` of the store that have a decision, each with the
    /// version decided, in the order of the store.
    pub open spec fn decided_in<P>(self, store: Seq<P>, n: int) -> Seq<(P, VersionIndex)>
        decreases n,
    {
        if n <= 0 {
            Seq::empty()
        } else {
            let before = self.decided_in(store, n - 1);
            match self.assignment(PackageId((n - 1) as u32)) {
                Some(pa) => if pa.assignments_intersection.is_decision {
                    before.push((store[n - 1], pa.assignments_intersection.decision_version_index))
                } else {
                    before
                },
                None => before,
            }
        }
    }

    /// If a partial solution has, for every positive derivation,
    /// a corresponding decision that satisfies that assignment,
    /// it's a total solution and version solving has succeeded.
    ///
    /// The solution holds each package of the store that has a decision, with its version.
    pub fn extract_solution<P: Ranked>(&self, package_store: PackageArena<P>) -> (r: Vec<(P, VersionIndex)>)
        requires
            arena_wf(package_store@),
        ensures
            r@ == self.decided_in(package_store@, package_store@.len() as int),
            forall|i: int| 0 <= i < r@.len() ==> exists|id: int|
                0 <= id < package_store@.len() && has_decision(*self, PackageId(id as u32)) && #[trigger] r@[i] == (
                    package_store@[id],
                    self.assignment(PackageId(id as u32))->0.assignments_intersection.decision_version_index,
                ),
            forall|id: int| 0 <= id < package_store@.len() && #[trigger] has_decision(*self, PackageId(id as u32)) ==> r@.contains(
                (package_store@[id], self.assignment(PackageId(id as u32))->0.assignments_intersection.decision_version_index),
            ),
    {
        let ghost n = package_store@.len() as int;
        let ghost ids = law_extracted_solution(*self, package_store@, n);
        let ghost d = self.decided_in(package_store@, n);
        proof {
            assert forall|i: int| 0 <= i < d.len() implies exists|id: int|
                0 <= id < n && has_decision(*self, PackageId(id as u32)) && #[trigger] d[i] == (
                    package_store@[id],
                    self.assignment(PackageId(id as u32))->0.assignments_intersection.decision_version_index,
                ) by {
                assert(0 <= ids[i] < n);
            }
            assert forall|id: int| 0 <= id < n && #[trigger] has_decision(*self, PackageId(id as u32)) implies d.contains(
                (package_store@[id], self.assignment(PackageId(id as u32))->0.assignments_intersection.decision_version_index),
            ) by {
                assert(ids.contains(id));
                let i = choose|i: int| 0 <= i < ids.len() && ids[i] == id;
                assert(d[i] == d[i]);
            }
        }
        let store = package_store.into_iter();
        let mut out: Vec<(P, VersionIndex)> = Vec::new();
        let mut i: usize = 0;
        while i < store.len()
            invariant
                0 <= i <= store@.len(),
                store@.len() <= 0x1_0000_0000,
                out@ == self.decided_in(store@, i as int),
            decreases store@.len() - i,
        {
            let slot = self.package_assignments_indices.len();
            if i < slot {
                let pa_idx = self.package_assignments_indices[i] as usize;
                if pa_idx < self.package_assignments.len() {
                    let ai = self.package_assignments[pa_idx].assignments_intersection;
                    if ai.is_decision {
                        out.push((store[i], ai.decision_version_index));
                    }
                }
            }
            proof {
                assert(PackageId(i as u32).0 == i);
            }
            i = i + 1;
        }
        out
    }

    /// For each term of an incompatibility, when the history of its package first satisfied it.
    pub open spec fn satisfied_map(self, incompat: Seq<(PackageId, Term)>) -> Seq<(PackageId, Satisfier)> {
        Seq::new(
            incompat.len(),
            |k: int| (incompat[k].0, satisfier_of(self.assignment(incompat[k].0)->0, outcomes().difference(incompat[k].1@))),
        )
    }

    /// Every term of the incompatibility is satisfied at some point of the history of its package.
    pub open spec fn satisfiable(self, incompat: Seq<(PackageId, Term)>) -> bool {
        forall|k: int| 0 <= k < incompat.len() ==> {
            &&& self.covers(#[trigger] incompat[k].0)
            &&& self.assignment(incompat[k].0) is Some
            &&& has_satisfier(self.assignment(incompat[k].0)->0, outcomes().difference(incompat[k].1@))
        }
    }

    /// A satisfier is the earliest assignment in partial solution such that the incompatibility
    /// is satisfied by the partial solution up to and including that assignment.
    ///
    /// Returns a map indicating for each package term, when that was first satisfied in history.
    fn find_satisfier(&self, incompat: &[(PackageId, Term)]) -> (r: SatisfiedMap)
        requires
            self.satisfiable(incompat@),
        ensures
            r@ == self.satisfied_map(incompat@),
    {
        let mut satisfied: SatisfiedMap = Vec::new();
        let mut k: usize = 0;
        while k < incompat.len()
            invariant
                0 <= k <= incompat@.len(),
                self.satisfiable(incompat@),
                satisfied@ == self.satisfied_map(incompat@).subrange(0, k as int),
            decreases incompat@.len() - k,
        {
            let (package_id, incompat_term) = incompat[k];
            proof {
                assert(self.covers(incompat@[k as int].0));
            }
            let pa_idx = self.package_assignments_indices[package_id.get() as usize] as usize;
            let satisfied_info = self.package_assignments[pa_idx].satisfier(incompat_term.negate());
            satisfied.push((package_id, satisfied_info));
            proof {
                assert(satisfied@ =~= self.satisfied_map(incompat@).subrange(0, k + 1));
            }
            k = k + 1;
        }
        proof {
            assert(self.satisfied_map(incompat@).subrange(0, incompat@.len() as int) =~= self.satisfied_map(incompat@));
        }
        satisfied
    }

    /// The outcomes from which the previous satisfier is searched: those that the cause of the
    /// satisfier allows (its decision, if it has no cause) and the incompatibility does not.
    pub open spec fn previous_start(
        self,
        incompat: Seq<(PackageId, Term)>,
        satisfier_pid: PackageId,
        satisfied_map: Seq<(PackageId, Satisfier)>,
        store: Seq<Vec<(PackageId, Term)>>,
    ) -> Set<int> {
        let accum = match lookup(satisfied_map, satisfier_pid)->0.cause {
            Some(cause) => outcomes().difference(lookup(store[cause.0 as int]@, satisfier_pid)->0@),
            None => self.assignment(satisfier_pid)->0.assignments_intersection.term@,
        };
        accum.intersect(outcomes().difference(lookup(incompat, satisfier_pid)->0@))
    }

    /// Whether the previous satisfier can be searched: the satisfier's entry, its cause's term
    /// for the package (or else its decision) and the incompatibility's term are there, and the
    /// package's history satisfies the search.
    pub open spec fn previous_searchable(
        self,
        incompat: Seq<(PackageId, Term)>,
        satisfier_pid: PackageId,
        satisfied_map: Seq<(PackageId, Satisfier)>,
        store: Seq<Vec<(PackageId, Term)>>,
    ) -> bool {
        &&& self.covers(satisfier_pid)
        &&& self.assignment(satisfier_pid) is Some
        &&& lookup(satisfied_map, satisfier_pid) is Some
        &&& match lookup(satisfied_map, satisfier_pid)->0.cause {
            Some(cause) => cause.0 < store.len() && lookup(store[cause.0 as int]@, satisfier_pid) is Some,
            None => self.assignment(satisfier_pid)->0.assignments_intersection.is_decision,
        }
        &&& lookup(incompat, satisfier_pid) is Some
        &&& has_satisfier(self.assignment(satisfier_pid)->0, self.previous_start(incompat, satisfier_pid, satisfied_map, store))
    }

    /// The level of the previous satisfier: the latest entry once the satisfier's package is
    /// searched again from `previous_start`; at least 1.
    pub open spec fn previous_level(
        self,
        incompat: Seq<(PackageId, Term)>,
        satisfier_pid: PackageId,
        satisfied_map: Seq<(PackageId, Satisfier)>,
        store: Seq<Vec<(PackageId, Term)>>,
    ) -> DecisionLevel {
        let start = self.previous_start(incompat, satisfier_pid, satisfied_map, store);
        let updated = satisfied_map.update(
            last_index_of_key(satisfied_map, satisfier_pid),
            (satisfier_pid, satisfier_of(self.assignment(satisfier_pid)->0, start)),
        );
        let level = updated[latest(updated)].1.decision_level;
        if level.0 >= 1 {
            level
        } else {
            DecisionLevel(1)
        }
    }

    /// Earliest assignment in the partial solution before satisfier
    /// such that incompatibility is satisfied by the partial solution up to
    /// and including that assignment plus satisfier.
    fn find_previous_satisfier(
        &self,
        incompat: &[(PackageId, Term)],
        satisfier_pid: PackageId,
        satisfied_map: SatisfiedMap,
        store: &[Vec<(PackageId, Term)>],
    ) -> (r: DecisionLevel)
        requires
            self.previous_searchable(incompat@, satisfier_pid, satisfied_map@, store@),
        ensures
            r == self.previous_level(incompat@, satisfier_pid, satisfied_map@, store@),
    {
        let ghost map = satisfied_map@;
        let mut satisfied_map = satisfied_map;
        // First, let's retrieve the previous derivations and the initial accum_term.
        let pa_idx = self.package_assignments_indices[satisfier_pid.get() as usize] as usize;
        let satisfier_pa = &self.package_assignments[pa_idx];
        let entry = last_position(satisfied_map.as_slice(), satisfier_pid).unwrap();
        proof {
            lemma_last_index_of_key(map, satisfier_pid);
        }
        let satisfier_cause = satisfied_map[entry].1.cause;
        let accum_term = match satisfier_cause {
            Some(cause) => {
                let cause_terms = &store[cause.0 as usize];
                let at = last_position(cause_terms.as_slice(), satisfier_pid).unwrap();
                proof {
                    lemma_last_index_of_key(cause_terms@, satisfier_pid);
                }
                cause_terms[at].1.negate()
            },
            None => satisfier_pa.assignments_intersection.term,
        };
        let at = last_position(incompat, satisfier_pid).unwrap();
        proof {
            lemma_last_index_of_key(incompat@, satisfier_pid);
        }
        let incompat_term = incompat[at].1;
        let start = accum_term.intersection(incompat_term.negate());
        proof {
            assert(start@ == self.previous_start(incompat@, satisfier_pid, map, store@));
        }
        let info = satisfier_pa.satisfier(start);
        satisfied_map.set(entry, (satisfier_pid, info));
        // Finally, let's identify the decision level of that previous satisfier.
        let latest = latest_entry(satisfied_map.as_slice());
        let decision_level = satisfied_map[latest].1.decision_level;
        if decision_level.0 >= 1 {
            decision_level
        } else {
            DecisionLevel(1)
        }
    }

    /// Figure out if the satisfier and previous satisfier are of different decision levels.
    ///
    /// The satisfier is the latest of the assignments that first satisfy the terms of the
    /// incompatibility; the previous satisfier is searched for once that package is searched
    /// again from what the satisfier's cause allows.
    pub fn satisfier_search(&self, incompat: &[(PackageId, Term)], store: &[Vec<(PackageId, Term)>]) -> (r: (
        PackageId,
        SatisfierSearch,
    ))
        requires
            incompat@.len() > 0,
            self.satisfiable(incompat@),
            ({
                let map = self.satisfied_map(incompat@);
                let pid = map[latest(map)].0;
                &&& self.previous_searchable(incompat@, pid, map, store@)
                &&& self.previous_level(incompat@, pid, map, store@).0 >= map[latest(map)].1.decision_level.0 ==> map[latest(map)].1.cause is Some
            }),
        ensures
            ({
                let map = self.satisfied_map(incompat@);
                let (pid, found) = map[latest(map)];
                let cause = found.cause;
                let level = found.decision_level;
                let previous = self.previous_level(incompat@, pid, map, store@);
                &&& r.0 == pid
                &&& r.1 == if previous.0 >= level.0 {
                    SatisfierSearch::SameDecisionLevels { satisfier_cause: cause->0 }
                } else {
                    SatisfierSearch::DifferentDecisionLevels { previous_satisfier_level: previous }
                }
            }),
    {
        let satisfied_map = self.find_satisfier(incompat);
        proof {
            lemma_latest(satisfied_map@);
        }
        let latest = latest_entry(satisfied_map.as_slice());
        let (satisfier_pid, found) = satisfied_map[latest];
        let satisfier_cause = found.cause;
        let satisfier_decision_level = found.decision_level;
        let previous_satisfier_level = self.find_previous_satisfier(incompat, satisfier_pid, satisfied_map, store);
        let search_result = if previous_satisfier_level.0 >= satisfier_decision_level.0 {
            SatisfierSearch::SameDecisionLevels { satisfier_cause: satisfier_cause.unwrap() }
        } else {
            SatisfierSearch::DifferentDecisionLevels { previous_satisfier_level }
        };
        (satisfier_pid, search_result)
    }

    /// The intersection of the terms of the package, where it has any.
    pub open spec fn known_term(self, p: PackageId) -> Option<Term> {
        match self.assignment(p) {
            Some(pa) => Some(pa.assignments_intersection.term),
            None => None,
        }
    }

    /// The relation of the partial solution to the first `k` terms of the incompatibility:
    /// the terms are looked at in order; the first contradicted one decides, unless two terms
    /// that are not satisfied came before it.
    pub open spec fn relation_upto(self, incompat: Seq<(PackageId, Term)>, k: int) -> IncompatRelation
        decreases k,
    {
        if k <= 0 {
            IncompatRelation::Satisfied
        } else {
            let prev = self.relation_upto(incompat, k - 1);
            let (p, t) = incompat[k - 1];
            match prev {
                IncompatRelation::Contradicted(_) | IncompatRelation::Inconclusive => prev,
                _ => match term_status(t, self.known_term(p)) {
                    TermRelation::Satisfied => prev,
                    TermRelation::Contradicted => IncompatRelation::Contradicted(p),
                    TermRelation::Inconclusive => if prev is Satisfied {
                        IncompatRelation::AlmostSatisfied(p)
                    } else {
                        IncompatRelation::Inconclusive
                    },
                },
            }
        }
    }

    /// Check if the terms in the partial solution satisfy the incompatibility.
    pub fn relation(&self, incompat: &[(PackageId, Term)]) -> (r: IncompatRelation)
        requires
            forall|k: int| 0 <= k < incompat@.len() ==> self.covers(#[trigger] incompat@[k].0),
        ensures
            r == self.relation_upto(incompat@, incompat@.len() as int),
            (r is Satisfied) == forall|k: int|
                0 <= k < incompat@.len() ==> known_satisfies(*self, (#[trigger] incompat@[k]).0, incompat@[k].1),
            forall|k: int|
                0 <= k < incompat@.len() && !known_satisfies(*self, (#[trigger] incompat@[k]).0, incompat@[k].1)
                    && !known_contradicts(*self, incompat@[k].0, incompat@[k].1) && others_satisfied(
                    *self,
                    incompat@,
                    incompat@.len() as int,
                    k,
                ) ==> r == IncompatRelation::AlmostSatisfied(incompat@[k].0),
    {
        proof {
            law_partial_solution_relation(*self, incompat@);
        }
        let mut relation = IncompatRelation::Satisfied;
        let mut k: usize = 0;
        while k < incompat.len()
            invariant
                0 <= k <= incompat@.len(),
                forall|j: int| 0 <= j < incompat@.len() ==> self.covers(#[trigger] incompat@[j].0),
                relation == self.relation_upto(incompat@, k as int),
                relation is Satisfied || relation is AlmostSatisfied,
            decreases incompat@.len() - k,
        {
            let (p, t) = incompat[k];
            proof {
                assert(self.covers(incompat@[k as int].0));
            }
            let status = match self.term_intersection_for_package(p) {
                Some(known) => t.relation_with(known),
                None => TermRelation::Inconclusive,
            };
            match status {
                TermRelation::Satisfied => {},
                TermRelation::Contradicted => {
                    proof {
                        lemma_relation_decided(*self, incompat@, k as int + 1);
                        law_partial_solution_relation(*self, incompat@);
                    }
                    return IncompatRelation::Contradicted(p);
                },
                TermRelation::Inconclusive => {
                    if relation == IncompatRelation::Satisfied {
                        relation = IncompatRelation::AlmostSatisfied(p);
                    } else {
                        proof {
                            lemma_relation_decided(*self, incompat@, k as int + 1);
                            law_partial_solution_relation(*self, incompat@);
                        }
                        return IncompatRelation::Inconclusive;
                    }
                },
            }
            k = k + 1;
        }
        relation
    }

    /// Whether the incompatibility would be satisfied once the version is decided for the package.
    fn satisfied_with_decision(&self, incompat: &[(PackageId, Term)], package_id: PackageId, version_index: VersionIndex) -> (r: bool)
        requires
            forall|k: int| 0 <= k < incompat@.len() ==> self.covers(#[trigger] incompat@[k].0),
        ensures
            r == satisfied_with(*self, incompat@, package_id, version_index),
    {
        let exact = Term::exact(version_index);
        let mut k: usize = 0;
        while k < incompat.len()
            invariant
                0 <= k <= incompat@.len(),
                exact@ == set![version_index@ as int],
                forall|j: int| 0 <= j < incompat@.len() ==> self.covers(#[trigger] incompat@[j].0),
                forall|j: int| 0 <= j < k ==> if (#[trigger] incompat@[j]).0 == package_id {
                    set![version_index@ as int].subset_of(incompat@[j].1@)
                } else {
                    self.assignment(incompat@[j].0) is Some && self.assignment(incompat@[j].0)->0.assignments_intersection.term@.subset_of(
                        incompat@[j].1@,
                    )
                },
            decreases incompat@.len() - k,
        {
            let (pid, incompat_term) = incompat[k];
            proof {
                assert(self.covers(incompat@[k as int].0));
            }
            let known = if pid == package_id {
                Some(exact)
            } else {
                self.term_intersection_for_package(pid)
            };
            let satisfied = match known {
                Some(term) => incompat_term.satisfied_by(term),
                None => false,
            };
            if !satisfied {
                return false;
            }
            k = k + 1;
        }
        true
    }

    /// We can add the version to the partial solution as a decision
    /// if it doesn't produce any conflict with the new incompatibilities.
    /// In practice I think it can only produce a conflict if one of the dependencies
    /// (which are used to make the new incompatibilities)
    /// is already in the partial solution with an incompatible version.
    pub fn add_version(
        &mut self,
        package_id: PackageId,
        version_index: VersionIndex,
        new_incompatibilities: std::ops::Range<IncompatId>,
        store: &[Vec<(PackageId, Term)>],
    )
        requires
            old(self).wf(),
            new_incompatibilities.start.0 <= new_incompatibilities.end.0 <= store@.len(),
            forall|k: int, j: int| new_incompatibilities.start.0 <= k < new_incompatibilities.end.0 && 0 <= j < store@[k]@.len()
                ==> (#[trigger] store@[k]@[j]).0.0 + 1 <= usize::MAX,
            old(self).assignment(package_id) is Some,
            !old(self).assignment(package_id)->0.assignments_intersection.is_decision,
            old(self).assignment(package_id)->0.assignments_intersection.term@.contains(version_index@ as int),
            old(self).picks().len() == 0,
            old(self).level() < u32::MAX,
            old(self).next_index() < u32::MAX,
        ensures
            final(self).wf(),
            forall|p: PackageId| old(self).covers(p) ==> #[trigger] final(self).covers(p),
            forall|k: int, j: int| new_incompatibilities.start.0 <= k < new_incompatibilities.end.0 && 0 <= j < store@[k]@.len()
                ==> final(self).covers(#[trigger] store@[k]@[j].0),
            final(self).queue() == old(self).queue(),
            ({
                let decide = old(self).last_valid().len() == 1 || forall|k: int| new_incompatibilities.start.0 <= k
                    < new_incompatibilities.end.0 ==> !satisfied_with(*old(self), #[trigger] store@[k]@, package_id, version_index);
                if decide {
                    decided(*old(self), *final(self), package_id, version_index)
                } else {
                    &&& final(self).level() == old(self).level()
                    &&& final(self).next_index() == old(self).next_index()
                    &&& forall|p: PackageId| #[trigger] final(self).assignment(p) == old(self).assignment(p)
                    &&& final(self).picks() == old(self).picks()
                    &&& final(self).last_valid() == old(self).last_valid()
                }
            }),
            (forall|k: int|
                #![trigger store@[k]]
                new_incompatibilities.start.0 <= k < new_incompatibilities.end.0 ==> exists|j: int|
                    0 <= j < store@[k]@.len() && (#[trigger] store@[k]@[j]).0 != package_id && old(self).assignment(
                        store@[k]@[j].0,
                    ) is None) ==> decided(*old(self), *final(self), package_id, version_index),
    {
        proof {
            assert forall|k: int|
                #![trigger store@[k]]
                new_incompatibilities.start.0 <= k < new_incompatibilities.end.0 && exists|j: int|
                    0 <= j < store@[k]@.len() && (#[trigger] store@[k]@[j]).0 != package_id && old(self).assignment(
                        store@[k]@[j].0,
                    ) is None implies !satisfied_with(*old(self), store@[k]@, package_id, version_index) by {
                let j = choose|j: int|
                    0 <= j < store@[k]@.len() && (#[trigger] store@[k]@[j]).0 != package_id && old(self).assignment(
                        store@[k]@[j].0,
                    ) is None;
                law_unknown_package_not_satisfied_with(*old(self), store@[k]@, package_id, version_index, j);
            }
        }
        let start = new_incompatibilities.start.0 as usize;
        let end = new_incompatibilities.end.0 as usize;
        let mut max_idx: u32 = 0;
        let mut k: usize = start;
        while k < end
            invariant
                start <= k <= end,
                end <= store@.len(),
                start == new_incompatibilities.start.0,
                end == new_incompatibilities.end.0,
                forall|a: int, j: int| start <= a < end && 0 <= j < store@[a]@.len() ==> (#[trigger] store@[a]@[j]).0.0 + 1 <= usize::MAX,
                max_idx + 1 <= usize::MAX,
                forall|a: int, j: int| start <= a < k && 0 <= j < store@[a]@.len() ==> (#[trigger] store@[a]@[j]).0.0 <= max_idx,
            decreases end - k,
        {
            let terms = &store[k];
            let mut j: usize = 0;
            while j < terms.len()
                invariant
                    0 <= j <= terms@.len(),
                    terms@ == store@[k as int]@,
                    start <= k < end,
                    forall|a: int, i: int| start <= a < end && 0 <= i < store@[a]@.len() ==> (#[trigger] store@[a]@[i]).0.0 + 1 <= usize::MAX,
                    max_idx + 1 <= usize::MAX,
                    forall|a: int, i: int| start <= a < k && 0 <= i < store@[a]@.len() ==> (#[trigger] store@[a]@[i]).0.0 <= max_idx,
                    forall|i: int| 0 <= i < j ==> (#[trigger] terms@[i]).0.0 <= max_idx,
                decreases terms@.len() - j,
            {
                proof {
                    assert(store@[k as int]@[j as int] == terms@[j as int]);
                }
                if terms[j].0.get() > max_idx {
                    max_idx = terms[j].0.get();
                }
                j = j + 1;
            }
            proof {
                assert forall|a: int, i: int| start <= a < k + 1 && 0 <= i < store@[a]@.len() implies (#[trigger] store@[a]@[i]).0.0 <= max_idx by {
                    if a == k {
                        assert(store@[a]@[i] == terms@[i]);
                    }
                }
            }
            k = k + 1;
        }
        let ghost before = *self;
        self.resize_package_assignments_indices(PackageId(max_idx));
        let ghost resized = *self;
        proof {
            assert forall|p: PackageId| #[trigger] resized.assignment(p) == before.assignment(p) by {
                assert(resized.slot(p) == before.slot(p));
            }
            assert forall|a: int, j: int| new_incompatibilities.start.0 <= a < new_incompatibilities.end.0 && 0 <= j < store@[a]@.len()
                implies self.covers(#[trigger] store@[a]@[j].0) by {
                assert(self.covers(PackageId(max_idx)));
            }
            assert forall|a: int| new_incompatibilities.start.0 <= a < new_incompatibilities.end.0 implies
                satisfied_with(*self, #[trigger] store@[a]@, package_id, version_index)
                == satisfied_with(before, store@[a]@, package_id, version_index) by {
                assert forall|p: PackageId| #[trigger] self.assignment(p) == before.assignment(p) by {
                }
            }
        }
        if self.last_valid_decision_levels.len() == 1 {
            // Nothing has yet gone wrong during this resolution. This call is unlikely to be the first problem.
            // So let's live with a little bit of risk and add the decision without checking the dependencies.
            // The worst that can happen is we will have to do a full backtrack which only removes this one decision.
            self.add_decision(package_id, version_index);
            proof {
                assert forall|p: PackageId| p != package_id implies #[trigger] self.assignment(p) == before.assignment(p) by {
                    assert(resized.assignment(p) == before.assignment(p));
                }
                assert(resized.assignment(package_id) == before.assignment(package_id));
            }
        } else {
            // Check if any of the new dependencies preclude deciding on this crate version:
            // none of the dependencies (new_incompatibilities) may create a conflict (be satisfied).
            let mut all_unsatisfied = true;
            let mut k: usize = start;
            while k < end
                invariant
                    start <= k <= end,
                    end <= store@.len(),
                    start == new_incompatibilities.start.0,
                    end == new_incompatibilities.end.0,
                    forall|a: int, j: int| start <= a < end && 0 <= j < store@[a]@.len() ==> self.covers(#[trigger] store@[a]@[j].0),
                    all_unsatisfied == forall|a: int| start <= a < k ==> !satisfied_with(*self, #[trigger] store@[a]@, package_id, version_index),
                decreases end - k,
            {
                let terms = &store[k];
                proof {
                    assert forall|j: int| 0 <= j < terms@.len() implies self.covers(#[trigger] terms@[j].0) by {
                        assert(terms@[j] == store@[k as int]@[j]);
                    }
                }
                if self.satisfied_with_decision(terms.as_slice(), package_id, version_index) {
                    all_unsatisfied = false;
                }
                k = k + 1;
            }
            if all_unsatisfied {
                self.add_decision(package_id, version_index);
                proof {
                    assert forall|p: PackageId| p != package_id implies #[trigger] self.assignment(p) == before.assignment(p) by {
                        assert(resized.assignment(p) == before.assignment(p));
                    }
                    assert(resized.assignment(package_id) == before.assignment(package_id));
                }
            } else {
                proof {
                    assert forall|p: PackageId| #[trigger] self.assignment(p) == before.assignment(p) by {
                        assert(resized.assignment(p) == before.assignment(p));
                    }
                }
            }
        }
    }

    /// `priority` is a priority that the prioritizer may give to the package, for the versions
    /// of its term.
    pub open spec fn may_prioritize<F: Fn(PackageId, VersionSet) -> Pr>(self, prioritizer: F, package: PackageId, priority: Pr) -> bool {
        exists|vs: VersionSet| selected_in(vs@) == self.assignment(package)->0.assignments_intersection.term@
            && call_ensures(prioritizer, (package, vs), priority)
    }

    /// Give each potential pick its priority, then take the package of highest priority out of
    /// the packages waiting to be picked.
    pub fn pick_highest_priority_pkg<F: Fn(PackageId, VersionSet) -> Pr>(&mut self, prioritizer: F) -> (r: Option<PackageId>)
        requires
            old(self).wf(),
            forall|p: PackageId, vs: VersionSet| call_requires(prioritizer, (p, vs)),
        ensures
            final(self).wf(),
            final(self).picks() == Seq::<PackageId>::empty(),
            final(self).level() == old(self).level(),
            final(self).next_index() == old(self).next_index(),
            forall|p: PackageId| #[trigger] final(self).assignment(p) == old(self).assignment(p),
            forall|p: PackageId| #[trigger] final(self).covers(p) == old(self).covers(p),
            final(self).last_valid() == old(self).last_valid(),
            exists|merged: Seq<(PackageId, Pr)>| {
                &&& distinct_keys(merged)
                &&& forall|q: PackageId| (#[trigger] lookup(merged, q) is Some) <==> (old(self).picks().contains(q) || lookup(
                    old(self).queue(),
                    q,
                ) is Some)
                &&& forall|i: int| 0 <= i < merged.len() ==> if old(self).picks().contains((#[trigger] merged[i]).0) {
                    old(self).may_prioritize(prioritizer, merged[i].0, merged[i].1)
                } else {
                    lookup(old(self).queue(), merged[i].0) == Some(merged[i].1)
                }
                &&& match r {
                    None => merged.len() == 0,
                    Some(p) => exists|i: int| {
                        &&& 0 <= i < merged.len()
                        &&& #[trigger] merged[i].0 == p
                        &&& forall|j: int| 0 <= j < merged.len() ==> (#[trigger] merged[j]).1.rank() <= merged[i].1.rank()
                        &&& final(self).queue() == merged.remove(i)
                    },
                }
            },
    {
        let ghost picks = self.potential_picks@;
        let ghost queue = self.prioritized_potential_packages@;
        proof {
            assert forall|i: int| 0 <= i < queue.len() implies lookup(queue, (#[trigger] queue[i]).0) == Some(queue[i].1) by {
                lemma_lookup_at(queue, i);
            }
            assert(picks.subrange(0, 0) =~= Seq::<PackageId>::empty());
            assert forall|q: PackageId| (#[trigger] lookup(queue, q) is Some) <==> (picks.subrange(0, 0).contains(q)
                || lookup(queue, q) is Some) by {
            }
        }
        let mut k: usize = 0;
        while k < self.potential_picks.len()
            invariant
                0 <= k <= picks.len(),
                self.potential_picks@ == picks,
                old(self).wf(),
                picks == old(self).picks(),
                queue == old(self).queue(),
                forall|p: PackageId, vs: VersionSet| call_requires(prioritizer, (p, vs)),
                self.package_assignments@ == old(self).package_assignments@,
                self.package_assignments_indices@ == old(self).package_assignments_indices@,
                self.package_assignments_lengths@ == old(self).package_assignments_lengths@,
                self.last_valid_decision_levels@ == old(self).last_valid_decision_levels@,
                self.current_decision_level == old(self).current_decision_level,
                self.next_global_index == old(self).next_global_index,
                distinct_keys(self.prioritized_potential_packages@),
                forall|q: PackageId| (#[trigger] lookup(self.prioritized_potential_packages@, q) is Some) <==> (picks.subrange(
                    0,
                    k as int,
                ).contains(q) || lookup(queue, q) is Some),
                forall|i: int| 0 <= i < self.prioritized_potential_packages@.len() ==> if picks.subrange(0, k as int).contains(
                    (#[trigger] self.prioritized_potential_packages@[i]).0,
                ) {
                    old(self).may_prioritize(prioritizer, self.prioritized_potential_packages@[i].0, self.prioritized_potential_packages@[i].1)
                } else {
                    lookup(queue, self.prioritized_potential_packages@[i].0) == Some(self.prioritized_potential_packages@[i].1)
                },
            decreases picks.len() - k,
        {
            let pid = self.potential_picks[k];
            proof {
                assert(old(self).picks_wf());
                assert(old(self).assignment(picks[k as int]) is Some);
            }
            let pa_idx = self.package_assignments_indices[pid.get() as usize] as usize;
            let vs = self.package_assignments[pa_idx].assignments_intersection.term.version_set();
            let priority = prioritizer(pid, vs);
            let ghost before = self.prioritized_potential_packages@;
            let entry = (pid, priority);
            proof {
                assert(old(self).may_prioritize(prioritizer, pid, priority));
                assert(picks.subrange(0, k + 1) =~= picks.subrange(0, k as int).push(pid));
                assert(!picks.subrange(0, k as int).contains(pid)) by {
                    if picks.subrange(0, k as int).contains(pid) {
                        let a = choose|a: int| 0 <= a < k && picks.subrange(0, k as int)[a] == pid;
                        assert(picks[a] == picks[k as int]);
                    }
                }
            }
            match last_position(self.prioritized_potential_packages.as_slice(), pid) {
                Some(i) => {
                    proof {
                        lemma_last_index_of_key(before, pid);
                    }
                    self.prioritized_potential_packages.set(i, entry);
                    proof {
                        lemma_lookup_update(before, i as int, entry);
                        assert forall|j: int| 0 <= j < self.prioritized_potential_packages@.len() && j != i implies
                            #[trigger] self.prioritized_potential_packages@[j] == before[j] by {
                        }
                    }
                },
                None => {
                    proof {
                        lemma_last_index_of_key(before, pid);
                        assert forall|j: int| 0 <= j < before.len() implies #[trigger] before[j].0 != pid by {
                        }
                    }
                    self.prioritized_potential_packages.push(entry);
                    proof {
                        lemma_distinct_push(before, entry);
                        assert forall|q: PackageId| #[trigger] lookup(self.prioritized_potential_packages@, q) == if entry.0 == q {
                            Some(entry.1)
                        } else {
                            lookup(before, q)
                        } by {
                            lemma_lookup_push(before, entry, q);
                        }
                    }
                },
            }
            proof {
                let now = self.prioritized_potential_packages@;
                let seen = picks.subrange(0, k + 1);
                assert forall|q: PackageId| (#[trigger] lookup(now, q) is Some) <==> (seen.contains(q) || lookup(queue, q) is Some) by {
                    if q == pid {
                        assert(seen[k as int] == q);
                    } else {
                        assert(seen.contains(q) == picks.subrange(0, k as int).contains(q)) by {
                            if seen.contains(q) {
                                let a = choose|a: int| 0 <= a < seen.len() && seen[a] == q;
                                assert(picks.subrange(0, k as int)[a] == q);
                            }
                        }
                    }
                }
                assert forall|i: int| 0 <= i < now.len() implies if seen.contains((#[trigger] now[i]).0) {
                    old(self).may_prioritize(prioritizer, now[i].0, now[i].1)
                } else {
                    lookup(queue, now[i].0) == Some(now[i].1)
                } by {
                    if now[i].0 != pid {
                        assert(i < before.len());
                        assert(now[i] == before[i]);
                        assert(seen.contains(now[i].0) == picks.subrange(0, k as int).contains(now[i].0)) by {
                            if seen.contains(now[i].0) {
                                let a = choose|a: int| 0 <= a < seen.len() && seen[a] == now[i].0;
                                assert(picks.subrange(0, k as int)[a] == now[i].0);
                            }
                        }
                    } else {
                        assert(seen[k as int] == pid);
                        if i < before.len() && now[i] == before[i] {
                            assert(lookup(before, pid) is Some) by {
                                lemma_lookup_at(before, i);
                            }
                        }
                        assert(now[i] == entry) by {
                            if i < before.len() {
                                assert(before[i].0 == pid);
                                lemma_last_index_of_key(before, pid);
                            }
                        }
                    }
                }
            }
            k = k + 1;
        }
        let ghost merged = self.prioritized_potential_packages@;
        proof {
            assert(picks.subrange(0, picks.len() as int) =~= picks);
        }
        self.potential_picks.clear();
        if self.prioritized_potential_packages.len() == 0 {
            proof {
                assert(self.picks() =~= Seq::<PackageId>::empty());
            }
            return None;
        }
        let mut best: usize = 0;
        let mut j: usize = 1;
        while j < self.prioritized_potential_packages.len()
            invariant
                1 <= j <= merged.len(),
                best < merged.len(),
                self.prioritized_potential_packages@ == merged,
                forall|a: int| 0 <= a < j ==> (#[trigger] merged[a]).1.rank() <= merged[best as int].1.rank(),
            decreases merged.len() - j,
        {
            if self.prioritized_potential_packages[best].1.rank_lt(&self.prioritized_potential_packages[j].1) {
                best = j;
            }
            j = j + 1;
        }
        let (pid, _) = self.prioritized_potential_packages.remove(best);
        proof {
            let now = self.prioritized_potential_packages@;
            assert(now == merged.remove(best as int));
            assert forall|a: int, b: int| 0 <= a < b < now.len() implies now[a].0 != now[b].0 by {
                let a2 = if a < best { a } else { a + 1 };
                let b2 = if b < best { b } else { b + 1 };
                assert(now[a] == merged[a2] && now[b] == merged[b2]);
            }
            assert(self.picks() =~= Seq::<PackageId>::empty());
            assert(merged[best as int].0 == pid);
        }
        Some(pid)
    }

    /// Check if an incompatibility, through its contradiction cache, is contradicted.
    pub fn is_contradicted(&self, cache: &ContradictionCache) -> (r: bool)
        ensures
            r == contradiction_holds(*cache, self.last_valid()),
    {
        cache.is_contradicted(self.last_valid_decision_levels.as_slice())
    }

    /// Contradict an incompatibility: record in its cache the current decision level and the
    /// current backtrack generation.
    pub fn contradict(&self, cache: &mut ContradictionCache)
        requires
            self.last_valid().len() <= u32::MAX,
        ensures
            final(cache).decision_level == DecisionLevel(self.level()),
            final(cache).backtrack_generation == self.last_valid().len(),
    {
        cache.decision_level = self.current_decision_level;
        cache.backtrack_generation = self.last_valid_decision_levels.len() as u32;
    }
}

/// Backtracking to the level at which a version was decided undoes the decision: every package
/// has the same derivations, level and term as before the decision, and none is decided.
pub proof fn law_backtrack_undoes_decision<Pr: Ranked>(
    s0: PartialSolution<Pr>,
    s1: PartialSolution<Pr>,
    s2: PartialSolution<Pr>,
    package_id: PackageId,
    version_index: VersionIndex,
)
    requires
        s0.wf(),
        s0.assignment(package_id) is Some,
        !s0.assignment(package_id)->0.assignments_intersection.is_decision,
        decided(s0, s1, package_id, version_index),
        backtracked(s1, s2, DecisionLevel(s0.level())),
    ensures
        s2.level() == s0.level(),
        forall|p: PackageId| (#[trigger] s2.assignment(p) is Some) == (s0.assignment(p) is Some),
        forall|p: PackageId| #[trigger] s0.assignment(p) is Some ==> {
            let a = s0.assignment(p)->0;
            let b = s2.assignment(p)->0;
            &&& b.dated_derivations@ == a.dated_derivations@
            &&& b.highest_decision_level == a.highest_decision_level
            &&& b.assignments_intersection.term == a.assignments_intersection.term
            &&& b.assignments_intersection.is_decision == a.assignments_intersection.is_decision
        },
{
    let level = s0.level();
    assert forall|p: PackageId| (#[trigger] s2.assignment(p) is Some) == (s0.assignment(p) is Some) by {
        if s0.assignment(p) is Some {
            let i = s0.slot(p)->0;
            assert(pa_wf(s0.pas()[i], level, s0.next_index()));
            assert(s1.assignment(p) is Some);
        }
    }
    assert forall|p: PackageId| #[trigger] s0.assignment(p) is Some implies {
        let a = s0.assignment(p)->0;
        let b = s2.assignment(p)->0;
        &&& b.dated_derivations@ == a.dated_derivations@
        &&& b.highest_decision_level == a.highest_decision_level
        &&& b.assignments_intersection.term == a.assignments_intersection.term
        &&& b.assignments_intersection.is_decision == a.assignments_intersection.is_decision
    } by {
        let a = s0.assignment(p)->0;
        let i = s0.slot(p)->0;
        assert(pa_wf(s0.pas()[i], level, s0.next_index()));
        let dd = a.dated_derivations@;
        let m = s1.assignment(p)->0;
        let b = s2.assignment(p)->0;
        assert(rewound(m, b, level));
        if p == package_id {
            let kept = b.dated_derivations@;
            assert(m.dated_derivations@ == dd);
            if kept.len() < dd.len() {
                assert(dd[kept.len() as int].decision_level.0 <= level);
            }
            assert(kept =~= dd);
        }
    }
}

/// A derivation only narrows the term of a package it already had, to outcomes that the
/// incompatibility's term does not allow.
pub proof fn law_derivation_narrows<Pr: Ranked>(
    s0: PartialSolution<Pr>,
    s1: PartialSolution<Pr>,
    package_id: PackageId,
    cause: IncompatId,
    incompat_term: Term,
)
    requires
        derived(s0, s1, package_id, cause, incompat_term),
    ensures
        s1.assignment(package_id)->0.assignments_intersection.term@.disjoint(incompat_term@),
        s0.assignment(package_id) is Some ==> s1.assignment(package_id)->0.assignments_intersection.term@.subset_of(
            s0.assignment(package_id)->0.assignments_intersection.term@,
        ),
{
}

/// A contradiction recorded at the current level holds until a backtrack goes below that level.
pub proof fn law_contradiction_holds_until_backtrack_below<Pr: Ranked>(
    s0: PartialSolution<Pr>,
    s1: PartialSolution<Pr>,
    cache: ContradictionCache,
    level: DecisionLevel,
)
    requires
        cache.decision_level == DecisionLevel(s0.level()),
        cache.backtrack_generation == s0.last_valid().len(),
        backtracked(s0, s1, level),
    ensures
        contradiction_holds(cache, s0.last_valid()),
        contradiction_holds(cache, s1.last_valid()) == (s0.level() <= level.0),
{
}


/// Whether the package has assignments in the partial solution whose intersection lies inside
/// the term: every outcome still allowed for the package makes the term true.
pub open spec fn known_satisfies<Pr: Ranked>(ps: PartialSolution<Pr>, p: PackageId, t: Term) -> bool {
    ps.assignment(p) is Some && ps.assignment(p)->0.assignments_intersection.term@.subset_of(t@)
}

/// Whether the package has assignments in the partial solution whose intersection is disjoint
/// from the term: no outcome still allowed for the package makes the term true.
pub open spec fn known_contradicts<Pr: Ranked>(ps: PartialSolution<Pr>, p: PackageId, t: Term) -> bool {
    ps.assignment(p) is Some && ps.assignment(p)->0.assignments_intersection.term@.disjoint(t@)
}

/// Whether every term among the first `n` of the incompatibility, but the one at `skip`, is
/// satisfied by the partial solution.
pub open spec fn others_satisfied<Pr: Ranked>(ps: PartialSolution<Pr>, incompat: Seq<(PackageId, Term)>, n: int, skip: int) -> bool {
    forall|j: int| 0 <= j < n && j != skip ==> known_satisfies(ps, (#[trigger] incompat[j]).0, incompat[j].1)
}

/// What the relation of the partial solution to the first `n` terms of the incompatibility
/// says of those terms.
proof fn lemma_relation_upto_meaning<Pr: Ranked>(ps: PartialSolution<Pr>, incompat: Seq<(PackageId, Term)>, n: int)
    requires
        0 <= n <= incompat.len(),
    ensures
        (ps.relation_upto(incompat, n) is Satisfied) == others_satisfied(ps, incompat, n, -1),
        ps.relation_upto(incompat, n) matches IncompatRelation::AlmostSatisfied(p) ==> exists|k: int|
            0 <= k < n && (#[trigger] incompat[k]).0 == p && !known_satisfies(ps, incompat[k].0, incompat[k].1)
                && !known_contradicts(ps, incompat[k].0, incompat[k].1) && others_satisfied(ps, incompat, n, k),
        ps.relation_upto(incompat, n) matches IncompatRelation::Contradicted(p) ==> exists|k: int|
            0 <= k < n && (#[trigger] incompat[k]).0 == p && !known_satisfies(ps, incompat[k].0, incompat[k].1)
                && known_contradicts(ps, incompat[k].0, incompat[k].1),
        forall|k: int|
            0 <= k < n && !known_satisfies(ps, (#[trigger] incompat[k]).0, incompat[k].1) && !known_contradicts(
                ps,
                incompat[k].0,
                incompat[k].1,
            ) && others_satisfied(ps, incompat, n, k) ==> ps.relation_upto(incompat, n) == IncompatRelation::AlmostSatisfied(
                incompat[k].0,
            ),
    decreases n,
{
    if n > 0 {
        lemma_relation_upto_meaning(ps, incompat, n - 1);
        let prev = ps.relation_upto(incompat, n - 1);
        let r = ps.relation_upto(incompat, n);
        let (p, t) = incompat[n - 1];
        let sat = known_satisfies(ps, p, t);
        let contra = known_contradicts(ps, p, t);
        assert(term_status(t, ps.known_term(p)) == if sat {
            TermRelation::Satisfied
        } else if contra {
            TermRelation::Contradicted
        } else {
            TermRelation::Inconclusive
        });
        // Satisfied.
        if others_satisfied(ps, incompat, n, -1) {
            assert(others_satisfied(ps, incompat, n - 1, -1));
            assert(known_satisfies(ps, incompat[n - 1].0, incompat[n - 1].1));
        }
        if r is Satisfied {
            assert(prev is Satisfied && sat);
            assert forall|j: int| 0 <= j < n && j != -1 implies known_satisfies(ps, (#[trigger] incompat[j]).0, incompat[j].1) by {
            }
        }
        // Almost satisfied.
        if r is AlmostSatisfied {
            if prev is Satisfied {
                assert(!sat && !contra);
                assert(r == IncompatRelation::AlmostSatisfied(p));
                assert(others_satisfied(ps, incompat, n, n - 1));
                assert(incompat[n - 1].0 == p);
            } else {
                assert(prev is AlmostSatisfied && sat && r == prev);
                let k = choose|k: int|
                    0 <= k < n - 1 && (#[trigger] incompat[k]).0 == prev->AlmostSatisfied_0 && !known_satisfies(ps, incompat[k].0, incompat[k].1)
                        && !known_contradicts(ps, incompat[k].0, incompat[k].1) && others_satisfied(ps, incompat, n - 1, k);
                assert(others_satisfied(ps, incompat, n, k));
                assert(incompat[k].0 == r->AlmostSatisfied_0);
            }
        }
        // Contradicted.
        if r is Contradicted {
            if prev is Contradicted {
                let k = choose|k: int|
                    0 <= k < n - 1 && (#[trigger] incompat[k]).0 == prev->Contradicted_0 && !known_satisfies(ps, incompat[k].0, incompat[k].1)
                        && known_contradicts(ps, incompat[k].0, incompat[k].1);
                assert(incompat[k].0 == r->Contradicted_0);
            } else {
                assert(!sat && contra && r == IncompatRelation::Contradicted(p));
                assert(incompat[n - 1].0 == p);
            }
        }
        // A single unsettled term.
        assert forall|k: int|
            0 <= k < n && !known_satisfies(ps, (#[trigger] incompat[k]).0, incompat[k].1) && !known_contradicts(
                ps,
                incompat[k].0,
                incompat[k].1,
            ) && others_satisfied(ps, incompat, n, k) implies r == IncompatRelation::AlmostSatisfied(incompat[k].0) by {
            if k == n - 1 {
                assert forall|j: int| 0 <= j < n - 1 && j != -1 implies known_satisfies(
                    ps,
                    (#[trigger] incompat[j]).0,
                    incompat[j].1,
                ) by {
                    assert(j != k);
                }
                assert(prev is Satisfied);
            } else {
                assert(known_satisfies(ps, incompat[n - 1].0, incompat[n - 1].1));
                assert(others_satisfied(ps, incompat, n - 1, k));
            }
        }
    }
}

/// Whether the partial solution contradicts the term: it does not satisfy it, and the
/// assignments of its package are disjoint from it.
pub open spec fn known_refutes<Pr: Ranked>(ps: PartialSolution<Pr>, entry: (PackageId, Term)) -> bool {
    !known_satisfies(ps, entry.0, entry.1) && known_contradicts(ps, entry.0, entry.1)
}

/// Whether the partial solution neither satisfies nor contradicts the term.
pub open spec fn known_unsettled<Pr: Ranked>(ps: PartialSolution<Pr>, entry: (PackageId, Term)) -> bool {
    !known_satisfies(ps, entry.0, entry.1) && !known_contradicts(ps, entry.0, entry.1)
}

/// Whether none of the first `k` terms of the incompatibility is contradicted.
pub open spec fn none_refuted_before<Pr: Ranked>(ps: PartialSolution<Pr>, incompat: Seq<(PackageId, Term)>, k: int) -> bool {
    forall|j: int| 0 <= j < k ==> !known_refutes(ps, #[trigger] incompat[j])
}

/// Whether two of the first `k` terms of the incompatibility are neither satisfied nor
/// contradicted.
pub open spec fn two_unsettled_before<Pr: Ranked>(ps: PartialSolution<Pr>, incompat: Seq<(PackageId, Term)>, k: int) -> bool {
    exists|a: int, b: int|
        0 <= a < b < k && known_unsettled(ps, #[trigger] incompat[a]) && known_unsettled(ps, #[trigger] incompat[b])
}

/// Which term decides the relation of the partial solution to the first `n` terms of the
/// incompatibility, when it is neither satisfied nor almost satisfied: the first contradicted
/// term, unless two terms neither satisfied nor contradicted come before it.
proof fn lemma_relation_upto_order<Pr: Ranked>(ps: PartialSolution<Pr>, incompat: Seq<(PackageId, Term)>, n: int)
    requires
        0 <= n <= incompat.len(),
    ensures
        ps.relation_upto(incompat, n) matches IncompatRelation::Contradicted(p) ==> exists|k: int|
            0 <= k < n && (#[trigger] incompat[k]).0 == p && known_refutes(ps, incompat[k]) && none_refuted_before(ps, incompat, k)
                && !two_unsettled_before(ps, incompat, k),
        ps.relation_upto(incompat, n) is Inconclusive ==> exists|k: int|
            0 <= k <= n && #[trigger] two_unsettled_before(ps, incompat, k) && none_refuted_before(ps, incompat, k),
        forall|k: int|
            0 <= k < n && known_refutes(ps, #[trigger] incompat[k]) && none_refuted_before(ps, incompat, k)
                && !two_unsettled_before(ps, incompat, k) ==> ps.relation_upto(incompat, n) == IncompatRelation::Contradicted(
                incompat[k].0,
            ),
        forall|k: int|
            0 <= k <= n && #[trigger] two_unsettled_before(ps, incompat, k) && none_refuted_before(ps, incompat, k)
                ==> ps.relation_upto(incompat, n) is Inconclusive,
    decreases n,
{
    if n > 0 {
        lemma_relation_upto_order(ps, incompat, n - 1);
        lemma_relation_upto_meaning(ps, incompat, n - 1);
        let prev = ps.relation_upto(incompat, n - 1);
        let r = ps.relation_upto(incompat, n);
        let e = incompat[n - 1];
        let (p, t) = e;
        assert(term_status(t, ps.known_term(p)) == if known_satisfies(ps, p, t) {
            TermRelation::Satisfied
        } else if known_contradicts(ps, p, t) {
            TermRelation::Contradicted
        } else {
            TermRelation::Inconclusive
        });
        // When the prefix is satisfied or almost satisfied, nothing in it is contradicted and at
        // most one term is unsettled, the one of the almost satisfied package.
        if prev is Satisfied || prev is AlmostSatisfied {
            assert(none_refuted_before(ps, incompat, n - 1)) by {
                if prev is AlmostSatisfied {
                    let k0 = choose|k: int|
                        0 <= k < n - 1 && (#[trigger] incompat[k]).0 == prev->AlmostSatisfied_0 && !known_satisfies(
                            ps,
                            incompat[k].0,
                            incompat[k].1,
                        ) && !known_contradicts(ps, incompat[k].0, incompat[k].1) && others_satisfied(ps, incompat, n - 1, k);
                    assert forall|j: int| 0 <= j < n - 1 implies !known_refutes(ps, #[trigger] incompat[j]) by {
                        if j != k0 {
                            assert(known_satisfies(ps, incompat[j].0, incompat[j].1));
                        }
                    }
                } else {
                    assert forall|j: int| 0 <= j < n - 1 implies !known_refutes(ps, #[trigger] incompat[j]) by {
                        assert(known_satisfies(ps, incompat[j].0, incompat[j].1));
                    }
                }
            }
            assert(!two_unsettled_before(ps, incompat, n - 1)) by {
                if two_unsettled_before(ps, incompat, n - 1) {
                    let (a, b) = choose|a: int, b: int|
                        0 <= a < b < n - 1 && known_unsettled(ps, #[trigger] incompat[a]) && known_unsettled(
                            ps,
                            #[trigger] incompat[b],
                        );
                    if prev is AlmostSatisfied {
                        let k0 = choose|k: int|
                            0 <= k < n - 1 && (#[trigger] incompat[k]).0 == prev->AlmostSatisfied_0 && !known_satisfies(
                                ps,
                                incompat[k].0,
                                incompat[k].1,
                            ) && !known_contradicts(ps, incompat[k].0, incompat[k].1) && others_satisfied(
                                ps,
                                incompat,
                                n - 1,
                                k,
                            );
                        if a != k0 {
                            assert(known_satisfies(ps, incompat[a].0, incompat[a].1));
                        } else {
                            assert(known_satisfies(ps, incompat[b].0, incompat[b].1));
                        }
                    } else {
                        assert(known_satisfies(ps, incompat[a].0, incompat[a].1));
                    }
                }
            }
        }
        // A prefix with no contradicted term is not contradicted.
        if none_refuted_before(ps, incompat, n - 1) && prev is Contradicted {
            let k = choose|k: int|
                0 <= k < n - 1 && (#[trigger] incompat[k]).0 == prev->Contradicted_0 && !known_satisfies(
                    ps,
                    incompat[k].0,
                    incompat[k].1,
                ) && known_contradicts(ps, incompat[k].0, incompat[k].1);
            assert(!known_refutes(ps, incompat[k]));
        }
        // Two unsettled terms before some point stay two unsettled terms before a later one.
        assert forall|m: int| 0 <= m <= n - 1 && #[trigger] two_unsettled_before(ps, incompat, m) implies two_unsettled_before(
            ps,
            incompat,
            n - 1,
        ) by {
            let (a, b) = choose|a: int, b: int|
                0 <= a < b < m && known_unsettled(ps, #[trigger] incompat[a]) && known_unsettled(ps, #[trigger] incompat[b]);
            assert(known_unsettled(ps, incompat[a]) && known_unsettled(ps, incompat[b]));
        }
        if prev is Inconclusive {
            let m = choose|k: int|
                0 <= k <= n - 1 && #[trigger] two_unsettled_before(ps, incompat, k) && none_refuted_before(ps, incompat, k);
            assert(two_unsettled_before(ps, incompat, m));
        }
        // Contradicted.
        if r is Contradicted && !(prev is Contradicted) {
            assert(incompat[n - 1].0 == r->Contradicted_0);
            assert(known_refutes(ps, incompat[n - 1]));
        }
        // Inconclusive.
        if r is Inconclusive && !(prev is Inconclusive) {
            assert(prev is AlmostSatisfied);
            let k0 = choose|k: int|
                0 <= k < n - 1 && (#[trigger] incompat[k]).0 == prev->AlmostSatisfied_0 && !known_satisfies(
                    ps,
                    incompat[k].0,
                    incompat[k].1,
                ) && !known_contradicts(ps, incompat[k].0, incompat[k].1) && others_satisfied(ps, incompat, n - 1, k);
            assert(known_unsettled(ps, incompat[k0]) && known_unsettled(ps, incompat[n - 1]));
            assert(two_unsettled_before(ps, incompat, n));
            assert forall|j: int| 0 <= j < n implies !known_refutes(ps, #[trigger] incompat[j]) by {
                if j < n - 1 {
                    assert(none_refuted_before(ps, incompat, n - 1));
                }
            }
        }
        // The first contradicted term decides.
        assert forall|k: int|
            0 <= k < n && known_refutes(ps, #[trigger] incompat[k]) && none_refuted_before(ps, incompat, k)
                && !two_unsettled_before(ps, incompat, k) implies r == IncompatRelation::Contradicted(incompat[k].0) by {
            if k == n - 1 {
                if prev is Inconclusive {
                    let m = choose|m: int|
                        0 <= m <= n - 1 && #[trigger] two_unsettled_before(ps, incompat, m) && none_refuted_before(ps, incompat, m);
                    assert(two_unsettled_before(ps, incompat, m));
                }
            }
        }
        // Two unsettled terms before any contradicted one make it inconclusive.
        assert forall|k: int|
            0 <= k <= n && #[trigger] two_unsettled_before(ps, incompat, k) && none_refuted_before(ps, incompat, k)
                implies r is Inconclusive by {
            if k == n {
                let (a, b) = choose|a: int, b: int|
                    0 <= a < b < n && known_unsettled(ps, #[trigger] incompat[a]) && known_unsettled(ps, #[trigger] incompat[b]);
                assert(none_refuted_before(ps, incompat, n - 1));
                if b < n - 1 {
                    assert(known_unsettled(ps, incompat[a]) && known_unsettled(ps, incompat[b]));
                    assert(two_unsettled_before(ps, incompat, n - 1));
                } else if prev is Satisfied {
                    assert(known_satisfies(ps, incompat[a].0, incompat[a].1));
                }
            } else {
                assert(two_unsettled_before(ps, incompat, k));
            }
        }
    }
}

/// The relation of the partial solution to an incompatibility, term by term: it is `Satisfied`
/// exactly when the assignments of every package lie inside its term (so a package without
/// assignments never lets it be satisfied); it is `AlmostSatisfied(p)` only for the package of
/// a term that is neither satisfied nor contradicted while all others are satisfied, and always
/// so where there is exactly one such term, in particular one whose package has no assignments.
/// Otherwise the first contradicted term decides: the relation is `Contradicted(p)` for its
/// package, unless two terms neither satisfied nor contradicted come before it, or there is no
/// contradicted term at all and two such terms, in which case it is `Inconclusive`.
pub proof fn law_partial_solution_relation<Pr: Ranked>(ps: PartialSolution<Pr>, incompat: Seq<(PackageId, Term)>)
    ensures
        (ps.relation_upto(incompat, incompat.len() as int) is Satisfied) == forall|k: int|
            0 <= k < incompat.len() ==> known_satisfies(ps, (#[trigger] incompat[k]).0, incompat[k].1),
        ps.relation_upto(incompat, incompat.len() as int) matches IncompatRelation::AlmostSatisfied(p) ==> exists|k: int|
            0 <= k < incompat.len() && (#[trigger] incompat[k]).0 == p && !known_satisfies(ps, incompat[k].0, incompat[k].1)
                && !known_contradicts(ps, incompat[k].0, incompat[k].1) && others_satisfied(
                ps,
                incompat,
                incompat.len() as int,
                k,
            ),
        forall|k: int|
            0 <= k < incompat.len() && !known_satisfies(ps, (#[trigger] incompat[k]).0, incompat[k].1) && !known_contradicts(
                ps,
                incompat[k].0,
                incompat[k].1,
            ) && others_satisfied(ps, incompat, incompat.len() as int, k) ==> ps.relation_upto(incompat, incompat.len() as int)
                == IncompatRelation::AlmostSatisfied(incompat[k].0),
        forall|k: int|
            0 <= k < incompat.len() && ps.assignment((#[trigger] incompat[k]).0) is None && others_satisfied(
                ps,
                incompat,
                incompat.len() as int,
                k,
            ) ==> ps.relation_upto(incompat, incompat.len() as int) == IncompatRelation::AlmostSatisfied(incompat[k].0),
        ps.relation_upto(incompat, incompat.len() as int) matches IncompatRelation::Contradicted(p) ==> exists|k: int|
            0 <= k < incompat.len() && (#[trigger] incompat[k]).0 == p && known_refutes(ps, incompat[k]) && none_refuted_before(
                ps,
                incompat,
                k,
            ) && !two_unsettled_before(ps, incompat, k),
        forall|k: int|
            0 <= k < incompat.len() && known_refutes(ps, #[trigger] incompat[k]) && none_refuted_before(ps, incompat, k)
                && !two_unsettled_before(ps, incompat, k) ==> ps.relation_upto(incompat, incompat.len() as int)
                == IncompatRelation::Contradicted(incompat[k].0),
        (ps.relation_upto(incompat, incompat.len() as int) is Inconclusive) == exists|k: int|
            0 <= k <= incompat.len() && #[trigger] two_unsettled_before(ps, incompat, k) && none_refuted_before(ps, incompat, k),
{
    lemma_relation_upto_meaning(ps, incompat, incompat.len() as int);
    lemma_relation_upto_order(ps, incompat, incompat.len() as int);
    assert forall|k: int|
        0 <= k < incompat.len() ==> known_satisfies(ps, (#[trigger] incompat[k]).0, incompat[k].1) <== others_satisfied(
            ps,
            incompat,
            incompat.len() as int,
            -1,
        ) by {
    }
}


/// An incompatibility that holds a term for a package other than the one decided, where that
/// package has no assignments in the partial solution, is never satisfied with the decision:
/// nothing is known of that package, so its term is not known to hold.
pub proof fn law_unknown_package_not_satisfied_with<Pr: Ranked>(
    ps: PartialSolution<Pr>,
    incompat: Seq<(PackageId, Term)>,
    package_id: PackageId,
    version_index: VersionIndex,
    j: int,
)
    requires
        0 <= j < incompat.len(),
        incompat[j].0 != package_id,
        ps.assignment(incompat[j].0) is None,
    ensures
        !satisfied_with(ps, incompat, package_id, version_index),
{
    assert(!known_satisfies(ps, incompat[j].0, incompat[j].1));
}

/// An incompatibility is satisfied with the decision of a version for a package exactly when
/// the version lies in the term of that package, where the incompatibility has one, and the
/// assignments of every other package of the incompatibility lie inside its term.
pub proof fn law_satisfied_with_decision<Pr: Ranked>(
    ps: PartialSolution<Pr>,
    incompat: Seq<(PackageId, Term)>,
    package_id: PackageId,
    version_index: VersionIndex,
)
    ensures
        satisfied_with(ps, incompat, package_id, version_index) == forall|k: int|
            0 <= k < incompat.len() ==> if (#[trigger] incompat[k]).0 == package_id {
                incompat[k].1@.contains(version_index@ as int)
            } else {
                known_satisfies(ps, incompat[k].0, incompat[k].1)
            },
{
    assert forall|k: int| 0 <= k < incompat.len() && (#[trigger] incompat[k]).0 == package_id implies set![
        version_index@ as int,
    ].subset_of(incompat[k].1@) == incompat[k].1@.contains(version_index@ as int) by {
        if incompat[k].1@.contains(version_index@ as int) {
            assert forall|x: int| set![version_index@ as int].contains(x) implies incompat[k].1@.contains(x) by {
            }
        }
    }
}


/// Whether the package has a decision in the partial solution.
pub open spec fn has_decision<Pr: Ranked>(ps: PartialSolution<Pr>, p: PackageId) -> bool {
    ps.assignment(p) is Some && ps.assignment(p)->0.assignments_intersection.is_decision
}

/// What the solution extracted from the first `n` packages of the store holds: the returned
/// identifiers, increasing, are those of the packages among the first `n` that have a decision,
/// each one; the pair at each position is the package that the store holds at that
/// identifier, with the version decided for it, and the assignments of that package are its
/// own.
pub proof fn law_extracted_solution<Pr: Ranked, P>(ps: PartialSolution<Pr>, store: Seq<P>, n: int) -> (ids: Seq<int>)
    requires
        0 <= n <= store.len(),
        n <= 0x1_0000_0000,
    ensures
        ids.len() == ps.decided_in(store, n).len(),
        forall|i: int| 0 <= i < ids.len() ==> 0 <= #[trigger] ids[i] < n,
        forall|a: int, b: int| 0 <= a < b < ids.len() ==> ids[a] < ids[b],
        forall|i: int| 0 <= i < ids.len() ==> {
            let p = PackageId(ids[i] as u32);
            &&& has_decision(ps, p)
            &&& #[trigger] ps.decided_in(store, n)[i] == (
                store[ids[i]],
                ps.assignment(p)->0.assignments_intersection.decision_version_index,
            )
            &&& ps.wf() ==> ps.assignment(p)->0.package_id == p
        },
        forall|id: int| 0 <= id < n && #[trigger] has_decision(ps, PackageId(id as u32)) ==> ids.contains(id),
    decreases n,
{
    if n <= 0 {
        Seq::empty()
    } else {
        let before = law_extracted_solution(ps, store, n - 1);
        let p = PackageId((n - 1) as u32);
        let r = ps.decided_in(store, n);
        let prev = ps.decided_in(store, n - 1);
        let ids = if has_decision(ps, p) {
            before.push(n - 1)
        } else {
            before
        };
        assert(r == if has_decision(ps, p) {
            prev.push((store[n - 1], ps.assignment(p)->0.assignments_intersection.decision_version_index))
        } else {
            prev
        });
        assert forall|i: int| 0 <= i < ids.len() implies {
            let q = PackageId(ids[i] as u32);
            &&& has_decision(ps, q)
            &&& #[trigger] r[i] == (store[ids[i]], ps.assignment(q)->0.assignments_intersection.decision_version_index)
            &&& ps.wf() ==> ps.assignment(q)->0.package_id == q
        } by {
            if i < before.len() {
                assert(r[i] == prev[i]);
                assert(ids[i] == before[i]);
            } else {
                assert(ids[i] == n - 1);
                assert(PackageId(ids[i] as u32) == p);
            }
            let q = PackageId(ids[i] as u32);
            if ps.wf() {
                assert(ps.slots_wf());
                assert(ps.covers(q));
            }
        }
        assert forall|i: int| 0 <= i < ids.len() implies has_decision(ps, PackageId(ids[i] as u32)) by {
            assert(r[i] == r[i]);
        }
        assert forall|id: int| 0 <= id < n && #[trigger] has_decision(ps, PackageId(id as u32)) implies ids.contains(id) by {
            if id < n - 1 {
                assert(before.contains(id));
                let i = choose|i: int| 0 <= i < before.len() && before[i] == id;
                assert(ids[i] == id);
            } else {
                assert(PackageId(id as u32) == p);
                assert(ids[ids.len() - 1] == id);
            }
        }
        ids
    }
}

} // verus!
