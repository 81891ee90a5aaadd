//! An incompatibility is a set of terms for different packages
//! that should never be satisfied all together.

use vstd::prelude::*;
use vstd::std_specs::cmp::PartialEqSpec;

use crate::arena::{Arena, HashArena, Id};
use crate::report::{causes_before, DerivationTree, DerivationTreeId, DerivationTreeNode, Derived, External};
use crate::version_trait::Ranked;
use crate::partial_solution::DecisionLevel;
use crate::term::{self, Term};
use crate::version_set::VersionSet;

verus! {

/// When an incompatibility was found contradicted.
#[derive(Debug, Clone, Copy)]
pub struct ContradictionCache {
    /// The decision level where this incompatibility became contradicted.
    pub decision_level: DecisionLevel,
    /// The backtrack generation for that decision level.
    pub backtrack_generation: u32,
}

impl ContradictionCache {
    /// An incompatibility not known to be contradicted.
    pub fn not_contradicted() -> (r: Self)
        ensures
            r.decision_level.0 == u32::MAX,
            r.backtrack_generation == 0,
    {
        Self { decision_level: DecisionLevel::max(), backtrack_generation: 0 }
    }

    /// Whether the recorded contradiction still holds: the active generation has no backtrack
    /// target yet, so every contradiction recorded in it remains valid; completed generations
    /// store the highest decision level that survived their first invalidating backtrack.
    pub fn is_contradicted(&self, last_valid_decision_levels: &[DecisionLevel]) -> (r: bool)
        ensures
            r == (self.backtrack_generation < last_valid_decision_levels@.len() ==> self.decision_level.0
                <= last_valid_decision_levels@[self.backtrack_generation as int].0),
    {
        let g = self.backtrack_generation as usize;
        if g < last_valid_decision_levels.len() {
            self.decision_level.0 <= last_valid_decision_levels[g].0
        } else {
            true
        }
    }
}

/// The reason for the incompatibility.
#[derive(Debug, Clone)]
pub enum Kind<P, VS: VersionSet, M> {
    /// Initial incompatibility aiming at picking the root package for the first decision.
    ///
    /// This incompatibility drives the resolution, it requires that we pick the (virtual) root
    /// packages.
    NotRoot(Id<P>, VS::V),
    /// There are no versions in the given range for this package.
    ///
    /// This incompatibility is used when we tried all versions in a range and no version
    /// worked, so we have to backtrack
    NoVersions(Id<P>, VS),
    /// Incompatibility coming from the dependencies of a given package.
    ///
    /// If a@1 depends on b>=1,<2, we create an incompatibility with terms `{a 1, b <1,>=2}` with
    /// kind `FromDependencyOf(a, b)`. The version sets are stored in the incompatibility terms.
    ///
    /// We can merge multiple dependents with the same version. For example, if a@1 depends on b and
    /// a@2 depends on b, we can say instead a@1||2 depends on b.
    FromDependencyOf(Id<P>, Id<P>),
    /// Derived from two causes. Stores cause ids.
    ///
    /// For example, if a -> b and b -> c, we can derive a -> c.
    DerivedFrom(Id<Incompatibility<P, VS, M>>, Id<Incompatibility<P, VS, M>>),
    /// The package is unavailable for reasons outside pubgrub.
    ///
    /// Examples:
    /// * The version would require building the package, but builds are disabled.
    /// * The package is not available in the cache, but internet access has been disabled.
    Custom(Id<P>, VS, M),
}

/// An incompatibility is a set of terms for different packages
/// that should never be satisfied all together.
/// An incompatibility usually originates from a package dependency.
/// For example, if package A at version 1 depends on package B
/// at version 2, you can never have both terms `A = 1`
/// and `not B = 2` satisfied at the same time in a partial solution.
/// This would mean that we found a solution with package A at version 1
/// but not with package B at version 2.
/// Yet A at version 1 depends on B at version 2 so this is not possible.
/// Therefore, the set `{ A = 1, not B = 2 }` is an incompatibility,
/// defined from dependencies of A at version 1.
///
/// Incompatibilities can also be derived from two other incompatibilities
/// during conflict resolution.
#[derive(Debug, Clone)]
pub struct Incompatibility<P, VS: VersionSet, M> {
    package_terms: Vec<(Id<P>, Term<VS>)>,
    /// The reason for the incompatibility.
    pub kind: Kind<P, VS, M>,
    contradiction_cache: ContradictionCache,
}

/// Type alias of unique identifiers for incompatibilities.
pub type IncompId<P, VS, M> = Id<Incompatibility<P, VS, M>>;

/// A Relation describes how a set of terms can be compared to an incompatibility.
/// Typically, the set of terms comes from the partial solution.
#[derive(Debug)]
pub enum Relation<P> {
    /// We say that a set of terms S satisfies an incompatibility I
    /// if S satisfies every term in I.
    Satisfied,
    /// We say that S contradicts I
    /// if S contradicts at least one term in I.
    Contradicted(Id<P>),
    /// If S satisfies all but one of I's terms and is inconclusive for the remaining term,
    /// we say S "almost satisfies" I and we call the remaining term the "unsatisfied term".
    AlmostSatisfied(Id<P>),
    /// Otherwise, we say that their relation is inconclusive.
    Inconclusive,
}

/// The packages of the entries are all different, and their terms valid.
pub open spec fn entries_wf<P, VS: VersionSet>(entries: Seq<(Id<P>, Term<VS>)>) -> bool {
    &&& forall|i: int, j: int| 0 <= i < j < entries.len() ==> (#[trigger] entries[i]).0.index() != (
    #[trigger] entries[j]).0.index()
    &&& forall|i: int| 0 <= i < entries.len() ==> (#[trigger] entries[i]).1.valid()
}

/// Whether the entries hold a term for the package `p`.
pub open spec fn has_entry<P, VS: VersionSet>(entries: Seq<(Id<P>, Term<VS>)>, p: int) -> bool {
    exists|i: int| 0 <= i < entries.len() && (#[trigger] entries[i]).0.index() == p
}

/// The position of the entry of the package `p`.
pub open spec fn entry_index<P, VS: VersionSet>(entries: Seq<(Id<P>, Term<VS>)>, p: int) -> int {
    choose|i: int| 0 <= i < entries.len() && (#[trigger] entries[i]).0.index() == p
}

/// The term of the package `p` in the entries, if any.
pub open spec fn lookup<P, VS: VersionSet>(entries: Seq<(Id<P>, Term<VS>)>, p: int) -> Option<Term<VS>> {
    if has_entry(entries, p) {
        Some(entries[entry_index(entries, p)].1)
    } else {
        None
    }
}

/// In entries with different packages, the entry of a package is where it is.
pub proof fn lemma_lookup_at<P, VS: VersionSet>(entries: Seq<(Id<P>, Term<VS>)>, i: int)
    requires
        entries_wf(entries),
        0 <= i < entries.len(),
    ensures
        has_entry(entries, entries[i].0.index()),
        entry_index(entries, entries[i].0.index()) == i,
        lookup(entries, entries[i].0.index()) == Some(entries[i].1),
{
    let p = entries[i].0.index();
    assert(has_entry(entries, p));
    let j = entry_index(entries, p);
    if j != i {
        if i < j {
            assert(entries[i].0.index() != entries[j].0.index());
        } else {
            assert(entries[j].0.index() != entries[i].0.index());
        }
    }
}

/// Whether the term of the package `p` holds for the choice `c`; a package
/// without a term imposes nothing.
pub open spec fn term_or_any_holds<P, VS: VersionSet>(
    entries: Seq<(Id<P>, Term<VS>)>,
    p: int,
    c: Option<int>,
) -> bool {
    match lookup(entries, p) {
        Some(t) => t.holds(c),
        None => true,
    }
}

/// `r` is the prior cause of the incompatibilities with entries `i` and `s` on the package `p`:
/// for every other package, the terms of both hold together; for `p`, the term of either holds,
/// and `p` is left out where that allows everything.
pub open spec fn is_prior_cause<P, VS: VersionSet>(
    i: Seq<(Id<P>, Term<VS>)>,
    s: Seq<(Id<P>, Term<VS>)>,
    p: int,
    r: Seq<(Id<P>, Term<VS>)>,
) -> bool {
    &&& forall|q: int| q != p ==> #[trigger] has_entry(r, q) == (has_entry(i, q) || has_entry(s, q))
    &&& forall|q: int, c: Option<int>| q != p ==> #[trigger] term_or_any_holds(r, q, c) == (term_or_any_holds(i, q, c)
        && term_or_any_holds(s, q, c))
    &&& has_entry(r, p) == !(forall|c: Option<int>| #[trigger] term_or_any_holds(i, p, c) || term_or_any_holds(s, p, c))
    &&& forall|c: Option<int>| #[trigger] term_or_any_holds(r, p, c) == (term_or_any_holds(i, p, c) || term_or_any_holds(
        s,
        p,
        c,
    ))
}

/// The rule of resolution: for three different packages, the prior cause on `p2` of
/// `{p1: t1, p2: not t2}` and `{p2: t2, p3: t3}` is `{p1: t1, p3: t3}`.
pub proof fn law_rule_of_resolution<P, VS: VersionSet>(
    p1: Id<P>,
    p2: Id<P>,
    p3: Id<P>,
    t1: Term<VS>,
    not_t2: Term<VS>,
    t2: Term<VS>,
    t3: Term<VS>,
    r: Seq<(Id<P>, Term<VS>)>,
)
    requires
        p1.index() != p2.index(),
        p2.index() != p3.index(),
        p1.index() != p3.index(),
        forall|c: Option<int>| #[trigger] not_t2.holds(c) == !t2.holds(c),
        is_prior_cause(seq![(p1, t1), (p2, not_t2)], seq![(p2, t2), (p3, t3)], p2.index(), r),
    ensures
        !has_entry(r, p2.index()),
        forall|q: int| #[trigger] has_entry(r, q) == (q == p1.index() || q == p3.index()),
        forall|c: Option<int>| #[trigger] term_or_any_holds(r, p1.index(), c) == t1.holds(c),
        forall|c: Option<int>| #[trigger] term_or_any_holds(r, p3.index(), c) == t3.holds(c),
{
    let i = seq![(p1, t1), (p2, not_t2)];
    let s = seq![(p2, t2), (p3, t3)];
    let (a, b, d) = (p1.index(), p2.index(), p3.index());
    assert(i[0].0.index() == a && i[1].0.index() == b);
    assert(s[0].0.index() == b && s[1].0.index() == d);
    assert forall|q: int| #[trigger] has_entry(i, q) == (q == a || q == b) by {
        if has_entry(i, q) {
            let k = choose|k: int| 0 <= k < i.len() && (#[trigger] i[k]).0.index() == q;
            assert(k == 0 || k == 1);
        }
    }
    assert forall|q: int| #[trigger] has_entry(s, q) == (q == b || q == d) by {
        if has_entry(s, q) {
            let k = choose|k: int| 0 <= k < s.len() && (#[trigger] s[k]).0.index() == q;
            assert(k == 0 || k == 1);
        }
    }
    assert(lookup(i, a) == Some(t1)) by {
        assert(has_entry(i, a));
        assert(entry_index(i, a) == 0);
    }
    assert(lookup(i, b) == Some(not_t2)) by {
        assert(has_entry(i, b));
        assert(entry_index(i, b) == 1);
    }
    assert(lookup(s, b) == Some(t2)) by {
        assert(has_entry(s, b));
        assert(entry_index(s, b) == 0);
    }
    assert(lookup(s, d) == Some(t3)) by {
        assert(has_entry(s, d));
        assert(entry_index(s, d) == 1);
    }
    assert(!has_entry(s, a));
    assert(!has_entry(i, d));
    assert(lookup(s, a) is None);
    assert(lookup(i, d) is None);
    assert forall|c: Option<int>| #[trigger] term_or_any_holds(i, b, c) || term_or_any_holds(s, b, c) by {
        assert(not_t2.holds(c) == !t2.holds(c));
    }
    assert forall|c: Option<int>| #[trigger] term_or_any_holds(r, a, c) == t1.holds(c) by {
        assert(term_or_any_holds(r, a, c) == (term_or_any_holds(i, a, c) && term_or_any_holds(s, a, c)));
    }
    assert forall|c: Option<int>| #[trigger] term_or_any_holds(r, d, c) == t3.holds(c) by {
        assert(term_or_any_holds(r, d, c) == (term_or_any_holds(i, d, c) && term_or_any_holds(s, d, c)));
    }
    assert forall|q: int| #[trigger] has_entry(r, q) == (q == a || q == d) by {
        if q != b {
            assert(has_entry(r, q) == (has_entry(i, q) || has_entry(s, q)));
        }
    }
}

/// Adding an entry for a new package.
pub proof fn lemma_lookup_push<P, VS: VersionSet>(e: Seq<(Id<P>, Term<VS>)>, x: (Id<P>, Term<VS>))
    requires
        entries_wf(e),
        !has_entry(e, x.0.index()),
        x.1.valid(),
    ensures
        entries_wf(e.push(x)),
        forall|q: int| #[trigger] has_entry(e.push(x), q) == (has_entry(e, q) || q == x.0.index()),
        forall|q: int| #[trigger] lookup(e.push(x), q) == if q == x.0.index() { Some(x.1) } else { lookup(e, q) },
{
    let f = e.push(x);
    assert forall|i: int, j: int| 0 <= i < j < f.len() implies (#[trigger] f[i]).0.index() != (#[trigger] f[j]).0.index() by {
        if j == e.len() {
            assert(f[i] == e[i]);
            if e[i].0.index() == x.0.index() {
                assert(has_entry(e, x.0.index()));
            }
        } else {
            assert(f[i] == e[i] && f[j] == e[j]);
        }
    }
    assert forall|i: int| 0 <= i < f.len() implies (#[trigger] f[i]).1.valid() by {
        if i < e.len() {
            assert(f[i] == e[i]);
        }
    }
    assert forall|q: int| #[trigger] has_entry(f, q) == (has_entry(e, q) || q == x.0.index()) by {
        if has_entry(e, q) {
            let i = entry_index(e, q);
            assert(f[i] == e[i]);
        }
        if q == x.0.index() {
            assert(f[e.len() as int] == x);
        }
        if has_entry(f, q) {
            let i = entry_index(f, q);
            if i < e.len() {
                assert(f[i] == e[i]);
            }
        }
    }
    assert forall|q: int| #[trigger] lookup(f, q) == if q == x.0.index() { Some(x.1) } else { lookup(e, q) } by {
        if has_entry(f, q) {
            let i = entry_index(f, q);
            lemma_lookup_at(f, i);
            if i < e.len() {
                assert(f[i] == e[i]);
                lemma_lookup_at(e, i);
            }
        }
    }
}

/// Replacing the term of an entry.
pub proof fn lemma_lookup_update<P, VS: VersionSet>(e: Seq<(Id<P>, Term<VS>)>, j: int, t: Term<VS>)
    requires
        entries_wf(e),
        0 <= j < e.len(),
        t.valid(),
    ensures
        entries_wf(e.update(j, (e[j].0, t))),
        forall|q: int| #[trigger] has_entry(e.update(j, (e[j].0, t)), q) == has_entry(e, q),
        forall|q: int| #[trigger] lookup(e.update(j, (e[j].0, t)), q) == if q == e[j].0.index() { Some(t) } else { lookup(e, q) },
{
    let f = e.update(j, (e[j].0, t));
    assert forall|a: int, b: int| 0 <= a < b < f.len() implies (#[trigger] f[a]).0.index() != (#[trigger] f[b]).0.index() by {
        assert(f[a].0 == e[a].0 && f[b].0 == e[b].0);
    }
    assert forall|i: int| 0 <= i < f.len() implies (#[trigger] f[i]).1.valid() by {
        if i != j {
            assert(f[i] == e[i]);
        }
    }
    assert forall|q: int| #[trigger] has_entry(f, q) == has_entry(e, q) by {
        if has_entry(e, q) {
            let i = entry_index(e, q);
            assert(f[i].0 == e[i].0);
        }
        if has_entry(f, q) {
            let i = entry_index(f, q);
            assert(f[i].0 == e[i].0);
        }
    }
    assert forall|q: int| #[trigger] lookup(f, q) == if q == e[j].0.index() { Some(t) } else { lookup(e, q) } by {
        if has_entry(f, q) {
            let i = entry_index(f, q);
            lemma_lookup_at(f, i);
            assert(f[i].0 == e[i].0);
            lemma_lookup_at(e, i);
            if i != j {
                assert(f[i] == e[i]);
                if q == e[j].0.index() {
                    assert(e[i].0.index() == e[j].0.index());
                }
            }
        }
    }
}

/// Looking up in the first `k + 1` entries.
pub proof fn lemma_lookup_prefix<P, VS: VersionSet>(e: Seq<(Id<P>, Term<VS>)>, k: int)
    requires
        entries_wf(e),
        0 <= k < e.len(),
    ensures
        e.subrange(0, k + 1) == e.subrange(0, k).push(e[k]),
        entries_wf(e.subrange(0, k)),
        !has_entry(e.subrange(0, k), e[k].0.index()),
{
    assert(e.subrange(0, k + 1) =~= e.subrange(0, k).push(e[k]));
    let g = e.subrange(0, k);
    assert forall|a: int, b: int| 0 <= a < b < g.len() implies (#[trigger] g[a]).0.index() != (#[trigger] g[b]).0.index() by {
        assert(g[a] == e[a] && g[b] == e[b]);
    }
    assert forall|i: int| 0 <= i < g.len() implies (#[trigger] g[i]).1.valid() by {
        assert(g[i] == e[i]);
    }
    if has_entry(g, e[k].0.index()) {
        let i = entry_index(g, e[k].0.index());
        assert(g[i] == e[i]);
        assert(e[i].0.index() != e[k].0.index());
    }
}

/// Where the term of a package is in a list of terms, if any.
fn find_in<P, VS: VersionSet>(terms: &[(Id<P>, Term<VS>)], package: Id<P>) -> (r: Option<usize>)
    requires
        entries_wf(terms@),
    ensures
        r is Some == has_entry(terms@, package.index()),
        r matches Some(j) ==> j < terms@.len() && terms@[j as int].0.index() == package.index()
            && entry_index(terms@, package.index()) == j,
{
    let mut i: usize = 0;
    while i < terms.len()
        invariant
            0 <= i <= terms@.len(),
            entries_wf(terms@),
            forall|k: int| 0 <= k < i ==> (#[trigger] terms@[k]).0.index() != package.index(),
        decreases terms@.len() - i,
    {
        if terms[i].0 == package {
            proof {
                lemma_lookup_at(terms@, i as int);
            }
            return Some(i);
        }
        i = i + 1;
    }
    None
}


/// How a set of terms S relates to a term t of an incompatibility, S being
/// the term given for its package, if any (a package without term is inconclusive).
pub open spec fn term_relation<VS: VersionSet>(t: Term<VS>, s: Option<Term<VS>>) -> term::Relation {
    match s {
        None => term::Relation::Inconclusive,
        Some(s) => if s.included_in(t) {
            term::Relation::Satisfied
        } else if s.excludes(t) {
            term::Relation::Contradicted
        } else {
            term::Relation::Inconclusive
        },
    }
}

/// The relation of the terms to the entries from position `k` on, `almost`
/// being the package of the one term found inconclusive before, if any.
pub open spec fn relation_from<P, VS: VersionSet>(
    entries: Seq<(Id<P>, Term<VS>)>,
    terms: Seq<(Id<P>, Term<VS>)>,
    k: int,
    almost: Option<Id<P>>,
) -> Relation<P>
    decreases entries.len() - k,
{
    if k < 0 || k >= entries.len() {
        match almost {
            None => Relation::Satisfied,
            Some(p) => Relation::AlmostSatisfied(p),
        }
    } else {
        match term_relation(entries[k].1, lookup(terms, entries[k].0.index())) {
            term::Relation::Satisfied => relation_from(entries, terms, k + 1, almost),
            term::Relation::Contradicted => Relation::Contradicted(entries[k].0),
            term::Relation::Inconclusive => match almost {
                None => relation_from(entries, terms, k + 1, Some(entries[k].0)),
                Some(_) => Relation::Inconclusive,
            },
        }
    }
}

impl<P, VS: VersionSet, M> Incompatibility<P, VS, M> {
    /// The terms of the incompatibility, with their packages, in order.
    pub closed spec fn entries(self) -> Seq<(Id<P>, Term<VS>)> {
        self.package_terms@
    }

    /// The reason for the incompatibility.
    pub closed spec fn kind_spec(self) -> Kind<P, VS, M> {
        self.kind
    }

    /// The contradiction cache.
    pub closed spec fn cache(self) -> ContradictionCache {
        self.contradiction_cache
    }

    /// The packages of the terms are all different, and the terms valid.
    pub open spec fn wf(self) -> bool {
        entries_wf(self.entries())
    }

    /// Create the initial "not Root" incompatibility.
    pub fn not_root(package: Id<P>, version: VS::V) -> (r: Self)
        ensures
            r.wf(),
            r.entries().len() == 1,
            r.entries()[0].0 == package,
            r.entries()[0].1 is Negative,
            forall|c: Option<int>| #[trigger] r.entries()[0].1.holds(c) == (c != Some(crate::range::point(version))),
            r.kind_spec() == Kind::<P, VS, M>::NotRoot(package, version),
            r.cache().decision_level.0 == u32::MAX,
            r.cache().backtrack_generation == 0,
    {
        Self {
            package_terms: vec![(package, Term::Negative(VS::singleton(version)))],
            kind: Kind::NotRoot(package, version),
            contradiction_cache: ContradictionCache::not_contradicted(),
        }
    }

    /// Create an incompatibility to remember that a given set does not contain any version.
    ///
    /// The term must be positive.
    pub fn no_versions(package: Id<P>, term: Term<VS>) -> (r: Self)
        requires
            term is Positive,
            term.valid(),
        ensures
            r.wf(),
            r.entries() == seq![(package, term)],
            r.kind_spec() matches Kind::NoVersions(p, s) && p == package && vstd::pervasive::cloned(term.set(), s),
            r.cache().decision_level.0 == u32::MAX,
            r.cache().backtrack_generation == 0,
    {
        let set = match &term {
            Term::Positive(r) => r.clone(),
            Term::Negative(r) => r.clone(),
        };
        Self {
            package_terms: vec![(package, term)],
            kind: Kind::NoVersions(package, set),
            contradiction_cache: ContradictionCache::not_contradicted(),
        }
    }

    /// Create an incompatibility for a reason outside pubgrub.
    ///
    /// The term must be positive.
    pub fn custom_term(package: Id<P>, term: Term<VS>, metadata: M) -> (r: Self)
        requires
            term is Positive,
            term.valid(),
        ensures
            r.wf(),
            r.entries() == seq![(package, term)],
            r.kind_spec() matches Kind::Custom(p, s, m) && p == package && m == metadata
                && vstd::pervasive::cloned(term.set(), s),
            r.cache().decision_level.0 == u32::MAX,
            r.cache().backtrack_generation == 0,
    {
        let set = match &term {
            Term::Positive(r) => r.clone(),
            Term::Negative(r) => r.clone(),
        };
        Self {
            package_terms: vec![(package, term)],
            kind: Kind::Custom(package, set, metadata),
            contradiction_cache: ContradictionCache::not_contradicted(),
        }
    }

    /// Create an incompatibility for a reason outside pubgrub.
    pub fn custom_version(package: Id<P>, version: VS::V, metadata: M) -> (r: Self)
        ensures
            r.wf(),
            r.entries().len() == 1,
            r.entries()[0].0 == package,
            r.entries()[0].1 is Positive,
            forall|c: Option<int>| #[trigger] r.entries()[0].1.holds(c) == (c == Some(crate::range::point(version))),
            r.kind_spec() matches Kind::Custom(p, s, m) && p == package && m == metadata && vstd::pervasive::cloned(
                s,
                r.entries()[0].1.set(),
            ),
            r.cache().decision_level.0 == u32::MAX,
            r.cache().backtrack_generation == 0,
    {
        let set = VS::singleton(version);
        let c = set.clone();
        proof {
            VS::lemma_clone(set, c);
        }
        let term = Term::Positive(c);
        Self {
            package_terms: vec![(package, term)],
            kind: Kind::Custom(package, set, metadata),
            contradiction_cache: ContradictionCache::not_contradicted(),
        }
    }

    /// Build an incompatibility from a given dependency.
    pub fn from_dependency(package: Id<P>, versions: VS, dep: (Id<P>, VS)) -> (r: Self)
        requires
            versions.valid(),
            dep.1.valid(),
        ensures
            r.entries().len() == 1 || package.index() != dep.0.index() ==> r.wf(),
            (forall|x: int| !#[trigger] dep.1.has_point(x)) ==> r.entries() == seq![
                (package, Term::Positive(versions)),
            ],
            !(forall|x: int| !#[trigger] dep.1.has_point(x)) ==> r.entries() == seq![
                (package, Term::Positive(versions)),
                (dep.0, Term::Negative(dep.1)),
            ],
            r.kind_spec() == Kind::<P, VS, M>::FromDependencyOf(package, dep.0),
            r.cache().decision_level.0 == u32::MAX,
            r.cache().backtrack_generation == 0,
    {
        let (p2, set2) = dep;
        let e = VS::empty();
        proof {
            VS::lemma_eq(&set2, &e);
            if forall|x: int| !#[trigger] set2.has_point(x) {
                assert forall|x: int| #[trigger] set2.has_point(x) == e.has_point(x) by {}
            }
        }
        let package_terms = if set2 == e {
            vec![(package, Term::Positive(versions))]
        } else {
            vec![(package, Term::Positive(versions)), (p2, Term::Negative(set2))]
        };
        Self {
            package_terms,
            kind: Kind::FromDependencyOf(package, p2),
            contradiction_cache: ContradictionCache::not_contradicted(),
        }
    }

    /// The shape of a dependency of `p1` on `p2`: a positive term for `p1`, then a negative
    /// term for `p2` if the dependency allows any version.
    pub open spec fn is_dependency_shape(self, p1: Id<P>, p2: Id<P>) -> bool {
        let e = self.entries();
        &&& 1 <= e.len() <= 2
        &&& e[0].0 == p1 && e[0].1 is Positive
        &&& e.len() == 2 ==> e[1].0 == p2 && e[1].1 is Negative
    }

    /// The versions of the dependent package, and of the dependency if it allows any.
    ///
    /// The incompatibility must have the shape of a dependency of `p1` on `p2`.
    pub fn dependency_terms(&self, p1: Id<P>, p2: Id<P>) -> (r: (&VS, Option<&VS>))
        requires
            self.is_dependency_shape(p1, p2),
        ensures
            *r.0 == self.entries()[0].1.set(),
            self.entries().len() == 1 ==> r.1 is None,
            self.entries().len() == 2 ==> r.1 == Some(&self.entries()[1].1.set()),
    {
        let versions = self.package_terms[0].1.unwrap_positive();
        let dependency_versions = if self.package_terms.len() == 2 {
            Some(self.package_terms[1].1.unwrap_negative())
        } else {
            None
        };
        (versions, dependency_versions)
    }

    /// The dependency this incompatibility stands for, if it comes from one.
    pub fn as_dependency(&self) -> (r: Option<(Id<P>, Id<P>, Option<&VS>)>)
        requires
            self.kind_spec() matches Kind::FromDependencyOf(p1, p2) ==> self.is_dependency_shape(p1, p2),
        ensures
            !(self.kind_spec() is FromDependencyOf) ==> r is None,
            self.kind_spec() matches Kind::FromDependencyOf(p1, p2) ==> r matches Some(t) && t.0 == p1 && t.1
                == p2 && (self.entries().len() == 1 ==> t.2 is None) && (self.entries().len() == 2 ==> t.2
                == Some(&self.entries()[1].1.set())),
    {
        match &self.kind {
            Kind::FromDependencyOf(p1, p2) => {
                let (_, dependency_range) = self.dependency_terms(*p1, *p2);
                Some((*p1, *p2, dependency_range))
            },
            _ => None,
        }
    }

    /// The dependency of `self` and `other` on the package `p2` are the same:
    /// both absent, or both true for the same choices.
    pub open spec fn same_dependency(self, other: Self) -> bool {
        &&& self.entries().len() == other.entries().len()
        &&& self.entries().len() == 2 ==> forall|c: Option<int>| #[trigger] self.entries()[1].1.holds(c)
            == other.entries()[1].1.holds(c)
    }

    /// Whether both incompatibilities come from dependencies of one package on another
    /// package, the same for both, and with the same dependency.
    pub open spec fn mergeable(self, other: Self) -> bool {
        &&& self.kind_spec() is FromDependencyOf
        &&& other.kind_spec() is FromDependencyOf
        &&& self.kind_spec()->FromDependencyOf_0.index() == other.kind_spec()->FromDependencyOf_0.index()
        &&& self.kind_spec()->FromDependencyOf_1.index() == other.kind_spec()->FromDependencyOf_1.index()
        &&& self.kind_spec()->FromDependencyOf_0.index() != self.kind_spec()->FromDependencyOf_1.index()
        &&& self.same_dependency(other)
    }

    /// Whether the incompatibility comes from a dependency of a package on itself.
    pub open spec fn is_self_dependency(self) -> bool {
        self.kind_spec() matches Kind::FromDependencyOf(p1, p2) && p1.index() == p2.index()
    }

    /// Merge dependant versions with the same dependency.
    ///
    /// When multiple versions of a package depend on the same range of another package,
    /// we can merge the two into a single incompatibility.
    /// For example, if a@1 depends on b and a@2 depends on b, we can say instead
    /// a@1||2 depends on b.
    ///
    /// It is a special case of prior cause computation where the unified package
    /// is the common dependant in the two incompatibilities expressing dependencies.
    pub fn merge_dependents(&self, other: &Self) -> (r: Option<Self>)
        requires
            self.wf() || self.is_self_dependency(),
            other.wf() || other.is_self_dependency(),
            self.kind_spec() matches Kind::FromDependencyOf(p1, p2) ==> self.is_dependency_shape(p1, p2),
            other.kind_spec() matches Kind::FromDependencyOf(p1, p2) ==> other.is_dependency_shape(p1, p2),
        ensures
            r is Some == self.mergeable(*other),
            r matches Some(m) ==> {
                &&& m.wf()
                &&& m.kind_spec() == self.kind_spec()
                &&& m.entries()[0].0 == self.entries()[0].0 && m.entries()[0].1 is Positive
                &&& forall|x: int| #[trigger] m.entries()[0].1.set().has_point(x) == (self.entries()[0].1.set().has_point(x)
                    || other.entries()[0].1.set().has_point(x))
                &&& self.entries().len() == 1 ==> m.entries().len() == 1
                &&& self.entries().len() == 2 ==> ((m.entries().len() == 1) == (forall|x: int| !#[trigger] self.entries()[1].1.set().has_point(x)))
                &&& m.entries().len() == 2 ==> m.entries()[1].0 == self.entries()[1].0 && m.entries()[1].1 is Negative
                    && forall|c: Option<int>| #[trigger] m.entries()[1].1.holds(c) == self.entries()[1].1.holds(c)
            },
    {
        // Check that both incompatibilities are of the shape p1 depends on p2,
        // with the same p1 and p2.
        let (p1, p2, _) = match self.as_dependency() {
            Some(d) => d,
            None => {
                return None;
            },
        };
        let (other_p1, other_p2, _) = match other.as_dependency() {
            Some(d) => d,
            None => {
                return None;
            },
        };
        if p1 != other_p1 || p2 != other_p2 {
            return None;
        }
        // We ignore self-dependencies. They are always either trivially true or trivially false,
        // as the package version implies whether the constraint will always be fulfilled or always
        // violated.
        if p1 == p2 {
            return None;
        }
        let dep_term = self.get(p2);
        let other_dep_term = other.get(p2);
        proof {
            let e = self.entries();
            let o = other.entries();
            lemma_lookup_at(e, 0);
            lemma_lookup_at(o, 0);
            if e.len() == 2 {
                lemma_lookup_at(e, 1);
            }
            if o.len() == 2 {
                lemma_lookup_at(o, 1);
            }
            if e.len() == 1 && has_entry(e, p2.index()) {
                let i = entry_index(e, p2.index());
                assert(i == 0);
            }
            if o.len() == 1 && has_entry(o, p2.index()) {
                let i = entry_index(o, p2.index());
                assert(i == 0);
            }
        }
        // The dependency range for p2 must be the same in both case
        // to be able to merge multiple p1 ranges.
        match (dep_term, other_dep_term) {
            (None, None) => {},
            (Some(a), Some(b)) => {
                proof {
                    term::lemma_term_eq(*a, *b);
                }
                if !(a == b) {
                    proof {
                        let c = choose|c: Option<int>| !(#[trigger] a.holds(c) == b.holds(c));
                        assert(!(self.entries()[1].1.holds(c) == other.entries()[1].1.holds(c)));
                    }
                    return None;
                }
            },
            _ => {
                return None;
            },
        }
        let v1 = self.get(p1).unwrap().unwrap_positive();
        let v2 = other.get(p1).unwrap().unwrap_positive();
        let versions = v1.union(v2);
        let dep_set = match dep_term {
            Some(v) => {
                let s = v.unwrap_negative().clone();
                proof {
                    VS::lemma_clone(v.set(), s);
                }
                s
            },
            None => VS::empty(),
        };
        let merged = Self::from_dependency(p1, versions, (p2, dep_set));
        proof {
            let m = merged;
            assert(m.wf());
            assert(m.kind_spec() == self.kind_spec());
            assert(m.entries()[0].0 == self.entries()[0].0 && m.entries()[0].1 is Positive);
            assert(forall|x: int| #[trigger] m.entries()[0].1.set().has_point(x) == (self.entries()[0].1.set().has_point(x)
                    || other.entries()[0].1.set().has_point(x)));
            assert(self.entries().len() == 1 ==> m.entries().len() == 1);
            if self.entries().len() == 2 {
                let d = self.entries()[1].1.set();
                assert(forall|x: int| #[trigger] dep_set.has_point(x) == d.has_point(x));
                if forall|x: int| !#[trigger] d.has_point(x) {
                    assert forall|x: int| !#[trigger] dep_set.has_point(x) by {
                        assert(!d.has_point(x));
                    }
                }
                if forall|x: int| !#[trigger] dep_set.has_point(x) {
                    assert forall|x: int| !#[trigger] d.has_point(x) by {
                        assert(!dep_set.has_point(x));
                    }
                }
            }
            assert(self.entries().len() == 2 ==> ((m.entries().len() == 1) == (forall|x: int| !#[trigger] self.entries()[1].1.set().has_point(x))));
            if merged.entries().len() == 2 {
                assert forall|c: Option<int>| #[trigger] merged.entries()[1].1.holds(c) == self.entries()[1].1.holds(c) by {
                }
            }
        }
        Some(merged)
    }

    /// Prior cause of two incompatibilities using the rule of resolution.
    ///
    /// Both incompatibilities must hold a term for `package`. The result holds, for every
    /// other package, the intersection of the terms of the two incompatibilities; for
    /// `package`, the union of their terms, unless that union allows everything.
    pub fn prior_cause(
        incompat: Id<Self>,
        satisfier_cause: Id<Self>,
        package: Id<P>,
        incompatibility_store: &Arena<Self>,
    ) -> (r: Self)
        requires
            incompat.index() < incompatibility_store@.len(),
            satisfier_cause.index() < incompatibility_store@.len(),
            incompatibility_store@[incompat.index()].wf(),
            incompatibility_store@[satisfier_cause.index()].wf(),
            has_entry(incompatibility_store@[incompat.index()].entries(), package.index()),
            has_entry(incompatibility_store@[satisfier_cause.index()].entries(), package.index()),
        ensures
            r.wf(),
            r.kind_spec() == Kind::<P, VS, M>::DerivedFrom(incompat, satisfier_cause),
            r.cache().decision_level.0 == u32::MAX,
            r.cache().backtrack_generation == 0,
            is_prior_cause(
                incompatibility_store@[incompat.index()].entries(),
                incompatibility_store@[satisfier_cause.index()].entries(),
                package.index(),
                r.entries(),
            ),
    {
        let kind = Kind::DerivedFrom(incompat, satisfier_cause);
        let first = incompatibility_store.get(incompat);
        let second = incompatibility_store.get(satisfier_cause);
        let i_terms = &first.package_terms;
        let s_terms = &second.package_terms;
        let ghost ie = i_terms@;
        let ghost se = s_terms@;
        let ghost p = package.index();
        // The terms of the first incompatibility, but the one of `package`.
        let mut package_terms: Vec<(Id<P>, Term<VS>)> = Vec::new();
        let mut t1: Option<Term<VS>> = None;
        let mut k: usize = 0;
        while k < i_terms.len()
            invariant
                0 <= k <= ie.len(),
                p == package.index(),
                i_terms@ == ie,
                entries_wf(ie),
                entries_wf(package_terms@),
                !has_entry(package_terms@, p),
                forall|q: int| q != p ==> #[trigger] has_entry(package_terms@, q) == has_entry(ie.subrange(0, k as int), q),
                forall|q: int, c: Option<int>| #[trigger] term_or_any_holds(package_terms@, q, c) == (q == p || term_or_any_holds(
                    ie.subrange(0, k as int),
                    q,
                    c,
                )),
                t1 is Some == has_entry(ie.subrange(0, k as int), p),
                t1 matches Some(t) ==> t.valid() && forall|c: Option<int>| #[trigger] t.holds(c) == term_or_any_holds(ie, p, c),
            decreases ie.len() - k,
        {
            let entry_id = i_terms[k].0;
            let copy = i_terms[k].1.clone();
            let ghost before = package_terms@;
            proof {
                lemma_lookup_prefix(ie, k as int);
                lemma_lookup_at(ie, k as int);
                term::lemma_term_clone(ie[k as int].1, copy);
                lemma_lookup_push(ie.subrange(0, k as int), ie[k as int]);
            }
            let ghost pre = ie.subrange(0, k as int);
            let ghost post = ie.subrange(0, k + 1);
            assert(post == pre.push(ie[k as int]));
            assert(entry_id == ie[k as int].0);
            if entry_id == package {
                t1 = Some(copy);
                proof {
                    assert(entry_id.index() == p);
                    assert forall|q: int| q != p implies #[trigger] has_entry(package_terms@, q) == has_entry(post, q) by {
                        assert(has_entry(package_terms@, q) == has_entry(pre, q));
                    }
                    assert forall|q: int, c: Option<int>| #[trigger] term_or_any_holds(package_terms@, q, c) == (q == p
                        || term_or_any_holds(post, q, c)) by {
                        assert(term_or_any_holds(package_terms@, q, c) == (q == p || term_or_any_holds(pre, q, c)));
                        assert(lookup(post, q) == if q == p { Some(ie[k as int].1) } else { lookup(pre, q) });
                    }
                    assert forall|c: Option<int>| #[trigger] copy.holds(c) == term_or_any_holds(ie, p, c) by {
                        assert(lookup(ie, p) == Some(ie[k as int].1));
                    }
                }
            } else {
                proof {
                    assert(entry_id.index() != p);
                    assert(!has_entry(before, entry_id.index())) by {
                        assert(has_entry(before, entry_id.index()) == has_entry(pre, entry_id.index()));
                    }
                }
                package_terms.push((entry_id, copy));
                proof {
                    lemma_lookup_push(before, (entry_id, copy));
                    assert(!has_entry(package_terms@, p));
                    assert forall|q: int| q != p implies #[trigger] has_entry(package_terms@, q) == has_entry(post, q) by {
                        assert(has_entry(before, q) == has_entry(pre, q));
                    }
                    assert forall|q: int, c: Option<int>| #[trigger] term_or_any_holds(package_terms@, q, c) == (q == p
                        || term_or_any_holds(post, q, c)) by {
                        assert(term_or_any_holds(before, q, c) == (q == p || term_or_any_holds(pre, q, c)));
                        assert(lookup(post, q) == if q == entry_id.index() { Some(ie[k as int].1) } else { lookup(pre, q) });
                    }
                    if t1 is Some {
                        assert(has_entry(pre, p));
                    }
                    assert(has_entry(post, p) == has_entry(pre, p));
                }
            }
            k = k + 1;
        }
        proof {
            assert(ie.subrange(0, ie.len() as int) =~= ie);
        }
        let t1 = t1.unwrap();
        // Merge the terms of the second incompatibility, but the one of `package`.
        let mut k: usize = 0;
        while k < s_terms.len()
            invariant
                0 <= k <= se.len(),
                p == package.index(),
                s_terms@ == se,
                entries_wf(ie),
                entries_wf(se),
                entries_wf(package_terms@),
                !has_entry(package_terms@, p),
                forall|q: int| q != p ==> #[trigger] has_entry(package_terms@, q) == (has_entry(ie, q) || has_entry(se.subrange(0, k as int), q)),
                forall|q: int, c: Option<int>| #[trigger] term_or_any_holds(package_terms@, q, c) == (q == p || (term_or_any_holds(ie, q, c)
                    && term_or_any_holds(se.subrange(0, k as int), q, c))),
            decreases se.len() - k,
        {
            let entry_id = s_terms[k].0;
            let t2 = &s_terms[k].1;
            let ghost before = package_terms@;
            proof {
                lemma_lookup_prefix(se, k as int);
                lemma_lookup_at(se, k as int);
                lemma_lookup_push(se.subrange(0, k as int), se[k as int]);
            }
            let ghost pre = se.subrange(0, k as int);
            let ghost post = se.subrange(0, k + 1);
            assert(post == pre.push(se[k as int]));
            assert(entry_id == se[k as int].0);
            assert(*t2 == se[k as int].1);
            if entry_id != package {
                match find_in(package_terms.as_slice(), entry_id) {
                    Some(j) => {
                        let merged = package_terms[j].1.intersection(t2);
                        package_terms.set(j, (entry_id, merged));
                        proof {
                            let q0 = entry_id.index();
                            lemma_lookup_at(before, j as int);
                            Id::<P>::lemma_index_determines(before[j as int].0, entry_id);
                            assert(before[j as int].0 == entry_id);
                            lemma_lookup_update(before, j as int, merged);
                            assert(!has_entry(pre, q0));
                            assert forall|q: int, c: Option<int>| #[trigger] term_or_any_holds(package_terms@, q, c) == (q == p || (
                                term_or_any_holds(ie, q, c) && term_or_any_holds(post, q, c))) by {
                                assert(term_or_any_holds(before, q, c) == (q == p || (term_or_any_holds(ie, q, c)
                                    && term_or_any_holds(pre, q, c))));
                                assert(lookup(post, q) == if q == q0 { Some(se[k as int].1) } else { lookup(pre, q) });
                            }
                            assert forall|q: int| q != p implies #[trigger] has_entry(package_terms@, q) == (has_entry(ie, q)
                                || has_entry(post, q)) by {
                                assert(has_entry(before, q) == (has_entry(ie, q) || has_entry(pre, q)));
                            }
                        }
                    },
                    None => {
                        let copy = t2.clone();
                        proof {
                            term::lemma_term_clone(*t2, copy);
                        }
                        package_terms.push((entry_id, copy));
                        proof {
                            let q0 = entry_id.index();
                            lemma_lookup_push(before, (entry_id, copy));
                            assert(!has_entry(pre, q0));
                            assert(!has_entry(ie, q0));
                            assert forall|q: int, c: Option<int>| #[trigger] term_or_any_holds(package_terms@, q, c) == (q == p || (
                                term_or_any_holds(ie, q, c) && term_or_any_holds(post, q, c))) by {
                                assert(term_or_any_holds(before, q, c) == (q == p || (term_or_any_holds(ie, q, c)
                                    && term_or_any_holds(pre, q, c))));
                                assert(lookup(post, q) == if q == q0 { Some(se[k as int].1) } else { lookup(pre, q) });
                            }
                            assert forall|q: int| q != p implies #[trigger] has_entry(package_terms@, q) == (has_entry(ie, q)
                                || has_entry(post, q)) by {
                                assert(has_entry(before, q) == (has_entry(ie, q) || has_entry(pre, q)));
                            }
                        }
                    },
                }
            } else {
                proof {
                    assert forall|q: int, c: Option<int>| #[trigger] term_or_any_holds(package_terms@, q, c) == (q == p || (
                        term_or_any_holds(ie, q, c) && term_or_any_holds(post, q, c))) by {
                        assert(term_or_any_holds(before, q, c) == (q == p || (term_or_any_holds(ie, q, c)
                            && term_or_any_holds(pre, q, c))));
                        assert(lookup(post, q) == if q == p { Some(se[k as int].1) } else { lookup(pre, q) });
                    }
                    assert forall|q: int| q != p implies #[trigger] has_entry(package_terms@, q) == (has_entry(ie, q)
                        || has_entry(post, q)) by {
                        assert(has_entry(before, q) == (has_entry(ie, q) || has_entry(pre, q)));
                    }
                }
            }
            k = k + 1;
        }
        proof {
            assert(se.subrange(0, se.len() as int) =~= se);
        }
        let second_term = second.get(package).unwrap();
        let term = t1.union(second_term);
        let any = Term::any();
        proof {
            term::lemma_term_eq(term, any);
        }
        let ghost before = package_terms@;
        if term != any {
            package_terms.push((package, term));
            proof {
                lemma_lookup_push(before, (package, term));
            }
        } else {
            proof {
                assert forall|c: Option<int>| #[trigger] term_or_any_holds(ie, p, c) || term_or_any_holds(se, p, c) by {
                    assert(term.holds(c) == any.holds(c));
                }
            }
        }
        proof {
            assert(ie == incompatibility_store@[incompat.index()].entries());
            assert(se == incompatibility_store@[satisfier_cause.index()].entries());
            assert(lookup(se, p) == Some(*second_term));
            assert(forall|c: Option<int>| #[trigger] term.holds(c) == (term_or_any_holds(ie, p, c) || term_or_any_holds(se, p, c)));
            if has_entry(package_terms@, p) {
                let c = choose|c: Option<int>| !(#[trigger] term.holds(c) == any.holds(c));
                assert(!(term_or_any_holds(ie, p, c) || term_or_any_holds(se, p, c)));
                assert(lookup(package_terms@, p) == Some(term));
            }
            assert forall|q: int| q != p implies #[trigger] has_entry(package_terms@, q) == (has_entry(ie, q) || has_entry(se, q)) by {
                assert(has_entry(before, q) == (has_entry(ie, q) || has_entry(se, q)));
            }
            assert forall|q: int, c: Option<int>| q != p implies #[trigger] term_or_any_holds(package_terms@, q, c) == (
                term_or_any_holds(ie, q, c) && term_or_any_holds(se, q, c)) by {
                assert(term_or_any_holds(before, q, c) == (q == p || (term_or_any_holds(ie, q, c) && term_or_any_holds(se, q, c))));
            }
            assert forall|c: Option<int>| #[trigger] term_or_any_holds(package_terms@, p, c) == (term_or_any_holds(ie, p, c)
                || term_or_any_holds(se, p, c)) by {
                if !has_entry(package_terms@, p) {
                    assert(term.holds(c) == any.holds(c));
                }
            }
        }
        Self { package_terms, kind, contradiction_cache: ContradictionCache::not_contradicted() }
    }

    /// How a set of terms relates to the incompatibility: the terms of the packages,
    /// typically from the partial solution; a package without term allows everything.
    pub fn relation(&self, terms: &[(Id<P>, Term<VS>)]) -> (r: Relation<P>)
        requires
            self.wf(),
            entries_wf(terms@),
        ensures
            r == relation_from(self.entries(), terms@, 0, None),
            (r is Satisfied) == forall|k: int| 0 <= k < self.entries().len() ==> terms_satisfy(terms@, #[trigger] self.entries()[k]),
            forall|k: int|
                0 <= k < self.entries().len() && !terms_satisfy(terms@, #[trigger] self.entries()[k]) && !terms_contradict(
                    terms@,
                    self.entries()[k],
                ) && satisfied_but(self.entries(), terms@, 0, k) ==> r == Relation::AlmostSatisfied(self.entries()[k].0),
    {
        let ghost e = self.entries();
        let ghost ts = terms@;
        proof {
            law_incompatibility_relation(e, ts);
        }
        let mut relation: Relation<P> = Relation::Satisfied;
        let ghost mut almost: Option<Id<P>> = None;
        let mut k: usize = 0;
        while k < self.package_terms.len()
            invariant
                0 <= k <= e.len(),
                e == self.package_terms@,
                ts == terms@,
                entries_wf(e),
                entries_wf(ts),
                almost is None ==> relation is Satisfied,
                almost matches Some(p) ==> relation == Relation::AlmostSatisfied(p),
                relation_from(e, ts, 0, None) == relation_from(e, ts, k as int, almost),
            decreases e.len() - k,
        {
            let package = self.package_terms[k].0;
            let incompat_term = &self.package_terms[k].1;
            let found = find_in(terms, package);
            let rel = match found {
                Some(j) => Some(incompat_term.relation_with(&terms[j].1)),
                None => None,
            };
            proof {
                assert(e[k as int].1.valid());
                if let Some(j) = found {
                    lemma_lookup_at(ts, j as int);
                    assert(ts[j as int].1.valid());
                }
            }
            match rel {
                Some(term::Relation::Satisfied) => {},
                Some(term::Relation::Contradicted) => {
                    proof {
                        law_incompatibility_relation(e, ts);
                    }
                    return Relation::Contradicted(package);
                },
                _ => {
                    // If a package is not present, the intersection is the same as [Term::any].
                    // According to the rules of satisfactions, the relation would be inconclusive.
                    // It could also be satisfied if the incompatibility term was also [Term::any],
                    // but we systematically remove those from incompatibilities
                    // so we're safe on that front.
                    match relation {
                        Relation::Satisfied => {
                            relation = Relation::AlmostSatisfied(package);
                            proof {
                                almost = Some(package);
                            }
                        },
                        _ => {
                            proof {
                                law_incompatibility_relation(e, ts);
                            }
                            return Relation::Inconclusive;
                        },
                    }
                },
            }
            k = k + 1;
        }
        relation
    }

    /// Whether the incompatibility is known to be contradicted at the given backtrack state.
    pub fn is_contradicted(&self, last_valid_decision_levels: &[DecisionLevel]) -> (r: bool)
        ensures
            r == (self.cache().backtrack_generation < last_valid_decision_levels@.len() ==> self.cache().decision_level.0
                <= last_valid_decision_levels@[self.cache().backtrack_generation as int].0),
    {
        self.contradiction_cache.is_contradicted(last_valid_decision_levels)
    }

    /// Remember that the incompatibility became contradicted at this level and generation.
    pub fn mark_contradicted(&mut self, decision_level: DecisionLevel, backtrack_generation: u32)
        ensures
            final(self).entries() == old(self).entries(),
            final(self).kind_spec() == old(self).kind_spec(),
            final(self).cache().decision_level == decision_level,
            final(self).cache().backtrack_generation == backtrack_generation,
    {
        self.contradiction_cache = ContradictionCache { decision_level, backtrack_generation };
    }

    /// Forget any contradiction.
    pub fn reset_contradiction_cache(&mut self)
        ensures
            final(self).entries() == old(self).entries(),
            final(self).kind_spec() == old(self).kind_spec(),
            final(self).cache().decision_level.0 == u32::MAX,
            final(self).cache().backtrack_generation == 0,
    {
        self.contradiction_cache = ContradictionCache::not_contradicted();
    }

    /// Check if an incompatibility should mark the end of the algorithm
    /// because it satisfies the root package.
    pub fn is_terminal(&self, root_package: Id<P>, root_version: &VS::V) -> (r: bool)
        ensures
            r == (self.entries().len() == 0 || (self.entries().len() == 1 && self.entries()[0].0.index()
                == root_package.index() && self.entries()[0].1.holds(Some(crate::range::point(*root_version))))),
    {
        if self.package_terms.len() == 0 {
            true
        } else if self.package_terms.len() > 1 {
            false
        } else {
            let (package, term) = &self.package_terms[0];
            (*package == root_package) && term.contains(root_version)
        }
    }

    /// Get the term related to a given package (if it exists).
    pub fn get(&self, package: Id<P>) -> (r: Option<&Term<VS>>)
        requires
            self.wf(),
        ensures
            r is Some == has_entry(self.entries(), package.index()),
            r matches Some(t) ==> lookup(self.entries(), package.index()) == Some(*t),
    {
        let ghost e = self.entries();
        let mut i: usize = 0;
        while i < self.package_terms.len()
            invariant
                0 <= i <= e.len(),
                e == self.package_terms@,
                entries_wf(e),
                forall|k: int| 0 <= k < i ==> (#[trigger] e[k]).0.index() != package.index(),
            decreases e.len() - i,
        {
            if self.package_terms[i].0 == package {
                proof {
                    lemma_lookup_at(e, i as int);
                }
                return Some(&self.package_terms[i].1);
            }
            i = i + 1;
        }
        None
    }

    /// Iterate over packages.
    pub fn iter(&self) -> (r: &[(Id<P>, Term<VS>)])
        ensures
            r@ == self.entries(),
    {
        self.package_terms.as_slice()
    }

    /// Retrieve parent causes if of type DerivedFrom.
    pub fn causes(&self) -> (r: Option<(Id<Self>, Id<Self>)>)
        ensures
            self.kind_spec() matches Kind::DerivedFrom(a, b) ==> r == Some((a, b)),
            !(self.kind_spec() is DerivedFrom) ==> r is None,
    {
        match self.kind {
            Kind::DerivedFrom(id1, id2) => Some((id1, id2)),
            _ => None,
        }
    }
}

/// The terms of a derived node are those of the incompatibility, each package read from the
/// package store and each version set cloned.
pub open spec fn terms_mirror<P, VS: VersionSet>(terms: Seq<(P, Term<VS>)>, entries: Seq<(Id<P>, Term<VS>)>, packages: Seq<P>) -> bool {
    &&& terms.len() == entries.len()
    &&& forall|k: int| 0 <= k < terms.len() ==> {
        &&& (#[trigger] terms[k]).0 == packages[entries[k].0.index()]
        &&& terms[k].1 is Positive == entries[k].1 is Positive
        &&& vstd::pervasive::cloned(entries[k].1.set(), terms[k].1.set())
    }
}

/// The node reads the incompatibility `inc`, whose identifier is `id`, as a node of a derivation
/// tree: an external incompatibility for each external kind, with the packages read from the
/// package store, and a derived one for `DerivedFrom`, with the nodes of its causes as `nodes_of`
/// gives them, and the identifier of the incompatibility as its shared id where it is shared.
pub open spec fn mirrors<P: Clone, VS: VersionSet, M: Clone>(
    node: DerivationTreeNode<P, VS, M>,
    inc: Incompatibility<P, VS, M>,
    id: int,
    shared: bool,
    packages: Seq<P>,
    nodes_of: Seq<Option<DerivationTreeId>>,
) -> bool {
    match inc.kind_spec() {
        Kind::DerivedFrom(c1, c2) => node matches DerivationTreeNode::Derived(d) && {
            &&& terms_mirror(d.terms@, inc.entries(), packages)
            &&& d.shared_id == (if shared { Some(id as usize) } else { None::<usize> })
            &&& nodes_of[c1.index()] == Some(d.cause1)
            &&& nodes_of[c2.index()] == Some(d.cause2)
        },
        Kind::NotRoot(p, v) => node == DerivationTreeNode::<P, VS, M>::External(External::NotRoot(packages[p.index()], v)),
        Kind::NoVersions(p, set) => node matches DerivationTreeNode::External(External::NoVersions(q, s)) && q
            == packages[p.index()] && vstd::pervasive::cloned(set, s),
        Kind::FromDependencyOf(p, dep) => node matches DerivationTreeNode::External(
            External::FromDependencyOf(q1, s1, q2, s2),
        ) && {
            &&& q1 == packages[p.index()]
            &&& q2 == packages[dep.index()]
            &&& vstd::pervasive::cloned(inc.entries()[0].1.set(), s1)
            &&& inc.entries().len() == 2 ==> vstd::pervasive::cloned(inc.entries()[1].1.set(), s2)
            &&& inc.entries().len() == 1 ==> s2.valid() && forall|x: int| !#[trigger] s2.has_point(x)
        },
        Kind::Custom(p, set, m) => node matches DerivationTreeNode::External(External::Custom(q, s, mm)) && q
            == packages[p.index()] && vstd::pervasive::cloned(set, s) && vstd::pervasive::cloned(m, mm),
    }
}

/// Every package that the incompatibility names is in the package store.
pub open spec fn packages_known<P, VS: VersionSet, M>(inc: Incompatibility<P, VS, M>, n: int) -> bool {
    &&& forall|k: int| 0 <= k < inc.entries().len() ==> (#[trigger] inc.entries()[k]).0.index() < n
    &&& match inc.kind_spec() {
        Kind::NotRoot(p, _) => p.index() < n,
        Kind::NoVersions(p, _) => p.index() < n,
        Kind::FromDependencyOf(p, d) => p.index() < n && d.index() < n,
        Kind::Custom(p, _, _) => p.index() < n,
        Kind::DerivedFrom(_, _) => true,
    }
}

impl<P: Ranked, VS: VersionSet, M: Clone> Incompatibility<P, VS, M> {
    /// The terms of the incompatibility, with the packages read from the package store.
    fn mirrored_terms(&self, package_store: &HashArena<P>) -> (r: Vec<(P, Term<VS>)>)
        requires
            forall|k: int| 0 <= k < self.entries().len() ==> (#[trigger] self.entries()[k]).0.index() < package_store@.len(),
        ensures
            terms_mirror(r@, self.entries(), package_store@),
    {
        let mut terms: Vec<(P, Term<VS>)> = Vec::new();
        let mut k: usize = 0;
        while k < self.package_terms.len()
            invariant
                0 <= k <= self.package_terms@.len(),
                self.package_terms@ == self.entries(),
                forall|j: int| 0 <= j < self.entries().len() ==> (#[trigger] self.entries()[j]).0.index() < package_store@.len(),
                terms_mirror(terms@, self.entries().subrange(0, k as int), package_store@),
            decreases self.package_terms@.len() - k,
        {
            let (a, t) = &self.package_terms[k];
            proof {
                assert(self.entries()[k as int] == (*a, *t));
            }
            let p = *package_store.get(*a);
            let term = t.clone();
            terms.push((p, term));
            proof {
                let e = self.entries().subrange(0, k + 1);
                assert forall|j: int| 0 <= j < terms@.len() implies {
                    &&& (#[trigger] terms@[j]).0 == package_store@[e[j].0.index()]
                    &&& terms@[j].1 is Positive == e[j].1 is Positive
                    &&& vstd::pervasive::cloned(e[j].1.set(), terms@[j].1.set())
                } by {
                    if j < k {
                        assert(e[j] == self.entries().subrange(0, k as int)[j]);
                    }
                }
            }
            k = k + 1;
        }
        proof {
            assert(self.entries().subrange(0, k as int) =~= self.entries());
        }
        terms
    }

    /// The node of a derivation tree for the incompatibility `self_id` of the store: its
    /// external incompatibility, or, where it is derived, a derived node with the nodes already
    /// built for its causes, shared where `shared_ids` marks it.
    pub fn build_derivation_tree(
        self_id: Id<Self>,
        shared_ids: &[bool],
        store: &Arena<Self>,
        package_store: &HashArena<P>,
        precomputed: &[Option<DerivationTreeId>],
    ) -> (r: DerivationTreeNode<P, VS, M>)
        requires
            self_id.index() < store@.len(),
            self_id.index() < shared_ids@.len(),
            store@[self_id.index()].kind_spec() matches Kind::FromDependencyOf(p1, p2) ==> store@[self_id.index()].is_dependency_shape(p1, p2),
            packages_known(store@[self_id.index()], package_store@.len() as int),
            store@[self_id.index()].kind_spec() matches Kind::DerivedFrom(c1, c2) ==> {
                &&& c1.index() < precomputed@.len()
                &&& c2.index() < precomputed@.len()
                &&& precomputed@[c1.index()] is Some
                &&& precomputed@[c2.index()] is Some
            },
        ensures
            mirrors(r, store@[self_id.index()], self_id.index(), shared_ids@[self_id.index()], package_store@, precomputed@),
    {
        let inc = store.get(self_id);
        match &inc.kind {
            Kind::DerivedFrom(id1, id2) => {
                let terms = inc.mirrored_terms(package_store);
                let shared_id = if shared_ids[self_id.into_raw()] {
                    Some(self_id.into_raw())
                } else {
                    None
                };
                let cause1 = precomputed[id1.into_raw()].unwrap();
                let cause2 = precomputed[id2.into_raw()].unwrap();
                DerivationTreeNode::Derived(Derived::new(terms, shared_id, cause1, cause2))
            },
            Kind::NotRoot(package, version) => DerivationTreeNode::External(
                External::NotRoot(*package_store.get(*package), *version),
            ),
            Kind::NoVersions(package, set) => DerivationTreeNode::External(
                External::NoVersions(*package_store.get(*package), set.clone()),
            ),
            Kind::FromDependencyOf(package, dep_package) => {
                let (package_versions, dependency_versions) = inc.dependency_terms(*package, *dep_package);
                let dep_set = match dependency_versions {
                    Some(s) => s.clone(),
                    None => VS::empty(),
                };
                DerivationTreeNode::External(
                    External::FromDependencyOf(
                        *package_store.get(*package),
                        package_versions.clone(),
                        *package_store.get(*dep_package),
                        dep_set,
                    ),
                )
            },
            Kind::Custom(package, set, metadata) => DerivationTreeNode::External(
                External::Custom(*package_store.get(*package), set.clone(), metadata.clone()),
            ),
        }
    }
}

/// The cause in the slot `slot` (1 or 2) of the incompatibility, if it is derived.
pub open spec fn cause_at<P, VS: VersionSet, M>(inc: Incompatibility<P, VS, M>, slot: int) -> Option<int> {
    match inc.kind_spec() {
        Kind::DerivedFrom(c1, c2) => if slot == 1 {
            Some(c1.index())
        } else if slot == 2 {
            Some(c2.index())
        } else {
            None
        },
        _ => None,
    }
}

/// Every derived incompatibility of the store has both causes stored before it.
pub open spec fn causes_precede<P, VS: VersionSet, M>(store: Seq<Incompatibility<P, VS, M>>) -> bool {
    forall|i: int| 0 <= i < store.len() ==> (#[trigger] store[i].kind_spec() matches Kind::DerivedFrom(c1, c2) ==> 0
        <= c1.index() < i && 0 <= c2.index() < i)
}

/// Some incompatibility marked in `marked`, from `from` on, has `i` as a cause.
pub open spec fn has_marked_parent<P, VS: VersionSet, M>(store: Seq<Incompatibility<P, VS, M>>, marked: Seq<bool>, from: int, i: int) -> bool {
    exists|j: int, slot: int| from <= j < marked.len() && marked[j] && #[trigger] cause_at(store[j], slot) == Some(i)
}

/// Two different slots of incompatibilities marked in `marked`, from `from` on, have `i` as a cause.
pub open spec fn has_two_marked_parents<P, VS: VersionSet, M>(
    store: Seq<Incompatibility<P, VS, M>>,
    marked: Seq<bool>,
    from: int,
    i: int,
) -> bool {
    exists|j1: int, s1: int, j2: int, s2: int|
        from <= j1 < marked.len() && from <= j2 < marked.len() && marked[j1] && marked[j2] && (j1 != j2 || s1 != s2)
            && #[trigger] cause_at(store[j1], s1) == Some(i) && #[trigger] cause_at(store[j2], s2) == Some(i)
}

/// Marks that agree from `from` on give the same marked parents.
proof fn lemma_marked_frame<P, VS: VersionSet, M>(
    store: Seq<Incompatibility<P, VS, M>>,
    m1: Seq<bool>,
    m2: Seq<bool>,
    from: int,
    i: int,
)
    requires
        m1.len() == m2.len(),
        forall|j: int| from <= j < m1.len() ==> m1[j] == m2[j],
    ensures
        has_marked_parent(store, m1, from, i) == has_marked_parent(store, m2, from, i),
        has_two_marked_parents(store, m1, from, i) == has_two_marked_parents(store, m2, from, i),
{
    if has_marked_parent(store, m1, from, i) {
        let (j, s) = choose|j: int, slot: int| from <= j < m1.len() && m1[j] && #[trigger] cause_at(store[j], slot) == Some(i);
        assert(m2[j]);
    }
    if has_marked_parent(store, m2, from, i) {
        let (j, s) = choose|j: int, slot: int| from <= j < m2.len() && m2[j] && #[trigger] cause_at(store[j], slot) == Some(i);
        assert(m1[j]);
    }
    if has_two_marked_parents(store, m1, from, i) {
        let (j1, s1, j2, s2) = choose|j1: int, s1: int, j2: int, s2: int|
            from <= j1 < m1.len() && from <= j2 < m1.len() && m1[j1] && m1[j2] && (j1 != j2 || s1 != s2)
                && #[trigger] cause_at(store[j1], s1) == Some(i) && #[trigger] cause_at(store[j2], s2) == Some(i);
        assert(m2[j1] && m2[j2]);
    }
    if has_two_marked_parents(store, m2, from, i) {
        let (j1, s1, j2, s2) = choose|j1: int, s1: int, j2: int, s2: int|
            from <= j1 < m2.len() && from <= j2 < m2.len() && m2[j1] && m2[j2] && (j1 != j2 || s1 != s2)
                && #[trigger] cause_at(store[j1], s1) == Some(i) && #[trigger] cause_at(store[j2], s2) == Some(i);
        assert(m1[j1] && m1[j2]);
    }
}

/// Taking one more incompatibility, at `j`, into account: its causes are its parents now.
proof fn lemma_marked_step<P, VS: VersionSet, M>(store: Seq<Incompatibility<P, VS, M>>, m: Seq<bool>, j: int, i: int)
    requires
        0 <= j < m.len(),
        m.len() <= store.len(),
    ensures
        has_marked_parent(store, m, j, i) == (has_marked_parent(store, m, j + 1, i) || (m[j] && (cause_at(store[j], 1)
            == Some(i) || cause_at(store[j], 2) == Some(i)))),
        has_two_marked_parents(store, m, j, i) == (has_two_marked_parents(store, m, j + 1, i) || (m[j] && (((
        cause_at(store[j], 1) == Some(i) || cause_at(store[j], 2) == Some(i)) && has_marked_parent(store, m, j + 1, i))
            || (cause_at(store[j], 1) == Some(i) && cause_at(store[j], 2) == Some(i))))),
{
    let c1 = cause_at(store[j], 1);
    let c2 = cause_at(store[j], 2);
    if has_marked_parent(store, m, j, i) {
        let (jj, s) = choose|jj: int, slot: int| j <= jj < m.len() && m[jj] && #[trigger] cause_at(store[jj], slot) == Some(i);
        if jj == j {
            assert(s == 1 || s == 2);
        } else {
            assert(has_marked_parent(store, m, j + 1, i));
        }
    }
    if has_marked_parent(store, m, j + 1, i) {
        let (jj, s) = choose|jj: int, slot: int| j + 1 <= jj < m.len() && m[jj] && #[trigger] cause_at(store[jj], slot) == Some(i);
        assert(has_marked_parent(store, m, j, i));
    }
    if m[j] && c1 == Some(i) {
        assert(cause_at(store[j], 1) == Some(i));
        assert(has_marked_parent(store, m, j, i));
    }
    if m[j] && c2 == Some(i) {
        assert(cause_at(store[j], 2) == Some(i));
        assert(has_marked_parent(store, m, j, i));
    }
    if has_two_marked_parents(store, m, j, i) {
        let (j1, s1, j2, s2) = choose|j1: int, s1: int, j2: int, s2: int|
            j <= j1 < m.len() && j <= j2 < m.len() && m[j1] && m[j2] && (j1 != j2 || s1 != s2)
                && #[trigger] cause_at(store[j1], s1) == Some(i) && #[trigger] cause_at(store[j2], s2) == Some(i);
        if j1 > j && j2 > j {
            assert(has_two_marked_parents(store, m, j + 1, i));
        } else if j1 == j && j2 == j {
            assert(s1 == 1 || s1 == 2);
            assert(s2 == 1 || s2 == 2);
        } else if j1 == j {
            assert(s1 == 1 || s1 == 2);
            assert(cause_at(store[j2], s2) == Some(i));
            assert(has_marked_parent(store, m, j + 1, i));
        } else {
            assert(s2 == 1 || s2 == 2);
            assert(cause_at(store[j1], s1) == Some(i));
            assert(has_marked_parent(store, m, j + 1, i));
        }
    }
    if has_two_marked_parents(store, m, j + 1, i) {
        let (j1, s1, j2, s2) = choose|j1: int, s1: int, j2: int, s2: int|
            j + 1 <= j1 < m.len() && j + 1 <= j2 < m.len() && m[j1] && m[j2] && (j1 != j2 || s1 != s2)
                && #[trigger] cause_at(store[j1], s1) == Some(i) && #[trigger] cause_at(store[j2], s2) == Some(i);
        assert(has_two_marked_parents(store, m, j, i));
    }
    if m[j] && (c1 == Some(i) || c2 == Some(i)) && has_marked_parent(store, m, j + 1, i) {
        let (jj, s) = choose|jj: int, slot: int| j + 1 <= jj < m.len() && m[jj] && #[trigger] cause_at(store[jj], slot) == Some(i);
        if c1 == Some(i) {
            assert(cause_at(store[j], 1) == Some(i));
        } else {
            assert(cause_at(store[j], 2) == Some(i));
        }
        assert(has_two_marked_parents(store, m, j, i));
    }
    if m[j] && c1 == Some(i) && c2 == Some(i) {
        assert(cause_at(store[j], 1) == Some(i));
        assert(cause_at(store[j], 2) == Some(i));
        assert(has_two_marked_parents(store, m, j, i));
    }
}

/// What the sweep over the store knows once it has looked at the incompatibilities from `from`
/// on: those reached are the root and the causes of reached ones, and `refs` counts, up to two,
/// how many times each is named as a cause.
pub open spec fn sweep_inv<P, VS: VersionSet, M>(
    store: Seq<Incompatibility<P, VS, M>>,
    m: Seq<bool>,
    refs: Seq<u8>,
    from: int,
    root: int,
) -> bool {
    &&& m.len() == root + 1
    &&& refs.len() == root + 1
    &&& forall|i: int| 0 <= i <= root ==> #[trigger] m[i] == (i == root || has_marked_parent(store, m, from, i))
    &&& forall|i: int| 0 <= i <= root ==> #[trigger] refs[i] <= 2
    &&& forall|i: int| 0 <= i <= root ==> (#[trigger] refs[i] >= 1) == has_marked_parent(store, m, from, i)
    &&& forall|i: int| 0 <= i <= root ==> (#[trigger] refs[i] >= 2) == has_two_marked_parents(store, m, from, i)
}

/// One more count, up to two.
pub open spec fn bump(x: u8) -> u8 {
    if x < 2 {
        (x + 1) as u8
    } else {
        x
    }
}

/// The causes of the incompatibility at `j` are stored before it.
proof fn lemma_causes_before<P, VS: VersionSet, M>(store: Seq<Incompatibility<P, VS, M>>, j: int)
    requires
        0 <= j < store.len(),
        causes_precede(store),
    ensures
        cause_at(store[j], 1) matches Some(a) ==> 0 <= a < j,
        cause_at(store[j], 2) matches Some(b) ==> 0 <= b < j,
{
    assert(store[j].kind_spec() matches Kind::DerivedFrom(c1, c2) ==> 0 <= c1.index() < j && 0 <= c2.index() < j);
}

/// The sweep goes on to the incompatibility at `j`.
#[verifier::rlimit(60)]
proof fn lemma_sweep_step<P, VS: VersionSet, M>(
    store: Seq<Incompatibility<P, VS, M>>,
    m: Seq<bool>,
    refs: Seq<u8>,
    m2: Seq<bool>,
    refs2: Seq<u8>,
    j: int,
    root: int,
)
    requires
        0 <= j <= root < store.len(),
        causes_precede(store),
        sweep_inv(store, m, refs, j + 1, root),
        !m[j] || store[j].kind_spec() !is DerivedFrom ==> m2 == m && refs2 == refs,
        m[j] && store[j].kind_spec() is DerivedFrom ==> ({
            let a = cause_at(store[j], 1)->0;
            let b = cause_at(store[j], 2)->0;
            &&& m2 == m.update(a, true).update(b, true)
            &&& refs2 == refs.update(a, bump(refs[a])).update(b, bump(refs.update(a, bump(refs[a]))[b]))
        }),
    ensures
        sweep_inv(store, m2, refs2, j, root),
{
    lemma_causes_before(store, j);
    assert forall|i: int| 0 <= i <= root implies #[trigger] has_marked_parent(store, m2, j, i) == has_marked_parent(
        store,
        m,
        j,
        i,
    ) && has_two_marked_parents(store, m2, j, i) == has_two_marked_parents(store, m, j, i) by {
        if m[j] && store[j].kind_spec() is DerivedFrom {
            assert(cause_at(store[j], 1)->0 < j);
            assert(cause_at(store[j], 2)->0 < j);
        }
        lemma_marked_frame(store, m2, m, j, i);
    }
    assert forall|i: int| 0 <= i <= root implies #[trigger] has_marked_parent(store, m, j, i) == (has_marked_parent(
        store,
        m,
        j + 1,
        i,
    ) || (m[j] && (cause_at(store[j], 1) == Some(i) || cause_at(store[j], 2) == Some(i)))) && has_two_marked_parents(
        store,
        m,
        j,
        i,
    ) == (has_two_marked_parents(store, m, j + 1, i) || (m[j] && (((cause_at(store[j], 1) == Some(i) || cause_at(
        store[j],
        2,
    ) == Some(i)) && has_marked_parent(store, m, j + 1, i)) || (cause_at(store[j], 1) == Some(i) && cause_at(store[j], 2)
        == Some(i))))) by {
        lemma_marked_step(store, m, j, i);
    }
    if m[j] && store[j].kind_spec() is DerivedFrom {
        let a = cause_at(store[j], 1)->0;
        let b = cause_at(store[j], 2)->0;
        assert(0 <= a < j && 0 <= b < j);
        assert forall|i: int| 0 <= i <= root implies #[trigger] m2[i] == (i == root || has_marked_parent(store, m2, j, i)) by {
            if i == a || i == b {
                assert(has_marked_parent(store, m, j, i));
            }
        }
        assert forall|i: int| 0 <= i <= root implies #[trigger] refs2[i] <= 2 && (refs2[i] >= 1) == has_marked_parent(store, m2, j, i)
            && (refs2[i] >= 2) == has_two_marked_parents(store, m2, j, i) by {
            if i == a && i == b {
            } else if i == a {
            } else if i == b {
            } else {
                assert(refs2[i] == refs[i]);
            }
        }
    } else {
        assert forall|i: int| 0 <= i <= root implies #[trigger] m2[i] == (i == root || has_marked_parent(store, m2, j, i)) by {
            if !m[j] {
            } else {
                assert(cause_at(store[j], 1) is None);
                assert(cause_at(store[j], 2) is None);
            }
        }
        assert forall|i: int| 0 <= i <= root implies #[trigger] refs2[i] <= 2 && (refs2[i] >= 1) == has_marked_parent(store, m2, j, i)
            && (refs2[i] >= 2) == has_two_marked_parents(store, m2, j, i) by {
            if m[j] {
                assert(cause_at(store[j], 1) is None);
                assert(cause_at(store[j], 2) is None);
            }
        }
    }
}

/// The incompatibilities reached from `root` by following causes, and how many times each is
/// named as a cause by a reached one (one, or two and more).
fn reached_causes<P, VS: VersionSet, M>(root: Id<Incompatibility<P, VS, M>>, store: &Arena<Incompatibility<P, VS, M>>) -> (r: (
    Vec<bool>,
    Vec<u8>,
))
    requires
        root.index() < store@.len(),
        store@.len() <= u32::MAX,
        causes_precede(store@),
    ensures
        sweep_inv(store@, r.0@, r.1@, 0, root.index()),
{
    let n = root.into_raw() + 1;
    let mut reached: Vec<bool> = Vec::new();
    let mut refs: Vec<u8> = Vec::new();
    let mut k: usize = 0;
    while k < n
        invariant
            k <= n,
            n == root.index() + 1,
            reached@.len() == k,
            refs@.len() == k,
            forall|i: int| 0 <= i < k ==> #[trigger] reached@[i] == (i == root.index()),
            forall|i: int| 0 <= i < k ==> #[trigger] refs@[i] == 0,
        decreases n - k,
    {
        reached.push(k == root.into_raw());
        refs.push(0);
        k = k + 1;
    }
    proof {
        assert forall|i: int| 0 <= i < n implies !#[trigger] has_marked_parent(store@, reached@, n as int, i) by {}
        assert forall|i: int| 0 <= i < n implies !#[trigger] has_two_marked_parents(store@, reached@, n as int, i) by {}
    }
    let mut k: usize = n;
    while k > 0
        invariant
            k <= n,
            n == root.index() + 1,
            n <= store@.len(),
            store@.len() <= u32::MAX,
            causes_precede(store@),
            sweep_inv(store@, reached@, refs@, k as int, root.index()),
        decreases k,
    {
        let j = k - 1;
        let ghost m = reached@;
        let ghost rs = refs@;
        if reached[j] {
            let inc = store.get(Id::from_usize(j));
            match inc.causes() {
                Some((c1, c2)) => {
                    proof {
                        assert(store@[j as int].kind_spec() matches Kind::DerivedFrom(x1, x2) ==> x1.index() < j && x2.index() < j);
                    }
                    let a = c1.into_raw();
                    let b = c2.into_raw();
                    reached.set(a, true);
                    let x = if refs[a] < 2 { refs[a] + 1 } else { refs[a] };
                    refs.set(a, x);
                    reached.set(b, true);
                    let y = if refs[b] < 2 { refs[b] + 1 } else { refs[b] };
                    refs.set(b, y);
                },
                None => {},
            }
        }
        proof {
            lemma_sweep_step(store@, m, rs, reached@, refs@, j as int, root.index());
        }
        k = j;
    }
    (reached, refs)
}

/// Which identifiers have a node.
pub open spec fn with_node(nodes_of: Seq<Option<DerivationTreeId>>) -> Seq<bool> {
    Seq::new(nodes_of.len(), |i: int| nodes_of[i] is Some)
}

/// Whether the incompatibility at `i` is shared in the tree: it is derived, and named as a cause
/// twice by incompatibilities of the tree.
pub open spec fn shared_in<P, VS: VersionSet, M>(
    store: Seq<Incompatibility<P, VS, M>>,
    nodes_of: Seq<Option<DerivationTreeId>>,
    i: int,
) -> bool {
    store[i].kind_spec() is DerivedFrom && has_two_marked_parents(store, with_node(nodes_of), 0, i)
}

/// `tree` is the derivation tree of the incompatibility `root` of the store, where `nodes_of`
/// gives the node of each incompatibility of the tree: those of the tree are `root` and the
/// causes of the derived ones of the tree; each has one node, which mirrors it, and every node
/// is the node of one of them.
pub open spec fn is_tree_of<P: Clone, VS: VersionSet, M: Clone>(
    tree: DerivationTree<P, VS, M>,
    nodes_of: Seq<Option<DerivationTreeId>>,
    store: Seq<Incompatibility<P, VS, M>>,
    root: int,
    packages: Seq<P>,
) -> bool {
    &&& nodes_of.len() == root + 1
    &&& nodes_of[root] == Some(tree.root_spec())
    &&& forall|i: int| 0 <= i <= root ==> (#[trigger] nodes_of[i] is Some) == (i == root || has_marked_parent(
        store,
        with_node(nodes_of),
        0,
        i,
    ))
    &&& forall|i: int| 0 <= i <= root && #[trigger] nodes_of[i] is Some ==> {
        &&& nodes_of[i]->0.raw_spec() < tree.nodes().len()
        &&& mirrors(tree.nodes()[nodes_of[i]->0.raw_spec() as int], store[i], i, shared_in(store, nodes_of, i), packages, nodes_of)
    }
    &&& forall|t: int| 0 <= t < tree.nodes().len() ==> #[trigger] node_named(nodes_of, root, t)
}

/// Some incompatibility up to `root` has the node `t`.
pub open spec fn node_named(nodes_of: Seq<Option<DerivationTreeId>>, root: int, t: int) -> bool {
    exists|i: int| 0 <= i <= root && #[trigger] nodes_of[i] is Some && nodes_of[i]->0.raw_spec() == t
}

/// A node that mirrors an incompatibility still does once more incompatibilities have nodes.
proof fn lemma_mirrors_extend<P: Clone, VS: VersionSet, M: Clone>(
    node: DerivationTreeNode<P, VS, M>,
    inc: Incompatibility<P, VS, M>,
    id: int,
    shared: bool,
    packages: Seq<P>,
    a: Seq<Option<DerivationTreeId>>,
    b: Seq<Option<DerivationTreeId>>,
)
    requires
        mirrors(node, inc, id, shared, packages, a),
        a.len() == b.len(),
        forall|c: int| 0 <= c < a.len() && #[trigger] a[c] is Some ==> b[c] == a[c],
        inc.kind_spec() matches Kind::DerivedFrom(c1, c2) ==> 0 <= c1.index() < a.len() && 0 <= c2.index() < a.len(),
    ensures
        mirrors(node, inc, id, shared, packages, b),
{
    match inc.kind_spec() {
        Kind::DerivedFrom(c1, c2) => {
            assert(a[c1.index()] is Some);
            assert(a[c2.index()] is Some);
        },
        _ => {},
    }
}

/// The derivation tree of the incompatibility `incompat`: a node for it and for each
/// incompatibility it derives from, built causes first, with the incompatibilities named as a
/// cause more than once marked as shared.
pub fn build_derivation_tree<P: Ranked, VS: VersionSet, M: Clone>(
    incompat: Id<Incompatibility<P, VS, M>>,
    store: &Arena<Incompatibility<P, VS, M>>,
    package_store: &HashArena<P>,
) -> (r: DerivationTree<P, VS, M>)
    requires
        incompat.index() < store@.len(),
        store@.len() <= u32::MAX,
        causes_precede(store@),
        forall|i: int| 0 <= i < store@.len() ==> #[trigger] packages_known(store@[i], package_store@.len() as int),
        forall|i: int| 0 <= i < store@.len() ==> (#[trigger] store@[i].kind_spec() matches Kind::FromDependencyOf(p1, p2)
            ==> store@[i].is_dependency_shape(p1, p2)),
    ensures
        r.wf(),
        causes_before(r.nodes()),
        exists|nodes_of: Seq<Option<DerivationTreeId>>| is_tree_of(r, nodes_of, store@, incompat.index(), package_store@),
{
    let ghost root = incompat.index();
    let (reached, refs) = reached_causes(incompat, store);
    let n = incompat.into_raw() + 1;
    let mut shared_ids: Vec<bool> = Vec::new();
    let mut precomputed: Vec<Option<DerivationTreeId>> = Vec::new();
    let mut k: usize = 0;
    while k < n
        invariant
            k <= n,
            n == root + 1,
            n <= store@.len(),
            store@.len() <= u32::MAX,
            reached@.len() == n,
            refs@.len() == n,
            shared_ids@.len() == k,
            precomputed@.len() == k,
            forall|i: int| 0 <= i < k ==> #[trigger] shared_ids@[i] == (refs@[i] >= 2 && store@[i].kind_spec() is DerivedFrom),
            forall|i: int| 0 <= i < k ==> #[trigger] precomputed@[i] is None,
        decreases n - k,
    {
        let derived = store.get(Id::from_usize(k)).causes().is_some();
        shared_ids.push(refs[k] >= 2 && derived);
        precomputed.push(None);
        k = k + 1;
    }
    let mut arena: Vec<DerivationTreeNode<P, VS, M>> = Vec::new();
    let mut j: usize = 0;
    while j < n
        invariant
            j <= n,
            n == root + 1,
            n <= store@.len(),
            store@.len() <= u32::MAX,
            causes_precede(store@),
            forall|i: int| 0 <= i < store@.len() ==> #[trigger] packages_known(store@[i], package_store@.len() as int),
            forall|i: int| 0 <= i < store@.len() ==> (#[trigger] store@[i].kind_spec() matches Kind::FromDependencyOf(p1, p2)
                ==> store@[i].is_dependency_shape(p1, p2)),
            sweep_inv(store@, reached@, refs@, 0, root),
            shared_ids@.len() == n,
            forall|i: int| 0 <= i < n ==> #[trigger] shared_ids@[i] == (refs@[i] >= 2 && store@[i].kind_spec() is DerivedFrom),
            precomputed@.len() == n,
            forall|i: int| 0 <= i < n ==> (#[trigger] precomputed@[i] is Some) == (i < j && reached@[i]),
            forall|i: int| 0 <= i < n && #[trigger] precomputed@[i] is Some ==> {
                &&& precomputed@[i]->0.raw_spec() < arena@.len()
                &&& mirrors(arena@[precomputed@[i]->0.raw_spec() as int], store@[i], i, shared_ids@[i], package_store@, precomputed@)
            },
            forall|t: int| 0 <= t < arena@.len() ==> #[trigger] node_named(precomputed@, root, t),
            causes_before(arena@),
        decreases n - j,
    {
        if reached[j] {
            proof {
                lemma_causes_before(store@, j as int);
                assert(store@[j as int].kind_spec() matches Kind::DerivedFrom(c1, c2) ==> c1.index() == cause_at(store@[j as int], 1)->0
                    && c2.index() == cause_at(store@[j as int], 2)->0);
                if store@[j as int].kind_spec() is DerivedFrom {
                    let a = cause_at(store@[j as int], 1)->0;
                    let b = cause_at(store@[j as int], 2)->0;
                    assert(has_marked_parent(store@, reached@, 0, a));
                    assert(has_marked_parent(store@, reached@, 0, b));
                    assert(reached@[a]);
                    assert(reached@[b]);
                }
                assert(packages_known(store@[j as int], package_store@.len() as int));
            }
            let node = Incompatibility::build_derivation_tree(
                Id::from_usize(j),
                shared_ids.as_slice(),
                store,
                package_store,
                precomputed.as_slice(),
            );
            let ghost before = precomputed@;
            let ghost arena_before = arena@;
            let id = DerivationTree::alloc_node(&mut arena, node);
            precomputed.set(j, Some(id));
            proof {
                assert forall|i: int| 0 <= i < n && #[trigger] precomputed@[i] is Some implies {
                    &&& precomputed@[i]->0.raw_spec() < arena@.len()
                    &&& mirrors(arena@[precomputed@[i]->0.raw_spec() as int], store@[i], i, shared_ids@[i], package_store@, precomputed@)
                } by {
                    lemma_causes_before(store@, i);
                    assert(store@[i].kind_spec() matches Kind::DerivedFrom(c1, c2) ==> c1.index() == cause_at(store@[i], 1)->0
                        && c2.index() == cause_at(store@[i], 2)->0);
                    if i == j {
                        lemma_mirrors_extend(node, store@[i], i, shared_ids@[i], package_store@, before, precomputed@);
                    } else {
                        assert(before[i] is Some);
                        assert(arena@[precomputed@[i]->0.raw_spec() as int] == arena_before[before[i]->0.raw_spec() as int]);
                        lemma_mirrors_extend(arena_before[before[i]->0.raw_spec() as int], store@[i], i, shared_ids@[i], package_store@, before, precomputed@);
                    }
                }
                assert forall|t: int| 0 <= t < arena@.len() implies (#[trigger] arena@[t] matches DerivationTreeNode::Derived(d)
                    ==> d.cause1.raw_spec() < t && d.cause2.raw_spec() < t) by {
                    if t < arena_before.len() {
                        assert(arena@[t] == arena_before[t]);
                    } else {
                        lemma_causes_before(store@, j as int);
                        if store@[j as int].kind_spec() is DerivedFrom {
                            let a = cause_at(store@[j as int], 1)->0;
                            let b = cause_at(store@[j as int], 2)->0;
                            assert(before[a] is Some);
                            assert(before[b] is Some);
                        }
                    }
                }
                assert forall|t: int| 0 <= t < arena@.len() implies #[trigger] node_named(precomputed@, root, t) by {
                    if t < arena_before.len() {
                        assert(node_named(before, root, t));
                        let i = choose|i: int| 0 <= i <= root && #[trigger] before[i] is Some && before[i]->0.raw_spec() == t;
                        assert(precomputed@[i] == before[i]);
                    } else {
                        assert(precomputed@[j as int] is Some);
                    }
                }
            }
        }
        j = j + 1;
    }
    proof {
        assert(reached@[root]);
        assert(precomputed@[root] is Some);
    }
    let root_node = precomputed[incompat.into_raw()].unwrap();
    let tree = DerivationTree::from_arena(arena, root_node);
    proof {
        let nodes_of = precomputed@;
        assert(with_node(nodes_of) =~= reached@);
        assert forall|t: int| 0 <= t < tree.nodes().len() implies match #[trigger] tree.nodes()[t] {
            DerivationTreeNode::Derived(d) => d.cause1.raw_spec() < tree.nodes().len() && d.cause2.raw_spec() < tree.nodes().len(),
            DerivationTreeNode::External(_) => true,
        } by {
            assert(node_named(nodes_of, root, t));
            let i = choose|i: int| 0 <= i <= root && #[trigger] nodes_of[i] is Some && nodes_of[i]->0.raw_spec() == t;
            lemma_causes_before(store@, i);
            if store@[i].kind_spec() is DerivedFrom {
                let a = cause_at(store@[i], 1)->0;
                let b = cause_at(store@[i], 2)->0;
                assert(nodes_of[a] is Some);
                assert(nodes_of[b] is Some);
            }
        }
        assert forall|i: int| 0 <= i <= root && #[trigger] nodes_of[i] is Some implies {
            &&& nodes_of[i]->0.raw_spec() < tree.nodes().len()
            &&& mirrors(tree.nodes()[nodes_of[i]->0.raw_spec() as int], store@[i], i, shared_in(store@, nodes_of, i), package_store@, nodes_of)
        } by {
            assert(shared_ids@[i] == shared_in(store@, nodes_of, i));
        }
        assert(is_tree_of(tree, nodes_of, store@, root, package_store@));
    }
    tree
}


/// Whether the terms given hold a term for the package of the entry that makes the entry's
/// term true whenever it is true.
pub open spec fn terms_satisfy<P, VS: VersionSet>(terms: Seq<(Id<P>, Term<VS>)>, entry: (Id<P>, Term<VS>)) -> bool {
    match lookup(terms, entry.0.index()) {
        Some(s) => s.included_in(entry.1),
        None => false,
    }
}

/// Whether the terms given hold a term for the package of the entry that makes the entry's
/// term false whenever it is true.
pub open spec fn terms_contradict<P, VS: VersionSet>(terms: Seq<(Id<P>, Term<VS>)>, entry: (Id<P>, Term<VS>)) -> bool {
    match lookup(terms, entry.0.index()) {
        Some(s) => s.excludes(entry.1),
        None => false,
    }
}

/// Whether the terms given satisfy every entry from position `from` on, but the one at `skip`.
pub open spec fn satisfied_but<P, VS: VersionSet>(
    entries: Seq<(Id<P>, Term<VS>)>,
    terms: Seq<(Id<P>, Term<VS>)>,
    from: int,
    skip: int,
) -> bool {
    forall|j: int| from <= j < entries.len() && j != skip ==> terms_satisfy(terms, #[trigger] entries[j])
}

/// What the relation of the terms to the entries from position `k` on says of those entries.
proof fn lemma_relation_from_meaning<P, VS: VersionSet>(
    e: Seq<(Id<P>, Term<VS>)>,
    ts: Seq<(Id<P>, Term<VS>)>,
    k: int,
    almost: Option<Id<P>>,
)
    requires
        0 <= k <= e.len(),
    ensures
        satisfied_but(e, ts, k, -1) ==> relation_from(e, ts, k, almost) == match almost {
            None => Relation::Satisfied,
            Some(q) => Relation::AlmostSatisfied(q),
        },
        relation_from(e, ts, k, almost) is Satisfied ==> almost is None && satisfied_but(e, ts, k, -1),
        almost is Some && relation_from(e, ts, k, almost) is AlmostSatisfied ==> relation_from(e, ts, k, almost)
            == Relation::AlmostSatisfied(almost->0) && satisfied_but(e, ts, k, -1),
        almost is None ==> (relation_from(e, ts, k, almost) matches Relation::AlmostSatisfied(p) ==> exists|j: int|
            k <= j < e.len() && (#[trigger] e[j]).0 == p && !terms_satisfy(ts, e[j]) && !terms_contradict(ts, e[j])
                && satisfied_but(e, ts, k, j)),
        relation_from(e, ts, k, almost) matches Relation::Contradicted(p) ==> exists|j: int|
            k <= j < e.len() && (#[trigger] e[j]).0 == p && !terms_satisfy(ts, e[j]) && terms_contradict(ts, e[j]),
        almost is None ==> forall|j: int|
            k <= j < e.len() && !terms_satisfy(ts, #[trigger] e[j]) && !terms_contradict(ts, e[j]) && satisfied_but(e, ts, k, j)
                ==> relation_from(e, ts, k, almost) == Relation::AlmostSatisfied(e[j].0),
    decreases e.len() - k,
{
    if k < e.len() {
        let entry = e[k];
        let sat = terms_satisfy(ts, entry);
        let contra = terms_contradict(ts, entry);
        let r = relation_from(e, ts, k, almost);
        assert(term_relation(entry.1, lookup(ts, entry.0.index())) == if sat {
            term::Relation::Satisfied
        } else if contra {
            term::Relation::Contradicted
        } else {
            term::Relation::Inconclusive
        });
        if satisfied_but(e, ts, k, -1) {
            assert(terms_satisfy(ts, e[k]));
            assert(satisfied_but(e, ts, k + 1, -1));
        }
        if sat {
            lemma_relation_from_meaning(e, ts, k + 1, almost);
            assert(r == relation_from(e, ts, k + 1, almost));
            if satisfied_but(e, ts, k + 1, -1) {
                assert(satisfied_but(e, ts, k, -1));
            }
            if almost is None && r is AlmostSatisfied {
                let j = choose|j: int|
                    k + 1 <= j < e.len() && (#[trigger] e[j]).0 == r->AlmostSatisfied_0 && !terms_satisfy(ts, e[j])
                        && !terms_contradict(ts, e[j]) && satisfied_but(e, ts, k + 1, j);
                assert(satisfied_but(e, ts, k, j));
            }
            if r is Contradicted {
                let j = choose|j: int|
                    k + 1 <= j < e.len() && (#[trigger] e[j]).0 == r->Contradicted_0 && !terms_satisfy(ts, e[j])
                        && terms_contradict(ts, e[j]);
                assert(e[j].0 == r->Contradicted_0);
            }
            assert forall|j: int|
                k <= j < e.len() && !terms_satisfy(ts, #[trigger] e[j]) && !terms_contradict(ts, e[j]) && satisfied_but(
                    e,
                    ts,
                    k,
                    j,
                ) && almost is None implies r == Relation::AlmostSatisfied(e[j].0) by {
                assert(j != k);
                assert(satisfied_but(e, ts, k + 1, j));
            }
        } else if contra {
            assert(r == Relation::Contradicted(entry.0));
            assert(e[k].0 == entry.0);
            assert forall|j: int|
                k <= j < e.len() && !terms_satisfy(ts, #[trigger] e[j]) && !terms_contradict(ts, e[j]) && satisfied_but(
                    e,
                    ts,
                    k,
                    j,
                ) implies false by {
                if j != k {
                    assert(terms_satisfy(ts, e[k]));
                }
            }
        } else {
            match almost {
                None => {
                    lemma_relation_from_meaning(e, ts, k + 1, Some(entry.0));
                    assert(r == relation_from(e, ts, k + 1, Some(entry.0)));
                    if r is AlmostSatisfied {
                        assert(satisfied_but(e, ts, k, k));
                        assert(e[k].0 == entry.0);
                    }
                    if r is Contradicted {
                        let j = choose|j: int|
                            k + 1 <= j < e.len() && (#[trigger] e[j]).0 == r->Contradicted_0 && !terms_satisfy(ts, e[j])
                                && terms_contradict(ts, e[j]);
                        assert(e[j].0 == r->Contradicted_0);
                    }
                    assert forall|j: int|
                        k <= j < e.len() && !terms_satisfy(ts, #[trigger] e[j]) && !terms_contradict(ts, e[j])
                            && satisfied_but(e, ts, k, j) implies r == Relation::AlmostSatisfied(e[j].0) by {
                        if j != k {
                            assert(terms_satisfy(ts, e[k]));
                        } else {
                            assert(satisfied_but(e, ts, k + 1, -1));
                        }
                    }
                },
                Some(_) => {
                    assert(r == Relation::<P>::Inconclusive);
                },
            }
        }
    }
}

/// Whether the terms given contradict the entry: they do not satisfy it, and the term of its
/// package makes the entry's term false.
pub open spec fn terms_refute<P, VS: VersionSet>(terms: Seq<(Id<P>, Term<VS>)>, entry: (Id<P>, Term<VS>)) -> bool {
    !terms_satisfy(terms, entry) && terms_contradict(terms, entry)
}

/// Whether the terms given neither satisfy nor contradict the entry.
pub open spec fn terms_unsettled<P, VS: VersionSet>(terms: Seq<(Id<P>, Term<VS>)>, entry: (Id<P>, Term<VS>)) -> bool {
    !terms_satisfy(terms, entry) && !terms_contradict(terms, entry)
}

/// The number of entries at positions `a` to `b`, `b` excluded, that the terms neither
/// satisfy nor contradict.
pub open spec fn unsettled_count<P, VS: VersionSet>(
    entries: Seq<(Id<P>, Term<VS>)>,
    terms: Seq<(Id<P>, Term<VS>)>,
    a: int,
    b: int,
) -> nat
    decreases b - a,
{
    if a >= b {
        0
    } else {
        (if terms_unsettled(terms, entries[a]) {
            1nat
        } else {
            0nat
        }) + unsettled_count(entries, terms, a + 1, b)
    }
}

/// Whether the terms given contradict none of the entries at positions `a` to `b`, `b` excluded.
pub open spec fn none_refuted_in<P, VS: VersionSet>(
    entries: Seq<(Id<P>, Term<VS>)>,
    terms: Seq<(Id<P>, Term<VS>)>,
    a: int,
    b: int,
) -> bool {
    forall|j: int| a <= j < b ==> !terms_refute(terms, #[trigger] entries[j])
}

/// Which entry decides the relation of the terms to the entries from position `k` on, when it
/// is neither satisfied nor almost satisfied: the first contradicted entry, unless more entries
/// neither satisfied nor contradicted come before it than the one allowed, none if an entry was
/// already found inconclusive before `k`.
proof fn lemma_relation_from_order<P, VS: VersionSet>(
    e: Seq<(Id<P>, Term<VS>)>,
    ts: Seq<(Id<P>, Term<VS>)>,
    k: int,
    almost: Option<Id<P>>,
)
    requires
        0 <= k <= e.len(),
    ensures
        relation_from(e, ts, k, almost) matches Relation::Contradicted(p) ==> exists|j: int|
            k <= j < e.len() && (#[trigger] e[j]).0 == p && terms_refute(ts, e[j]) && none_refuted_in(e, ts, k, j)
                && unsettled_count(e, ts, k, j) + (if almost is Some { 1int } else { 0int }) <= 1,
        forall|j: int|
            k <= j < e.len() && terms_refute(ts, #[trigger] e[j]) && none_refuted_in(e, ts, k, j) && unsettled_count(e, ts, k, j)
                + (if almost is Some { 1int } else { 0int }) <= 1 ==> relation_from(e, ts, k, almost) == Relation::Contradicted(
                e[j].0,
            ),
        (relation_from(e, ts, k, almost) is Inconclusive) == exists|m: int|
            k <= m <= e.len() && #[trigger] unsettled_count(e, ts, k, m) + (if almost is Some { 1int } else { 0int }) >= 2
                && none_refuted_in(e, ts, k, m),
    decreases e.len() - k,
{
    let extra: int = if almost is Some { 1int } else { 0int };
    let r = relation_from(e, ts, k, almost);
    if k < e.len() {
        let entry = e[k];
        let sat = terms_satisfy(ts, entry);
        let contra = terms_contradict(ts, entry);
        assert(term_relation(entry.1, lookup(ts, entry.0.index())) == if sat {
            term::Relation::Satisfied
        } else if contra {
            term::Relation::Contradicted
        } else {
            term::Relation::Inconclusive
        });
        assert forall|j: int| k < j <= e.len() implies #[trigger] unsettled_count(e, ts, k, j) == (if terms_unsettled(ts, e[k]) {
            1int
        } else {
            0int
        }) + unsettled_count(e, ts, k + 1, j) by {
        }
        assert(unsettled_count(e, ts, k, k) == 0);
        assert forall|j: int| k < j <= e.len() implies #[trigger] none_refuted_in(e, ts, k, j) == (!terms_refute(ts, e[k])
            && none_refuted_in(e, ts, k + 1, j)) by {
            if !terms_refute(ts, e[k]) && none_refuted_in(e, ts, k + 1, j) {
                assert forall|i: int| k <= i < j implies !terms_refute(ts, #[trigger] e[i]) by {
                    if i > k {
                        assert(k + 1 <= i < j);
                    }
                }
            }
        }
        if sat {
            lemma_relation_from_order(e, ts, k + 1, almost);
            assert(r == relation_from(e, ts, k + 1, almost));
            if r is Contradicted {
                let j = choose|j: int|
                    k + 1 <= j < e.len() && (#[trigger] e[j]).0 == r->Contradicted_0 && terms_refute(ts, e[j]) && none_refuted_in(
                        e,
                        ts,
                        k + 1,
                        j,
                    ) && unsettled_count(e, ts, k + 1, j) + extra <= 1;
                assert(none_refuted_in(e, ts, k, j) && unsettled_count(e, ts, k, j) == unsettled_count(e, ts, k + 1, j));
            }
            assert forall|j: int|
                k <= j < e.len() && terms_refute(ts, #[trigger] e[j]) && none_refuted_in(e, ts, k, j) && unsettled_count(
                    e,
                    ts,
                    k,
                    j,
                ) + extra <= 1 implies r == Relation::Contradicted(e[j].0) by {
                assert(j != k);
                assert(unsettled_count(e, ts, k, j) == unsettled_count(e, ts, k + 1, j));
                assert(none_refuted_in(e, ts, k + 1, j));
            }
            if r is Inconclusive {
                let m = choose|m: int|
                    k + 1 <= m <= e.len() && #[trigger] unsettled_count(e, ts, k + 1, m) + extra >= 2 && none_refuted_in(
                        e,
                        ts,
                        k + 1,
                        m,
                    );
                assert(unsettled_count(e, ts, k, m) == unsettled_count(e, ts, k + 1, m));
                assert(none_refuted_in(e, ts, k, m));
            }
            assert forall|m: int|
                k <= m <= e.len() && #[trigger] unsettled_count(e, ts, k, m) + extra >= 2 && none_refuted_in(e, ts, k, m)
                    implies r is Inconclusive by {
                assert(m != k);
                assert(unsettled_count(e, ts, k, m) == unsettled_count(e, ts, k + 1, m));
                assert(none_refuted_in(e, ts, k + 1, m));
            }
        } else if contra {
            assert(r == Relation::Contradicted(entry.0));
            assert(terms_refute(ts, e[k]) && e[k].0 == entry.0);
            assert(none_refuted_in(e, ts, k, k));
            assert forall|j: int|
                k <= j < e.len() && terms_refute(ts, #[trigger] e[j]) && none_refuted_in(e, ts, k, j) && unsettled_count(
                    e,
                    ts,
                    k,
                    j,
                ) + extra <= 1 implies r == Relation::Contradicted(e[j].0) by {
                if j > k {
                    assert(!terms_refute(ts, e[k]));
                }
            }
            assert forall|m: int|
                k <= m <= e.len() && #[trigger] unsettled_count(e, ts, k, m) + extra >= 2 implies !none_refuted_in(e, ts, k, m) by {
                if m > k {
                    assert(terms_refute(ts, e[k]));
                }
            }
        } else {
            assert(terms_unsettled(ts, e[k]));
            match almost {
                None => {
                    lemma_relation_from_order(e, ts, k + 1, Some(entry.0));
                    assert(r == relation_from(e, ts, k + 1, Some(entry.0)));
                    if r is Contradicted {
                        let j = choose|j: int|
                            k + 1 <= j < e.len() && (#[trigger] e[j]).0 == r->Contradicted_0 && terms_refute(ts, e[j])
                                && none_refuted_in(e, ts, k + 1, j) && unsettled_count(e, ts, k + 1, j) + 1int <= 1;
                        assert(none_refuted_in(e, ts, k, j) && unsettled_count(e, ts, k, j) == 1 + unsettled_count(e, ts, k + 1, j));
                    }
                    assert forall|j: int|
                        k <= j < e.len() && terms_refute(ts, #[trigger] e[j]) && none_refuted_in(e, ts, k, j) && unsettled_count(
                            e,
                            ts,
                            k,
                            j,
                        ) + extra <= 1 implies r == Relation::Contradicted(e[j].0) by {
                        assert(j != k);
                        assert(unsettled_count(e, ts, k, j) == 1 + unsettled_count(e, ts, k + 1, j));
                        assert(none_refuted_in(e, ts, k + 1, j));
                    }
                    if r is Inconclusive {
                        let m = choose|m: int|
                            k + 1 <= m <= e.len() && #[trigger] unsettled_count(e, ts, k + 1, m) + 1int >= 2 && none_refuted_in(
                                e,
                                ts,
                                k + 1,
                                m,
                            );
                        assert(unsettled_count(e, ts, k, m) == 1 + unsettled_count(e, ts, k + 1, m));
                        assert(none_refuted_in(e, ts, k, m));
                    }
                    assert forall|m: int|
                        k <= m <= e.len() && #[trigger] unsettled_count(e, ts, k, m) + extra >= 2 && none_refuted_in(e, ts, k, m)
                            implies r is Inconclusive by {
                        assert(m != k);
                        assert(unsettled_count(e, ts, k, m) == 1 + unsettled_count(e, ts, k + 1, m));
                        assert(none_refuted_in(e, ts, k + 1, m));
                    }
                },
                Some(_) => {
                    assert(r == Relation::<P>::Inconclusive);
                    assert(unsettled_count(e, ts, k + 1, k + 1) == 0);
                    assert(unsettled_count(e, ts, k, k + 1) == 1);
                    assert(none_refuted_in(e, ts, k, k + 1)) by {
                        assert forall|i: int| k <= i < k + 1 implies !terms_refute(ts, #[trigger] e[i]) by {
                            assert(i == k);
                        }
                    }
                    assert forall|j: int|
                        k <= j < e.len() && terms_refute(ts, #[trigger] e[j]) && none_refuted_in(e, ts, k, j) implies unsettled_count(
                            e,
                            ts,
                            k,
                            j,
                        ) + extra > 1 by {
                        assert(j != k);
                        assert(unsettled_count(e, ts, k, j) == 1 + unsettled_count(e, ts, k + 1, j));
                    }
                },
            }
        }
    } else {
        assert(unsettled_count(e, ts, k, k) == 0);
        assert forall|m: int| k <= m <= e.len() implies #[trigger] unsettled_count(e, ts, k, m) + extra < 2 by {
            assert(m == k);
        }
    }
}

/// The relation of a set of terms to an incompatibility, term by term: it is `Satisfied`
/// exactly when the terms give every package of the incompatibility a term that makes the
/// incompatibility's term true (so a package without a term never lets it be satisfied); it is
/// `AlmostSatisfied(p)` only for the package of an entry that is neither satisfied nor
/// contradicted while all others are satisfied, and always so where there is exactly one such
/// entry, in particular one whose package has no term. Otherwise the first contradicted entry
/// decides: the relation is `Contradicted(p)` for its package, unless two entries neither
/// satisfied nor contradicted come before it, or there is no contradicted entry at all and two
/// such entries, in which case it is `Inconclusive`.
pub proof fn law_incompatibility_relation<P, VS: VersionSet>(e: Seq<(Id<P>, Term<VS>)>, ts: Seq<(Id<P>, Term<VS>)>)
    ensures
        (relation_from(e, ts, 0, None) is Satisfied) == forall|k: int| 0 <= k < e.len() ==> terms_satisfy(ts, #[trigger] e[k]),
        relation_from(e, ts, 0, None) matches Relation::AlmostSatisfied(p) ==> exists|k: int|
            0 <= k < e.len() && (#[trigger] e[k]).0 == p && !terms_satisfy(ts, e[k]) && !terms_contradict(ts, e[k])
                && satisfied_but(e, ts, 0, k),
        relation_from(e, ts, 0, None) matches Relation::Contradicted(p) ==> exists|k: int|
            0 <= k < e.len() && (#[trigger] e[k]).0 == p && !terms_satisfy(ts, e[k]) && terms_contradict(ts, e[k]),
        forall|k: int|
            0 <= k < e.len() && !terms_satisfy(ts, #[trigger] e[k]) && !terms_contradict(ts, e[k]) && satisfied_but(e, ts, 0, k)
                ==> relation_from(e, ts, 0, None) == Relation::AlmostSatisfied(e[k].0),
        forall|k: int|
            0 <= k < e.len() && lookup(ts, (#[trigger] e[k]).0.index()) is None && satisfied_but(e, ts, 0, k)
                ==> relation_from(e, ts, 0, None) == Relation::AlmostSatisfied(e[k].0),
        relation_from(e, ts, 0, None) matches Relation::Contradicted(p) ==> exists|k: int|
            0 <= k < e.len() && (#[trigger] e[k]).0 == p && terms_refute(ts, e[k]) && none_refuted_in(e, ts, 0, k)
                && unsettled_count(e, ts, 0, k) <= 1,
        forall|k: int|
            0 <= k < e.len() && terms_refute(ts, #[trigger] e[k]) && none_refuted_in(e, ts, 0, k) && unsettled_count(e, ts, 0, k)
                <= 1 ==> relation_from(e, ts, 0, None) == Relation::Contradicted(e[k].0),
        (relation_from(e, ts, 0, None) is Inconclusive) == exists|m: int|
            0 <= m <= e.len() && #[trigger] unsettled_count(e, ts, 0, m) >= 2 && none_refuted_in(e, ts, 0, m),
{
    lemma_relation_from_meaning(e, ts, 0, None);
    lemma_relation_from_order(e, ts, 0, None);
    assert((forall|k: int| 0 <= k < e.len() ==> terms_satisfy(ts, #[trigger] e[k])) == satisfied_but(e, ts, 0, -1));
}

} // verus!
