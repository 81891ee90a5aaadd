use pubgrub::experimental::{Term, VersionIndex, VersionSet};
use pubgrub::incompatibility::ContradictionCache;
use pubgrub::package::{PackageArena, PackageId};
use pubgrub::partial_solution::{DecisionLevel, IncompatId, IncompatRelation, PartialSolution, SatisfierSearch};

fn v(i: u8) -> VersionIndex {
    VersionIndex::new(i).unwrap()
}

fn set(versions: &[u8]) -> VersionSet {
    let mut vs = VersionSet::empty();
    for &i in versions {
        vs = vs.union(VersionSet::singleton(v(i)));
    }
    vs
}

fn store_of(packages: &[u32]) -> PackageArena<u32> {
    let mut arena = PackageArena::new();
    for &p in packages {
        arena.insert(p);
    }
    arena
}

#[test]
fn derivations_intersect_and_decisions_fix_the_version() {
    let p0 = PackageId(0);
    let mut ps = PartialSolution::empty(PackageId(1));
    assert_eq!(ps.term_intersection_for_package(p0), None);

    ps.add_derivation(p0, IncompatId(0), Term::negative(VersionSet::full()));
    assert_eq!(ps.term_intersection_for_package(p0), Some(Term::positive(VersionSet::full())));

    ps.add_derivation(p0, IncompatId(1), Term::positive(set(&[1, 2])));
    assert_eq!(
        ps.term_intersection_for_package(p0),
        Some(Term::positive(set(&[1, 2]).complement()))
    );

    assert_eq!(ps.pick_highest_priority_pkg(|_, _| 0u32), Some(p0));
    assert_eq!(ps.pick_highest_priority_pkg(|_, _| 0u32), None);
    ps.add_decision(p0, v(3));
    assert_eq!(ps.term_intersection_for_package(p0), Some(Term::exact(v(3))));
    assert_eq!(ps.extract_solution(store_of(&[10, 11])), vec![(10, v(3))]);
}

#[test]
fn backtracking_undoes_later_decisions_and_derivations() {
    let p0 = PackageId(0);
    let p1 = PackageId(1);
    let mut ps = PartialSolution::empty(PackageId(1));
    ps.add_derivation(p0, IncompatId(0), Term::negative(VersionSet::full()));
    assert_eq!(ps.pick_highest_priority_pkg(|_, _| 0u32), Some(p0));
    ps.add_decision(p0, v(3));
    ps.add_derivation(p1, IncompatId(1), Term::negative(set(&[2])));
    assert_eq!(ps.term_intersection_for_package(p1), Some(Term::positive(set(&[2]))));

    ps.backtrack(DecisionLevel(0));
    assert_eq!(ps.term_intersection_for_package(p0), Some(Term::positive(VersionSet::full())));
    assert_eq!(ps.term_intersection_for_package(p1), None);
    assert_eq!(ps.extract_solution(store_of(&[10, 11])), vec![]);

    // The assignments can be made again after backtracking.
    assert_eq!(ps.pick_highest_priority_pkg(|_, _| 0u32), Some(p0));
    ps.add_decision(p0, v(5));
    assert_eq!(ps.extract_solution(store_of(&[10, 11])), vec![(10, v(5))]);
}

#[test]
fn satisfier_search_finds_same_decision_levels() {
    let p0 = PackageId(0);
    let p1 = PackageId(1);
    let mut ps = PartialSolution::empty(PackageId(1));
    ps.add_derivation(p0, IncompatId(0), Term::negative(VersionSet::full()));
    assert_eq!(ps.pick_highest_priority_pkg(|_, _| 0u32), Some(p0));
    ps.add_decision(p0, v(3));
    // p0 at version 3 depends on p1 at version 2.
    ps.add_derivation(p1, IncompatId(1), Term::negative(set(&[2])));
    let store = vec![
        vec![(p0, Term::positive(VersionSet::full()).negate())],
        vec![(p0, Term::positive(set(&[3]))), (p1, Term::negative(set(&[2])))],
        vec![(p1, Term::positive(set(&[2])))],
    ];
    let (package, search) = ps.satisfier_search(&store[2], &store);
    assert_eq!(package, p1);
    assert!(matches!(search, SatisfierSearch::SameDecisionLevels { satisfier_cause: IncompatId(1) }));
}

#[test]
fn satisfier_search_finds_different_decision_levels() {
    let p0 = PackageId(0);
    let p1 = PackageId(1);
    let mut ps = PartialSolution::empty(PackageId(1));
    ps.add_derivation(p0, IncompatId(0), Term::negative(VersionSet::full()));
    assert_eq!(ps.pick_highest_priority_pkg(|_, _| 0u32), Some(p0));
    ps.add_decision(p0, v(3));
    ps.add_derivation(p1, IncompatId(1), Term::negative(set(&[1, 2])));
    assert_eq!(ps.pick_highest_priority_pkg(|_, _| 0u32), Some(p1));
    ps.add_decision(p1, v(2));
    let store = vec![
        vec![(p0, Term::positive(VersionSet::full()).negate())],
        vec![(p0, Term::positive(set(&[3]))), (p1, Term::negative(set(&[1, 2])))],
        vec![(p1, Term::positive(set(&[2]))), (p0, Term::positive(set(&[3])))],
    ];
    let (package, search) = ps.satisfier_search(&store[2], &store);
    assert_eq!(package, p1);
    assert!(matches!(
        search,
        SatisfierSearch::DifferentDecisionLevels { previous_satisfier_level: DecisionLevel(1) }
    ));
}

#[test]
fn add_version_checks_new_dependencies_after_a_backtrack() {
    let p0 = PackageId(0);
    let p1 = PackageId(1);
    let mut ps = PartialSolution::empty(PackageId(1));
    ps.add_derivation(p0, IncompatId(0), Term::negative(VersionSet::full()));
    ps.add_derivation(p1, IncompatId(1), Term::negative(set(&[4])));
    // The package with the highest priority comes first.
    let first = |p: PackageId, _: VersionSet| if p == p0 { 1u32 } else { 0 };
    assert_eq!(ps.pick_highest_priority_pkg(first), Some(p0));
    ps.add_decision(p0, v(1));
    ps.backtrack(DecisionLevel(0));
    assert_eq!(ps.pick_highest_priority_pkg(first), Some(p0));
    // A dependency of p0 at version 1 on p1 outside of version 4 is satisfied: no decision.
    let store = vec![vec![(p0, Term::exact(v(1))), (p1, Term::negative(set(&[4])).negate().negate())]];
    let conflicting = vec![vec![(p0, Term::exact(v(1))), (p1, Term::positive(set(&[4])))]];
    ps.add_version(p0, v(1), IncompatId(0)..IncompatId(1), &conflicting);
    assert_eq!(ps.term_intersection_for_package(p0), Some(Term::positive(VersionSet::full())));
    // Without a conflict the version is decided.
    ps.add_version(p0, v(1), IncompatId(0)..IncompatId(0), &store);
    assert_eq!(ps.term_intersection_for_package(p0), Some(Term::exact(v(1))));
}

#[test]
fn add_version_decides_before_any_backtrack() {
    let p0 = PackageId(0);
    let mut ps = PartialSolution::empty(PackageId(0));
    ps.add_derivation(p0, IncompatId(0), Term::negative(VersionSet::full()));
    let conflicting = vec![vec![(p0, Term::exact(v(2)))]];
    assert_eq!(ps.pick_highest_priority_pkg(|_, vs: VersionSet| vs.count() as u64), Some(p0));
    ps.add_version(p0, v(2), IncompatId(0)..IncompatId(1), &conflicting);
    assert_eq!(ps.term_intersection_for_package(p0), Some(Term::exact(v(2))));
}

#[test]
fn contradictions_hold_until_a_backtrack_below_their_level() {
    let p0 = PackageId(0);
    let p1 = PackageId(1);
    let mut ps = PartialSolution::empty(PackageId(1));
    ps.add_derivation(p0, IncompatId(0), Term::negative(VersionSet::full()));
    assert_eq!(ps.pick_highest_priority_pkg(|_, _| 0u32), Some(p0));
    ps.add_decision(p0, v(3));
    ps.add_derivation(p1, IncompatId(1), Term::negative(VersionSet::full()));
    assert_eq!(ps.pick_highest_priority_pkg(|_, _| 0u32), Some(p1));
    ps.add_decision(p1, v(1));

    // Contradicted at level 2.
    let mut at_two = ContradictionCache::not_contradicted();
    ps.contradict(&mut at_two);
    assert!(ps.is_contradicted(&at_two));
    assert_eq!(at_two.decision_level, DecisionLevel(2));

    // Backtracking to level 1 undoes it.
    ps.backtrack(DecisionLevel(1));
    assert!(!ps.is_contradicted(&at_two));

    // Contradicted at level 1, then backtracking to level 1 again keeps it.
    let mut at_one = ContradictionCache::not_contradicted();
    ps.contradict(&mut at_one);
    assert_eq!(at_one.decision_level, DecisionLevel(1));
    assert_eq!(ps.pick_highest_priority_pkg(|_, _| 0u32), Some(p1));
    ps.add_decision(p1, v(2));
    ps.backtrack(DecisionLevel(1));
    assert!(ps.is_contradicted(&at_one));
}

#[test]
fn relation_of_incompatibilities_to_the_partial_solution() {
    let p0 = PackageId(0);
    let p1 = PackageId(1);
    let mut ps: PartialSolution<u32> = PartialSolution::empty(PackageId(1));
    // p0 is wanted at any version; p1 is anything but version 2.
    ps.add_derivation(p0, IncompatId(0), Term::negative(VersionSet::full()));
    ps.add_derivation(p1, IncompatId(1), Term::positive(set(&[2])));
    let full = Term::positive(VersionSet::full());
    assert_eq!(ps.relation(&[(p0, full)]), IncompatRelation::Satisfied);
    assert_eq!(ps.relation(&[(p0, full), (p1, Term::positive(set(&[1])))]), IncompatRelation::AlmostSatisfied(p1));
    assert_eq!(ps.relation(&[(p0, Term::positive(set(&[3]))), (p1, Term::positive(set(&[1])))]), IncompatRelation::Inconclusive);
    assert_eq!(ps.relation(&[(p1, Term::positive(set(&[1]))), (p0, Term::negative(VersionSet::full()))]), IncompatRelation::Contradicted(p0));
    assert_eq!(ps.relation(&[(p1, Term::positive(set(&[2]))), (p0, full)]), IncompatRelation::Contradicted(p1));
    ps.add_decision(p0, v(3));
    assert_eq!(ps.relation(&[(p0, Term::positive(set(&[3]))), (p1, Term::positive(set(&[1])))]), IncompatRelation::AlmostSatisfied(p1));
}
