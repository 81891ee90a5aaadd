use pubgrub::arena::{Arena, HashArena, Id};
use pubgrub::incompatibility::{build_derivation_tree, ContradictionCache, Incompatibility, Kind, Relation};
use pubgrub::report::{DerivationTreeNode, External};
use pubgrub::partial_solution::DecisionLevel;
use pubgrub::range::Ranges;
use pubgrub::term::Term;

type Incompat = Incompatibility<&'static str, Ranges<u32>, String>;

fn pkg(i: usize) -> Id<&'static str> {
    Id::from_usize(i)
}

#[test]
fn contradiction_cache_tracks_backtrack_generations() {
    let current_generation = ContradictionCache {
        decision_level: DecisionLevel(3),
        backtrack_generation: 1,
    };

    // A generation without a recorded backtrack target is still active.
    assert!(current_generation.is_contradicted(&[DecisionLevel(0)]));
    // Backtracking below the contradiction's decision level invalidates it.
    assert!(!current_generation.is_contradicted(&[DecisionLevel(0), DecisionLevel(2)]));
    // Backtracking to or above that decision level preserves it.
    assert!(current_generation.is_contradicted(&[DecisionLevel(0), DecisionLevel(3)]));

    let later_generation = ContradictionCache {
        decision_level: DecisionLevel(5),
        backtrack_generation: 2,
    };
    assert!(later_generation.is_contradicted(&[DecisionLevel(0), DecisionLevel(3)]));
    assert!(!later_generation.is_contradicted(&[
        DecisionLevel(0),
        DecisionLevel(3),
        DecisionLevel(4),
    ]));
}

#[test]
fn not_contradicted_cache_and_marking() {
    let mut i = Incompat::from_dependency(
        pkg(0),
        Ranges::singleton(1),
        (pkg(1), Ranges::between(1, 3)),
    );
    // A fresh incompatibility is contradicted for no completed generation.
    assert!(!i.is_contradicted(&[DecisionLevel(0)]));
    i.mark_contradicted(DecisionLevel(2), 0);
    assert!(i.is_contradicted(&[DecisionLevel(2)]));
    assert!(!i.is_contradicted(&[DecisionLevel(1)]));
    i.reset_contradiction_cache();
    assert!(!i.is_contradicted(&[DecisionLevel(1)]));
    assert!(ContradictionCache::not_contradicted().is_contradicted(&[]));
}

#[test]
fn from_dependency_shapes() {
    let i = Incompat::from_dependency(
        pkg(0),
        Ranges::singleton(1),
        (pkg(1), Ranges::between(1, 3)),
    );
    assert_eq!(i.iter().len(), 2);
    assert_eq!(i.get(pkg(0)), Some(&Term::Positive(Ranges::singleton(1))));
    assert_eq!(i.get(pkg(1)), Some(&Term::Negative(Ranges::between(1, 3))));
    assert_eq!(i.get(pkg(2)), None);
    let (p1, p2, range) = i.as_dependency().unwrap();
    assert_eq!((p1, p2), (pkg(0), pkg(1)));
    assert_eq!(range, Some(&Ranges::between(1, 3)));
    assert!(matches!(i.kind, Kind::FromDependencyOf(_, _)));

    // A dependency on no version at all keeps only the dependent's term.
    let e = Incompat::from_dependency(pkg(0), Ranges::singleton(1), (pkg(1), Ranges::empty()));
    assert_eq!(e.iter().len(), 1);
    assert_eq!(e.as_dependency().unwrap().2, None);
}

#[test]
fn single_term_constructors() {
    let root = Incompat::not_root(pkg(0), 1);
    assert_eq!(root.get(pkg(0)), Some(&Term::Negative(Ranges::singleton(1))));
    assert!(root.as_dependency().is_none());
    let nv = Incompat::no_versions(pkg(1), Term::Positive(Ranges::higher_than(2)));
    assert_eq!(nv.get(pkg(1)), Some(&Term::Positive(Ranges::higher_than(2))));
    let ct = Incompat::custom_term(pkg(2), Term::Positive(Ranges::singleton(5)), "no".to_owned());
    assert!(matches!(&ct.kind, Kind::Custom(_, _, m) if m == "no"));
    let cv = Incompat::custom_version(pkg(3), 7, "gone".to_owned());
    assert_eq!(cv.get(pkg(3)), Some(&Term::Positive(Ranges::singleton(7))));
    assert!(cv.causes().is_none());
}

#[test]
fn merge_dependents_unions_the_dependent_versions() {
    let a1 = Incompat::from_dependency(pkg(0), Ranges::singleton(1), (pkg(1), Ranges::between(1, 3)));
    let a2 = Incompat::from_dependency(pkg(0), Ranges::singleton(2), (pkg(1), Ranges::between(1, 3)));
    let merged = a1.merge_dependents(&a2).unwrap();
    assert_eq!(
        merged.get(pkg(0)),
        Some(&Term::Positive(Ranges::singleton(1).union(&Ranges::singleton(2))))
    );
    assert_eq!(merged.get(pkg(1)), Some(&Term::Negative(Ranges::between(1, 3))));
    // Different dependency ranges do not merge.
    let a3 = Incompat::from_dependency(pkg(0), Ranges::singleton(3), (pkg(1), Ranges::between(1, 4)));
    assert!(a1.merge_dependents(&a3).is_none());
    // Different dependencies do not merge.
    let b = Incompat::from_dependency(pkg(0), Ranges::singleton(3), (pkg(2), Ranges::between(1, 3)));
    assert!(a1.merge_dependents(&b).is_none());
    // Self dependencies do not merge.
    let s1 = Incompat::from_dependency(pkg(0), Ranges::singleton(1), (pkg(0), Ranges::between(1, 3)));
    let s2 = Incompat::from_dependency(pkg(0), Ranges::singleton(2), (pkg(0), Ranges::between(1, 3)));
    assert!(s1.merge_dependents(&s2).is_none());
}

#[test]
fn prior_cause_applies_the_rule_of_resolution() {
    // { a: 1, not b: [1, 3) } and { b: [1, 3), not c: 2 } give { a: 1, not c: 2 }.
    let mut store: Arena<Incompat> = Arena::new();
    let i1 = store.allocate(Incompat::from_dependency(
        pkg(0),
        Ranges::singleton(1),
        (pkg(1), Ranges::between(1, 3)),
    ));
    let i2 = store.allocate(Incompat::from_dependency(
        pkg(1),
        Ranges::between(1, 3),
        (pkg(2), Ranges::singleton(2)),
    ));
    let derived = Incompat::prior_cause(i1, i2, pkg(1), &store);
    assert_eq!(derived.get(pkg(0)), Some(&Term::Positive(Ranges::singleton(1))));
    assert_eq!(derived.get(pkg(2)), Some(&Term::Negative(Ranges::singleton(2))));
    assert_eq!(derived.get(pkg(1)), None);
    assert_eq!(derived.iter().len(), 2);
    let (c1, c2) = derived.causes().unwrap();
    assert_eq!((c1.into_raw(), c2.into_raw()), (i1.into_raw(), i2.into_raw()));
}

#[test]
fn relation_with_partial_solution_terms() {
    let i = Incompat::from_dependency(pkg(0), Ranges::singleton(1), (pkg(1), Ranges::between(1, 3)));
    // Both terms satisfied: a = 1 and b outside [1, 3).
    let sat = [
        (pkg(0), Term::Positive(Ranges::singleton(1))),
        (pkg(1), Term::Positive(Ranges::higher_than(5))),
    ];
    assert!(matches!(i.relation(&sat), Relation::Satisfied));
    // a is not 1: the first term is contradicted.
    let con = [(pkg(0), Term::Positive(Ranges::singleton(2)))];
    assert!(matches!(i.relation(&con), Relation::Contradicted(p) if p == pkg(0)));
    // a = 1 and nothing known of b: almost satisfied, b unsatisfied.
    let almost = [(pkg(0), Term::Positive(Ranges::singleton(1)))];
    assert!(matches!(i.relation(&almost), Relation::AlmostSatisfied(p) if p == pkg(1)));
    // Nothing known: inconclusive.
    assert!(matches!(i.relation(&[]), Relation::Inconclusive));
}

#[test]
fn terminal_incompatibilities() {
    let root = Incompat::no_versions(pkg(0), Term::Positive(Ranges::singleton(1)));
    assert!(root.is_terminal(pkg(0), &1));
    assert!(!root.is_terminal(pkg(0), &2));
    assert!(!root.is_terminal(pkg(1), &1));
    let dep = Incompat::from_dependency(pkg(0), Ranges::singleton(1), (pkg(1), Ranges::between(1, 3)));
    assert!(!dep.is_terminal(pkg(0), &1));
}

#[test]
fn merge_dependents_ignores_self_dependencies() {
    let p: Id<&'static str> = Id::from_usize(0);
    let a: Incompat = Incompatibility::from_dependency(p, Ranges::singleton(1u32), (p, Ranges::singleton(2u32)));
    let b: Incompat = Incompatibility::from_dependency(p, Ranges::singleton(3u32), (p, Ranges::singleton(2u32)));
    assert!(a.merge_dependents(&b).is_none());
}

#[test]
fn derivation_tree_mirrors_the_incompatibilities() {
    type Inc = Incompatibility<u32, Ranges<u32>, String>;
    let mut packages: HashArena<u32> = HashArena::new();
    let a = packages.allocate(10);
    let b = packages.allocate(11);
    let c = packages.allocate(12);
    let mut store: Arena<Inc> = Arena::new();
    // a 1 depends on b [1, 3); b [1, 3) depends on c 2.
    let i0 = store.allocate(Inc::from_dependency(a, Ranges::singleton(1), (b, Ranges::between(1, 3))));
    let i1 = store.allocate(Inc::from_dependency(b, Ranges::between(1, 3), (c, Ranges::singleton(2))));
    let i2 = store.allocate(Inc::prior_cause(i0, i1, b, &store));
    // Derived twice from the same incompatibility, which is then shared.
    let i3 = store.allocate(Inc::prior_cause(i2, i2, a, &store));
    let tree = build_derivation_tree(i3, &store, &packages);
    assert!(tree.is_well_formed());
    let root = match tree.root() {
        DerivationTreeNode::Derived(d) => d,
        _ => panic!("the root is derived"),
    };
    assert_eq!(root.shared_id, None);
    assert_eq!(root.cause1, root.cause2);
    let mid = match tree.node(root.cause1) {
        DerivationTreeNode::Derived(d) => d,
        _ => panic!("the cause is derived"),
    };
    assert_eq!(mid.shared_id, Some(i2.into_raw()));
    assert_eq!(mid.terms, vec![(10, Term::Positive(Ranges::singleton(1))), (12, Term::Negative(Ranges::singleton(2)))]);
    match tree.node(mid.cause1) {
        DerivationTreeNode::External(External::FromDependencyOf(p, vs, d, ds)) => {
            assert_eq!((*p, *d), (10, 11));
            assert_eq!(vs, &Ranges::singleton(1));
            assert_eq!(ds, &Ranges::between(1, 3));
        }
        _ => panic!("the first cause is a dependency"),
    }
    match tree.node(mid.cause2) {
        DerivationTreeNode::External(External::FromDependencyOf(p, _, d, ds)) => {
            assert_eq!((*p, *d), (11, 12));
            assert_eq!(ds, &Ranges::singleton(2));
        }
        _ => panic!("the second cause is a dependency"),
    }
    // One node for each of the four incompatibilities.
    let mut ids = vec![tree.root_id().raw(), root.cause1.raw(), mid.cause1.raw(), mid.cause2.raw()];
    ids.sort();
    assert_eq!(ids, vec![0, 1, 2, 3]);
}

fn assert_dependency_tree(
    package_store: &HashArena<u32>,
    incompatibility: Incompatibility<u32, Ranges<u32>, String>,
    expected_versions: &Ranges<u32>,
    expected_dependency: u32,
    expected_dependency_versions: &Ranges<u32>,
) {
    let mut store = Arena::new();
    let id = store.allocate(incompatibility);
    let node = Incompatibility::build_derivation_tree(id, &[false], &store, package_store, &[]);
    let DerivationTreeNode::External(External::FromDependencyOf(
        actual_package,
        actual_versions,
        actual_dependency,
        actual_dependency_versions,
    )) = node
    else {
        panic!("expected a dependency external")
    };
    assert_eq!(actual_package, 100);
    assert_eq!(&actual_versions, expected_versions);
    assert_eq!(actual_dependency, expected_dependency);
    assert_eq!(&actual_dependency_versions, expected_dependency_versions);
}

#[test]
fn dependency_derivation_trees_reconstruct_ranges() {
    let mut package_store = HashArena::new();
    let package = package_store.allocate(100u32);
    let dependency = package_store.allocate(200u32);
    let versions = Ranges::between(1u32, 4u32);
    let other_versions = Ranges::singleton(4u32);
    let dependency_versions = Ranges::between(7u32, 10u32);

    assert_dependency_tree(
        &package_store,
        Incompatibility::from_dependency(package, versions.clone(), (dependency, dependency_versions.clone())),
        &versions,
        200,
        &dependency_versions,
    );

    let empty = Ranges::empty();
    assert_dependency_tree(
        &package_store,
        Incompatibility::from_dependency(package, versions.clone(), (dependency, empty.clone())),
        &versions,
        200,
        &empty,
    );

    assert_dependency_tree(
        &package_store,
        Incompatibility::from_dependency(package, versions.clone(), (package, dependency_versions.clone())),
        &versions,
        100,
        &dependency_versions,
    );

    let first: Incompatibility<u32, Ranges<u32>, String> =
        Incompatibility::from_dependency(package, versions.clone(), (dependency, dependency_versions.clone()));
    let second = Incompatibility::from_dependency(package, other_versions.clone(), (dependency, dependency_versions.clone()));
    let merged = first.merge_dependents(&second).unwrap();
    assert_dependency_tree(
        &package_store,
        merged,
        &versions.union(&other_versions),
        200,
        &dependency_versions,
    );
}
