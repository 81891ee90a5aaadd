use pubgrub::arena::{Arena, Id};
use pubgrub::assignment::Assignment;
use pubgrub::incompatibility::Incompatibility;
use pubgrub::memory::Memory;
use pubgrub::range::Ranges;
use pubgrub::term::Term;

type Mem = Memory<&'static str, Ranges<u32>>;

fn pkg(i: usize) -> Id<&'static str> {
    Id::from_usize(i)
}

#[test]
fn derivations_intersect_and_decisions_replace_them() {
    let mut m = Mem::empty();
    assert!(m.term_intersection_for_package(pkg(0)).is_none());
    m.add_derivation(pkg(0), Term::Positive(Ranges::between(1, 5)));
    m.add_derivation(pkg(0), Term::Negative(Ranges::singleton(3)));
    let t = m.term_intersection_for_package(pkg(0)).unwrap();
    assert!(t.is_positive());
    for v in 0u32..7 {
        assert_eq!(t.contains(&v), (1..5).contains(&v) && v != 3, "{v}");
    }
    // Reading again gives the same intersection.
    assert_eq!(m.term_intersection_for_package(pkg(0)), Some(t));
    m.add_decision(pkg(0), 2);
    let d = m.term_intersection_for_package(pkg(0)).unwrap();
    assert_eq!(d, Term::exact(2));
}

#[test]
fn potential_packages_have_a_positive_derivation() {
    let mut m = Mem::empty();
    m.add_derivation(pkg(0), Term::Positive(Ranges::higher_than(2)));
    m.add_derivation(pkg(1), Term::Negative(Ranges::singleton(1)));
    m.add_derivation(pkg(2), Term::Negative(Ranges::singleton(1)));
    m.add_derivation(pkg(2), Term::Positive(Ranges::between(0, 3)));
    let picks = m.potential_packages();
    let ids: Vec<usize> = picks.iter().map(|(p, _)| p.into_raw()).collect();
    assert_eq!(ids, vec![0, 2]);
    assert_eq!(picks[0].1, Ranges::higher_than(2));
    assert_eq!(
        picks[1].1,
        Ranges::between(0, 1).union(&Ranges::strictly_higher_than(1).intersection(&Ranges::strictly_lower_than(3)))
    );
    // Asking changes no answer.
    assert_eq!(m.potential_packages().len(), 2);
}

#[test]
fn solution_needs_every_positive_derivation_decided() {
    let mut m = Mem::empty();
    m.add_derivation(pkg(0), Term::Positive(Ranges::higher_than(2)));
    m.add_derivation(pkg(1), Term::Negative(Ranges::singleton(1)));
    assert_eq!(m.extract_solution(), None);
    m.add_decision(pkg(0), 4);
    let solution = m.extract_solution().unwrap();
    let solution: Vec<(usize, u32)> = solution.into_iter().map(|(p, v)| (p.into_raw(), v)).collect();
    assert_eq!(solution, vec![(0, 4)]);
    assert_eq!(Mem::empty().extract_solution().map(|s| s.len()), Some(0));
}

#[test]
fn assignments_from_decisions_and_causes() {
    let mut store: Arena<Incompatibility<&'static str, Ranges<u32>, String>> = Arena::new();
    let cause = store.allocate(Incompatibility::from_dependency(
        pkg(0),
        Ranges::singleton(1),
        (pkg(1), Ranges::between(2, 4)),
    ));
    let mut m = Mem::empty();
    // The dependency of package 0 at 1 on package 1 in [2, 4) derives package 1 in [2, 4).
    m.add_assignment(&Assignment::Derivation { package: pkg(1), cause }, &store);
    let t = m.term_intersection_for_package(pkg(1)).unwrap();
    assert_eq!(t, Term::Positive(Ranges::between(2, 4)));
    m.add_assignment(&Assignment::Decision { package: pkg(1), version: 3 }, &store);
    let solution = m.extract_solution().unwrap();
    assert_eq!(solution.len(), 1);
    assert_eq!(solution[0].1, 3);
}
