use pubgrub::range::Ranges;
use pubgrub::term::{Relation, Term};
use pubgrub::version_set::{SetRelation, VersionSet};

#[test]
fn empty_positive_intersection_satisfies_negative_term() {
    let term = Term::Negative(Ranges::<u32>::singleton(1u32));

    assert!(matches!(
        term.relation_with(&Term::empty()),
        Relation::Satisfied
    ));
}

#[test]
fn subset_only_relations_do_not_check_disjointness() {
    let one = Ranges::<u32>::singleton(1);
    let two = Ranges::<u32>::singleton(2);

    assert!(matches!(
        Term::Positive(one.clone()).relation_with(&Term::Negative(two.clone())),
        Relation::Inconclusive
    ));
    assert!(matches!(
        Term::Negative(one).relation_with(&Term::Negative(two)),
        Relation::Inconclusive
    ));
}

fn pos(r: Ranges<u32>) -> Term<Ranges<u32>> {
    Term::Positive(r)
}

fn neg(r: Ranges<u32>) -> Term<Ranges<u32>> {
    Term::Negative(r)
}

#[test]
fn any_empty_exact() {
    let any = Term::<Ranges<u32>>::any();
    let empty = Term::<Ranges<u32>>::empty();
    let exact = Term::<Ranges<u32>>::exact(3);
    for v in 0u32..6 {
        assert!(any.contains(&v));
        assert!(!empty.contains(&v));
        assert_eq!(exact.contains(&v), v == 3);
    }
    assert!(!any.is_positive());
    assert!(empty.is_positive());
    assert!(exact.is_positive());
}

#[test]
fn negate_flips_the_sign_only() {
    let t = pos(Ranges::between(1u32, 4u32));
    let n = t.negate();
    assert_eq!(n, neg(Ranges::between(1u32, 4u32)));
    assert_eq!(n.negate(), t);
    assert_eq!(t.unwrap_positive(), &Ranges::between(1u32, 4u32));
    assert_eq!(n.unwrap_negative(), &Ranges::between(1u32, 4u32));
}

#[test]
fn intersection_and_union_of_terms() {
    let a = pos(Ranges::between(1u32, 5u32));
    let b = neg(Ranges::between(3u32, 8u32));
    let i = a.intersection(&b);
    let u = a.union(&b);
    assert_eq!(i, pos(Ranges::between(1u32, 3u32)));
    assert!(!u.is_positive());
    for v in 0u32..10 {
        assert_eq!(i.contains(&v), a.contains(&v) && b.contains(&v));
        assert_eq!(u.contains(&v), a.contains(&v) || b.contains(&v));
    }
    let nn = neg(Ranges::singleton(1u32)).intersection(&neg(Ranges::singleton(2u32)));
    assert_eq!(
        nn,
        neg(Ranges::singleton(1u32).union(&Ranges::singleton(2u32)))
    );
}

#[test]
fn disjoint_and_subset_of_terms() {
    let a = pos(Ranges::between(1u32, 3u32));
    let b = pos(Ranges::between(3u32, 5u32));
    let not_a = a.negate();
    assert!(a.is_disjoint(&b));
    assert!(a.is_disjoint(&not_a));
    assert!(!not_a.is_disjoint(&b.negate()));
    assert!(b.subset_of(&not_a));
    assert!(!not_a.subset_of(&b));
    assert!(Term::<Ranges<u32>>::empty().subset_of(&a));
    assert!(a.subset_of(&Term::any()));
    assert_eq!(a.is_disjoint(&b), a.intersection(&b) == Term::empty());
    assert_eq!(a.subset_of(&b), a.intersection(&b) == a);
}

#[test]
fn relations_of_terms() {
    let t = pos(Ranges::between(1u32, 5u32));
    // Satisfied: the intersection lies within the term.
    assert_eq!(t.relation_with(&pos(Ranges::between(2u32, 4u32))), Relation::Satisfied);
    assert!(t.satisfied_by(&pos(Ranges::between(2u32, 4u32))));
    // Contradicted: the intersection avoids the term.
    assert_eq!(t.relation_with(&pos(Ranges::between(6u32, 8u32))), Relation::Contradicted);
    assert!(t.contradicted_by(&pos(Ranges::between(6u32, 8u32))));
    assert_eq!(t.relation_with(&neg(Ranges::full())), Relation::Contradicted);
    // Inconclusive otherwise.
    assert_eq!(t.relation_with(&pos(Ranges::between(4u32, 8u32))), Relation::Inconclusive);
    assert_eq!(t.relation_with(&Term::any()), Relation::Inconclusive);
    // A negative term is contradicted by the versions it leaves out.
    let n = neg(Ranges::between(1u32, 5u32));
    assert_eq!(n.relation_with(&pos(Ranges::singleton(2u32))), Relation::Contradicted);
    assert_eq!(n.relation_with(&neg(Ranges::lower_than(6u32))), Relation::Satisfied);
}

#[test]
fn double_negation_and_clone() {
    let t = neg(Ranges::higher_than(7u32));
    assert_eq!(t.negate().negate(), t);
    assert_eq!(t.clone(), t);
}

#[test]
fn set_relations_and_difference() {
    let a = Ranges::between(1u32, 5u32);
    let b = Ranges::between(2u32, 3u32);
    let c = Ranges::between(6u32, 9u32);
    assert_eq!(b.relation(&a), SetRelation::Subset);
    assert_eq!(a.relation(&c), SetRelation::Disjoint);
    assert_eq!(a.relation(&b), SetRelation::Overlapping);
    let d = a.difference(&b);
    for v in 0u32..10 {
        assert_eq!(d.contains(&v), a.contains(&v) && !b.contains(&v));
    }
    assert_eq!(<Ranges<u32> as VersionSet>::full(), Ranges::<u32>::full());
    assert_eq!(<Ranges<u32> as VersionSet>::union(&b, &c), b.union(&c));
}
