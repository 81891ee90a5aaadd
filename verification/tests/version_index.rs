use pubgrub::experimental::{Relation, Term, VersionIndex, VersionSet};

fn idx(v: u8) -> VersionIndex {
    VersionIndex::new(v).unwrap()
}

fn set_of(vs: &[u8]) -> VersionSet {
    let mut s = VersionSet::empty();
    for v in vs {
        s = s.union(VersionSet::singleton(idx(*v)));
    }
    s
}

#[test]
fn version_index_bounds() {
    assert_eq!(VersionIndex::new(0).map(|i| i.get()), Some(0));
    assert_eq!(VersionIndex::new(62).map(|i| i.get()), Some(62));
    assert!(VersionIndex::new(63).is_none());
    assert!(VersionIndex::new(255).is_none());
}

#[test]
fn bitset_set_operations() {
    let a = set_of(&[1, 2, 5]);
    let b = set_of(&[2, 3]);
    for v in 0u8..63 {
        let i = idx(v);
        assert_eq!(a.intersection(b).contains(i), a.contains(i) && b.contains(i));
        assert_eq!(a.union(b).contains(i), a.contains(i) || b.contains(i));
        assert_eq!(a.complement().contains(i), !a.contains(i));
    }
    assert!(VersionSet::empty().is_empty());
    assert!(!a.is_empty());
    assert_eq!(VersionSet::full().complement(), VersionSet::empty());
    assert_eq!(a.complement().complement(), a);
    assert!(!a.is_disjoint(b));
    assert!(set_of(&[1]).is_disjoint(set_of(&[2])));
    assert!(set_of(&[2]).subset_of(a));
    assert!(!b.subset_of(a));
}

#[test]
fn bitset_iteration_order() {
    let a = set_of(&[5, 1, 62, 0]);
    let listed: Vec<u8> = a.iter().into_iter().map(|i| i.get()).collect();
    assert_eq!(listed, vec![0, 1, 5, 62]);
    assert_eq!(a.first().map(|i| i.get()), Some(0));
    assert_eq!(a.last().map(|i| i.get()), Some(62));
    assert_eq!(a.count(), 4);
    assert_eq!(VersionSet::empty().first(), None);
    assert_eq!(VersionSet::empty().last(), None);
    assert_eq!(VersionSet::empty().count(), 0);
    assert_eq!(VersionSet::full().count(), 63);
}

#[test]
fn experimental_term_basics() {
    let vs = set_of(&[1, 2]);
    let p = Term::positive(vs);
    let n = Term::negative(vs);
    assert!(p.is_positive());
    assert!(n.is_negative());
    assert_eq!(p.version_set(), vs);
    assert_eq!(n.version_set(), vs);
    assert_eq!(p.negate(), n);
    assert_eq!(n.negate().negate(), n);
    assert_eq!(p.unwrap_positive(), vs);
    assert_eq!(n.unwrap_negative(), vs);
    assert!(p.contains(idx(1)));
    assert!(!p.contains(idx(3)));
    assert!(!n.contains(idx(1)));
    assert!(n.contains(idx(3)));
    assert!(Term::any().contains(idx(7)));
    assert!(!Term::empty().contains(idx(7)));
    assert!(Term::exact(idx(4)).contains(idx(4)));
    assert!(!Term::exact(idx(4)).contains(idx(5)));
}

#[test]
fn experimental_term_algebra() {
    let a = Term::positive(set_of(&[1, 2, 3]));
    let b = Term::negative(set_of(&[2]));
    let i = a.intersection(b);
    let u = a.union(b);
    for v in 0u8..63 {
        let x = idx(v);
        assert_eq!(i.contains(x), a.contains(x) && b.contains(x));
        assert_eq!(u.contains(x), a.contains(x) || b.contains(x));
    }
    assert_eq!(i, Term::positive(set_of(&[1, 3])));
    assert!(!u.is_positive());
    assert!(a.is_disjoint(a.negate()));
    assert!(i.subset_of(a));
    assert!(!a.subset_of(i));
    assert!(Term::empty().subset_of(b));
    assert!(b.subset_of(Term::any()));
}

#[test]
fn experimental_term_relations() {
    let t = Term::positive(set_of(&[1, 2, 3]));
    assert_eq!(t.relation_with(Term::positive(set_of(&[2]))), Relation::Satisfied);
    assert!(t.satisfied_by(Term::positive(set_of(&[2]))));
    assert_eq!(t.relation_with(Term::positive(set_of(&[5]))), Relation::Contradicted);
    assert!(t.contradicted_by(Term::positive(set_of(&[5]))));
    assert_eq!(t.relation_with(Term::positive(set_of(&[3, 4]))), Relation::Inconclusive);
    assert_eq!(t.relation_with(Term::any()), Relation::Inconclusive);
    // An empty intersection both satisfies and contradicts: satisfaction wins.
    assert_eq!(t.relation_with(Term::empty()), Relation::Satisfied);
}
