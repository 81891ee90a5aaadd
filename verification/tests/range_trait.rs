use pubgrub::range_trait::{Ranges, SidedBound};
use pubgrub::version_trait::Bound::{Excluded, Included, Unbounded};
use pubgrub::version_trait::{Interval, NumberInterval, NumberVersion, SemanticInterval, SemanticVersion};
use std::cmp::Ordering;

type NumRanges = Ranges<NumberInterval, NumberVersion>;

fn n(v: u32) -> NumberVersion {
    NumberVersion(v)
}

fn held(r: &NumRanges) -> Vec<u32> {
    (0u32..20).filter(|v| r.contains(&n(*v))).collect()
}

#[test]
fn reverse_bounds_reverse_order() {
    let bounds = [Unbounded, Included(1u32), Excluded(1u32), Included(2u32), Excluded(2u32)];
    let mut sided = Vec::new();
    for b in bounds {
        sided.push(SidedBound::Left(b));
        sided.push(SidedBound::Right(b));
    }
    for a in &sided {
        for b in &sided {
            let ra = pubgrub::range_trait::ref_sided_bound(a);
            let rb = pubgrub::range_trait::ref_sided_bound(b);
            assert_eq!(ra.compare(&rb), rb.compare(&ra).reverse());
        }
    }
}

#[test]
fn sided_bound_order_on_values() {
    let l = |b| SidedBound::Left(b);
    let r = |b| SidedBound::Right(b);
    // An open left bound is after a closed one, an open right bound before a closed one.
    assert_eq!(l(Excluded(&1u32)).compare(&l(Included(&1u32))), Ordering::Greater);
    assert_eq!(r(Excluded(&1u32)).compare(&r(Included(&1u32))), Ordering::Less);
    // A closed left bound meets a closed right bound at the same version.
    assert_eq!(l(Included(&1u32)).compare(&r(Included(&1u32))), Ordering::Less);
    assert_eq!(l(Included(&1u32)).compare(&r(Excluded(&1u32))), Ordering::Equal);
    assert_eq!(l(Excluded(&1u32)).compare(&r(Excluded(&1u32))), Ordering::Greater);
    assert_eq!(l(Unbounded::<&u32>).compare(&l(Included(&0u32))), Ordering::Less);
    assert_eq!(r(Unbounded::<&u32>).compare(&r(Included(&9u32))), Ordering::Greater);
    assert_eq!(l(Unbounded::<&u32>).compare(&r(Unbounded::<&u32>)), Ordering::Less);
}

#[test]
fn building_blocks_hold_the_documented_versions() {
    assert_eq!(held(&NumRanges::empty()), Vec::<u32>::new());
    assert_eq!(held(&NumRanges::full()), (0..20).collect::<Vec<_>>());
    assert_eq!(held(&NumRanges::singleton(n(4))), vec![4]);
    assert_eq!(held(&NumRanges::higher_than(n(17))), vec![17, 18, 19]);
    assert_eq!(held(&NumRanges::strictly_lower_than(n(3))), vec![0, 1, 2]);
    assert_eq!(held(&NumRanges::between(n(3), n(6))), vec![3, 4, 5]);
    assert_eq!(held(&NumRanges::between(n(6), n(3))), Vec::<u32>::new());
}

#[test]
fn negate_contains_opposite() {
    let r = NumRanges::between(n(2), n(5)).union(&NumRanges::higher_than(n(9)));
    let c = r.complement();
    for v in 0u32..20 {
        assert_ne!(r.contains(&n(v)), c.contains(&n(v)));
    }
    assert_eq!(held(&c), vec![0, 1, 5, 6, 7, 8]);
    assert_eq!(held(&c.complement()), held(&r));
    assert_eq!(held(&NumRanges::empty().complement()), held(&NumRanges::full()));
    assert_eq!(held(&NumRanges::full().complement()), Vec::<u32>::new());
}

#[test]
fn intersection_and_union_contain_both_and_either() {
    let r1 = NumRanges::between(n(1), n(8));
    let r2 = NumRanges::between(n(5), n(12)).union(&NumRanges::singleton(n(0)));
    let i = r1.intersection(&r2);
    let u = r1.union(&r2);
    for v in 0u32..20 {
        let (a, b) = (r1.contains(&n(v)), r2.contains(&n(v)));
        assert_eq!(i.contains(&n(v)), a && b);
        assert_eq!(u.contains(&n(v)), a || b);
    }
    assert_eq!(held(&i), vec![5, 6, 7]);
    assert_eq!(held(&u), (0..12).collect::<Vec<_>>());
    assert_eq!(held(&r2.intersection(&r1)), held(&i));
    assert_eq!(held(&NumRanges::full().intersection(&r1)), held(&r1));
    assert_eq!(held(&NumRanges::empty().intersection(&r1)), Vec::<u32>::new());
    assert_eq!(held(&r1.complement().intersection(&r1)), Vec::<u32>::new());
    assert_eq!(held(&r1.complement().union(&r1)), held(&NumRanges::full()));
}

#[test]
fn contains_through_intersection() {
    let r = NumRanges::between(n(3), n(7));
    for v in 0u32..10 {
        let one = NumRanges::singleton(n(v));
        assert_eq!(r.contains(&n(v)), !held(&r.intersection(&one)).is_empty());
    }
}

#[test]
fn semantic_ranges_follow_their_bounds() {
    type SemRanges = Ranges<SemanticInterval, SemanticVersion>;
    let v = |a, b, c| SemanticVersion::new(a, b, c);
    let r = SemRanges::between(v(1, 0, 0), v(2, 0, 0));
    assert!(r.contains(&v(1, 5, 3)));
    assert!(!r.contains(&v(2, 0, 0)));
    assert!(!r.contains(&v(0, 9, 9)));
    let c = r.complement();
    assert!(c.contains(&v(2, 0, 0)));
    assert!(c.contains(&v(0, 0, 0)));
    assert!(!c.contains(&v(1, 0, 0)));
    let s = SemRanges::singleton(v(1, 2, 3));
    assert!(s.contains(&v(1, 2, 3)));
    assert!(!s.contains(&v(1, 2, 4)));
    let i = r.intersection(&SemRanges::higher_than(v(1, 5, 0)));
    assert!(i.contains(&v(1, 5, 0)));
    assert!(!i.contains(&v(1, 4, 9)));
    assert!(SemRanges::full().contains(&v(7, 7, 7)));
    assert!(!SemRanges::empty().contains(&v(7, 7, 7)));
}

#[test]
fn intersection_with_an_excluded_start() {
    type SemRanges = Ranges<SemanticInterval, SemanticVersion>;
    let five = SemanticVersion::new(5, 0, 0);
    let a = SemRanges::higher_than(five);
    let b = SemRanges::singleton(five).complement();
    assert!(a.contains(&five));
    assert!(!b.contains(&five));
    let i = a.intersection(&b);
    assert!(!i.contains(&five));
    assert!(i.contains(&SemanticVersion::new(5, 0, 1)));
    assert!(!i.contains(&SemanticVersion::new(4, 9, 9)));
    assert_eq!(i.iter().len(), 1);
    assert_eq!(i.iter()[0].start_bound(), Excluded(&five));
    assert_eq!(i.iter()[0].end_bound(), Unbounded);
}
