use pubgrub::range::{
    end_before_start_with_gap, group_adjacent_locations, left_end_is_smaller, left_start_is_smaller,
    valid_segment, Range, Ranges,
};
use pubgrub::version_trait::Bound::{Excluded, Included, Unbounded};
use pubgrub::version_trait::Bound;

fn sorted_by_partial_cmp(mut v: Vec<Ranges<u32>>) -> Vec<Ranges<u32>> {
    v.sort_by(|a, b| a.partial_cmp(b).unwrap());
    v
}

#[test]
fn range_contains_many_can_take_owned() {
    let range: Range<u8> = Range::singleton(1);
    let versions = vec![1, 2, 3];
    // A borrowed list and an owned one give the same answers.
    assert_eq!(
        range.contains_many(&versions).len(),
        range.contains_many(versions.as_slice()).len()
    );
    let owned: Vec<u8> = versions.clone();
    assert_eq!(range.contains_many(&versions).len(), range.contains_many(&owned).len());
}

#[test]
fn range_simplify_can_take_owned() {
    let range: Range<u8> = Range::singleton(1);
    let versions = vec![1, 2, 3];
    assert_eq!(range.simplify(&versions), range.simplify(versions.as_slice()));
    let owned: Vec<u8> = versions.clone();
    assert_eq!(range.simplify(&versions), range.simplify(&owned));
}

#[test]
fn lib_contains_many_can_take_owned() {
    let range: Ranges<u8> = Ranges::singleton(1);
    let versions = vec![1, 2, 3];
    assert_eq!(
        range.contains_many(&versions).len(),
        range.contains_many(versions.as_slice()).len()
    );
    let owned: Vec<u8> = versions.clone();
    assert_eq!(range.contains_many(&versions).len(), range.contains_many(&owned).len());
    assert_eq!(range.contains_many(&versions), vec![true, false, false]);
}

#[test]
fn lib_simplify_can_take_owned() {
    let range: Ranges<u8> = Ranges::singleton(1);
    let versions = vec![1, 2, 3];
    assert_eq!(range.simplify(&versions), range.simplify(versions.as_slice()));
    let owned: Vec<u8> = versions.clone();
    assert_eq!(range.simplify(&versions), range.simplify(&owned));
}

#[test]
fn version_ord() {
    let versions: &[Ranges<u32>] = &[
        Ranges::strictly_lower_than(1u32),
        Ranges::lower_than(1u32),
        Ranges::singleton(1u32),
        Ranges::between(1u32, 3u32),
        Ranges::higher_than(1u32),
        Ranges::strictly_higher_than(1u32),
        Ranges::singleton(2u32),
        Ranges::singleton(2u32).union(&Ranges::singleton(3u32)),
        Ranges::singleton(2u32)
            .union(&Ranges::singleton(3u32))
            .union(&Ranges::singleton(4u32)),
        Ranges::singleton(2u32).union(&Ranges::singleton(4u32)),
        Ranges::singleton(3u32),
    ];

    let versions_sorted = sorted_by_partial_cmp(versions.to_vec());
    assert_eq!(versions_sorted, versions);

    // Check that the sorting isn't just stable because we're returning equal.
    let mut version_reverse_sorted = versions.to_vec();
    version_reverse_sorted.reverse();
    let version_reverse_sorted = sorted_by_partial_cmp(version_reverse_sorted);
    assert_eq!(version_reverse_sorted, versions);
}

#[test]
fn constructors_hold_the_documented_versions() {
    let empty = Ranges::<u32>::empty();
    let full = Ranges::<u32>::full();
    assert!(empty.is_empty());
    assert!(!full.is_empty());
    for v in [0u32, 1, 2, 3, 4, u32::MAX] {
        assert!(!empty.contains(&v));
        assert!(full.contains(&v));
        assert_eq!(Ranges::singleton(2u32).contains(&v), v == 2);
        assert_eq!(Ranges::higher_than(2u32).contains(&v), v >= 2);
        assert_eq!(Ranges::strictly_higher_than(2u32).contains(&v), v > 2);
        assert_eq!(Ranges::lower_than(2u32).contains(&v), v <= 2);
        assert_eq!(Ranges::strictly_lower_than(2u32).contains(&v), v < 2);
        assert_eq!(Ranges::between(1u32, 3u32).contains(&v), (1..3).contains(&v));
    }
    // An inverted between is empty.
    assert!(Ranges::between(3u32, 1u32).is_empty());
    assert_eq!(Ranges::between(3u32, 3u32), Ranges::empty());
}

#[test]
fn segments_of_constructors() {
    assert_eq!(Ranges::<u32>::full().iter(), &[(Unbounded, Unbounded)]);
    assert_eq!(Ranges::singleton(5u32).iter(), &[(Included(5), Included(5))]);
    assert_eq!(Ranges::between(1u32, 4u32).iter(), &[(Included(1), Excluded(4))]);
    assert_eq!(Ranges::<u32>::empty().iter(), &[]);
}

#[test]
fn complement_holds_the_other_versions() {
    let r = Ranges::singleton(2u32).union(&Ranges::between(5u32, 8u32));
    let c = r.complement();
    for v in 0u32..12 {
        assert_ne!(r.contains(&v), c.contains(&v));
    }
    assert_eq!(c.complement(), r);
    assert_eq!(
        c.iter(),
        &[
            (Unbounded, Excluded(2)),
            (Excluded(2), Excluded(5)),
            (Included(8), Unbounded)
        ]
    );
    assert_eq!(Ranges::<u32>::empty().complement(), Ranges::full());
    assert_eq!(Ranges::<u32>::full().complement(), Ranges::empty());
}

#[test]
fn union_and_intersection_of_two_ranges() {
    let a = Ranges::between(1u32, 5u32);
    let b = Ranges::between(3u32, 8u32);
    let i = a.intersection(&b);
    let u = a.union(&b);
    assert_eq!(i, Ranges::between(3u32, 5u32));
    assert_eq!(u, Ranges::between(1u32, 8u32));
    for v in 0u32..10 {
        assert_eq!(i.contains(&v), a.contains(&v) && b.contains(&v));
        assert_eq!(u.contains(&v), a.contains(&v) || b.contains(&v));
    }
    // Adjacent segments merge.
    assert_eq!(
        Ranges::between(1u32, 3u32).union(&Ranges::between(3u32, 5u32)),
        Ranges::between(1u32, 5u32)
    );
    // Segments with a gap stay apart.
    let gap = Ranges::between(1u32, 3u32).union(&Ranges::between(4u32, 5u32));
    assert_eq!(gap.iter().len(), 2);
}

#[test]
fn intersection_laws_on_values() {
    let r1 = Ranges::between(1u32, 5u32).union(&Ranges::singleton(9u32));
    let r2 = Ranges::higher_than(4u32);
    let r3 = Ranges::strictly_lower_than(10u32);
    assert_eq!(r1.intersection(&r2), r2.intersection(&r1));
    assert_eq!(Ranges::full().intersection(&r1), r1);
    assert_eq!(Ranges::empty().intersection(&r1), Ranges::empty());
    assert_eq!(r1.intersection(&r2).intersection(&r2), r1.intersection(&r2));
    assert_eq!(
        r1.intersection(&r2).intersection(&r3),
        r1.intersection(&r2.intersection(&r3))
    );
    assert_eq!(r1.complement().intersection(&r1), Ranges::empty());
    assert_eq!(r1.complement().union(&r1), Ranges::full());
    assert_eq!(
        r1.union(&r2),
        r1.complement().intersection(&r2.complement()).complement()
    );
}

#[test]
fn disjoint_and_subset() {
    let a = Ranges::between(1u32, 3u32);
    let b = Ranges::between(3u32, 5u32);
    let c = Ranges::between(2u32, 4u32);
    assert!(a.is_disjoint(&b));
    assert!(!a.is_disjoint(&c));
    assert!(Ranges::singleton(2u32).subset_of(&a));
    assert!(!c.subset_of(&a));
    assert!(Ranges::<u32>::empty().subset_of(&a));
    assert!(a.subset_of(&Ranges::full()));
    assert_eq!(a.is_disjoint(&c), a.intersection(&c) == Ranges::empty());
    assert_eq!(a.subset_of(&c), a.intersection(&c) == a);
}

#[test]
fn as_singleton_and_bounding_range() {
    assert_eq!(Ranges::singleton(4u32).as_singleton(), Some(&4));
    assert_eq!(Ranges::between(4u32, 6u32).as_singleton(), None);
    assert_eq!(Ranges::<u32>::empty().as_singleton(), None);
    let r = Ranges::between(1u32, 3u32).union(&Ranges::higher_than(7u32));
    assert_eq!(r.bounding_range(), Some((Included(&1), Unbounded)));
    assert_eq!(Ranges::<u32>::empty().bounding_range(), None);
}

#[test]
fn from_range_bounds_normalizes_and_rejects_empty() {
    assert_eq!(
        Ranges::from_range_bounds((Included(1u32), Excluded(3u32))),
        Ranges::between(1u32, 3u32)
    );
    assert_eq!(
        Ranges::from_range_bounds((Included(3u32), Excluded(1u32))),
        Ranges::empty()
    );
    assert_eq!(
        Ranges::from_range_bounds((Unbounded, Included(4u32))),
        Ranges::lower_than(4u32)
    );
    assert_eq!(
        Ranges::<u32>::from_range_bounds((Unbounded, Unbounded)),
        Ranges::full()
    );
}

#[test]
fn contains_many_follows_contains() {
    let r = Ranges::between(2u32, 4u32).union(&Ranges::singleton(7u32));
    let versions = [0u32, 1, 2, 3, 4, 5, 6, 7, 8];
    let many = r.contains_many(&versions);
    let one_by_one: Vec<bool> = versions.iter().map(|v| r.contains(v)).collect();
    assert_eq!(many, one_by_one);
}

#[test]
fn simplify_agrees_on_listed_versions() {
    let r = Ranges::singleton(1u32)
        .union(&Ranges::singleton(3u32))
        .union(&Ranges::singleton(5u32));
    let versions = [1u32, 2, 3, 4, 5];
    let s = r.simplify(&versions);
    for v in versions {
        assert_eq!(r.contains(&v), s.contains(&v));
    }
    assert!(s.iter().len() <= r.iter().len());
    // A full or an empty range is its own simplification.
    assert_eq!(Ranges::<u32>::full().simplify(&versions), Ranges::full());
    assert_eq!(Ranges::<u32>::empty().simplify(&versions), Ranges::empty());
}

#[test]
fn from_iter_is_the_union_of_the_segments() {
    let segments: Vec<(Bound<u32>, Bound<u32>)> = vec![
        (Included(5), Excluded(8)),
        (Included(1), Excluded(3)),
        (Included(2), Included(6)),
        (Excluded(9), Unbounded),
        (Included(4), Excluded(1)),
    ];
    let mut expected = Ranges::empty();
    for segment in &segments {
        expected = expected.union(&Ranges::from_range_bounds(*segment));
    }
    assert_eq!(Ranges::from_iter(&segments), expected);
    assert_eq!(
        Ranges::from_iter(&segments).iter(),
        &[(Included(1), Excluded(8)), (Excluded(9), Unbounded)]
    );
    assert_eq!(Ranges::<u32>::from_iter(&[]), Ranges::empty());
}

#[test]
fn segment_helpers() {
    assert!(valid_segment(&Included(1u32), &Included(1u32)));
    assert!(!valid_segment(&Included(2u32), &Excluded(2u32)));
    assert!(valid_segment::<u32>(&Unbounded, &Unbounded));
    assert!(end_before_start_with_gap(&Excluded(2u32), &Excluded(2u32)));
    assert!(!end_before_start_with_gap(&Included(2u32), &Excluded(2u32)));
    assert!(!end_before_start_with_gap::<u32>(&Unbounded, &Included(2)));
    assert!(left_start_is_smaller(&Included(2u32), &Excluded(2u32)));
    assert!(!left_start_is_smaller(&Excluded(2u32), &Included(2u32)));
    assert!(left_start_is_smaller(&Unbounded, &Included(0u32)));
    assert!(left_end_is_smaller(&Excluded(2u32), &Included(2u32)));
    assert!(!left_end_is_smaller(&Unbounded, &Included(0u32)));
}

#[test]
fn group_adjacent_locations_merges_runs() {
    assert_eq!(
        group_adjacent_locations(&[None, Some(3), Some(6), Some(7), None]),
        vec![(Some(3), Some(7))]
    );
    assert_eq!(
        group_adjacent_locations(&[Some(3), Some(6), Some(7), None]),
        vec![(None, Some(7))]
    );
    assert_eq!(group_adjacent_locations(&[Some(3), Some(6), Some(7)]), vec![(None, None)]);
    assert_eq!(
        group_adjacent_locations(&[
            None,
            Some(1),
            Some(4),
            Some(7),
            None,
            None,
            None,
            Some(8),
            None,
            Some(9)
        ]),
        vec![(Some(1), Some(7)), (Some(8), Some(8)), (Some(9), None)]
    );
    assert_eq!(group_adjacent_locations(&[]), vec![]);
    assert_eq!(group_adjacent_locations(&[None, None]), vec![]);
}
