use pubgrub::package::PackageId;
use pubgrub::partial_solution::DecisionLevel;
use pubgrub::report::DerivationTreeId;
use pubgrub::small_vec::SmallVec;

#[test]
fn decision_levels_count_up() {
    let l = DecisionLevel(0);
    assert_eq!(l.get(), 0);
    assert_eq!(l.increment().increment().get(), 2);
    assert_eq!(DecisionLevel::max().get(), u32::MAX);
    assert!(DecisionLevel(1) < DecisionLevel(2));
}

#[test]
fn package_id_reads_back() {
    assert_eq!(PackageId(7).get(), 7);
}

#[test]
fn derivation_tree_ids_are_distinct() {
    assert_eq!(DerivationTreeId::from_raw(3), DerivationTreeId::from_raw(3));
    assert_ne!(DerivationTreeId::from_raw(3), DerivationTreeId::from_raw(4));
}

#[test]
fn small_vec_grows_past_two() {
    let mut v = SmallVec::empty();
    assert!(v.is_empty());
    v.push(1u32);
    assert_eq!(v.as_slice(), &[1]);
    v.push(2);
    v.push(3);
    assert_eq!(v.as_slice(), &[1, 2, 3]);
    assert_eq!(v.len(), 3);
    assert_eq!(v.iter(), &[1, 2, 3]);
    assert_eq!(SmallVec::one(9u32).as_slice(), &[9]);
}

#[test]
fn small_vec_equality_ignores_the_variant() {
    let mut v = SmallVec::empty();
    v.push(1u32);
    v.push(2u32);
    assert!(matches!(v, SmallVec::Two(_)));
    assert_eq!(v, SmallVec::Flexible(vec![1, 2]));
    assert_ne!(v, SmallVec::Flexible(vec![1, 3]));
    assert_ne!(v, SmallVec::one(1u32));
}

#[test]
fn small_vec_pushes_items_that_are_not_copy() {
    let mut v = SmallVec::empty();
    v.push(String::from("a"));
    v.push(String::from("b"));
    v.push(String::from("c"));
    assert!(matches!(v, SmallVec::Flexible(_)));
    assert_eq!(v.as_slice(), &["a".to_string(), "b".to_string(), "c".to_string()]);
    let mut w = SmallVec::Flexible(vec![String::from("x")]);
    w.push(String::from("y"));
    assert!(matches!(w, SmallVec::Flexible(_)));
    assert_eq!(w.len(), 2);
}
