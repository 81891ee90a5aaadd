use pubgrub::package::{PackageArena, PackageId};

#[test]
fn package_ids_follow_first_insertion() {
    let mut arena = PackageArena::<u32>::new();
    let a = arena.insert(10);
    let b = arena.insert(20);
    let again = arena.insert(10);
    assert_eq!(a, PackageId(0));
    assert_eq!(b, PackageId(1));
    assert_eq!(again, a);
    assert_eq!(arena.get(&20), Some(b));
    assert_eq!(arena.get(&30), None);
    assert_eq!(arena.pkg(a), Some(&10));
    assert_eq!(arena.pkg(b), Some(&20));
    assert_eq!(arena.pkg(PackageId(2)), None);
    assert_eq!(a.get(), 0);
    assert_eq!(arena.into_iter(), vec![10, 20]);
}
