use pubgrub::experimental::{VersionIndex, VersionSet};
use pubgrub::helpers::PackageVersionWrapper;

fn idx(v: u8) -> VersionIndex {
    VersionIndex::new(v).unwrap()
}

fn set_of(vs: &[u8]) -> VersionSet {
    let mut s = VersionSet::empty();
    for v in vs {
        s = s.union(VersionSet::singleton(idx(*v)));
    }
    s
}

#[test]
fn new_pkg_splits_the_version_index() {
    let (w, v) = PackageVersionWrapper::new_pkg("a", 130, 200);
    assert_eq!(v.get(), 130 % 63);
    assert_eq!(w.inner_pkg(), Some(&"a"));
    assert_eq!(w.inner(v), Some((&"a", 130)));
    assert_eq!(w.clone().into_inner(v), Some(("a", 130)));
    // The package has 4 chunks of 63 versions: it depends on a virtual package.
    let (vp, vs) = w.dependency(v).unwrap();
    assert_eq!(vs, set_of(&[2]));
    assert_eq!(vp.inner_pkg(), None);
    assert_eq!(vp.inner(v), None);
    // The virtual package of a small count has no further dependency.
    assert_eq!(vp.dependency(v), None);
}

#[test]
fn small_packages_have_no_dependency() {
    let (w, v) = PackageVersionWrapper::new_pkg("a", 5, 10);
    assert_eq!(v.get(), 5);
    assert_eq!(w.inner(v), Some((&"a", 5)));
    assert_eq!(w.dependency(v), None);
}

#[test]
fn empty_and_singleton_dependencies() {
    let (w, vs) = PackageVersionWrapper::new_empty_dep("a");
    assert_eq!(vs, VersionSet::empty());
    assert_eq!(w.inner(idx(0)), Some((&"a", 0)));
    let (w, vs) = PackageVersionWrapper::new_singleton_dep("a", 5, 10);
    assert_eq!(vs, set_of(&[5]));
    assert_eq!(w.inner(idx(5)), Some((&"a", 5)));
    let (w, vs) = PackageVersionWrapper::new_singleton_dep("a", 0, 0);
    assert_eq!(vs, VersionSet::empty());
    assert_eq!(w, PackageVersionWrapper::new_empty_dep("a").0);
}

#[test]
fn new_dep_with_few_versions() {
    let (w, vs) = PackageVersionWrapper::new_dep("a", &[1, 3], 10);
    assert_eq!(vs, set_of(&[1, 3]));
    assert_eq!(w.inner(idx(3)), Some((&"a", 3)));
    let (w, vs) = PackageVersionWrapper::new_dep("a", &[1, 3], 0);
    assert_eq!(vs, VersionSet::empty());
    assert_eq!(w.inner_pkg(), Some(&"a"));
}

#[test]
fn new_dep_with_many_versions_round_trips() {
    // Versions 0 and 70 of 200: two of the four chunks are used.
    let (w, vs) = PackageVersionWrapper::new_dep("a", &[0, 70], 200);
    assert_eq!(vs, set_of(&[0, 1]));
    assert_eq!(w.inner_pkg(), None);
    // Following the chunk of version 70 leads back to the package itself.
    let (p, pvs) = w.dependency(idx(1)).unwrap();
    assert_eq!(pvs, set_of(&[7]));
    assert_eq!(p.inner(idx(7)), Some((&"a", 70)));
    let (p, pvs) = w.dependency(idx(0)).unwrap();
    assert_eq!(pvs, set_of(&[0]));
    assert_eq!(p.inner(idx(0)), Some((&"a", 0)));
    // A single version among many is a plain package.
    let (w, vs) = PackageVersionWrapper::new_dep("a", &[70], 200);
    assert_eq!(vs, set_of(&[7]));
    assert_eq!(w.inner(idx(7)), Some((&"a", 70)));
    // No version among many is the empty dependency.
    let (w, vs) = PackageVersionWrapper::new_dep("a", &[], 200);
    assert_eq!(vs, VersionSet::empty());
    assert_eq!(w, PackageVersionWrapper::new_empty_dep("a").0);
}

#[test]
fn new_dep_with_two_levels_of_chunks() {
    // 5000 versions need chunks of 63 chunks of 63 versions.
    let (w, vs) = PackageVersionWrapper::new_dep("a", &[10, 4000], 5000);
    // 4000 = 1 * 3969 + 31: the second top chunk.
    assert_eq!(vs, set_of(&[0, 1]));
    let (mid, mid_vs) = w.dependency(idx(1)).unwrap();
    // 31 = 0 * 63 + 31: the first chunk of the second top chunk.
    assert_eq!(mid_vs, set_of(&[0]));
    let (leaf, leaf_vs) = mid.dependency(idx(0)).unwrap();
    assert_eq!(leaf_vs, set_of(&[31]));
    assert_eq!(leaf.inner(idx(31)), Some((&"a", 4000)));
}

#[test]
fn replace_pkg_keeps_the_shape() {
    let (w, vs) = PackageVersionWrapper::new_dep("a", &[0, 70], 200);
    let r = w.replace_pkg(7u32);
    assert_eq!(r.inner_pkg(), None);
    let (p, pvs) = r.dependency(idx(1)).unwrap();
    assert_eq!(pvs, set_of(&[7]));
    assert_eq!(p.inner(idx(7)), Some((&7u32, 70)));
    assert_eq!(vs, set_of(&[0, 1]));
    let (w, _) = PackageVersionWrapper::new_pkg("a", 3, 5);
    assert_eq!(w.replace_pkg("b").inner_pkg(), Some(&"b"));
}

#[test]
fn dep_version_set_marks_used_chunks() {
    let sets = [
        VersionSet::empty(),
        set_of(&[1]),
        VersionSet::empty(),
        VersionSet::empty(),
        set_of(&[2]),
    ];
    assert_eq!(
        PackageVersionWrapper::<&str>::dep_version_set(&sets, 0, 2),
        set_of(&[0, 2])
    );
    assert_eq!(
        PackageVersionWrapper::<&str>::dep_version_set(&sets, 2, 2),
        set_of(&[1])
    );
    assert_eq!(
        PackageVersionWrapper::<&str>::dep_version_set(&sets, 0, 1),
        set_of(&[1, 4])
    );
}

#[test]
fn new_dep_versions_are_the_groups_of_the_indices() {
    let (_, vs) = PackageVersionWrapper::new_dep("a", &[5, 64, 130, 131, 189], 200);
    // 5 / 63 = 0, 64 / 63 = 1, 130 / 63 = 131 / 63 = 2, 189 / 63 = 3.
    assert_eq!(vs, set_of(&[0, 1, 2, 3]));
    let (_, vs) = PackageVersionWrapper::new_dep("a", &[64, 65], 200);
    assert_eq!(vs, set_of(&[1]));
}
