use std::cmp::Reverse;
use pubgrub::provider::{count_in_range, OfflineDependencyProvider};
use pubgrub::range::Ranges;
use pubgrub::solver::{Dependencies, DependencyProvider, PackageResolutionStatistics};
use pubgrub::version_set::VersionSet;
use pubgrub::version_trait::Bound::{Excluded, Included};

/// The priority counts the versions of the package that the range holds.
#[test]
fn prioritize_counts_versions_in_range() {
    let mut provider = OfflineDependencyProvider::<u8, Ranges<u32>>::new();
    for version in [1u32, 3, 5, 7] {
        provider.add_dependencies(0, version, vec![]);
    }
    let statistics = PackageResolutionStatistics::default();

    let cases = [
        (Ranges::empty(), 0),
        (Ranges::full(), 4),
        (Ranges::singleton(3u32), 1),
        (Ranges::from_range_bounds((Included(2u32), Included(6))), 2),
        (Ranges::singleton(1u32).union(&Ranges::singleton(7u32)), 2),
        (Ranges::higher_than(9u32), 0),
    ];

    for (range, count) in cases {
        let expected = if count == 0 { (u32::MAX, Reverse(0)) } else { (0, Reverse(count)) };
        assert_eq!(provider.prioritize(&0, &range, &statistics), expected, "{range:?}");
    }

    let unknown_package = provider.prioritize(&1, &Ranges::full(), &statistics);
    assert_eq!(unknown_package, (u32::MAX, Reverse(0)));
}

/// Covers the single-version path.
#[test]
fn prioritize_counts_a_single_version() {
    let mut provider = OfflineDependencyProvider::<u8, Ranges<u32>>::new();
    provider.add_dependencies(0, 3u32, vec![]);
    let statistics = PackageResolutionStatistics::default();

    for (range, expected) in [
        (Ranges::full(), (0, Reverse(1))),
        (Ranges::singleton(3u32), (0, Reverse(1))),
        (Ranges::singleton(4u32), (u32::MAX, Reverse(0))),
        (Ranges::empty(), (u32::MAX, Reverse(0))),
    ] {
        assert_eq!(provider.prioritize(&0, &range, &statistics), expected, "{range:?}");
    }
}

#[test]
fn count_in_range_counts_listed_versions() {
    let versions = [1u32, 2, 3, 4, 5, 6];
    assert_eq!(count_in_range(&Ranges::between(2u32, 5u32), &versions), 3);
    assert_eq!(count_in_range(&Ranges::<u32>::empty(), &versions), 0);
    assert_eq!(count_in_range(&Ranges::<u32>::full(), &versions), 6);
    assert_eq!(
        count_in_range(&Ranges::from_range_bounds((Excluded(5u32), Excluded(9))), &versions),
        1
    );
    assert_eq!(count_in_range(&Ranges::<u32>::full(), &[]), 0);
}

#[test]
fn no_conflict_yet_counts_zero() {
    assert_eq!(PackageResolutionStatistics::default().conflict_count(), 0);
}

fn available(d: Dependencies<u8, Ranges<u32>, String>) -> Vec<(u8, Ranges<u32>)> {
    match d {
        Dependencies::Available(d) => d,
        Dependencies::Unavailable(m) => panic!("unavailable: {m}"),
    }
}

#[test]
fn registered_dependencies_are_read_back() {
    let mut provider = OfflineDependencyProvider::<u8, Ranges<u32>>::new();
    provider.add_dependencies(1, 2u32, vec![(2, Ranges::singleton(1u32)), (3, Ranges::full())]);
    let mut deps = available(provider.get_dependencies(&1, &2));
    deps.sort_by_key(|(p, _)| *p);
    assert_eq!(deps, vec![(2, Ranges::singleton(1u32)), (3, Ranges::full())]);

    match provider.get_dependencies(&1, &3) {
        Dependencies::Unavailable(m) => assert_eq!(m, "its dependencies could not be determined"),
        Dependencies::Available(_) => panic!("version 3 was never registered"),
    }
    assert!(matches!(provider.get_dependencies(&9, &2), Dependencies::Unavailable(_)));
}

#[test]
fn last_dependency_on_a_package_wins() {
    let mut provider = OfflineDependencyProvider::<u8, Ranges<u32>>::new();
    provider.add_dependencies(
        1,
        1u32,
        vec![(2, Ranges::singleton(1u32)), (3, Ranges::full()), (2, Ranges::higher_than(4u32))],
    );
    let mut deps = available(provider.get_dependencies(&1, &1));
    deps.sort_by_key(|(p, _)| *p);
    assert_eq!(deps, vec![(2, Ranges::higher_than(4u32)), (3, Ranges::full())]);
}

#[test]
fn registering_again_replaces_dependencies() {
    let mut provider = OfflineDependencyProvider::<u8, Ranges<u32>>::new();
    provider.add_dependencies(1, 1u32, vec![(2, Ranges::singleton(1u32))]);
    provider.add_dependencies(1, 2u32, vec![(3, Ranges::full())]);
    provider.add_dependencies(1, 1u32, vec![(4, Ranges::empty())]);
    assert_eq!(available(provider.get_dependencies(&1, &1)), vec![(4, Ranges::empty())]);
    assert_eq!(available(provider.get_dependencies(&1, &2)), vec![(3, Ranges::full())]);
    assert_eq!(provider.versions(&1), Some(vec![1u32, 2]));
}

#[test]
fn versions_are_listed_in_increasing_order() {
    let mut provider = OfflineDependencyProvider::<u8, Ranges<u32>>::new();
    for version in [5u32, 1, 9, 3, 1] {
        provider.add_dependencies(7, version, vec![]);
    }
    provider.add_dependencies(8, 4u32, vec![]);
    assert_eq!(provider.versions(&7), Some(vec![1u32, 3, 5, 9]));
    assert_eq!(provider.versions(&8), Some(vec![4u32]));
    assert_eq!(provider.versions(&0), None);
    let mut packages = provider.packages();
    packages.sort();
    assert_eq!(packages, vec![7, 8]);
    assert!(OfflineDependencyProvider::<u8, Ranges<u32>>::default().packages().is_empty());
}

#[test]
fn choose_version_picks_the_highest_in_range() {
    let mut provider = OfflineDependencyProvider::<u8, Ranges<u32>>::new();
    for version in [4u32, 1, 8, 6] {
        provider.add_dependencies(0, version, vec![]);
    }
    assert_eq!(provider.choose_version(&0, &Ranges::full()), Some(8));
    assert_eq!(provider.choose_version(&0, &Ranges::strictly_lower_than(8u32)), Some(6));
    assert_eq!(provider.choose_version(&0, &Ranges::between(2u32, 5u32)), Some(4));
    assert_eq!(provider.choose_version(&0, &Ranges::between(2u32, 4u32)), None);
    assert_eq!(provider.choose_version(&1, &Ranges::full()), None);
}

#[test]
fn fewer_versions_in_range_means_higher_priority() {
    let mut provider = OfflineDependencyProvider::<u8, Ranges<u32>>::new();
    for version in [1u32, 3, 5, 7] {
        provider.add_dependencies(0, version, vec![]);
    }
    let statistics = PackageResolutionStatistics::default();
    let one = provider.prioritize(&0, &Ranges::singleton(3u32), &statistics);
    let all = provider.prioritize(&0, &Ranges::full(), &statistics);
    assert!(one > all);
}

fn choose_through_the_trait<DP: DependencyProvider>(
    dp: &DP,
    package: &DP::P,
    range: &DP::VS,
) -> Option<<DP::VS as VersionSet>::V> {
    dp.choose_version(package, range).ok().flatten()
}

#[test]
fn offline_provider_answers_through_the_trait() {
    let mut provider = OfflineDependencyProvider::<u8, Ranges<u32>>::new();
    provider.add_dependencies(0, 1u32, vec![(1, Ranges::full())]);
    provider.add_dependencies(0, 3u32, vec![]);
    assert_eq!(choose_through_the_trait(&provider, &0, &Ranges::full()), Some(3));
    assert_eq!(choose_through_the_trait(&provider, &0, &Ranges::singleton(2u32)), None);
    match DependencyProvider::get_dependencies(&provider, &0, &1) {
        Ok(Dependencies::Available(d)) => assert_eq!(d, vec![(1, Ranges::full())]),
        _ => panic!("the dependencies are registered"),
    }
    match DependencyProvider::get_dependencies(&provider, &0, &2) {
        Ok(Dependencies::Unavailable(m)) => assert_eq!(m, "its dependencies could not be determined"),
        _ => panic!("the version is not registered"),
    }
    assert!(DependencyProvider::should_cancel(&provider).is_ok());
    assert_eq!(
        DependencyProvider::prioritize(&provider, &0, &Ranges::full(), &PackageResolutionStatistics::default()),
        (0, Reverse(2))
    );
}
