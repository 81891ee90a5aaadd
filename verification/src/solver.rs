//! What the solver records of each package.

use vstd::prelude::*;

use crate::range::point;
use crate::version_set::VersionSet;
use crate::version_trait::Ranked;

verus! {

/// Statistics on how often a package conflicted with other packages.
#[derive(Debug, Clone)]
pub struct PackageResolutionStatistics {
    // We track these fields separately but currently don't expose them separately to keep the
    // stable API slim.
    //
    // Say we have packages A and B, A having higher priority than B. We first decide A and then B,
    // and then find B to conflict with A. We call be B "affected" and A "culprit" since the
    // decisions for B is being rejected due to the decision we made for A earlier.
    //
    // If B is rejected due to its dependencies conflicting with A, we increase
    // `dependencies_affected` for B and for `dependencies_culprit` A. If B is rejected in unit
    // through an incompatibility with B, we increase `unit_propagation_affected` for B and for
    // `unit_propagation_culprit` A.
    unit_propagation_affected: u32,
    unit_propagation_culprit: u32,
    dependencies_affected: u32,
    dependencies_culprit: u32,
}

impl PackageResolutionStatistics {
    /// The sum of the four counts.
    pub closed spec fn total(self) -> int {
        self.unit_propagation_affected + self.unit_propagation_culprit + self.dependencies_affected
            + self.dependencies_culprit
    }

    /// The number of conflicts this package was involved in.
    ///
    /// Processing packages with a high conflict count earlier usually speeds up resolution.
    ///
    /// Whenever a package is part of the root cause incompatibility of a conflict, we increase its
    /// count by one. Since the structure of the incompatibilities may change, this count too may
    /// change in the future.
    pub fn conflict_count(&self) -> (r: u32)
        requires
            self.total() <= u32::MAX,
        ensures
            r == self.total(),
    {
        self.unit_propagation_affected + self.unit_propagation_culprit + self.dependencies_affected
            + self.dependencies_culprit
    }
}

/// Information about package dependencies, as handed out by a dependency provider: for each
/// package depended upon, the set of its versions allowed.
#[derive(Debug, Clone)]
pub enum Dependencies<P, VS, M> {
    /// Package dependencies are unavailable with the reason why they are missing.
    Unavailable(M),
    /// Container for all available package versions.
    Available(Vec<(P, VS)>),
}

impl Default for PackageResolutionStatistics {
    /// No conflict yet.
    fn default() -> (r: Self)
        ensures
            r.total() == 0,
    {
        Self {
            unit_propagation_affected: 0,
            unit_propagation_culprit: 0,
            dependencies_affected: 0,
            dependencies_culprit: 0,
        }
    }
}

/// The dependencies `b` are a copy of `a`: the same packages, in the same order, each with a
/// clone of its version set.
pub open spec fn clones<P, VS: Clone>(a: Seq<(P, VS)>, b: Seq<(P, VS)>) -> bool {
    &&& a.len() == b.len()
    &&& forall|i: int| 0 <= i < a.len() ==> (#[trigger] b[i]).0 == a[i].0 && vstd::pervasive::cloned(a[i].1, b[i].1)
}

/// Trait that allows the algorithm to retrieve available packages and their dependencies.
pub trait DependencyProvider {
    /// How this provider stores the name of the packages.
    type P: Ranked;

    /// How this provider stores the version requirements for the packages.
    type VS: VersionSet;

    /// The type returned from `prioritize`.
    type Priority;

    /// Type for custom incompatibilities.
    type M;

    /// The kind of error returned from these methods.
    type Err;

    /// The state in which the provider answers.
    spec fn provider_wf(&self) -> bool;

    /// The dependencies the provider knows of a version of a package, if it knows them.
    spec fn deps(&self, package: Self::P, version: <Self::VS as VersionSet>::V) -> Option<Seq<(Self::P, Self::VS)>>;

    /// Determine the order in which versions are chosen for packages.
    fn prioritize(
        &self,
        package: &Self::P,
        range: &Self::VS,
        package_conflicts_counts: &PackageResolutionStatistics,
    ) -> Self::Priority
        requires
            self.provider_wf(),
            package_conflicts_counts.total() <= u32::MAX,
    ;

    /// The version to use for the package, among those that the range contains.
    fn choose_version(&self, package: &Self::P, range: &Self::VS) -> (r: Result<
        Option<<Self::VS as VersionSet>::V>,
        Self::Err,
    >)
        requires
            self.provider_wf(),
        ensures
            r matches Ok(Some(v)) ==> range.has_point(point(v)),
    ;

    /// Retrieves the package dependencies.
    fn get_dependencies(&self, package: &Self::P, version: &<Self::VS as VersionSet>::V) -> (r: Result<
        Dependencies<Self::P, Self::VS, Self::M>,
        Self::Err,
    >)
        requires
            self.provider_wf(),
        ensures
            r matches Ok(Dependencies::Available(d)) ==> self.deps(*package, *version) matches Some(e) && clones(e, d@),
            r matches Ok(Dependencies::Unavailable(_)) ==> self.deps(*package, *version) is None,
    ;

    /// Whether the resolution is to stop, with this error.
    fn should_cancel(&self) -> (r: Result<(), Self::Err>);
}

} // verus!
