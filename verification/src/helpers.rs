//! Helpers structs: packages with more than 63 versions, split over
//! virtual packages of at most 63 versions each.

use vstd::arithmetic::power::pow;
use vstd::prelude::*;

use crate::version::{VersionIndex, VersionSet};

verus! {

/// Package allowing more than 63 versions.
#[derive(Debug, Clone, Eq, PartialEq, Hash)]
pub struct Pkg<P> {
    pkg: P,
    quotient: u64,
    count: u64,
}

impl<P> Pkg<P> {
    /// The inner package.
    pub closed spec fn pkg_spec(self) -> P {
        self.pkg
    }

    /// Which group of 63 versions of the package this is.
    pub closed spec fn quotient_spec(self) -> u64 {
        self.quotient
    }

    /// The number of groups of 63 versions after the first.
    pub closed spec fn count_spec(self) -> u64 {
        self.count
    }

    /// Get the inner package.
    pub fn pkg(&self) -> (r: &P)
        ensures
            *r == self.pkg_spec(),
    {
        &self.pkg
    }

    /// Which group of 63 versions of the package this is.
    pub fn quotient(&self) -> (r: u64)
        ensures
            r == self.quotient_spec(),
    {
        self.quotient
    }
}

/// Virtual package ensuring package unicity.
#[derive(Debug, Clone, Eq, PartialEq, Hash)]
pub struct VirtualPkg<P> {
    pkg: P,
    quotient: u64,
    count: u64,
}

impl<P> VirtualPkg<P> {
    /// The inner package.
    pub closed spec fn pkg_spec(self) -> P {
        self.pkg
    }

    /// Which group of versions of the package this is.
    pub closed spec fn quotient_spec(self) -> u64 {
        self.quotient
    }

    /// The number of groups of versions after the first.
    pub closed spec fn count_spec(self) -> u64 {
        self.count
    }

    /// Get the inner package.
    pub fn pkg(&self) -> (r: &P)
        ensures
            *r == self.pkg_spec(),
    {
        &self.pkg
    }

    /// Which group of versions of the package this is.
    pub fn quotient(&self) -> (r: u64)
        ensures
            r == self.quotient_spec(),
    {
        self.quotient
    }

    /// The number of groups of versions after the first.
    pub fn count(&self) -> (r: u64)
        ensures
            r == self.count_spec(),
    {
        self.count
    }
}

/// Virtual package dependency allowing more than 63 versions.
#[derive(Debug, Clone, Eq, PartialEq, Hash)]
pub struct VirtualDep<P> {
    pkg: P,
    version_indices: Vec<VersionSet>,
    offset: u64,
    quotient: u64,
}

impl<P> VirtualDep<P> {
    /// The inner package.
    pub closed spec fn pkg_spec(self) -> P {
        self.pkg
    }

    /// The versions depended on, by group of 63.
    pub closed spec fn version_indices_spec(self) -> Seq<VersionSet> {
        self.version_indices@
    }

    /// The first group of versions this dependency speaks of.
    pub closed spec fn offset_spec(self) -> u64 {
        self.offset
    }

    /// The number of groups of versions each version of this dependency stands for.
    pub closed spec fn quotient_spec(self) -> u64 {
        self.quotient
    }

    /// Get the inner package.
    pub fn pkg(&self) -> (r: &P)
        ensures
            *r == self.pkg_spec(),
    {
        &self.pkg
    }

    /// The versions depended on, by group of 63.
    pub fn version_indices(&self) -> (r: &[VersionSet])
        ensures
            r@ == self.version_indices_spec(),
    {
        self.version_indices.as_slice()
    }

    /// The first group of versions this dependency speaks of.
    pub fn offset(&self) -> (r: u64)
        ensures
            r == self.offset_spec(),
    {
        self.offset
    }

    /// The number of groups of versions each version of this dependency stands for.
    pub fn quotient(&self) -> (r: u64)
        ensures
            r == self.quotient_spec(),
    {
        self.quotient
    }
}

/// Package wrapper used to allow more than 63 versions per package.
#[derive(Debug, Clone, Eq, PartialEq, Hash)]
pub enum PackageVersionWrapper<P: Clone> {
    /// Package allowing more than 63 versions
    Pkg(Pkg<P>),
    /// Virtual package ensuring package unicity
    VirtualPkg(VirtualPkg<P>),
    /// Virtual package dependency allowing more than 63 versions
    VirtualDep(VirtualDep<P>),
}

/// Whether the wrapper is the package `pkg` with this quotient and count.
pub open spec fn is_pkg<P: Clone>(w: PackageVersionWrapper<P>, pkg: P, quotient: u64, count: u64) -> bool {
    w matches PackageVersionWrapper::Pkg(p) && p.pkg_spec() == pkg && p.quotient_spec() == quotient
        && p.count_spec() == count
}

/// Whether the wrapper is the virtual package of `pkg` with this quotient and count.
pub open spec fn is_virtual_pkg<P: Clone>(w: PackageVersionWrapper<P>, pkg: P, quotient: u64, count: u64) -> bool {
    w matches PackageVersionWrapper::VirtualPkg(p) && p.pkg_spec() == pkg && p.quotient_spec() == quotient
        && p.count_spec() == count
}

/// Whether the wrapper is the virtual dependency on `pkg` with these versions, offset and quotient.
pub open spec fn is_virtual_dep<P: Clone>(
    w: PackageVersionWrapper<P>,
    pkg: P,
    version_indices: Seq<VersionSet>,
    offset: u64,
    quotient: u64,
) -> bool {
    w matches PackageVersionWrapper::VirtualDep(d) && d.pkg_spec() == pkg && d.version_indices_spec()
        == version_indices && d.offset_spec() == offset && d.quotient_spec() == quotient
}

/// Whether the wrapper is a package, on a clone of `pkg`, with this quotient and count.
pub open spec fn is_pkg_cloned<P: Clone>(w: PackageVersionWrapper<P>, pkg: P, quotient: u64, count: u64) -> bool {
    w matches PackageVersionWrapper::Pkg(p) && vstd::pervasive::cloned(pkg, p.pkg_spec()) && p.quotient_spec()
        == quotient && p.count_spec() == count
}

/// Whether the wrapper is a virtual package, on a clone of `pkg`, with this quotient and count.
pub open spec fn is_virtual_pkg_cloned<P: Clone>(
    w: PackageVersionWrapper<P>,
    pkg: P,
    quotient: u64,
    count: u64,
) -> bool {
    w matches PackageVersionWrapper::VirtualPkg(p) && vstd::pervasive::cloned(pkg, p.pkg_spec())
        && p.quotient_spec() == quotient && p.count_spec() == count
}

/// Whether the wrapper is a virtual dependency, on a clone of `pkg`, with
/// these versions, offset and quotient.
pub open spec fn is_virtual_dep_cloned<P: Clone>(
    w: PackageVersionWrapper<P>,
    pkg: P,
    version_indices: Seq<VersionSet>,
    offset: u64,
    quotient: u64,
) -> bool {
    w matches PackageVersionWrapper::VirtualDep(d) && vstd::pervasive::cloned(pkg, d.pkg_spec())
        && d.version_indices_spec() == version_indices && d.offset_spec() == offset && d.quotient_spec() == quotient
}

/// The `i`th group of `quotient` sets, from `offset` on, holds a version.
pub open spec fn chunk_nonempty(sets: Seq<VersionSet>, offset: int, quotient: int, i: int) -> bool {
    exists|j: int|
        offset + i * quotient <= j < offset + (i + 1) * quotient && j < sets.len() && #[trigger] sets[j]@
            != Set::<nat>::empty()
}

/// The versions of a virtual dependency: the groups of `quotient` sets, from
/// `offset` on, that hold a version, among the first 63 groups.
pub open spec fn dep_versions(sets: Seq<VersionSet>, offset: int, quotient: int) -> Set<nat> {
    Set::new(|i: nat| i < 63 && chunk_nonempty(sets, offset, quotient, i as int))
}

/// The version indices `m` such that `63 * k + m` is in `indices`.
pub open spec fn bucket(indices: Seq<u64>, k: int) -> Set<nat> {
    Set::new(|m: nat| exists|t: int| 0 <= t < indices.len() && #[trigger] indices[t] / 63 == k && indices[t] % 63 == m)
}

/// The largest power of 63 at most `x`.
pub open spec fn is_ilog63(x: int, k: nat) -> bool {
    pow(63, k) <= x < pow(63, k + 1)
}

/// The logarithm of `x` in base 63, rounded down.
fn ilog63(x: u64) -> (k: u32)
    requires
        x >= 1,
    ensures
        is_ilog63(x as int, k as nat),
{
    let mut k: u32 = 0;
    let mut p: u64 = 1;
    proof {
        vstd::arithmetic::power::lemma_pow0(63);
    }
    while p <= x / 63
        invariant
            x >= 1,
            p == pow(63, k as nat),
            1 <= p <= x,
            k <= 11,
        decreases x - p,
    {
        proof {
            vstd::arithmetic::power::lemma_pow_adds(63, k as nat, 1);
            vstd::arithmetic::power::lemma_pow1(63);
            assert(k < 11) by {
                if k >= 11 {
                    vstd::arithmetic::power::lemma_pow_increases(63, 11, k as nat);
                    assert(pow(63, 11) > 0xffff_ffff_ffff_ffff) by {
                        reveal_with_fuel(pow, 12);
                    }
                }
            }
        }
        p = p * 63;
        k = k + 1;
    }
    proof {
        vstd::arithmetic::power::lemma_pow_adds(63, k as nat, 1);
        vstd::arithmetic::power::lemma_pow1(63);
    }
    k
}

/// `63` to the power `e`.
fn pow63(e: u32) -> (r: u64)
    requires
        pow(63, e as nat) <= u64::MAX,
    ensures
        r == pow(63, e as nat),
{
    let mut r: u64 = 1;
    let mut i: u32 = 0;
    proof {
        vstd::arithmetic::power::lemma_pow0(63);
    }
    while i < e
        invariant
            i <= e,
            r == pow(63, i as nat),
            pow(63, e as nat) <= u64::MAX,
        decreases e - i,
    {
        proof {
            vstd::arithmetic::power::lemma_pow_adds(63, i as nat, 1);
            vstd::arithmetic::power::lemma_pow1(63);
            vstd::arithmetic::power::lemma_pow_increases(63, (i + 1) as nat, e as nat);
        }
        r = r * 63;
        i = i + 1;
    }
    r
}

impl<P: Clone> PackageVersionWrapper<P> {
    /// Create a new package.
    pub fn new_pkg(pkg: P, true_version_index: u64, version_count: u64) -> (r: (Self, VersionIndex))
        requires
            version_count > 0,
        ensures
            is_pkg(r.0, pkg, true_version_index / 63, ((version_count - 1) / 63) as u64),
            r.1@ == true_version_index % 63,
    {
        (
            Self::Pkg(
                Pkg {
                    pkg,
                    quotient: true_version_index / VersionIndex::MAX,
                    count: (version_count - 1) / VersionIndex::MAX,
                },
            ),
            VersionIndex::new((true_version_index % VersionIndex::MAX) as u8).unwrap(),
        )
    }

    /// Create a new package dependency with no versions.
    pub fn new_empty_dep(pkg: P) -> (r: (Self, VersionSet))
        ensures
            is_pkg(r.0, pkg, 0, 0),
            r.1@ == Set::<nat>::empty(),
    {
        (Self::Pkg(Pkg { pkg, quotient: 0, count: 0 }), VersionSet::empty())
    }

    /// Create a new package dependency at the specified version.
    pub fn new_singleton_dep(pkg: P, true_version_index: u64, version_count: u64) -> (r: (Self, VersionSet))
        requires
            version_count > 0 ==> true_version_index < version_count,
        ensures
            version_count == 0 ==> is_pkg(r.0, pkg, 0, 0) && r.1@ == Set::<nat>::empty(),
            version_count > 0 ==> is_pkg(r.0, pkg, true_version_index / 63, ((version_count - 1) / 63) as u64)
                && r.1@ == set![(true_version_index % 63) as nat],
    {
        if version_count > 0 {
            let (this, v) = Self::new_pkg(pkg, true_version_index, version_count);
            (this, VersionSet::singleton(v))
        } else {
            Self::new_empty_dep(pkg)
        }
    }

    /// Create a new package dependency at the specified versions.
    pub fn new_dep(pkg: P, true_version_indices: &[u64], version_count: u64) -> (r: (Self, VersionSet))
        requires
            version_count > 0 ==> forall|t: int| 0 <= t < true_version_indices@.len() ==> #[trigger] true_version_indices@[t] < version_count,
        ensures
            version_count == 0 ==> is_pkg(r.0, pkg, 0, 0) && r.1@ == Set::<nat>::empty(),
            0 < version_count <= 63 ==> is_pkg(r.0, pkg, 0, 0) && r.1@ == bucket(true_version_indices@, 0),
            version_count > 63 && true_version_indices@.len() == 0 ==> is_pkg(r.0, pkg, 0, 0) && r.1@
                == Set::<nat>::empty(),
            version_count > 63 && true_version_indices@.len() == 1 ==> is_pkg(
                r.0,
                pkg,
                true_version_indices@[0] / 63,
                ((version_count - 1) / 63) as u64,
            ) && r.1@ == set![(true_version_indices@[0] % 63) as nat],
            version_count > 63 && true_version_indices@.len() >= 2 ==> exists|sets: Seq<VersionSet>, k: nat|
                {
                    &&& is_ilog63(version_count as int, k)
                    &&& sets.len() == 1 + (version_count - 1) / 63
                    &&& forall|i: int| 0 <= i < sets.len() ==> (#[trigger] sets[i])@ == bucket(true_version_indices@, i)
                    &&& is_virtual_dep(r.0, pkg, sets, 0, pow(63, (k - 1) as nat) as u64)
                    &&& r.1@ == dep_versions(sets, 0, pow(63, (k - 1) as nat))
                },
    {
        if version_count == 0 {
            return Self::new_empty_dep(pkg);
        }
        let ghost indices = true_version_indices@;
        if version_count <= VersionIndex::MAX {
            let mut set = VersionSet::empty();
            let mut t: usize = 0;
            while t < true_version_indices.len()
                invariant
                    0 <= t <= indices.len(),
                    indices == true_version_indices@,
                    0 < version_count <= 63,
                    forall|u: int| 0 <= u < indices.len() ==> #[trigger] indices[u] < version_count,
                    set@ == Set::new(|m: nat| exists|u: int| 0 <= u < t && #[trigger] indices[u] / 63 == 0 && indices[u] % 63 == m),
                decreases indices.len() - t,
            {
                let true_version_index = true_version_indices[t];
                let v = VersionIndex::new(true_version_index as u8).unwrap();
                let ghost before = set@;
                set = set.union(VersionSet::singleton(v));
                proof {
                    assert forall|m: nat| set@.contains(m) == (exists|u: int| 0 <= u < t + 1 && #[trigger] indices[u] / 63 == 0 && indices[u] % 63 == m) by {
                        if set@.contains(m) && !before.contains(m) {
                            assert(indices[t as int] / 63 == 0 && indices[t as int] % 63 == m);
                        }
                        if exists|u: int| 0 <= u < t + 1 && #[trigger] indices[u] / 63 == 0 && indices[u] % 63 == m {
                            let u = choose|u: int| 0 <= u < t + 1 && #[trigger] indices[u] / 63 == 0 && indices[u] % 63 == m;
                            if u < t {
                                assert(before.contains(m));
                            }
                        }
                    }
                    assert(set@ =~= Set::new(|m: nat| exists|u: int| 0 <= u < t + 1 && #[trigger] indices[u] / 63 == 0 && indices[u] % 63 == m));
                }
                t = t + 1;
            }
            proof {
                assert(set@ =~= bucket(indices, 0));
            }
            return (
                Self::Pkg(Pkg { pkg, quotient: 0, count: (version_count - 1) / VersionIndex::MAX }),
                set,
            );
        }
        if true_version_indices.len() == 0 {
            return Self::new_empty_dep(pkg);
        }
        let first = true_version_indices[0];
        if true_version_indices.len() == 1 {
            let (d, vs) = Self::new_pkg(pkg, first, version_count);
            return (d, VersionSet::singleton(vs));
        }
        let n = 1 + (version_count - 1) / VersionIndex::MAX;
        let mut version_indices: Vec<VersionSet> = Vec::new();
        while (version_indices.len() as u64) < n
            invariant
                n == 1 + (version_count - 1) / 63,
                version_indices@.len() <= n,
                forall|i: int| 0 <= i < version_indices@.len() ==> (#[trigger] version_indices@[i])@ == Set::<nat>::empty(),
            decreases n - version_indices@.len(),
        {
            version_indices.push(VersionSet::empty());
        }
        let built = version_indices.len();
        assert(built == n);
        let mut t: usize = 0;
        while t < true_version_indices.len()
            invariant
                0 <= t <= indices.len(),
                indices == true_version_indices@,
                version_count > 63,
                n <= usize::MAX,
                n == 1 + (version_count - 1) / 63,
                version_indices@.len() == n,
                forall|u: int| 0 <= u < indices.len() ==> #[trigger] indices[u] < version_count,
                forall|i: int| 0 <= i < n ==> (#[trigger] version_indices@[i])@ == Set::new(|m: nat| exists|u: int| 0 <= u < t && #[trigger] indices[u] / 63 == i && indices[u] % 63 == m),
            decreases indices.len() - t,
        {
            let true_version_index = true_version_indices[t];
            assert(true_version_index / 63 < n) by {
                assert(true_version_index < version_count);
            }
            let index = (true_version_index / VersionIndex::MAX) as usize;
            let v = VersionIndex::new((true_version_index % VersionIndex::MAX) as u8).unwrap();
            let ghost before = version_indices@;
            let set = version_indices[index];
            let updated = set.union(VersionSet::singleton(v));
            version_indices.set(index, updated);
            proof {
                assert(updated@ == before[index as int]@.insert(v@)) by {
                    assert(updated@ =~= before[index as int]@.insert(v@));
                }
                assert forall|i: int| 0 <= i < n implies (#[trigger] version_indices@[i])@ == Set::new(|m: nat| exists|u: int| 0 <= u < t + 1 && #[trigger] indices[u] / 63 == i && indices[u] % 63 == m) by {
                    let want = Set::new(|m: nat| exists|u: int| 0 <= u < t + 1 && #[trigger] indices[u] / 63 == i && indices[u] % 63 == m);
                    let old_set = before[i]@;
                    assert(old_set == Set::new(|m: nat| exists|u: int| 0 <= u < t && #[trigger] indices[u] / 63 == i && indices[u] % 63 == m));
                    if i == index {
                        assert(version_indices@[i]@ == old_set.insert(v@));
                    } else {
                        assert(version_indices@[i] == before[i]);
                    }
                    assert forall|m: nat| version_indices@[i]@.contains(m) == want.contains(m) by {
                        if exists|u: int| 0 <= u < t + 1 && #[trigger] indices[u] / 63 == i && indices[u] % 63 == m {
                            let u = choose|u: int| 0 <= u < t + 1 && #[trigger] indices[u] / 63 == i && indices[u] % 63 == m;
                            if u < t {
                                assert(old_set.contains(m));
                            }
                        }
                        if old_set.contains(m) {
                            let u = choose|u: int| 0 <= u < t && #[trigger] indices[u] / 63 == i && indices[u] % 63 == m;
                            assert(0 <= u < t + 1);
                        }
                        if i == index && m == v@ {
                            assert(indices[t as int] / 63 == i && indices[t as int] % 63 == m);
                        }
                    }
                    assert(version_indices@[i]@ =~= want);
                }
            }
            t = t + 1;
        }
        let offset: u64 = 0;
        let k = ilog63(version_count);
        proof {
            vstd::arithmetic::power::lemma_pow1(63);
            if k == 0 {
                assert(pow(63, 1) == 63);
            }
            vstd::arithmetic::power::lemma_pow_increases(63, (k - 1) as nat, k as nat);
            vstd::arithmetic::power::lemma_pow_positive(63, (k - 1) as nat);
        }
        let quotient = pow63(k - 1);
        let version_set = Self::dep_version_set(&version_indices, offset, quotient);
        proof {
            assert forall|i: int| 0 <= i < version_indices@.len() implies (#[trigger] version_indices@[i])@ == bucket(indices, i) by {
                assert(version_indices@[i]@ =~= bucket(indices, i));
            }
        }
        let this = Self::VirtualDep(VirtualDep { pkg, version_indices, offset, quotient });
        (this, version_set)
    }

    /// Clone and replace the package of this wrapper.
    pub fn replace_pkg<T: Clone>(&self, new_pkg: T) -> (r: PackageVersionWrapper<T>)
        ensures
            self matches PackageVersionWrapper::Pkg(p) ==> is_pkg(r, new_pkg, p.quotient_spec(), p.count_spec()),
            self matches PackageVersionWrapper::VirtualPkg(p) ==> is_virtual_pkg(
                r,
                new_pkg,
                p.quotient_spec(),
                p.count_spec(),
            ),
            self matches PackageVersionWrapper::VirtualDep(d) ==> is_virtual_dep(
                r,
                new_pkg,
                d.version_indices_spec(),
                d.offset_spec(),
                d.quotient_spec(),
            ),
    {
        match self {
            Self::Pkg(Pkg { pkg: _, quotient, count }) => PackageVersionWrapper::Pkg(
                Pkg { pkg: new_pkg, quotient: *quotient, count: *count },
            ),
            Self::VirtualPkg(VirtualPkg { pkg: _, quotient, count }) => PackageVersionWrapper::VirtualPkg(
                VirtualPkg { pkg: new_pkg, quotient: *quotient, count: *count },
            ),
            Self::VirtualDep(VirtualDep { pkg: _, version_indices, offset, quotient }) => {
                let version_indices = copy_sets(version_indices);
                PackageVersionWrapper::VirtualDep(
                    VirtualDep { pkg: new_pkg, version_indices, offset: *offset, quotient: *quotient },
                )
            },
        }
    }

    /// Get the inner package if existing.
    pub fn inner_pkg(&self) -> (r: Option<&P>)
        ensures
            self matches PackageVersionWrapper::Pkg(p) ==> r == Some(&p.pkg_spec()),
            !(self is Pkg) ==> r is None,
    {
        match self {
            Self::Pkg(Pkg { pkg, .. }) => Some(pkg),
            _ => None,
        }
    }

    /// Get the inner package if existing.
    pub fn inner(&self, version_index: VersionIndex) -> (r: Option<(&P, u64)>)
        requires
            self matches PackageVersionWrapper::Pkg(p) ==> p.quotient_spec() * 63 + version_index@ <= u64::MAX,
        ensures
            self matches PackageVersionWrapper::Pkg(p) ==> r == Some((&p.pkg_spec(), (p.quotient_spec() * 63
                + version_index@) as u64)),
            !(self is Pkg) ==> r is None,
    {
        match self {
            Self::Pkg(Pkg { pkg, quotient, .. }) => Some(
                (pkg, quotient * VersionIndex::MAX + version_index.get() as u64),
            ),
            _ => None,
        }
    }

    /// Get the inner package if existing.
    pub fn into_inner(self, version_index: VersionIndex) -> (r: Option<(P, u64)>)
        requires
            self matches PackageVersionWrapper::Pkg(p) ==> p.quotient_spec() * 63 + version_index@ <= u64::MAX,
        ensures
            self matches PackageVersionWrapper::Pkg(p) ==> r == Some((p.pkg_spec(), (p.quotient_spec() * 63
                + version_index@) as u64)),
            !(self is Pkg) ==> r is None,
    {
        match self {
            Self::Pkg(Pkg { pkg, quotient, .. }) => Some(
                (pkg, quotient * VersionIndex::MAX + version_index.get() as u64),
            ),
            _ => None,
        }
    }

    /// Get the wrapper virtual dependency if existing.
    pub fn dependency(&self, version_index: VersionIndex) -> (r: Option<(Self, VersionSet)>)
        requires
            self matches PackageVersionWrapper::VirtualDep(d) ==> {
                let o = d.offset_spec() + version_index@ * d.quotient_spec();
                &&& o <= u64::MAX
                &&& d.quotient_spec() == 1 ==> o < d.version_indices_spec().len()
                &&& d.quotient_spec() != 1 ==> d.quotient_spec() >= 63 && o <= d.version_indices_spec().len()
            },
        ensures
            self is Pkg ==> (self->Pkg_0.count_spec() == 0) == (r is None),
            self is VirtualPkg ==> (self->VirtualPkg_0.count_spec() == 0) == (r is None),
            self is VirtualDep ==> r is Some,
            self is Pkg && r is Some ==> is_virtual_pkg_cloned(
                r->Some_0.0,
                self->Pkg_0.pkg_spec(),
                self->Pkg_0.quotient_spec() / 63,
                self->Pkg_0.count_spec() / 63,
            ) && r->Some_0.1@ == set![(self->Pkg_0.quotient_spec() % 63) as nat],
            self is VirtualPkg && r is Some ==> is_virtual_pkg_cloned(
                r->Some_0.0,
                self->VirtualPkg_0.pkg_spec(),
                self->VirtualPkg_0.quotient_spec() / 63,
                self->VirtualPkg_0.count_spec() / 63,
            ) && r->Some_0.1@ == set![(self->VirtualPkg_0.quotient_spec() % 63) as nat],
            self is VirtualDep && r is Some && self->VirtualDep_0.quotient_spec() == 1 ==> {
                let d = self->VirtualDep_0;
                let o = d.offset_spec() + version_index@ * d.quotient_spec();
                &&& is_pkg_cloned(r->Some_0.0, d.pkg_spec(), o as u64, (d.version_indices_spec().len() - 1) as u64)
                &&& r->Some_0.1 == d.version_indices_spec()[o]
            },
            self is VirtualDep && r is Some && self->VirtualDep_0.quotient_spec() != 1 ==> {
                let d = self->VirtualDep_0;
                let o = d.offset_spec() + version_index@ * d.quotient_spec();
                &&& is_virtual_dep_cloned(r->Some_0.0, d.pkg_spec(), d.version_indices_spec(), o as u64, d.quotient_spec() / 63)
                &&& r->Some_0.1@ == dep_versions(d.version_indices_spec(), o, (d.quotient_spec() / 63) as int)
            },
    {
        match self {
            Self::Pkg(Pkg { pkg, quotient, count }) => {
                if *count == 0 {
                    None
                } else {
                    Some(
                        (
                            Self::VirtualPkg(
                                VirtualPkg {
                                    pkg: pkg.clone(),
                                    quotient: quotient / VersionIndex::MAX,
                                    count: count / VersionIndex::MAX,
                                },
                            ),
                            VersionSet::singleton(
                                VersionIndex::new((quotient % VersionIndex::MAX) as u8).unwrap(),
                            ),
                        ),
                    )
                }
            },
            Self::VirtualPkg(VirtualPkg { pkg, quotient, count }) => {
                if *count == 0 {
                    None
                } else {
                    Some(
                        (
                            Self::VirtualPkg(
                                VirtualPkg {
                                    pkg: pkg.clone(),
                                    quotient: quotient / VersionIndex::MAX,
                                    count: count / VersionIndex::MAX,
                                },
                            ),
                            VersionSet::singleton(
                                VersionIndex::new((quotient % VersionIndex::MAX) as u8).unwrap(),
                            ),
                        ),
                    )
                }
            },
            Self::VirtualDep(VirtualDep { pkg, version_indices, offset, quotient }) => {
                let offset = offset + version_index.get() as u64 * quotient;
                if *quotient == 1 {
                    return Some(
                        (
                            Self::Pkg(
                                Pkg {
                                    pkg: pkg.clone(),
                                    quotient: offset,
                                    count: (version_indices.len() - 1) as u64,
                                },
                            ),
                            version_indices[offset as usize],
                        ),
                    );
                }
                let quotient = quotient / VersionIndex::MAX;
                let version_set = Self::dep_version_set(version_indices, offset, quotient);
                let this = Self::VirtualDep(
                    VirtualDep {
                        pkg: pkg.clone(),
                        version_indices: copy_sets(version_indices),
                        offset,
                        quotient,
                    },
                );
                Some((this, version_set))
            },
        }
    }

    /// The versions of a virtual dependency: the groups of `quotient` sets,
    /// from `offset` on, that hold a version, among the first 63 groups.
    pub fn dep_version_set(sets: &[VersionSet], offset: u64, quotient: u64) -> (r: VersionSet)
        requires
            offset <= sets@.len(),
            quotient > 0,
        ensures
            r@ == dep_versions(sets@, offset as int, quotient as int),
    {
        let ghost s = sets@;
        let ghost q = quotient as int;
        let ghost o = offset as int;
        let len = sets.len();
        let mut acc = VersionSet::empty();
        let mut start: usize = offset as usize;
        let mut i: u8 = 0;
        let mut done = start >= len;
        while i < 63 && !done
            invariant
                sets@ == s,
                len == s.len(),
                q == quotient,
                o == offset,
                q > 0,
                i <= 63,
                !done ==> start == o + i * q && start < len,
                done ==> o + i * q >= len,
                acc@ == Set::new(|k: nat| k < i && chunk_nonempty(s, o, q, k as int)),
            decreases 63 - i,
        {
            let rem = len - start;
            let end = if (rem as u64) <= quotient {
                len
            } else {
                start + (quotient as usize)
            };
            proof {
                assert((i + 1) * q == i * q + q) by (nonlinear_arith);
            }
            let mut any = false;
            let mut j = start;
            while j < end
                invariant
                    start <= j <= end <= len,
                    sets@ == s,
                    len == s.len(),
                    any == (exists|m: int| start <= m < j && #[trigger] s[m]@ != Set::<nat>::empty()),
                decreases end - j,
            {
                if !sets[j].is_empty() {
                    any = true;
                }
                j = j + 1;
            }
            let ghost before = acc@;
            if any {
                acc = acc.union(VersionSet::singleton(VersionIndex::new(i).unwrap()));
            }
            proof {
                assert(any == chunk_nonempty(s, o, q, i as int)) by {
                    if any {
                        let m = choose|m: int| start <= m < end && #[trigger] s[m]@ != Set::<nat>::empty();
                        assert(o + i * q <= m < o + (i + 1) * q && m < s.len());
                    }
                    if chunk_nonempty(s, o, q, i as int) {
                        let m = choose|m: int| o + i * q <= m < o + (i + 1) * q && m < s.len() && #[trigger] s[m]@ != Set::<nat>::empty();
                        assert(start <= m < end);
                    }
                }
                assert(acc@ =~= Set::new(|k: nat| k < i + 1 && chunk_nonempty(s, o, q, k as int)));
            }
            if end == len {
                done = true;
            }
            start = end;
            i = i + 1;
        }
        proof {
            assert forall|k: nat| i <= k < 63 implies !chunk_nonempty(s, o, q, k as int) by {
                assert(i * q <= k * q) by (nonlinear_arith)
                    requires
                        i <= k,
                        q > 0,
                ;
            }
            assert(acc@ =~= dep_versions(s, o, q));
        }
        acc
    }
}

/// A copy of a list of sets.
fn copy_sets(sets: &Vec<VersionSet>) -> (r: Vec<VersionSet>)
    ensures
        r@ == sets@,
{
    let mut out: Vec<VersionSet> = Vec::new();
    let mut i: usize = 0;
    while i < sets.len()
        invariant
            0 <= i <= sets@.len(),
            out@ == sets@.subrange(0, i as int),
        decreases sets@.len() - i,
    {
        out.push(sets[i]);
        i = i + 1;
        assert(out@ =~= sets@.subrange(0, i as int));
    }
    assert(sets@.subrange(0, sets@.len() as int) =~= sets@);
    out
}

/// For a package with more than 63 and fewer than `63 * 63` versions, the versions of the
/// virtual dependency that `new_dep` builds from the groups of the indices are the numbers of
/// the groups of 63 that hold one of the indices.
pub proof fn law_dep_versions_are_groups(indices: Seq<u64>, version_count: u64, sets: Seq<VersionSet>)
    requires
        63 < version_count < 63 * 63,
        forall|t: int| 0 <= t < indices.len() ==> #[trigger] indices[t] < version_count,
        sets.len() == 1 + (version_count - 1) / 63,
        forall|i: int| 0 <= i < sets.len() ==> (#[trigger] sets[i])@ == bucket(indices, i),
    ensures
        dep_versions(sets, 0, 1) == Set::new(|q: nat| exists|t: int| 0 <= t < indices.len() && #[trigger] indices[t] / 63 == q),
{
    let groups = Set::new(|q: nat| exists|t: int| 0 <= t < indices.len() && #[trigger] indices[t] / 63 == q);
    assert forall|q: nat| dep_versions(sets, 0, 1).contains(q) == groups.contains(q) by {
        if dep_versions(sets, 0, 1).contains(q) {
            let j = choose|j: int| 0 + q * 1 <= j < 0 + (q + 1) * 1 && j < sets.len() && #[trigger] sets[j]@ != Set::<nat>::empty();
            assert(j == q);
            if !(exists|m: nat| sets[j]@.contains(m)) {
                assert(sets[j]@ =~= Set::<nat>::empty());
            }
            let m = choose|m: nat| sets[j]@.contains(m);
            assert(bucket(indices, j).contains(m));
            let t = choose|t: int| 0 <= t < indices.len() && #[trigger] indices[t] / 63 == j && indices[t] % 63 == m;
            assert(indices[t] / 63 == q);
        }
        if groups.contains(q) {
            let t = choose|t: int| 0 <= t < indices.len() && #[trigger] indices[t] / 63 == q;
            vstd::arithmetic::div_mod::lemma_div_is_ordered(indices[t] as int, version_count - 1, 63);
            vstd::arithmetic::div_mod::lemma_div_is_ordered(version_count - 1, 63 * 63 - 2, 63);
            assert(q < sets.len());
            assert(q < 63);
            let m = (indices[t] % 63) as nat;
            assert(bucket(indices, q as int).contains(m));
            assert(sets[q as int]@.contains(m));
            assert(sets[q as int]@ != Set::<nat>::empty());
            assert(0 + q * 1 <= q < 0 + (q + 1) * 1);
            assert(chunk_nonempty(sets, 0, 1, q as int));
        }
    }
    assert(dep_versions(sets, 0, 1) =~= groups);
}

/// Following the groups that `new_dep` builds back to the versions gives the indices back:
/// the version `k` of the group `j` (the version `63 * j + k` for `inner`) is in the group
/// exactly when `63 * j + k` is one of the indices, and each index `i` is found as the version
/// `i % 63` of the group `i / 63`.
pub proof fn law_groups_round_trip(indices: Seq<u64>, j: int, k: nat)
    requires
        0 <= j,
        k < 63,
    ensures
        bucket(indices, j).contains(k) <==> exists|t: int| 0 <= t < indices.len() && #[trigger] indices[t] == 63 * j + k,
        forall|t: int| 0 <= t < indices.len() ==> bucket(indices, (#[trigger] indices[t] / 63) as int).contains(
            (indices[t] % 63) as nat,
        ) && indices[t] == 63 * (indices[t] / 63) + indices[t] % 63,
{
    if bucket(indices, j).contains(k) {
        let t = choose|t: int| 0 <= t < indices.len() && #[trigger] indices[t] / 63 == j && indices[t] % 63 == k;
        vstd::arithmetic::div_mod::lemma_fundamental_div_mod(indices[t] as int, 63);
        assert(indices[t] == 63 * j + k);
    }
    if exists|t: int| 0 <= t < indices.len() && #[trigger] indices[t] == 63 * j + k {
        let t = choose|t: int| 0 <= t < indices.len() && #[trigger] indices[t] == 63 * j + k;
        vstd::arithmetic::div_mod::lemma_fundamental_div_mod_converse(indices[t] as int, 63, j, k as int);
        assert(indices[t] / 63 == j && indices[t] % 63 == k);
    }
    assert forall|t: int| 0 <= t < indices.len() implies bucket(indices, (#[trigger] indices[t] / 63) as int).contains(
        (indices[t] % 63) as nat,
    ) && indices[t] == 63 * (indices[t] / 63) + indices[t] % 63 by {
        vstd::arithmetic::div_mod::lemma_fundamental_div_mod(indices[t] as int, 63);
    }
}

/// The round trip through the virtual dependency that `new_dep` builds for more than 63 and
/// fewer than `63 * 63` versions, stated over what `new_dep` gives: the dependency is virtual,
/// with groups of one set each from the first group on, so that `dependency` can be asked for
/// each group `j`; the version `k` of that group's set is there exactly when `63 * j + k`, the
/// version that `inner` gives back, is one of the indices; and the versions of the dependency
/// are the groups that hold an index.
pub proof fn law_new_dep_round_trip<P: Clone>(
    pkg: P,
    indices: Seq<u64>,
    version_count: u64,
    d: PackageVersionWrapper<P>,
    sets: Seq<VersionSet>,
    k: nat,
    j: int,
    v: nat,
)
    requires
        63 < version_count < 63 * 63,
        forall|t: int| 0 <= t < indices.len() ==> #[trigger] indices[t] < version_count,
        is_ilog63(version_count as int, k),
        sets.len() == 1 + (version_count - 1) / 63,
        forall|i: int| 0 <= i < sets.len() ==> (#[trigger] sets[i])@ == bucket(indices, i),
        is_virtual_dep(d, pkg, sets, 0, pow(63, (k - 1) as nat) as u64),
        0 <= j < sets.len(),
        v < 63,
    ensures
        d->VirtualDep_0.quotient_spec() == 1,
        d->VirtualDep_0.offset_spec() == 0,
        d->VirtualDep_0.offset_spec() + j * d->VirtualDep_0.quotient_spec() < d->VirtualDep_0.version_indices_spec().len(),
        sets[j]@.contains(v) <==> exists|t: int| 0 <= t < indices.len() && #[trigger] indices[t] == 63 * j + v,
        dep_versions(sets, 0, 1) == Set::new(|q: nat| exists|t: int| 0 <= t < indices.len() && #[trigger] indices[t] / 63 == q),
{
    vstd::arithmetic::power::lemma_pow0(63);
    vstd::arithmetic::power::lemma_pow1(63);
    assert(pow(63, 2) == 63 * 63) by {
        reveal_with_fuel(pow, 3);
    }
    if k == 0 {
        assert(version_count < pow(63, 1));
    } else if k >= 2 {
        vstd::arithmetic::power::lemma_pow_increases(63, 2, k);
    }
    assert(k == 1);
    assert(pow(63, (k - 1) as nat) == 1);
    law_groups_round_trip(indices, j, v);
    law_dep_versions_are_groups(indices, version_count, sets);
}

} // verus!
