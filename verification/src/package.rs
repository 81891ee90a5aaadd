//! Identifiers of packages, and the arena that hands them out.

use vstd::prelude::*;

use crate::version_trait::{same_as, Ranked};

verus! {

/// Type for identifying packages.
#[derive(Debug, Copy, Clone, Eq, PartialEq, Structural, Hash)]
pub struct PackageId(pub u32);

impl PackageId {
    /// Get the inner value.
    pub fn get(self) -> (r: u32)
        ensures
            r == self.0,
    {
        self.0
    }
}

/// Package arena: each package is stored once, and its identifier is its
/// position in the order of first insertion.
#[derive(Debug, Clone)]
pub struct PackageArena<P>(Vec<P>);

impl<P> View for PackageArena<P> {
    type V = Seq<P>;

    closed spec fn view(&self) -> Seq<P> {
        self.0@
    }
}

/// No package occurs twice, and every position fits in a package identifier.
pub open spec fn arena_wf<P>(s: Seq<P>) -> bool {
    &&& s.len() <= 0x1_0000_0000
    &&& forall|i: int, j: int| 0 <= i < j < s.len() ==> s[i] != s[j]
}

/// `after` is `before` once `package` was inserted and given the identifier `id`.
pub open spec fn inserted<P>(before: Seq<P>, after: Seq<P>, package: P, id: PackageId) -> bool {
    if before.contains(package) {
        &&& after == before
        &&& id.0 < before.len()
        &&& before[id.0 as int] == package
    } else {
        &&& after == before.push(package)
        &&& id.0 == before.len()
    }
}

impl<P: Ranked> PackageArena<P> {
    /// Create an empty package arena.
    pub fn new() -> (r: Self)
        ensures
            r@ == Seq::<P>::empty(),
    {
        Self(Vec::new())
    }

    /// The packages, in the order of their identifiers.
    pub fn into_iter(self) -> (r: Vec<P>)
        ensures
            r@ == self@,
    {
        self.0
    }

    /// Get the package identifier of a package.
    pub fn get(&self, package: &P) -> (r: Option<PackageId>)
        requires
            arena_wf(self@),
        ensures
            match r {
                None => !self@.contains(*package),
                Some(id) => id.0 < self@.len() && self@[id.0 as int] == *package,
            },
    {
        let mut i: usize = 0;
        while i < self.0.len()
            invariant
                0 <= i <= self@.len(),
                arena_wf(self@),
                forall|j: int| 0 <= j < i ==> self@[j] != *package,
            decreases self@.len() - i,
        {
            if same_as(&self.0[i], package) {
                return Some(PackageId(i as u32));
            }
            i = i + 1;
        }
        None
    }

    /// Insert a package in the arena and get its identifier.
    ///
    /// A package already in the arena keeps its identifier.
    pub fn insert(&mut self, package: P) -> (r: PackageId)
        requires
            arena_wf(old(self)@),
            old(self)@.len() < 0x1_0000_0000 || old(self)@.contains(package),
        ensures
            arena_wf(final(self)@),
            inserted(old(self)@, final(self)@, package, r),
    {
        match self.get(&package) {
            Some(id) => id,
            None => {
                let id = PackageId(self.0.len() as u32);
                self.0.push(package);
                proof {
                    assert forall|i: int, j: int| 0 <= i < j < self@.len() implies self@[i] != self@[j] by {
                        if j == self@.len() - 1 {
                            assert(old(self)@[i] == self@[i]);
                        }
                    }
                }
                id
            },
        }
    }

    /// Get a package from its identifier.
    pub fn pkg(&self, package_id: PackageId) -> (r: Option<&P>)
        ensures
            r == (if package_id.0 < self@.len() { Some(&self@[package_id.0 as int]) } else { None::<&P> }),
    {
        let i = package_id.get() as usize;
        if i < self.0.len() {
            Some(&self.0[i])
        } else {
            None
        }
    }
}

/// A package inserted in an arena is found again under the identifier that
/// the insertion returned, and under no other.
pub proof fn law_insert_then_pkg<P>(before: Seq<P>, after: Seq<P>, package: P, id: PackageId)
    requires
        arena_wf(before),
        arena_wf(after),
        inserted(before, after, package, id),
    ensures
        id.0 < after.len(),
        after[id.0 as int] == package,
        forall|i: int| 0 <= i < after.len() && after[i] == package ==> i == id.0,
{
}

/// Inserting a package a second time returns the same identifier and leaves
/// the arena as it was.
pub proof fn law_insert_twice<P>(
    a0: Seq<P>,
    a1: Seq<P>,
    a2: Seq<P>,
    package: P,
    id1: PackageId,
    id2: PackageId,
)
    requires
        arena_wf(a0),
        arena_wf(a1),
        inserted(a0, a1, package, id1),
        inserted(a1, a2, package, id2),
    ensures
        id1 == id2,
        a2 == a1,
{
    assert(a1[id1.0 as int] == package);
    assert(a1.contains(package));
    if id1.0 != id2.0 {
        assert(a1[id2.0 as int] == package);
    }
}

} // verus!
