//! Assignments are the building blocks of a PubGrub partial solution.
//! (partial solution = the current state of the solution we are building in the algorithm).

use vstd::prelude::*;

use crate::arena::{Arena, Id};
use crate::incompatibility::{lookup, IncompId, Incompatibility};
use crate::range::point;
use crate::term::Term;
use crate::version_set::VersionSet;

verus! {

/// An assignment is either a decision: a chosen version for a package,
/// or a derivation : a term specifying compatible versions for a package.
/// We also record the incompatibility at the origin of a derivation, called its cause.
#[derive(Debug)]
pub enum Assignment<P, VS: VersionSet, M> {
    /// The decision.
    Decision {
        /// The package corresponding to the decision.
        package: Id<P>,
        /// The decided version.
        version: VS::V,
    },
    /// The derivation.
    Derivation {
        /// The package corresponding to the derivation.
        package: Id<P>,
        /// Incompatibility cause of the derivation.
        cause: IncompId<P, VS, M>,
    },
}

impl<P, VS: VersionSet, M> Assignment<P, VS, M> {
    /// The package of the assignment.
    pub open spec fn package_spec(self) -> Id<P> {
        match self {
            Assignment::Decision { package, .. } => package,
            Assignment::Derivation { package, .. } => package,
        }
    }

    /// Return the package for this assignment
    pub fn package(&self) -> (r: &Id<P>)
        ensures
            self matches Assignment::Decision { package, .. } ==> *r == package,
            self matches Assignment::Derivation { package, .. } ==> *r == package,
    {
        match self {
            Self::Decision { package, .. } => package,
            Self::Derivation { package, .. } => package,
        }
    }

    /// Retrieve the current assignment as a [Term].
    /// If this is decision, it returns a positive term with that exact version.
    /// Otherwise, if this is a derivation, it returns the negation of the term of
    /// its package in its cause.
    pub fn as_term(&self, store: &Arena<Incompatibility<P, VS, M>>) -> (r: Term<VS>)
        requires
            self matches Assignment::Derivation { package, cause } ==> cause.index() < store@.len()
                && store@[cause.index()].wf() && lookup(store@[cause.index()].entries(), package.index()) is Some,
        ensures
            r.valid(),
            self matches Assignment::Decision { version, .. } ==> r is Positive && forall|c: Option<int>|
                #[trigger] r.holds(c) == (c == Some(point(*version))),
            self matches Assignment::Derivation { package, cause } ==> forall|c: Option<int>| #[trigger] r.holds(c)
                == !lookup(store@[cause.index()].entries(), package.index())->0.holds(c),
    {
        match self {
            Self::Decision { version, .. } => Term::exact(*version),
            Self::Derivation { package, cause } => {
                let t = store.get(*cause).get(*package).unwrap();
                proof {
                    let e = store@[cause.index()].entries();
                    crate::incompatibility::lemma_lookup_at(e, crate::incompatibility::entry_index(e, package.index()));
                }
                t.negate()
            },
        }
    }
}

} // verus!
