//! Pieces of the reports of failed resolutions.

use core::marker::PhantomData;
use vstd::prelude::*;

use crate::term::Term;
use crate::version_set::VersionSet;
use crate::pairs::{lemma_last_index_of_key, last_index_of_key, lookup};
use crate::version_trait::{contains_item, same_as, Ranked};

verus! {

/// Identifier of a node in a derivation tree.
#[derive(Debug, Clone, Copy, PartialEq, Eq, Structural, Hash)]
pub struct DerivationTreeId(usize);

impl DerivationTreeId {
    /// The identifier of the node at this index.
    pub fn from_raw(raw: usize) -> (r: Self)
        ensures
            r.raw_spec() == raw,
    {
        Self(raw)
    }

    /// The index of the node.
    pub closed spec fn raw_spec(self) -> usize {
        self.0
    }

    /// The index of the node.
    pub fn raw(self) -> (r: usize)
        ensures
            r == self.raw_spec(),
    {
        self.0
    }
}

/// Incompatibility that is not derived from other incompatibilities.
#[derive(Debug, Clone)]
pub enum External<P, VS: VersionSet, M> {
    /// Initial incompatibility aiming at picking the root package for the first decision.
    NotRoot(P, VS::V),
    /// There are no versions in the given set for this package.
    NoVersions(P, VS),
    /// Incompatibility coming from the dependencies of a given package.
    FromDependencyOf(P, VS, P, VS),
    /// The package is unusable for reasons outside pubgrub.
    Custom(P, VS, M),
}

/// Default formatter for the default reporter.
#[derive(Default, Debug)]
pub struct DefaultStringReportFormatter;

/// Incompatibility derived from two others.
#[derive(Debug)]
pub struct Derived<P, VS: VersionSet, M> {
    /// Terms of the incompatibility.
    pub terms: Vec<(P, Term<VS>)>,
    /// Indicate if the incompatibility is present multiple times in the derivation tree.
    ///
    /// If that is the case, the number is a unique id. This can be used to only explain this
    /// incompatibility once, then refer to the explanation for the other times.
    pub shared_id: Option<usize>,
    /// First cause.
    pub cause1: DerivationTreeId,
    /// Second cause.
    pub cause2: DerivationTreeId,
    /// The type of the metadata of custom incompatibilities.
    pub _metadata: PhantomData<M>,
}

impl<P, VS: VersionSet, M> Derived<P, VS, M> {
    /// A derived incompatibility with its terms and causes.
    pub fn new(terms: Vec<(P, Term<VS>)>, shared_id: Option<usize>, cause1: DerivationTreeId, cause2: DerivationTreeId) -> (r: Self)
        ensures
            r.terms@ == terms@,
            r.shared_id == shared_id,
            r.cause1 == cause1,
            r.cause2 == cause2,
    {
        Self { terms, shared_id, cause1, cause2, _metadata: PhantomData }
    }
}

/// A node in a derivation tree.
#[derive(Debug)]
pub enum DerivationTreeNode<P, VS: VersionSet, M> {
    /// External incompatibility.
    External(External<P, VS, M>),
    /// Incompatibility derived from two others.
    Derived(Derived<P, VS, M>),
}

/// The packages that a node names.
pub open spec fn node_packages<P, VS: VersionSet, M>(node: DerivationTreeNode<P, VS, M>) -> Set<P> {
    match node {
        DerivationTreeNode::External(External::FromDependencyOf(p, _, p2, _)) => set![p, p2],
        DerivationTreeNode::External(External::NoVersions(p, _)) => set![p],
        DerivationTreeNode::External(External::NotRoot(p, _)) => set![p],
        DerivationTreeNode::External(External::Custom(p, _, _)) => set![p],
        DerivationTreeNode::Derived(d) => Set::new(|p: P| exists|i: int| 0 <= i < d.terms@.len() && #[trigger] d.terms@[i].0 == p),
    }
}

/// Whether the node at `child` is a cause of the node at `parent`.
pub open spec fn is_cause<P, VS: VersionSet, M>(nodes: Seq<DerivationTreeNode<P, VS, M>>, parent: int, child: int) -> bool {
    &&& 0 <= parent < nodes.len()
    &&& nodes[parent] matches DerivationTreeNode::Derived(d)
    &&& (d.cause1.raw_spec() == child || d.cause2.raw_spec() == child)
}

/// A path from the node at `from` following causes.
pub open spec fn is_path<P, VS: VersionSet, M>(nodes: Seq<DerivationTreeNode<P, VS, M>>, from: int, path: Seq<int>) -> bool {
    &&& path.len() >= 1
    &&& path[0] == from
    &&& forall|i: int| 0 <= i < path.len() - 1 ==> #[trigger] is_cause(nodes, path[i], path[i + 1])
}

/// Derivation tree resulting in the impossibility to solve the dependencies of our root package.
///
/// The tree is stored as an arena of nodes. Causes of derived incompatibilities are represented as
/// node ids instead of recursive ownership, so very deep derivation trees can be traversed and
/// dropped without recursively consuming stack.
#[derive(Debug)]
pub struct DerivationTree<P, VS: VersionSet, M> {
    arena: Vec<DerivationTreeNode<P, VS, M>>,
    root: DerivationTreeId,
}

impl<P, VS: VersionSet, M> DerivationTree<P, VS, M> {
    /// The nodes of the tree, by identifier.
    pub closed spec fn nodes(self) -> Seq<DerivationTreeNode<P, VS, M>> {
        self.arena@
    }

    /// The identifier of the root incompatibility.
    pub closed spec fn root_spec(self) -> DerivationTreeId {
        self.root
    }

    /// The root and every cause name a node of the tree.
    pub open spec fn wf(self) -> bool {
        &&& self.root_spec().raw_spec() < self.nodes().len()
        &&& forall|i: int| 0 <= i < self.nodes().len() ==> match #[trigger] self.nodes()[i] {
            DerivationTreeNode::Derived(d) => d.cause1.raw_spec() < self.nodes().len() && d.cause2.raw_spec() < self.nodes().len(),
            DerivationTreeNode::External(_) => true,
        }
    }

    /// Whether the node is reached from the root by following causes.
    pub open spec fn reachable(self, id: int) -> bool {
        exists|path: Seq<int>| #[trigger] is_path(self.nodes(), self.root_spec().raw_spec() as int, path) && path.last() == id
    }

    /// A tree made of nodes and the identifier of its root.
    pub fn from_arena(arena: Vec<DerivationTreeNode<P, VS, M>>, root: DerivationTreeId) -> (r: Self)
        requires
            root.raw_spec() < arena@.len(),
        ensures
            r.nodes() == arena@,
            r.root_spec() == root,
    {
        Self { arena, root }
    }

    /// Add a node to the arena and get its identifier.
    pub fn alloc_node(arena: &mut Vec<DerivationTreeNode<P, VS, M>>, node: DerivationTreeNode<P, VS, M>) -> (r: DerivationTreeId)
        ensures
            final(arena)@ == old(arena)@.push(node),
            r.raw_spec() == old(arena)@.len(),
    {
        let id = DerivationTreeId::from_raw(arena.len());
        arena.push(node);
        id
    }

    /// Return the id of the root incompatibility.
    pub fn root_id(&self) -> (r: DerivationTreeId)
        ensures
            r == self.root_spec(),
    {
        self.root
    }

    /// Return the root incompatibility.
    pub fn root(&self) -> (r: &DerivationTreeNode<P, VS, M>)
        requires
            self.wf(),
        ensures
            *r == self.nodes()[self.root_spec().raw_spec() as int],
    {
        self.node(self.root)
    }

    /// The derived incompatibility of a node that is one.
    pub fn derived(&self, id: DerivationTreeId) -> (r: &Derived<P, VS, M>)
        requires
            id.raw_spec() < self.nodes().len(),
            self.nodes()[id.raw_spec() as int] is Derived,
        ensures
            self.nodes()[id.raw_spec() as int] == DerivationTreeNode::Derived(*r),
    {
        match self.node(id) {
            DerivationTreeNode::Derived(derived) => derived,
            DerivationTreeNode::External(_) => {
                proof {
                    assert(false);
                }
                unreached()
            },
        }
    }

    /// The external incompatibility of a node that is one.
    pub fn external(&self, id: DerivationTreeId) -> (r: &External<P, VS, M>)
        requires
            id.raw_spec() < self.nodes().len(),
            self.nodes()[id.raw_spec() as int] is External,
        ensures
            self.nodes()[id.raw_spec() as int] == DerivationTreeNode::External(*r),
    {
        match self.node(id) {
            DerivationTreeNode::External(external) => external,
            DerivationTreeNode::Derived(_) => {
                proof {
                    assert(false);
                }
                unreached()
            },
        }
    }

    /// Whether the root and every cause name a node of the tree.
    pub fn is_well_formed(&self) -> (r: bool)
        ensures
            r == self.wf(),
    {
        let n = self.arena.len();
        if self.root.raw() >= n {
            return false;
        }
        let mut i: usize = 0;
        while i < n
            invariant
                0 <= i <= n,
                n == self.nodes().len(),
                self.root_spec().raw_spec() < n,
                forall|j: int| 0 <= j < i ==> match #[trigger] self.nodes()[j] {
                    DerivationTreeNode::Derived(d) => d.cause1.raw_spec() < n && d.cause2.raw_spec() < n,
                    DerivationTreeNode::External(_) => true,
                },
            decreases n - i,
        {
            if let DerivationTreeNode::Derived(d) = &self.arena[i] {
                if d.cause1.raw() >= n || d.cause2.raw() >= n {
                    proof {
                        assert(self.nodes()[i as int] == DerivationTreeNode::Derived(*d));
                    }
                    return false;
                }
            }
            i = i + 1;
        }
        true
    }

    /// Return a node from the derivation tree.
    pub fn node(&self, id: DerivationTreeId) -> (r: &DerivationTreeNode<P, VS, M>)
        requires
            id.raw_spec() < self.nodes().len(),
        ensures
            *r == self.nodes()[id.raw_spec() as int],
    {
        &self.arena[id.raw()]
    }
}

/// The number of nodes not seen yet.
pub open spec fn count_unseen(seen: Seq<bool>) -> nat
    decreases seen.len(),
{
    if seen.len() == 0 {
        0
    } else {
        count_unseen(seen.drop_last()) + if seen.last() { 0nat } else { 1nat }
    }
}

/// Seeing a node not seen yet leaves one node fewer to see.
proof fn lemma_count_unseen_mark(seen: Seq<bool>, i: int)
    requires
        0 <= i < seen.len(),
        !seen[i],
    ensures
        count_unseen(seen.update(i, true)) + 1 == count_unseen(seen),
    decreases seen.len(),
{
    if i == seen.len() - 1 {
        assert(seen.update(i, true).drop_last() =~= seen.drop_last());
    } else {
        lemma_count_unseen_mark(seen.drop_last(), i);
        assert(seen.update(i, true).drop_last() =~= seen.drop_last().update(i, true));
    }
}

/// Add the package to the list unless it is there.
fn insert_package<P: Ranked>(packages: &mut Vec<P>, p: P)
    requires
        forall|a: int, b: int| 0 <= a < b < old(packages)@.len() ==> old(packages)@[a] != old(packages)@[b],
    ensures
        forall|a: int, b: int| 0 <= a < b < final(packages)@.len() ==> final(packages)@[a] != final(packages)@[b],
        forall|q: P| #[trigger] final(packages)@.contains(q) <==> (old(packages)@.contains(q) || q == p),
{
    if !contains_item(packages.as_slice(), &p) {
        packages.push(p);
        proof {
            let s = packages@;
            let o = old(packages)@;
            assert forall|a: int, b: int| 0 <= a < b < s.len() implies s[a] != s[b] by {
                if b == o.len() {
                    assert(o.contains(s[a]));
                } else {
                    assert(s[a] == o[a] && s[b] == o[b]);
                }
            }
            assert forall|q: P| #[trigger] s.contains(q) <==> (o.contains(q) || q == p) by {
                if s.contains(q) && q != p {
                    let a = choose|a: int| 0 <= a < s.len() && s[a] == q;
                    assert(o[a] == q);
                }
                if o.contains(q) {
                    let a = choose|a: int| 0 <= a < o.len() && o[a] == q;
                    assert(s[a] == q);
                }
                if q == p {
                    assert(s[o.len() as int] == q);
                }
            }
        }
    }
}

impl<P: Ranked, VS: VersionSet, M> DerivationTree<P, VS, M> {
    /// Whether some node seen names the package.
    spec fn named_by_seen(self, seen: Seq<bool>, p: P) -> bool {
        exists|i: int| 0 <= i < seen.len() && seen[i] && #[trigger] node_packages(self.nodes()[i]).contains(p)
    }

    /// A node reached by a path that only goes through seen nodes, from a seen node whose
    /// causes are seen, is seen.
    proof fn lemma_closed_reaches(self, seen: Seq<bool>, path: Seq<int>)
        requires
            self.wf(),
            seen.len() == self.nodes().len(),
            is_path(self.nodes(), self.root_spec().raw_spec() as int, path),
            seen[self.root_spec().raw_spec() as int],
            forall|i: int, c: int| 0 <= i < seen.len() && seen[i] && #[trigger] is_cause(self.nodes(), i, c) ==> seen[c],
        ensures
            0 <= path.last() < seen.len(),
            seen[path.last()],
        decreases path.len(),
    {
        if path.len() > 1 {
            let front = path.drop_last();
            assert forall|i: int| 0 <= i < front.len() - 1 implies #[trigger] is_cause(self.nodes(), front[i], front[i + 1]) by {
                assert(is_cause(self.nodes(), path[i], path[i + 1]));
            }
            self.lemma_closed_reaches(seen, front);
            let j = path.len() - 2;
            assert(is_cause(self.nodes(), path[j], path[j + 1]));
            let node = self.nodes()[path[j]];
            assert(node matches DerivationTreeNode::Derived(_));
        }
    }

    /// A cause of a reachable node is reachable.
    proof fn lemma_cause_reachable(self, i: int, c: int)
        requires
            self.reachable(i),
            is_cause(self.nodes(), i, c),
        ensures
            self.reachable(c),
    {
        let path = choose|path: Seq<int>| #[trigger] is_path(self.nodes(), self.root_spec().raw_spec() as int, path) && path.last() == i;
        let longer = path.push(c);
        assert forall|k: int| 0 <= k < longer.len() - 1 implies #[trigger] is_cause(self.nodes(), longer[k], longer[k + 1]) by {
            if k < path.len() - 1 {
                assert(is_cause(self.nodes(), path[k], path[k + 1]));
            }
        }
        assert(is_path(self.nodes(), self.root_spec().raw_spec() as int, longer));
        assert(longer.last() == c);
    }

    /// Get all packages referred to in the derivation tree: those of the nodes reached from the
    /// root, each once.
    pub fn packages(&self) -> (r: Vec<P>)
        requires
            self.wf(),
        ensures
            forall|a: int, b: int| 0 <= a < b < r@.len() ==> r@[a] != r@[b],
            forall|p: P| #[trigger] r@.contains(p) <==> exists|id: int| 0 <= id < self.nodes().len() && self.reachable(id) && #[trigger] node_packages(self.nodes()[id]).contains(p),
    {
        let n = self.arena.len();
        let ghost nodes = self.nodes();
        let ghost root = self.root.raw_spec() as int;
        let mut packages: Vec<P> = Vec::new();
        let mut seen: Vec<bool> = vec![false; n];
        let mut stack: Vec<DerivationTreeId> = Vec::new();
        stack.push(self.root);
        proof {
            assert(is_path(nodes, root, seq![root]));
            assert(self.reachable(root));
            assert(stack@[0] == self.root);
        }
        while stack.len() > 0
            invariant
                self.wf(),
                n == nodes.len(),
                nodes == self.nodes(),
                root == self.root_spec().raw_spec(),
                seen@.len() == n,
                forall|k: int| 0 <= k < stack@.len() ==> (#[trigger] stack@[k]).raw_spec() < n && self.reachable(stack@[k].raw_spec() as int),
                forall|i: int| 0 <= i < n && #[trigger] seen@[i] ==> self.reachable(i),
                forall|i: int, c: int| 0 <= i < n && seen@[i] && #[trigger] is_cause(nodes, i, c) ==> seen@[c]
                    || exists|k: int| 0 <= k < stack@.len() && (#[trigger] stack@[k]).raw_spec() == c,
                seen@[root] || exists|k: int| 0 <= k < stack@.len() && (#[trigger] stack@[k]).raw_spec() == root,
                forall|a: int, b: int| 0 <= a < b < packages@.len() ==> packages@[a] != packages@[b],
                forall|p: P| #[trigger] packages@.contains(p) <==> self.named_by_seen(seen@, p),
            decreases 3 * count_unseen(seen@) + stack@.len(),
        {
            let ghost old_stack = stack@;
            let ghost old_seen = seen@;
            let id = stack.pop().unwrap();
            let i = id.raw();
            proof {
                assert(old_stack == stack@.push(id));
                assert(old_stack[old_stack.len() - 1] == id);
            }
            if seen[i] {
                proof {
                    assert forall|j: int, c: int| 0 <= j < n && seen@[j] && #[trigger] is_cause(nodes, j, c) implies seen@[c]
                        || exists|k: int| 0 <= k < stack@.len() && (#[trigger] stack@[k]).raw_spec() == c by {
                        if !seen@[c] {
                            let k = choose|k: int| 0 <= k < old_stack.len() && (#[trigger] old_stack[k]).raw_spec() == c;
                            assert(k < stack@.len());
                            assert(stack@[k] == old_stack[k]);
                        }
                    }
                    if !seen@[root] {
                        let k = choose|k: int| 0 <= k < old_stack.len() && (#[trigger] old_stack[k]).raw_spec() == root;
                        assert(stack@[k] == old_stack[k]);
                    }
                }
                continue;
            }
            let ghost before_packages = packages@;
            seen.set(i, true);
            proof {
                lemma_count_unseen_mark(old_seen, i as int);
                assert(self.reachable(i as int));
            }
            match &self.arena[i] {
                DerivationTreeNode::External(external) => {
                    match external {
                        External::FromDependencyOf(p, _, p2, _) => {
                            insert_package(&mut packages, *p);
                            insert_package(&mut packages, *p2);
                        },
                        External::NoVersions(p, _) => {
                            insert_package(&mut packages, *p);
                        },
                        External::NotRoot(p, _) => {
                            insert_package(&mut packages, *p);
                        },
                        External::Custom(p, _, _) => {
                            insert_package(&mut packages, *p);
                        },
                    }
                    proof {
                        assert forall|j: int, c: int| 0 <= j < n && seen@[j] && #[trigger] is_cause(nodes, j, c) implies seen@[c]
                            || exists|k: int| 0 <= k < stack@.len() && (#[trigger] stack@[k]).raw_spec() == c by {
                            if j != i && !seen@[c] {
                                assert(old_seen[j]);
                                let k = choose|k: int| 0 <= k < old_stack.len() && (#[trigger] old_stack[k]).raw_spec() == c;
                                if k == old_stack.len() - 1 {
                                    assert(c == i);
                                } else {
                                    assert(stack@[k] == old_stack[k]);
                                }
                            }
                        }
                    }
                },
                DerivationTreeNode::Derived(derived) => {
                    let mut t: usize = 0;
                    while t < derived.terms.len()
                        invariant
                            0 <= t <= derived.terms@.len(),
                            forall|a: int, b: int| 0 <= a < b < packages@.len() ==> packages@[a] != packages@[b],
                            forall|q: P| #[trigger] packages@.contains(q) <==> (before_packages.contains(q) || exists|x: int|
                                0 <= x < t && #[trigger] derived.terms@[x].0 == q),
                        decreases derived.terms@.len() - t,
                    {
                        let ghost mid = packages@;
                        insert_package(&mut packages, derived.terms[t].0);
                        proof {
                            assert forall|q: P| #[trigger] packages@.contains(q) <==> (before_packages.contains(q) || exists|x: int|
                                0 <= x < t + 1 && #[trigger] derived.terms@[x].0 == q) by {
                                if q == derived.terms@[t as int].0 {
                                }
                            }
                        }
                        t = t + 1;
                    }
                    let ghost pushed_before = stack@;
                    stack.push(derived.cause1);
                    stack.push(derived.cause2);
                    proof {
                        let s = stack@;
                        assert(is_cause(nodes, i as int, derived.cause1.raw_spec() as int));
                        assert(is_cause(nodes, i as int, derived.cause2.raw_spec() as int));
                        self.lemma_cause_reachable(i as int, derived.cause1.raw_spec() as int);
                        self.lemma_cause_reachable(i as int, derived.cause2.raw_spec() as int);
                        assert(nodes[i as int] == DerivationTreeNode::Derived(*derived));
                        assert forall|k: int| 0 <= k < s.len() implies (#[trigger] s[k]).raw_spec() < n && self.reachable(s[k].raw_spec() as int) by {
                            if k < pushed_before.len() {
                                assert(s[k] == pushed_before[k]);
                                assert(pushed_before[k] == old_stack[k]);
                            }
                        }
                        assert forall|j: int, c: int| 0 <= j < n && seen@[j] && #[trigger] is_cause(nodes, j, c) implies seen@[c]
                            || exists|k: int| 0 <= k < s.len() && (#[trigger] s[k]).raw_spec() == c by {
                            if j == i {
                                if c == derived.cause1.raw_spec() {
                                    assert(s[s.len() - 2].raw_spec() == c);
                                } else {
                                    assert(s[s.len() - 1].raw_spec() == c);
                                }
                            } else if !seen@[c] {
                                assert(old_seen[j]);
                                let k = choose|k: int| 0 <= k < old_stack.len() && (#[trigger] old_stack[k]).raw_spec() == c;
                                if k == old_stack.len() - 1 {
                                    assert(c == i);
                                } else {
                                    assert(s[k] == old_stack[k]);
                                }
                            }
                        }
                    }
                },
            }
            proof {
                let s = stack@;
                assert forall|p: P| #[trigger] packages@.contains(p) <==> self.named_by_seen(seen@, p) by {
                    if self.named_by_seen(seen@, p) && !self.named_by_seen(old_seen, p) {
                        let j = choose|j: int| 0 <= j < seen@.len() && seen@[j] && #[trigger] node_packages(self.nodes()[j]).contains(p);
                        assert(j == i);
                    }
                    if self.named_by_seen(old_seen, p) {
                        let j = choose|j: int| 0 <= j < old_seen.len() && old_seen[j] && #[trigger] node_packages(self.nodes()[j]).contains(p);
                        assert(seen@[j]);
                    }
                    if node_packages(self.nodes()[i as int]).contains(p) {
                        assert(seen@[i as int]);
                    }
                }
                if !seen@[root] {
                    let k = choose|k: int| 0 <= k < old_stack.len() && (#[trigger] old_stack[k]).raw_spec() == root;
                    if k == old_stack.len() - 1 {
                        assert(root == i);
                    }
                    assert(k < s.len());
                    assert(s[k] == old_stack[k]);
                }
                assert forall|j: int| 0 <= j < n && #[trigger] seen@[j] implies self.reachable(j) by {
                    if j != i {
                        assert(old_seen[j]);
                    }
                }
            }
        }
        proof {
            assert forall|p: P| #[trigger] packages@.contains(p) <==> exists|id: int| 0 <= id < self.nodes().len() && self.reachable(id) && #[trigger] node_packages(self.nodes()[id]).contains(p) by {
                if packages@.contains(p) {
                    let j = choose|j: int| 0 <= j < seen@.len() && seen@[j] && #[trigger] node_packages(self.nodes()[j]).contains(p);
                    assert(self.reachable(j));
                }
                if exists|id: int| 0 <= id < self.nodes().len() && self.reachable(id) && #[trigger] node_packages(self.nodes()[id]).contains(p) {
                    let id = choose|id: int| 0 <= id < self.nodes().len() && self.reachable(id) && #[trigger] node_packages(self.nodes()[id]).contains(p);
                    let path = choose|path: Seq<int>| #[trigger] is_path(self.nodes(), self.root_spec().raw_spec() as int, path) && path.last() == id;
                    self.lemma_closed_reaches(seen@, path);
                    assert(self.named_by_seen(seen@, p));
                }
            }
        }
        packages
    }
}

/// A step of the report still to come. The steps wait on a stack, so that deep derivation trees
/// are reported without recursion.
#[derive(Clone, Copy, Debug, PartialEq, Eq, Structural)]
pub enum ReportStep {
    /// Explain the derived incompatibility, then give it a line reference if it is shared.
    Build(DerivationTreeId),
    /// Explain the derived incompatibility.
    BuildHelper(DerivationTreeId),
    /// Give the derived incompatibility a line reference if it is shared and has none yet.
    AfterBuild(DerivationTreeId),
    /// The first of two derived causes without line reference was explained.
    AfterFirstNoRefs {
        /// The incompatibility being explained.
        current: DerivationTreeId,
        /// Its first cause, just explained.
        derived1: DerivationTreeId,
        /// Its second cause.
        derived2: DerivationTreeId,
    },
    /// Conclude with an already explained cause.
    AndExplainRef {
        /// The line reference of the explained cause.
        ref_id: usize,
        /// The explained cause.
        derived: DerivationTreeId,
        /// The incompatibility being explained.
        current: DerivationTreeId,
    },
    /// Conclude with an external cause.
    AndExplainExternal {
        /// The external cause.
        external: DerivationTreeId,
        /// The incompatibility being explained.
        current: DerivationTreeId,
    },
    /// Conclude with the external cause of the cause, and an external cause.
    AndExplainPriorAndExternal {
        /// The external cause of the cause.
        prior_external: DerivationTreeId,
        /// The external cause.
        external: DerivationTreeId,
        /// The incompatibility being explained.
        current: DerivationTreeId,
    },
}

/// What a step of the report does to its lines: add an explanation, to be formatted from the
/// nodes it names; add an empty line; or mark the last line with a line reference.
#[derive(Clone, Copy, Debug, PartialEq, Eq, Structural)]
pub enum ReportLine {
    /// Both causes are external.
    ExplainBothExternal { external1: DerivationTreeId, external2: DerivationTreeId, current: DerivationTreeId },
    /// Both causes were explained, with these line references.
    ExplainBothRef {
        ref_id1: usize,
        derived1: DerivationTreeId,
        ref_id2: usize,
        derived2: DerivationTreeId,
        current: DerivationTreeId,
    },
    /// One cause was explained with this line reference, the other is external.
    ExplainRefAndExternal { ref_id: usize, derived: DerivationTreeId, external: DerivationTreeId, current: DerivationTreeId },
    /// And because of an explained cause.
    AndExplainRef { ref_id: usize, derived: DerivationTreeId, current: DerivationTreeId },
    /// And because of an external cause.
    AndExplainExternal { external: DerivationTreeId, current: DerivationTreeId },
    /// And because of two external causes.
    AndExplainPriorAndExternal { prior_external: DerivationTreeId, external: DerivationTreeId, current: DerivationTreeId },
    /// An empty line.
    Empty,
    /// Mark the last line, if any, with this line reference.
    Reference(usize),
}

/// Default reporter able to generate an explanation of a derivation tree. It decides, step by
/// step, the lines of the explanation; formatting each line is left to a formatter.
#[derive(Debug)]
pub struct DefaultStringReporter {
    /// Number of explanations already with a line reference.
    ref_count: usize,
    /// Shared nodes that have already been marked with a line reference: the shared ids, each
    /// with its line reference.
    shared_with_ref: Vec<(usize, usize)>,
    /// The steps still to come, the next one last.
    stack: Vec<ReportStep>,
}

/// Whether the node is a derived incompatibility.
pub open spec fn is_derived_node<P, VS: VersionSet, M>(nodes: Seq<DerivationTreeNode<P, VS, M>>, id: DerivationTreeId) -> bool {
    id.raw_spec() < nodes.len() && nodes[id.raw_spec() as int] is Derived
}

/// Whether the node is an external incompatibility.
pub open spec fn is_external_node<P, VS: VersionSet, M>(nodes: Seq<DerivationTreeNode<P, VS, M>>, id: DerivationTreeId) -> bool {
    id.raw_spec() < nodes.len() && nodes[id.raw_spec() as int] is External
}

/// The derived incompatibility of a node.
pub open spec fn derived_of<P, VS: VersionSet, M>(nodes: Seq<DerivationTreeNode<P, VS, M>>, id: DerivationTreeId) -> Derived<P, VS, M> {
    nodes[id.raw_spec() as int]->Derived_0
}

/// The nodes that a step reads are of the kind it expects.
pub open spec fn step_fits<P, VS: VersionSet, M>(nodes: Seq<DerivationTreeNode<P, VS, M>>, step: ReportStep) -> bool {
    match step {
        ReportStep::Build(id) => is_derived_node(nodes, id),
        ReportStep::BuildHelper(id) => is_derived_node(nodes, id),
        ReportStep::AfterBuild(id) => is_derived_node(nodes, id),
        ReportStep::AfterFirstNoRefs { current, derived1, derived2 } => is_derived_node(nodes, current) && is_derived_node(
            nodes,
            derived1,
        ) && is_derived_node(nodes, derived2),
        ReportStep::AndExplainRef { ref_id, derived, current } => is_derived_node(nodes, derived) && is_derived_node(nodes, current),
        ReportStep::AndExplainExternal { external, current } => is_external_node(nodes, external) && is_derived_node(nodes, current),
        ReportStep::AndExplainPriorAndExternal { prior_external, external, current } => is_external_node(nodes, prior_external)
            && is_external_node(nodes, external) && is_derived_node(nodes, current),
    }
}

/// The line reference of a shared node, if it has one.
pub open spec fn line_ref_spec(shared_with_ref: Seq<(usize, usize)>, shared_id: Option<usize>) -> Option<usize> {
    match shared_id {
        Some(id) => lookup(shared_with_ref, id),
        None => None,
    }
}


/// What a step of the report does when the node `derived_id`, derived, and the node
/// `external_id`, external, are the causes of `current_id`: the steps it pushes (the next one
/// last) and the lines it adds.
pub open spec fn one_each_spec<P, VS: VersionSet, M>(
    nodes: Seq<DerivationTreeNode<P, VS, M>>,
    shared: Seq<(usize, usize)>,
    derived_id: DerivationTreeId,
    external_id: DerivationTreeId,
    current_id: DerivationTreeId,
) -> (Seq<ReportStep>, Seq<ReportLine>) {
    let derived = derived_of(nodes, derived_id);
    match line_ref_spec(shared, derived.shared_id) {
        Some(ref_id) => (
            Seq::empty(),
            seq![ReportLine::ExplainRefAndExternal { ref_id, derived: derived_id, external: external_id, current: current_id }],
        ),
        None => if is_derived_node(nodes, derived.cause1) && is_external_node(nodes, derived.cause2) {
            (
                seq![
                    ReportStep::AndExplainPriorAndExternal { prior_external: derived.cause2, external: external_id, current: current_id },
                    ReportStep::Build(derived.cause1),
                ],
                Seq::empty(),
            )
        } else if is_external_node(nodes, derived.cause1) && is_derived_node(nodes, derived.cause2) {
            (
                seq![
                    ReportStep::AndExplainPriorAndExternal { prior_external: derived.cause1, external: external_id, current: current_id },
                    ReportStep::Build(derived.cause2),
                ],
                Seq::empty(),
            )
        } else {
            (
                seq![ReportStep::AndExplainExternal { external: external_id, current: current_id }, ReportStep::Build(derived_id)],
                Seq::empty(),
            )
        },
    }
}

/// What a step of the report does, given the line references given so far and the shared ids
/// that have one: the line references given after it, the shared ids that have one after it,
/// the steps it pushes (the next one last) and the lines it adds.
pub open spec fn step_spec<P, VS: VersionSet, M>(
    nodes: Seq<DerivationTreeNode<P, VS, M>>,
    refs: usize,
    shared: Seq<(usize, usize)>,
    step: ReportStep,
) -> (int, Seq<(usize, usize)>, Seq<ReportStep>, Seq<ReportLine>) {
    match step {
        ReportStep::Build(id) => (refs as int, shared, seq![ReportStep::AfterBuild(id), ReportStep::BuildHelper(id)], Seq::empty()),
        ReportStep::AfterBuild(id) => match derived_of(nodes, id).shared_id {
            Some(shared_id) => if lookup(shared, shared_id) is None {
                (refs + 1, shared.push((shared_id, (refs + 1) as usize)), Seq::empty(), seq![ReportLine::Reference((refs + 1) as usize)])
            } else {
                (refs as int, shared, Seq::empty(), Seq::empty())
            },
            None => (refs as int, shared, Seq::empty(), Seq::empty()),
        },
        ReportStep::BuildHelper(current_id) => {
            let current = derived_of(nodes, current_id);
            let c1 = current.cause1;
            let c2 = current.cause2;
            if is_external_node(nodes, c1) && is_external_node(nodes, c2) {
                (
                    refs as int,
                    shared,
                    Seq::empty(),
                    seq![ReportLine::ExplainBothExternal { external1: c1, external2: c2, current: current_id }],
                )
            } else if is_derived_node(nodes, c1) && is_external_node(nodes, c2) {
                let (pushed, lines) = one_each_spec(nodes, shared, c1, c2, current_id);
                (refs as int, shared, pushed, lines)
            } else if is_external_node(nodes, c1) && is_derived_node(nodes, c2) {
                let (pushed, lines) = one_each_spec(nodes, shared, c2, c1, current_id);
                (refs as int, shared, pushed, lines)
            } else {
                match (line_ref_spec(shared, derived_of(nodes, c1).shared_id), line_ref_spec(shared, derived_of(nodes, c2).shared_id)) {
                    (Some(ref1), Some(ref2)) => (
                        refs as int,
                        shared,
                        Seq::empty(),
                        seq![ReportLine::ExplainBothRef { ref_id1: ref1, derived1: c1, ref_id2: ref2, derived2: c2, current: current_id }],
                    ),
                    (Some(ref1), None) => (
                        refs as int,
                        shared,
                        seq![ReportStep::AndExplainRef { ref_id: ref1, derived: c1, current: current_id }, ReportStep::Build(c2)],
                        Seq::empty(),
                    ),
                    (None, Some(ref2)) => (
                        refs as int,
                        shared,
                        seq![ReportStep::AndExplainRef { ref_id: ref2, derived: c2, current: current_id }, ReportStep::Build(c1)],
                        Seq::empty(),
                    ),
                    (None, None) => (
                        refs as int,
                        shared,
                        seq![ReportStep::AfterFirstNoRefs { current: current_id, derived1: c1, derived2: c2 }, ReportStep::Build(c1)],
                        Seq::empty(),
                    ),
                }
            }
        },
        ReportStep::AfterFirstNoRefs { current, derived1, derived2 } => if derived_of(nodes, derived1).shared_id is Some {
            (refs as int, shared, seq![ReportStep::Build(current)], seq![ReportLine::Empty])
        } else {
            (
                refs + 1,
                shared,
                seq![ReportStep::AndExplainRef { ref_id: (refs + 1) as usize, derived: derived1, current }, ReportStep::Build(derived2)],
                seq![ReportLine::Reference((refs + 1) as usize), ReportLine::Empty],
            )
        },
        ReportStep::AndExplainRef { ref_id, derived, current } => (
            refs as int,
            shared,
            Seq::empty(),
            seq![ReportLine::AndExplainRef { ref_id, derived, current }],
        ),
        ReportStep::AndExplainExternal { external, current } => (
            refs as int,
            shared,
            Seq::empty(),
            seq![ReportLine::AndExplainExternal { external, current }],
        ),
        ReportStep::AndExplainPriorAndExternal { prior_external, external, current } => (
            refs as int,
            shared,
            Seq::empty(),
            seq![ReportLine::AndExplainPriorAndExternal { prior_external, external, current }],
        ),
    }
}

impl DefaultStringReporter {
    /// The number of line references given so far.
    pub closed spec fn refs(self) -> usize {
        self.ref_count
    }

    /// The shared ids that have a line reference, each with its reference.
    pub closed spec fn shared(self) -> Seq<(usize, usize)> {
        self.shared_with_ref@
    }

    /// The steps still to come, the next one last.
    pub closed spec fn steps(self) -> Seq<ReportStep> {
        self.stack@
    }

    /// Initialize the reporter to explain the derived incompatibility `root`.
    pub fn new(root: DerivationTreeId) -> (r: Self)
        ensures
            r.refs() == 0,
            r.shared() == Seq::<(usize, usize)>::empty(),
            r.steps() == seq![ReportStep::Build(root)],
    {
        let mut stack: Vec<ReportStep> = Vec::new();
        stack.push(ReportStep::Build(root));
        proof {
            assert(stack@ =~= seq![ReportStep::Build(root)]);
        }
        Self { ref_count: 0, shared_with_ref: Vec::new(), stack }
    }

    /// The number of line references given so far.
    pub fn ref_count(&self) -> (r: usize)
        ensures
            r == self.refs(),
    {
        self.ref_count
    }

    /// The line reference of a shared node, if it has one.
    fn line_ref_of(&self, shared_id: Option<usize>) -> (r: Option<usize>)
        ensures
            r == line_ref_spec(self.shared(), shared_id),
    {
        match shared_id {
            None => None,
            Some(id) => {
                let mut i: usize = self.shared_with_ref.len();
                proof {
                    assert(self.shared_with_ref@.subrange(0, i as int) =~= self.shared_with_ref@);
                }
                while i > 0
                    invariant
                        0 <= i <= self.shared_with_ref@.len(),
                        shared_id == Some(id),
                        lookup(self.shared_with_ref@, id) == lookup(self.shared_with_ref@.subrange(0, i as int), id),
                    decreases i,
                {
                    proof {
                        let t = self.shared_with_ref@.subrange(0, i as int);
                        assert(t.drop_last() =~= self.shared_with_ref@.subrange(0, i - 1));
                        assert(t.last() == self.shared_with_ref@[i - 1]);
                        lemma_last_index_of_key(t, id);
                        lemma_last_index_of_key(t.drop_last(), id);
                    }
                    if self.shared_with_ref[i - 1].0 == id {
                        proof {
                            let t = self.shared_with_ref@.subrange(0, i as int);
                            assert(t.last().0 == id);
                            assert(last_index_of_key(t, id) == t.len() - 1);
                            assert(t[i - 1] == self.shared_with_ref@[i - 1]);
                            assert(lookup(t, id) == Some(t[i - 1].1));
                            assert(lookup(self.shared_with_ref@, id) == Some(self.shared_with_ref@[i - 1].1));
                        }
                        return Some(self.shared_with_ref[i - 1].1);
                    }
                    i = i - 1;
                }
                proof {
                    assert(self.shared_with_ref@.subrange(0, 0) =~= Seq::<(usize, usize)>::empty());
                }
                None
            },
        }
    }

    /// The steps pushed by a derived cause and an external cause of `current_id`.
    fn push_report_one_each<P, VS: VersionSet, M>(
        &self,
        tree: &DerivationTree<P, VS, M>,
        derived_id: DerivationTreeId,
        external_id: DerivationTreeId,
        current_id: DerivationTreeId,
    ) -> (r: (Vec<ReportStep>, Vec<ReportLine>))
        requires
            tree.wf(),
            is_derived_node(tree.nodes(), derived_id),
            is_external_node(tree.nodes(), external_id),
        ensures
            (r.0@, r.1@) == one_each_spec(tree.nodes(), self.shared(), derived_id, external_id, current_id),
    {
        let derived = tree.derived(derived_id);
        let mut pushed: Vec<ReportStep> = Vec::new();
        let mut lines: Vec<ReportLine> = Vec::new();
        proof {
            assert(tree.nodes()[derived_id.raw_spec() as int] == DerivationTreeNode::Derived(*derived));
            assert(derived.cause1.raw_spec() < tree.nodes().len());
            assert(derived.cause2.raw_spec() < tree.nodes().len());
        }
        match self.line_ref_of(derived.shared_id) {
            Some(ref_id) => {
                lines.push(ReportLine::ExplainRefAndExternal { ref_id, derived: derived_id, external: external_id, current: current_id });
            },
            None => match (tree.node(derived.cause1), tree.node(derived.cause2)) {
                (DerivationTreeNode::Derived(_), DerivationTreeNode::External(_)) => {
                    pushed.push(ReportStep::AndExplainPriorAndExternal { prior_external: derived.cause2, external: external_id, current: current_id });
                    pushed.push(ReportStep::Build(derived.cause1));
                },
                (DerivationTreeNode::External(_), DerivationTreeNode::Derived(_)) => {
                    pushed.push(ReportStep::AndExplainPriorAndExternal { prior_external: derived.cause1, external: external_id, current: current_id });
                    pushed.push(ReportStep::Build(derived.cause2));
                },
                _ => {
                    pushed.push(ReportStep::AndExplainExternal { external: external_id, current: current_id });
                    pushed.push(ReportStep::Build(derived_id));
                },
            },
        }
        proof {
            let (ps, ls) = one_each_spec(tree.nodes(), self.shared(), derived_id, external_id, current_id);
            assert(pushed@ =~= ps);
            assert(lines@ =~= ls);
        }
        (pushed, lines)
    }

    /// Take the next step of the report: the lines it adds, or `None` once the report is done.
    pub fn build_step<P, VS: VersionSet, M>(&mut self, tree: &DerivationTree<P, VS, M>) -> (r: Option<Vec<ReportLine>>)
        requires
            tree.wf(),
            forall|k: int| 0 <= k < old(self).steps().len() ==> step_fits(tree.nodes(), #[trigger] old(self).steps()[k]),
            old(self).refs() < usize::MAX,
        ensures
            forall|k: int| 0 <= k < final(self).steps().len() ==> step_fits(tree.nodes(), #[trigger] final(self).steps()[k]),
            old(self).steps().len() == 0 ==> r is None && final(self).refs() == old(self).refs() && final(self).shared()
                == old(self).shared() && final(self).steps() == old(self).steps(),
            old(self).steps().len() > 0 ==> ({
                let (refs, shared, pushed, lines) = step_spec(tree.nodes(), old(self).refs(), old(self).shared(), old(self).steps().last());
                &&& r is Some
                &&& r->0@ == lines
                &&& final(self).refs() == refs
                &&& final(self).shared() == shared
                &&& final(self).steps() == old(self).steps().drop_last() + pushed
            }),
    {
        if self.stack.len() == 0 {
            return None;
        }
        let step = self.stack.pop().unwrap();
        let ghost rest = self.stack@;
        proof {
            assert(old(self).steps().last() == step);
            assert(step_fits(tree.nodes(), old(self).steps()[old(self).steps().len() - 1]));
        }
        let mut lines: Vec<ReportLine> = Vec::new();
        let mut pushed: Vec<ReportStep> = Vec::new();
        match step {
            ReportStep::Build(id) => {
                pushed.push(ReportStep::AfterBuild(id));
                pushed.push(ReportStep::BuildHelper(id));
            },
            ReportStep::AfterBuild(id) => {
                let derived = tree.derived(id);
                if let Some(shared_id) = derived.shared_id {
                    if self.line_ref_of(Some(shared_id)).is_none() {
                        self.ref_count = self.ref_count + 1;
                        lines.push(ReportLine::Reference(self.ref_count));
                        self.shared_with_ref.push((shared_id, self.ref_count));
                    }
                }
            },
            ReportStep::BuildHelper(current_id) => {
                let current = tree.derived(current_id);
                proof {
                    assert(tree.nodes()[current_id.raw_spec() as int] == DerivationTreeNode::Derived(*current));
                    assert(current.cause1.raw_spec() < tree.nodes().len());
                    assert(current.cause2.raw_spec() < tree.nodes().len());
                }
                match (tree.node(current.cause1), tree.node(current.cause2)) {
                    (DerivationTreeNode::External(_), DerivationTreeNode::External(_)) => {
                        lines.push(ReportLine::ExplainBothExternal { external1: current.cause1, external2: current.cause2, current: current_id });
                    },
                    (DerivationTreeNode::Derived(_), DerivationTreeNode::External(_)) => {
                        let (p, l) = self.push_report_one_each(tree, current.cause1, current.cause2, current_id);
                        pushed = p;
                        lines = l;
                    },
                    (DerivationTreeNode::External(_), DerivationTreeNode::Derived(_)) => {
                        let (p, l) = self.push_report_one_each(tree, current.cause2, current.cause1, current_id);
                        pushed = p;
                        lines = l;
                    },
                    (DerivationTreeNode::Derived(derived1), DerivationTreeNode::Derived(derived2)) => {
                        match (self.line_ref_of(derived1.shared_id), self.line_ref_of(derived2.shared_id)) {
                            (Some(ref1), Some(ref2)) => {
                                lines.push(
                                    ReportLine::ExplainBothRef {
                                        ref_id1: ref1,
                                        derived1: current.cause1,
                                        ref_id2: ref2,
                                        derived2: current.cause2,
                                        current: current_id,
                                    },
                                );
                            },
                            (Some(ref1), None) => {
                                pushed.push(ReportStep::AndExplainRef { ref_id: ref1, derived: current.cause1, current: current_id });
                                pushed.push(ReportStep::Build(current.cause2));
                            },
                            (None, Some(ref2)) => {
                                pushed.push(ReportStep::AndExplainRef { ref_id: ref2, derived: current.cause2, current: current_id });
                                pushed.push(ReportStep::Build(current.cause1));
                            },
                            (None, None) => {
                                pushed.push(ReportStep::AfterFirstNoRefs { current: current_id, derived1: current.cause1, derived2: current.cause2 });
                                pushed.push(ReportStep::Build(current.cause1));
                            },
                        }
                    },
                }
            },
            ReportStep::AfterFirstNoRefs { current, derived1, derived2 } => {
                if tree.derived(derived1).shared_id.is_some() {
                    lines.push(ReportLine::Empty);
                    pushed.push(ReportStep::Build(current));
                } else {
                    self.ref_count = self.ref_count + 1;
                    lines.push(ReportLine::Reference(self.ref_count));
                    let ref_id = self.ref_count;
                    lines.push(ReportLine::Empty);
                    pushed.push(ReportStep::AndExplainRef { ref_id, derived: derived1, current });
                    pushed.push(ReportStep::Build(derived2));
                }
            },
            ReportStep::AndExplainRef { ref_id, derived, current } => {
                lines.push(ReportLine::AndExplainRef { ref_id, derived, current });
            },
            ReportStep::AndExplainExternal { external, current } => {
                lines.push(ReportLine::AndExplainExternal { external, current });
            },
            ReportStep::AndExplainPriorAndExternal { prior_external, external, current } => {
                lines.push(ReportLine::AndExplainPriorAndExternal { prior_external, external, current });
            },
        }
        let ghost before_push = self.stack@;
        let ghost refs_after = self.ref_count;
        let ghost shared_after = self.shared_with_ref@;
        let mut k: usize = 0;
        while k < pushed.len()
            invariant
                0 <= k <= pushed@.len(),
                self.stack@ == before_push + pushed@.subrange(0, k as int),
                self.ref_count == refs_after,
                self.shared_with_ref@ == shared_after,
            decreases pushed@.len() - k,
        {
            self.stack.push(pushed[k]);
            proof {
                assert(before_push + pushed@.subrange(0, k + 1) =~= (before_push + pushed@.subrange(0, k as int)).push(pushed@[k as int]));
            }
            k = k + 1;
        }
        proof {
            assert(pushed@.subrange(0, pushed@.len() as int) =~= pushed@);
            let (refs, shared, ps, ls) = step_spec(tree.nodes(), old(self).refs(), old(self).shared(), step);
            assert(ls =~= lines@);
            assert(ps =~= pushed@);
            assert(old(self).steps().drop_last() =~= rest);
        }
        Some(lines)
    }
}

// Collapsing the no-versions incompatibilities ###############################

/// Every derived node names as causes nodes stored before it.
pub open spec fn causes_before<P, VS: VersionSet, M>(nodes: Seq<DerivationTreeNode<P, VS, M>>) -> bool {
    forall|i: int| 0 <= i < nodes.len() ==> (#[trigger] nodes[i] matches DerivationTreeNode::Derived(d) ==> d.cause1.raw_spec()
        < i && d.cause2.raw_spec() < i)
}

/// The cause in the slot `slot` (1 or 2) of the node, if it is derived.
pub open spec fn node_cause<P, VS: VersionSet, M>(node: DerivationTreeNode<P, VS, M>, slot: int) -> Option<int> {
    match node {
        DerivationTreeNode::Derived(d) => if slot == 1 {
            Some(d.cause1.raw_spec() as int)
        } else if slot == 2 {
            Some(d.cause2.raw_spec() as int)
        } else {
            None
        },
        _ => None,
    }
}

/// Some node marked in `marked`, from `from` on, has `i` as a cause.
pub open spec fn has_marked_parent_node<P, VS: VersionSet, M>(
    nodes: Seq<DerivationTreeNode<P, VS, M>>,
    marked: Seq<bool>,
    from: int,
    i: int,
) -> bool {
    exists|j: int, slot: int| from <= j < marked.len() && marked[j] && #[trigger] node_cause(nodes[j], slot) == Some(i)
}

/// What the sweep over the nodes knows once it has looked at those from `from` on: those
/// reached are the root and the causes of reached ones.
pub open spec fn reach_inv<P, VS: VersionSet, M>(nodes: Seq<DerivationTreeNode<P, VS, M>>, m: Seq<bool>, from: int, root: int) -> bool {
    &&& m.len() == root + 1
    &&& forall|i: int| 0 <= i <= root ==> #[trigger] m[i] == (i == root || has_marked_parent_node(nodes, m, from, i))
}

/// The node of an external incompatibility is a copy of it: the same variant, the same packages
/// and versions, clones of the version sets and of the metadata.
pub open spec fn external_copy<P, VS: VersionSet, M: Clone>(a: External<P, VS, M>, b: External<P, VS, M>) -> bool {
    match (a, b) {
        (External::NotRoot(p, v), External::NotRoot(q, w)) => p == q && v == w,
        (External::NoVersions(p, s), External::NoVersions(q, t)) => p == q && vstd::pervasive::cloned(s, t),
        (External::FromDependencyOf(p1, s1, p2, s2), External::FromDependencyOf(q1, t1, q2, t2)) => p1 == q1 && p2 == q2
            && vstd::pervasive::cloned(s1, t1) && vstd::pervasive::cloned(s2, t2),
        (External::Custom(p, s, m), External::Custom(q, t, n)) => p == q && vstd::pervasive::cloned(s, t)
            && vstd::pervasive::cloned(m, n),
        _ => false,
    }
}

/// The terms are copies: the same packages, the same signs, clones of the version sets.
pub open spec fn terms_copy<P, VS: VersionSet>(a: Seq<(P, Term<VS>)>, b: Seq<(P, Term<VS>)>) -> bool {
    &&& a.len() == b.len()
    &&& forall|k: int| 0 <= k < a.len() ==> {
        &&& (#[trigger] b[k]).0 == a[k].0
        &&& b[k].1 is Positive == a[k].1 is Positive
        &&& vstd::pervasive::cloned(a[k].1.set(), b[k].1.set())
    }
}

/// Whether the node is the external incompatibility that there is no version of `package` in
/// `set`.
pub open spec fn is_no_versions<P, VS: VersionSet, M>(node: DerivationTreeNode<P, VS, M>) -> bool {
    node matches DerivationTreeNode::External(External::NoVersions(_, _))
}

/// `r` is the node that merging the no-versions incompatibility of `package` in `set` into the
/// node `other` gives, where one is made: a derived node takes it in as it is; a dependency
/// gets `set` added to the versions of the package that is `package`. Otherwise none is made.
pub open spec fn merged_into<P, VS: VersionSet, M>(
    other: DerivationTreeNode<P, VS, M>,
    package: P,
    vs: VS,
    other_id: DerivationTreeId,
    r: Option<DerivationTreeId>,
    nodes: Seq<DerivationTreeNode<P, VS, M>>,
) -> bool {
    match other {
        DerivationTreeNode::Derived(_) => r == Some(other_id),
        DerivationTreeNode::External(External::FromDependencyOf(p1, r1, p2, r2)) => match r {
            Some(id) => id.raw_spec() < nodes.len() && match nodes[id.raw_spec() as int] {
                DerivationTreeNode::External(External::FromDependencyOf(q1, s1, q2, s2)) => {
                    &&& q1 == p1
                    &&& q2 == p2
                    &&& p1 == package ==> (forall|x: int| #[trigger] s1.has_point(x) == (r1.has_point(x) || vs.has_point(x)))
                        && vstd::pervasive::cloned(r2, s2)
                    &&& p1 != package ==> vstd::pervasive::cloned(r1, s1) && (forall|x: int| #[trigger] s2.has_point(x) == (
                    r2.has_point(x) || vs.has_point(x)))
                },
                _ => false,
            },
            None => false,
        },
        _ => r is None,
    }
}

/// The node of the collapsed tree for the node `i` of the old one, given the new node of each
/// old one in `remap`: an external one is copied; a derived one with a no-versions cause is
/// merged into the new node of its other cause where that makes one; any other derived one is
/// copied, with the new nodes of its causes.
#[verifier::opaque]
pub open spec fn collapsed_node<P, VS: VersionSet, M: Clone>(
    old: Seq<DerivationTreeNode<P, VS, M>>,
    new: Seq<DerivationTreeNode<P, VS, M>>,
    remap: Seq<Option<DerivationTreeId>>,
    i: int,
) -> bool {
    let id = remap[i]->0;
    match old[i] {
        DerivationTreeNode::External(e) => new[id.raw_spec() as int] matches DerivationTreeNode::External(f)
            && external_copy(e, f),
        DerivationTreeNode::Derived(d) => {
            let n1 = remap[d.cause1.raw_spec() as int]->0;
            let n2 = remap[d.cause2.raw_spec() as int]->0;
            let copied = new[id.raw_spec() as int] matches DerivationTreeNode::Derived(nd) && terms_copy(d.terms@, nd.terms@)
                && nd.shared_id == d.shared_id && nd.cause1 == n1 && nd.cause2 == n2;
            match (old[d.cause1.raw_spec() as int], old[d.cause2.raw_spec() as int]) {
                (DerivationTreeNode::External(External::NoVersions(pk, vs)), _) => {
                    let other = new[n2.raw_spec() as int];
                    if other is Derived || other matches DerivationTreeNode::External(External::FromDependencyOf(..)) {
                        merged_into(other, pk, vs, n2, Some(id), new)
                    } else {
                        copied
                    }
                },
                (_, DerivationTreeNode::External(External::NoVersions(pk, vs))) => {
                    let other = new[n1.raw_spec() as int];
                    if other is Derived || other matches DerivationTreeNode::External(External::FromDependencyOf(..)) {
                        merged_into(other, pk, vs, n1, Some(id), new)
                    } else {
                        copied
                    }
                },
                _ => copied,
            }
        },
    }
}

/// No derived node has a no-versions cause beside a cause that is the root incompatibility.
pub open spec fn no_root_merge<P, VS: VersionSet, M>(nodes: Seq<DerivationTreeNode<P, VS, M>>) -> bool {
    forall|i: int| 0 <= i < nodes.len() ==> (#[trigger] nodes[i] matches DerivationTreeNode::Derived(d) ==> {
        &&& is_no_versions(nodes[d.cause1.raw_spec() as int]) ==> !(nodes[d.cause2.raw_spec() as int] matches DerivationTreeNode::External(External::NotRoot(..)))
        &&& is_no_versions(nodes[d.cause2.raw_spec() as int]) ==> !(nodes[d.cause1.raw_spec() as int] matches DerivationTreeNode::External(External::NotRoot(..)))
    })
}

/// A copy of an external incompatibility.
fn copy_external<P: Ranked, VS: VersionSet, M: Clone>(e: &External<P, VS, M>) -> (r: External<P, VS, M>)
    ensures
        external_copy(*e, r),
{
    match e {
        External::NotRoot(p, v) => External::NotRoot(*p, *v),
        External::NoVersions(p, s) => External::NoVersions(*p, s.clone()),
        External::FromDependencyOf(p1, s1, p2, s2) => External::FromDependencyOf(*p1, s1.clone(), *p2, s2.clone()),
        External::Custom(p, s, m) => External::Custom(*p, s.clone(), m.clone()),
    }
}

/// A copy of the terms of a derived incompatibility.
fn copy_terms<P: Ranked, VS: VersionSet>(terms: &Vec<(P, Term<VS>)>) -> (r: Vec<(P, Term<VS>)>)
    ensures
        terms_copy(terms@, r@),
{
    let mut out: Vec<(P, Term<VS>)> = Vec::new();
    let mut k: usize = 0;
    while k < terms.len()
        invariant
            0 <= k <= terms@.len(),
            terms_copy(terms@.subrange(0, k as int), out@),
        decreases terms@.len() - k,
    {
        let (p, t) = &terms[k];
        out.push((*p, t.clone()));
        proof {
            let a = terms@.subrange(0, k + 1);
            assert forall|j: int| 0 <= j < a.len() implies {
                &&& (#[trigger] out@[j]).0 == a[j].0
                &&& out@[j].1 is Positive == a[j].1 is Positive
                &&& vstd::pervasive::cloned(a[j].1.set(), out@[j].1.set())
            } by {
                if j < k {
                    assert(a[j] == terms@.subrange(0, k as int)[j]);
                }
            }
        }
        k = k + 1;
    }
    proof {
        assert(terms@.subrange(0, k as int) =~= terms@);
    }
    out
}

impl<P: Ranked, VS: VersionSet, M: Clone> DerivationTree<P, VS, M> {
    /// Merge the no-versions incompatibility of `package` in `set` into the node `id` of the
    /// arena: a derived node takes it in as it is; a dependency gets a new node, with `set`
    /// added to the versions of `package`; other nodes cannot take it.
    fn merge_no_versions_id(
        &self,
        arena: &mut Vec<DerivationTreeNode<P, VS, M>>,
        id: DerivationTreeId,
        package: P,
        set: &VS,
    ) -> (r: Option<DerivationTreeId>)
        requires
            id.raw_spec() < old(arena)@.len(),
            !(old(arena)@[id.raw_spec() as int] matches DerivationTreeNode::External(External::NotRoot(..))),
        ensures
            merged_into(old(arena)@[id.raw_spec() as int], package, *set, id, r, final(arena)@),
            final(arena)@ == old(arena)@ || (final(arena)@.len() == old(arena)@.len() + 1 && final(arena)@.subrange(
                0,
                old(arena)@.len() as int,
            ) == old(arena)@ && r is Some && r->0.raw_spec() == old(arena)@.len()),
    {
        let merged = match &arena[id.raw()] {
            DerivationTreeNode::Derived(_) => {
                return Some(id);
            },
            DerivationTreeNode::External(External::FromDependencyOf(p1, r1, p2, r2)) => {
                if same_as(p1, &package) {
                    DerivationTreeNode::External(External::FromDependencyOf(*p1, r1.union(set), *p2, r2.clone()))
                } else {
                    DerivationTreeNode::External(External::FromDependencyOf(*p1, r1.clone(), *p2, r2.union(set)))
                }
            },
            _ => {
                return None;
            },
        };
        let ghost before = arena@;
        let n = Self::alloc_node(arena, merged);
        proof {
            assert(arena@.subrange(0, before.len() as int) =~= before);
        }
        Some(n)
    }
}

/// Marks that agree from `from` on give the same marked parents.
proof fn lemma_node_marked_frame<P, VS: VersionSet, M>(
    nodes: Seq<DerivationTreeNode<P, VS, M>>,
    m1: Seq<bool>,
    m2: Seq<bool>,
    from: int,
    i: int,
)
    requires
        m1.len() == m2.len(),
        forall|j: int| from <= j < m1.len() ==> m1[j] == m2[j],
    ensures
        has_marked_parent_node(nodes, m1, from, i) == has_marked_parent_node(nodes, m2, from, i),
{
    if has_marked_parent_node(nodes, m1, from, i) {
        let (j, s) = choose|j: int, slot: int| from <= j < m1.len() && m1[j] && #[trigger] node_cause(nodes[j], slot) == Some(i);
        assert(m2[j]);
    }
    if has_marked_parent_node(nodes, m2, from, i) {
        let (j, s) = choose|j: int, slot: int| from <= j < m2.len() && m2[j] && #[trigger] node_cause(nodes[j], slot) == Some(i);
        assert(m1[j]);
    }
}

/// Taking one more node, at `j`, into account: its causes are its parents now.
proof fn lemma_node_marked_step<P, VS: VersionSet, M>(nodes: Seq<DerivationTreeNode<P, VS, M>>, m: Seq<bool>, j: int, i: int)
    requires
        0 <= j < m.len(),
    ensures
        has_marked_parent_node(nodes, m, j, i) == (has_marked_parent_node(nodes, m, j + 1, i) || (m[j] && (node_cause(
            nodes[j],
            1,
        ) == Some(i) || node_cause(nodes[j], 2) == Some(i)))),
{
    if has_marked_parent_node(nodes, m, j, i) {
        let (jj, s) = choose|jj: int, slot: int| j <= jj < m.len() && m[jj] && #[trigger] node_cause(nodes[jj], slot) == Some(i);
        if jj == j {
            assert(s == 1 || s == 2);
        } else {
            assert(has_marked_parent_node(nodes, m, j + 1, i));
        }
    }
    if has_marked_parent_node(nodes, m, j + 1, i) {
        let (jj, s) = choose|jj: int, slot: int| j + 1 <= jj < m.len() && m[jj] && #[trigger] node_cause(nodes[jj], slot) == Some(i);
        assert(has_marked_parent_node(nodes, m, j, i));
    }
    if m[j] && node_cause(nodes[j], 1) == Some(i) {
        assert(has_marked_parent_node(nodes, m, j, i));
    }
    if m[j] && node_cause(nodes[j], 2) == Some(i) {
        assert(has_marked_parent_node(nodes, m, j, i));
    }
}

impl<P, VS: VersionSet, M> DerivationTree<P, VS, M> {
    /// The nodes reached from the root by following causes.
    fn reached_nodes(&self) -> (r: Vec<bool>)
        requires
            self.wf(),
            causes_before(self.nodes()),
        ensures
            reach_inv(self.nodes(), r@, 0, self.root_spec().raw_spec() as int),
    {
        let ghost nodes = self.nodes();
        let ghost root = self.root_spec().raw_spec() as int;
        let len = self.arena.len();
        let n = self.root.raw() + 1;
        let mut reached: Vec<bool> = Vec::new();
        let mut k: usize = 0;
        while k < n
            invariant
                k <= n,
                n == root + 1,
                root == self.root_spec().raw_spec(),
                reached@.len() == k,
                forall|i: int| 0 <= i < k ==> #[trigger] reached@[i] == (i == root),
            decreases n - k,
        {
            reached.push(k == self.root.raw());
            proof {
                assert(reached@[k as int] == (k == root));
            }
            k = k + 1;
        }
        proof {
            assert forall|i: int| 0 <= i < n implies !#[trigger] has_marked_parent_node(nodes, reached@, n as int, i) by {}
        }
        let mut k: usize = n;
        while k > 0
            invariant
                k <= n,
                n == root + 1,
                n <= nodes.len(),
                root == self.root_spec().raw_spec(),
                nodes == self.nodes(),
                self.wf(),
                causes_before(nodes),
                reach_inv(nodes, reached@, k as int, root),
            decreases k,
        {
            let j = k - 1;
            let ghost m = reached@;
            proof {
                assert(nodes[j as int] matches DerivationTreeNode::Derived(d) ==> d.cause1.raw_spec() < j && d.cause2.raw_spec() < j);
            }
            if reached[j] {
                match self.node(DerivationTreeId::from_raw(j)) {
                    DerivationTreeNode::Derived(d) => {
                        reached.set(d.cause1.raw(), true);
                        reached.set(d.cause2.raw(), true);
                    },
                    _ => {},
                }
            }
            proof {
                assert forall|i: int| 0 <= i <= root implies #[trigger] reached@[i] == (i == root || has_marked_parent_node(
                    nodes,
                    reached@,
                    j as int,
                    i,
                )) by {
                    lemma_node_marked_frame(nodes, reached@, m, j as int, i);
                    lemma_node_marked_step(nodes, m, j as int, i);
                }
            }
            k = j;
        }
        reached
    }
}

/// Which old nodes have a new one.
pub open spec fn with_new(remap: Seq<Option<DerivationTreeId>>) -> Seq<bool> {
    Seq::new(remap.len(), |i: int| remap[i] is Some)
}

/// `new` is `old` with its no-versions incompatibilities collapsed, where `remap` gives the
/// new node of each old one: the old nodes with a new one are the root and the causes of
/// derived ones that have one, the new root is that of the old root, and each new node is
/// `collapsed_node` of its old one.
pub open spec fn collapse_of<P, VS: VersionSet, M: Clone>(
    old: DerivationTree<P, VS, M>,
    new: DerivationTree<P, VS, M>,
    remap: Seq<Option<DerivationTreeId>>,
) -> bool {
    let root = old.root_spec().raw_spec() as int;
    &&& remap.len() == root + 1
    &&& remap[root] == Some(new.root_spec())
    &&& forall|i: int| 0 <= i <= root ==> (#[trigger] remap[i] is Some) == (i == root || has_marked_parent_node(
        old.nodes(),
        with_new(remap),
        0,
        i,
    ))
    &&& forall|i: int| 0 <= i <= root && #[trigger] remap[i] is Some ==> remap[i]->0.raw_spec() < new.nodes().len()
        && collapsed_node(old.nodes(), new.nodes(), remap, i)
}

/// A collapsed node stays so once more nodes are added and more old nodes have new ones.
proof fn lemma_collapsed_extend<P, VS: VersionSet, M: Clone>(
    old: Seq<DerivationTreeNode<P, VS, M>>,
    new1: Seq<DerivationTreeNode<P, VS, M>>,
    new2: Seq<DerivationTreeNode<P, VS, M>>,
    remap1: Seq<Option<DerivationTreeId>>,
    remap2: Seq<Option<DerivationTreeId>>,
    i: int,
)
    requires
        0 <= i < remap1.len(),
        i < old.len(),
        remap1.len() == remap2.len(),
        remap1[i] is Some,
        forall|c: int| 0 <= c < remap1.len() && #[trigger] remap1[c] is Some ==> remap2[c] == remap1[c] && remap1[c]->0.raw_spec()
            < new1.len(),
        new1.len() <= new2.len(),
        forall|t: int| 0 <= t < new1.len() ==> new2[t] == new1[t],
        old[i] matches DerivationTreeNode::Derived(d) ==> 0 <= d.cause1.raw_spec() < remap1.len() && 0 <= d.cause2.raw_spec()
            < remap1.len() && remap1[d.cause1.raw_spec() as int] is Some && remap1[d.cause2.raw_spec() as int] is Some,
        collapsed_node(old, new1, remap1, i),
    ensures
        collapsed_node(old, new2, remap2, i),
{
    reveal(collapsed_node);
    match old[i] {
        DerivationTreeNode::Derived(d) => {
            let n1 = remap1[d.cause1.raw_spec() as int]->0;
            let n2 = remap1[d.cause2.raw_spec() as int]->0;
            assert(new2[n1.raw_spec() as int] == new1[n1.raw_spec() as int]);
            assert(new2[n2.raw_spec() as int] == new1[n2.raw_spec() as int]);
            let id = remap1[i]->0;
            assert(new2[id.raw_spec() as int] == new1[id.raw_spec() as int]);
            match new1[n1.raw_spec() as int] {
                DerivationTreeNode::External(External::FromDependencyOf(..)) => {},
                _ => {},
            }
        },
        DerivationTreeNode::External(_) => {
            let id = remap1[i]->0;
            assert(new2[id.raw_spec() as int] == new1[id.raw_spec() as int]);
        },
    }
}

/// Once every reached old node has its new one, the new tree is the collapse of the old one.
proof fn lemma_collapse_done<P, VS: VersionSet, M: Clone>(
    old: DerivationTree<P, VS, M>,
    new: DerivationTree<P, VS, M>,
    remap: Seq<Option<DerivationTreeId>>,
    reached: Seq<bool>,
)
    requires
        reach_inv(old.nodes(), reached, 0, old.root_spec().raw_spec() as int),
        remap.len() == reached.len(),
        forall|i: int| 0 <= i < remap.len() ==> (#[trigger] remap[i] is Some) == reached[i],
        forall|i: int| 0 <= i < remap.len() && #[trigger] remap[i] is Some ==> remap[i]->0.raw_spec() < new.nodes().len()
            && collapsed_node(old.nodes(), new.nodes(), remap, i),
        causes_before(new.nodes()),
        remap[old.root_spec().raw_spec() as int] == Some(new.root_spec()),
    ensures
        new.wf(),
        collapse_of(old, new, remap),
{
    let root = old.root_spec().raw_spec() as int;
    assert(with_new(remap) =~= reached);
    assert(reached[root]);
    assert(new.root_spec().raw_spec() < new.nodes().len());
    assert forall|t: int| 0 <= t < new.nodes().len() implies match #[trigger] new.nodes()[t] {
        DerivationTreeNode::Derived(d) => d.cause1.raw_spec() < new.nodes().len() && d.cause2.raw_spec() < new.nodes().len(),
        DerivationTreeNode::External(_) => true,
    } by {
        assert(new.nodes()[t] matches DerivationTreeNode::Derived(d) ==> d.cause1.raw_spec() < t && d.cause2.raw_spec() < t);
    }
    assert forall|i: int| 0 <= i <= root implies (#[trigger] remap[i] is Some) == (i == root || has_marked_parent_node(
        old.nodes(),
        with_new(remap),
        0,
        i,
    )) by {
        assert(reached[i] == (i == root || has_marked_parent_node(old.nodes(), reached, 0, i)));
    }
}

impl<P: Ranked, VS: VersionSet, M: Clone> DerivationTree<P, VS, M> {
    /// The new node of the old node `j`, once its causes have theirs.
    fn collapse_one(
        &self,
        j: usize,
        remap: &Vec<Option<DerivationTreeId>>,
        new_arena: &mut Vec<DerivationTreeNode<P, VS, M>>,
    ) -> (id: DerivationTreeId)
        requires
            self.wf(),
            causes_before(self.nodes()),
            no_root_merge(self.nodes()),
            j < remap@.len(),
            remap@.len() <= self.nodes().len(),
            causes_before(old(new_arena)@),
            self.nodes()[j as int] matches DerivationTreeNode::Derived(d) ==> {
                &&& remap@[d.cause1.raw_spec() as int] is Some
                &&& remap@[d.cause2.raw_spec() as int] is Some
                &&& remap@[d.cause1.raw_spec() as int]->0.raw_spec() < old(new_arena)@.len()
                &&& remap@[d.cause2.raw_spec() as int]->0.raw_spec() < old(new_arena)@.len()
                &&& collapsed_node(self.nodes(), old(new_arena)@, remap@, d.cause1.raw_spec() as int)
                &&& collapsed_node(self.nodes(), old(new_arena)@, remap@, d.cause2.raw_spec() as int)
            },
        ensures
            old(new_arena)@.len() <= final(new_arena)@.len(),
            forall|t: int| 0 <= t < old(new_arena)@.len() ==> final(new_arena)@[t] == old(new_arena)@[t],
            id.raw_spec() < final(new_arena)@.len(),
            collapsed_node(self.nodes(), final(new_arena)@, remap@.update(j as int, Some(id)), j as int),
            causes_before(final(new_arena)@),
    {
        match self.node(DerivationTreeId::from_raw(j)) {
            DerivationTreeNode::External(e) => {
                let c = copy_external(e);
                let ghost before = new_arena@;
                let id = Self::alloc_node(new_arena, DerivationTreeNode::External(c));
                proof {
                    reveal(collapsed_node);
                    assert forall|i: int| 0 <= i < new_arena@.len() implies (#[trigger] new_arena@[i] matches DerivationTreeNode::Derived(d)
                        ==> d.cause1.raw_spec() < i && d.cause2.raw_spec() < i) by {
                        if i < before.len() {
                            assert(new_arena@[i] == before[i]);
                        }
                    }
                }
                id
            },
            DerivationTreeNode::Derived(d) => self.collapse_derived(j, d, remap, new_arena),
        }
    }

    /// The new node of the derived node `j`, once its causes have theirs.
    #[verifier::rlimit(40)]
    fn collapse_derived(
        &self,
        j: usize,
        d: &Derived<P, VS, M>,
        remap: &Vec<Option<DerivationTreeId>>,
        new_arena: &mut Vec<DerivationTreeNode<P, VS, M>>,
    ) -> (id: DerivationTreeId)
        requires
            self.wf(),
            causes_before(self.nodes()),
            no_root_merge(self.nodes()),
            j < remap@.len(),
            remap@.len() <= self.nodes().len(),
            causes_before(old(new_arena)@),
            self.nodes()[j as int] == DerivationTreeNode::Derived(*d),
            remap@[d.cause1.raw_spec() as int] is Some,
            remap@[d.cause2.raw_spec() as int] is Some,
            remap@[d.cause1.raw_spec() as int]->0.raw_spec() < old(new_arena)@.len(),
            remap@[d.cause2.raw_spec() as int]->0.raw_spec() < old(new_arena)@.len(),
            collapsed_node(self.nodes(), old(new_arena)@, remap@, d.cause1.raw_spec() as int),
            collapsed_node(self.nodes(), old(new_arena)@, remap@, d.cause2.raw_spec() as int),
        ensures
            old(new_arena)@.len() <= final(new_arena)@.len(),
            forall|t: int| 0 <= t < old(new_arena)@.len() ==> final(new_arena)@[t] == old(new_arena)@[t],
            id.raw_spec() < final(new_arena)@.len(),
            collapsed_node(self.nodes(), final(new_arena)@, remap@.update(j as int, Some(id)), j as int),
            causes_before(final(new_arena)@),
    {
        let ghost nodes = self.nodes();
        let ghost before = new_arena@;
        let c1 = d.cause1;
        let c2 = d.cause2;
        proof {
            assert(nodes[j as int] matches DerivationTreeNode::Derived(dd) ==> dd.cause1.raw_spec() < j && dd.cause2.raw_spec() < j);
            assert(nodes[j as int] matches DerivationTreeNode::Derived(dd) ==> {
                &&& is_no_versions(nodes[dd.cause1.raw_spec() as int]) ==> !(nodes[dd.cause2.raw_spec() as int] matches DerivationTreeNode::External(External::NotRoot(..)))
                &&& is_no_versions(nodes[dd.cause2.raw_spec() as int]) ==> !(nodes[dd.cause1.raw_spec() as int] matches DerivationTreeNode::External(External::NotRoot(..)))
            });
        }
        let n1 = remap[c1.raw()].unwrap();
        let n2 = remap[c2.raw()].unwrap();
        proof {
            reveal(collapsed_node);
        }
        let merged = match (self.node(c1), self.node(c2)) {
            (DerivationTreeNode::External(External::NoVersions(pk, set)), _) => self.merge_no_versions_id(new_arena, n2, *pk, set),
            (_, DerivationTreeNode::External(External::NoVersions(pk, set))) => self.merge_no_versions_id(new_arena, n1, *pk, set),
            _ => None,
        };
        let ghost mid = new_arena@;
        let id = match merged {
            Some(m) => m,
            None => Self::alloc_node(
                new_arena,
                DerivationTreeNode::Derived(Derived::new(copy_terms(&d.terms), d.shared_id, n1, n2)),
            ),
        };
        proof {
            assert forall|t: int| 0 <= t < before.len() implies new_arena@[t] == before[t] by {
                if mid.len() > before.len() {
                    assert(mid.subrange(0, before.len() as int)[t] == before[t]);
                }
            }
            assert forall|i: int| 0 <= i < new_arena@.len() implies (#[trigger] new_arena@[i] matches DerivationTreeNode::Derived(dd)
                ==> dd.cause1.raw_spec() < i && dd.cause2.raw_spec() < i) by {
                if i < before.len() {
                    assert(new_arena@[i] == before[i]);
                }
            }
        }
        id
    }

    /// The new node of the node `j`, if it is reached.
    #[verifier::rlimit(60)]
    fn collapse_step(
        &self,
        j: usize,
        reached: &Vec<bool>,
        remap: &mut Vec<Option<DerivationTreeId>>,
        new_arena: &mut Vec<DerivationTreeNode<P, VS, M>>,
    )
        requires
            j < old(remap)@.len(),
            old(remap)@.len() == self.root_spec().raw_spec() + 1,
            old(remap)@.len() <= self.nodes().len(),
            self.wf(),
            causes_before(self.nodes()),
            no_root_merge(self.nodes()),
            reach_inv(self.nodes(), reached@, 0, self.root_spec().raw_spec() as int),
            forall|i: int| 0 <= i < old(remap)@.len() ==> (#[trigger] old(remap)@[i] is Some) == (i < j && reached@[i]),
            forall|i: int| 0 <= i < old(remap)@.len() && #[trigger] old(remap)@[i] is Some ==> old(remap)@[i]->0.raw_spec()
                < old(new_arena)@.len() && collapsed_node(self.nodes(), old(new_arena)@, old(remap)@, i),
            causes_before(old(new_arena)@),
        ensures
            final(remap)@.len() == old(remap)@.len(),
            forall|i: int| 0 <= i < final(remap)@.len() ==> (#[trigger] final(remap)@[i] is Some) == (i < j + 1 && reached@[i]),
            forall|i: int| 0 <= i < final(remap)@.len() && #[trigger] final(remap)@[i] is Some ==> final(remap)@[i]->0.raw_spec()
                < final(new_arena)@.len() && collapsed_node(self.nodes(), final(new_arena)@, final(remap)@, i),
            causes_before(final(new_arena)@),
    {
        let ghost nodes = self.nodes();
        let ghost n = remap@.len();
        if reached[j] {
            let ghost before = new_arena@;
            let ghost remap_before = remap@;
            proof {
                assert(nodes[j as int] matches DerivationTreeNode::Derived(d) ==> d.cause1.raw_spec() < j && d.cause2.raw_spec() < j);
                if nodes[j as int] is Derived {
                    let a = node_cause(nodes[j as int], 1)->0;
                    let b = node_cause(nodes[j as int], 2)->0;
                    assert(has_marked_parent_node(nodes, reached@, 0, a));
                    assert(has_marked_parent_node(nodes, reached@, 0, b));
                    assert(reached@[a] && reached@[b]);
                }
            }
            let id = self.collapse_one(j, remap, new_arena);
            proof {
                assert forall|i: int| 0 <= i < n && #[trigger] remap@.update(j as int, Some(id))[i] is Some implies remap@.update(j as int, Some(id))[i]->0.raw_spec() < new_arena@.len()
                    && collapsed_node(nodes, new_arena@, remap@.update(j as int, Some(id)), i) by {
                    if i != j {
                        assert(nodes[i] matches DerivationTreeNode::Derived(d) ==> d.cause1.raw_spec() < i && d.cause2.raw_spec() < i);
                        if nodes[i] is Derived {
                            let a = node_cause(nodes[i], 1)->0;
                            let b = node_cause(nodes[i], 2)->0;
                            assert(has_marked_parent_node(nodes, reached@, 0, a));
                            assert(has_marked_parent_node(nodes, reached@, 0, b));
                        }
                        lemma_collapsed_extend(nodes, before, new_arena@, remap_before, remap_before.update(j as int, Some(id)), i);
                    }
                }
            }
            remap.set(j, Some(id));
        }
    }

    /// The nodes reached from the root rebuilt, causes first, into a new arena, and the new
    /// node of each old one.
    #[verifier::rlimit(60)]
    #[verifier::spinoff_prover]
    fn collapsed_arena(&self) -> (r: (Vec<DerivationTreeNode<P, VS, M>>, Vec<Option<DerivationTreeId>>, Ghost<Seq<bool>>))
        requires
            self.wf(),
            causes_before(self.nodes()),
            no_root_merge(self.nodes()),
        ensures
            reach_inv(self.nodes(), r.2@, 0, self.root_spec().raw_spec() as int),
            r.1@.len() == r.2@.len(),
            forall|i: int| 0 <= i < r.1@.len() ==> (#[trigger] r.1@[i] is Some) == r.2@[i],
            forall|i: int| 0 <= i < r.1@.len() && #[trigger] r.1@[i] is Some ==> r.1@[i]->0.raw_spec() < r.0@.len()
                && collapsed_node(self.nodes(), r.0@, r.1@, i),
            causes_before(r.0@),
    {
        let ghost nodes = self.nodes();
        let ghost root = self.root_spec().raw_spec() as int;
        let reached = self.reached_nodes();
        let len = self.arena.len();
        let n = self.root.raw() + 1;
        let mut remap: Vec<Option<DerivationTreeId>> = Vec::new();
        let mut k: usize = 0;
        while k < n
            invariant
                k <= n,
                remap@.len() == k,
                forall|i: int| 0 <= i < k ==> #[trigger] remap@[i] is None,
            decreases n - k,
        {
            remap.push(None);
            k = k + 1;
        }
        let mut new_arena: Vec<DerivationTreeNode<P, VS, M>> = Vec::new();
        let mut j: usize = 0;
        while j < n
            invariant
                j <= n,
                n == root + 1,
                root == self.root_spec().raw_spec(),
                n <= nodes.len(),
                nodes == self.nodes(),
                self.wf(),
                causes_before(nodes),
                no_root_merge(nodes),
                reach_inv(nodes, reached@, 0, root),
                remap@.len() == n,
                forall|i: int| 0 <= i < n ==> (#[trigger] remap@[i] is Some) == (i < j && reached@[i]),
                forall|i: int| 0 <= i < n && #[trigger] remap@[i] is Some ==> remap@[i]->0.raw_spec() < new_arena@.len()
                    && collapsed_node(nodes, new_arena@, remap@, i),
                causes_before(new_arena@),
            decreases n - j,
        {
            self.collapse_step(j, &reached, &mut remap, &mut new_arena);
            j = j + 1;
        }
        (new_arena, remap, Ghost(reached@))
    }

    /// Merge the [NoVersions](External::NoVersions) external incompatibilities
    /// with the other one they are matched with
    /// in a derived incompatibility.
    /// This cleans up quite nicely the generated report.
    /// You might want to do this if you know that the
    /// dependency provider
    /// was not run in some kind of offline mode that may not
    /// have access to all versions existing.
    ///
    /// The nodes reached from the root are rebuilt, causes first, into a new arena.
    pub fn collapse_no_versions(&mut self)
        requires
            old(self).wf(),
            causes_before(old(self).nodes()),
            no_root_merge(old(self).nodes()),
        ensures
            final(self).wf(),
            causes_before(final(self).nodes()),
            exists|remap: Seq<Option<DerivationTreeId>>| collapse_of(*old(self), *final(self), remap),
    {
        let (new_arena, remap, Ghost(reached)) = self.collapsed_arena();
        proof {
            assert(reached[self.root_spec().raw_spec() as int]);
        }
        let new_root = remap[self.root.raw()].unwrap();
        let ghost old_tree = *self;
        self.arena = new_arena;
        self.root = new_root;
        proof {
            lemma_collapse_done(old_tree, *self, remap@, reached);
        }
    }
}

} // verus!
