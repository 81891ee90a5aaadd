use pubgrub::range::Ranges;
use pubgrub::report::{
    DefaultStringReporter, DerivationTree, DerivationTreeId, DerivationTreeNode, Derived, External, ReportLine,
};
use pubgrub::term::Term;

type Node = DerivationTreeNode<u32, Ranges<u32>, String>;

fn tree() -> DerivationTree<u32, Ranges<u32>, String> {
    let mut arena: Vec<Node> = Vec::new();
    let not_root = DerivationTree::alloc_node(&mut arena, DerivationTreeNode::External(External::NotRoot(0, 1)));
    let dependency = DerivationTree::alloc_node(
        &mut arena,
        DerivationTreeNode::External(External::FromDependencyOf(0, Ranges::full(), 2, Ranges::singleton(1u32))),
    );
    let unreachable = DerivationTree::alloc_node(
        &mut arena,
        DerivationTreeNode::External(External::NoVersions(9, Ranges::full())),
    );
    let root = DerivationTree::alloc_node(
        &mut arena,
        DerivationTreeNode::Derived(Derived::new(
            vec![(0, Term::Positive(Ranges::full())), (5, Term::Negative(Ranges::empty()))],
            None,
            not_root,
            dependency,
        )),
    );
    assert_eq!(unreachable, DerivationTreeId::from_raw(2));
    DerivationTree::from_arena(arena, root)
}

#[test]
fn derivation_tree_packages_are_those_reached_from_the_root() {
    let tree = tree();
    let mut packages = tree.packages();
    packages.sort();
    assert_eq!(packages, vec![0, 2, 5]);
}

#[test]
fn derivation_tree_root_and_nodes() {
    let tree = tree();
    assert_eq!(tree.root_id(), DerivationTreeId::from_raw(3));
    assert!(matches!(tree.root(), DerivationTreeNode::Derived(d) if d.cause1 == DerivationTreeId::from_raw(0)));
    assert!(matches!(
        tree.node(DerivationTreeId::from_raw(1)),
        DerivationTreeNode::External(External::FromDependencyOf(0, _, 2, _))
    ));
}

#[test]
fn shared_causes_are_visited_once() {
    let mut arena: Vec<Node> = Vec::new();
    let leaf = DerivationTree::alloc_node(&mut arena, DerivationTreeNode::External(External::NoVersions(4, Ranges::full())));
    let left = DerivationTree::alloc_node(
        &mut arena,
        DerivationTreeNode::Derived(Derived::new(vec![(1, Term::Positive(Ranges::full()))], Some(0), leaf, leaf)),
    );
    let root = DerivationTree::alloc_node(
        &mut arena,
        DerivationTreeNode::Derived(Derived::new(vec![(1, Term::Positive(Ranges::full()))], None, left, leaf)),
    );
    let tree = DerivationTree::from_arena(arena, root);
    let mut packages = tree.packages();
    packages.sort();
    assert_eq!(packages, vec![1, 4]);
}

#[test]
fn derived_and_external_nodes() {
    let tree = tree();
    let derived = tree.derived(DerivationTreeId::from_raw(3));
    assert_eq!(derived.cause2, DerivationTreeId::from_raw(1));
    assert_eq!(derived.shared_id, None);
    assert!(matches!(tree.external(DerivationTreeId::from_raw(2)), External::NoVersions(9, _)));
}

fn report_lines(tree: &DerivationTree<u32, Ranges<u32>, String>) -> Vec<ReportLine> {
    assert!(tree.is_well_formed());
    let mut reporter = DefaultStringReporter::new(tree.root_id());
    let mut lines = Vec::new();
    while let Some(step) = reporter.build_step(tree) {
        lines.extend(step);
    }
    lines
}

fn id(raw: usize) -> DerivationTreeId {
    DerivationTreeId::from_raw(raw)
}

#[test]
fn report_of_two_external_causes_is_one_line() {
    let lines = report_lines(&tree());
    assert_eq!(
        lines,
        vec![ReportLine::ExplainBothExternal { external1: id(0), external2: id(1), current: id(3) }]
    );
}

#[test]
fn report_chains_a_derived_cause_with_an_external_one() {
    // 0: external, 1: external, 2: derived from 0 and 1, 3: external, 4: derived from 2 and 3.
    let mut arena: Vec<Node> = Vec::new();
    for p in [1u32, 2] {
        DerivationTree::alloc_node(&mut arena, DerivationTreeNode::External(External::NoVersions(p, Ranges::full())));
    }
    DerivationTree::alloc_node(
        &mut arena,
        DerivationTreeNode::Derived(Derived::new(vec![(1, Term::Positive(Ranges::full()))], None, id(0), id(1))),
    );
    DerivationTree::alloc_node(&mut arena, DerivationTreeNode::External(External::NoVersions(3, Ranges::full())));
    let root = DerivationTree::alloc_node(
        &mut arena,
        DerivationTreeNode::Derived(Derived::new(vec![], None, id(2), id(3))),
    );
    let tree = DerivationTree::from_arena(arena, root);
    assert_eq!(
        report_lines(&tree),
        vec![
            ReportLine::ExplainBothExternal { external1: id(0), external2: id(1), current: id(2) },
            ReportLine::AndExplainExternal { external: id(3), current: id(4) },
        ]
    );
}

#[test]
fn report_refers_to_shared_explanations() {
    // 0, 1: external; 2: derived from 0 and 1, shared; 3: derived from 2 and 2; 4: derived from 3 and 2.
    let mut arena: Vec<Node> = Vec::new();
    for p in [1u32, 2] {
        DerivationTree::alloc_node(&mut arena, DerivationTreeNode::External(External::NoVersions(p, Ranges::full())));
    }
    DerivationTree::alloc_node(&mut arena, DerivationTreeNode::Derived(Derived::new(vec![], Some(7), id(0), id(1))));
    DerivationTree::alloc_node(&mut arena, DerivationTreeNode::Derived(Derived::new(vec![], None, id(2), id(2))));
    let root = DerivationTree::alloc_node(&mut arena, DerivationTreeNode::Derived(Derived::new(vec![], None, id(3), id(2))));
    let tree = DerivationTree::from_arena(arena, root);
    let lines = report_lines(&tree);
    assert_eq!(
        lines,
        vec![
            ReportLine::ExplainBothExternal { external1: id(0), external2: id(1), current: id(2) },
            ReportLine::Reference(1),
            ReportLine::Empty,
            ReportLine::ExplainBothRef { ref_id1: 1, derived1: id(2), ref_id2: 1, derived2: id(2), current: id(3) },
            ReportLine::Reference(2),
            ReportLine::Empty,
            ReportLine::ExplainBothExternal { external1: id(0), external2: id(1), current: id(2) },
            ReportLine::AndExplainRef { ref_id: 2, derived: id(3), current: id(4) },
        ]
    );
}

#[test]
fn collapse_merges_no_versions_into_the_dependency() {
    type Tree = DerivationTree<u32, Ranges<u32>, String>;
    let (foo, bar) = (1u32, 2u32);
    let mut arena = Vec::new();
    let missing = Tree::alloc_node(
        &mut arena,
        DerivationTreeNode::External(External::NoVersions(bar, Ranges::singleton(5))),
    );
    let dependency = Tree::alloc_node(
        &mut arena,
        DerivationTreeNode::External(External::FromDependencyOf(
            foo,
            Ranges::full(),
            bar,
            Ranges::singleton(3),
        )),
    );
    let root = Tree::alloc_node(
        &mut arena,
        DerivationTreeNode::Derived(Derived::new(vec![], None, dependency, missing)),
    );
    let mut tree = Tree::from_arena(arena, root);
    tree.collapse_no_versions();
    assert!(tree.is_well_formed());
    match tree.root() {
        DerivationTreeNode::External(External::FromDependencyOf(p, vs, d, ds)) => {
            assert_eq!((*p, *d), (foo, bar));
            assert_eq!(vs, &Ranges::full());
            // The missing versions of bar are merged into the dependency on bar.
            assert_eq!(ds, &Ranges::singleton(3).union(&Ranges::singleton(5)));
        }
        _ => panic!("the root collapses into the dependency"),
    }
    // Only the reached nodes are kept: the missing versions and the dependency, then the merge.
    assert_eq!(tree.root_id().raw(), 2);
}

#[test]
fn collapse_keeps_derived_nodes_without_no_versions() {
    type Tree = DerivationTree<u32, Ranges<u32>, String>;
    let mut arena = Vec::new();
    let a = Tree::alloc_node(
        &mut arena,
        DerivationTreeNode::External(External::FromDependencyOf(1, Ranges::full(), 2, Ranges::singleton(1))),
    );
    let b = Tree::alloc_node(
        &mut arena,
        DerivationTreeNode::External(External::FromDependencyOf(2, Ranges::full(), 3, Ranges::singleton(1))),
    );
    let unreached = Tree::alloc_node(&mut arena, DerivationTreeNode::External(External::NotRoot(9, 9)));
    let root = Tree::alloc_node(
        &mut arena,
        DerivationTreeNode::Derived(Derived::new(
            vec![(1, Term::Positive(Ranges::full()))],
            Some(7),
            a,
            b,
        )),
    );
    let _ = unreached;
    let mut tree = Tree::from_arena(arena, root);
    tree.collapse_no_versions();
    match tree.root() {
        DerivationTreeNode::Derived(d) => {
            assert_eq!(d.shared_id, Some(7));
            assert_eq!(d.terms, vec![(1, Term::Positive(Ranges::full()))]);
            assert!(matches!(tree.node(d.cause1), DerivationTreeNode::External(External::FromDependencyOf(1, _, 2, _))));
            assert!(matches!(tree.node(d.cause2), DerivationTreeNode::External(External::FromDependencyOf(2, _, 3, _))));
        }
        _ => panic!("the root stays derived"),
    }
    // The node that is not reached from the root is dropped.
    assert_eq!(tree.root_id().raw(), 2);
}

#[test]
fn construct_tree_with_public_api() {
    // Packages "foo" and "bar" are named by numbers.
    type Tree = DerivationTree<u32, Ranges<u32>, String>;
    let (foo, bar) = (1u32, 2u32);
    let mut arena = Vec::new();
    let missing = Tree::alloc_node(&mut arena, DerivationTreeNode::External(External::NoVersions(bar, Ranges::full())));
    let dependency = Tree::alloc_node(
        &mut arena,
        DerivationTreeNode::External(External::FromDependencyOf(foo, Ranges::full(), bar, Ranges::full())),
    );
    let root = Tree::alloc_node(&mut arena, DerivationTreeNode::Derived(Derived::new(vec![], None, dependency, missing)));
    let mut tree = Tree::from_arena(arena, root);
    tree.collapse_no_versions();
    // The report of this tree is "foo depends on bar".
    match tree.root() {
        DerivationTreeNode::External(External::FromDependencyOf(p, vs, d, ds)) => {
            assert_eq!((*p, *d), (foo, bar));
            assert_eq!(vs, &Ranges::full());
            assert_eq!(ds, &Ranges::full());
        }
        _ => panic!("the root collapses into the dependency"),
    }
}
