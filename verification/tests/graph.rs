use biner::deps::sort_for_visit;
use biner::lifecycle::dependency_verdict;
use biner::DependencyGraph;
use biner::LoadPluginError;

fn ids(entries: Vec<(u64, usize)>) -> Vec<u64> {
    entries.into_iter().map(|(id, _)| id).collect()
}

#[test]
fn new_graph_is_empty() {
    let graph = DependencyGraph::new();
    assert!(!graph.contains(1));
    assert!(graph.requirements(1).is_empty());
    assert!(graph.dependents(1).is_empty());
    let roomy = DependencyGraph::with_capacity(16);
    assert!(!roomy.contains(1));
}

#[test]
fn a_plugin_without_requirements_is_known_to_the_graph() {
    let mut graph = DependencyGraph::new();
    assert!(graph.declare(5, &[]));
    assert!(graph.contains(5));
    assert!(!graph.contains(6));
    assert!(graph.requirements(5).is_empty());
    assert!(graph.dependents(5).is_empty());
}

#[test]
fn declared_requirements_come_back_in_declared_order() {
    let mut graph = DependencyGraph::new();
    assert!(graph.declare(1, &[30, 10, 20]));
    assert_eq!(graph.requirements(1), vec![(30, 0), (10, 1), (20, 2)]);
    assert!(graph.contains(1));
    assert!(graph.contains(10));
    assert!(graph.contains(20));
    assert!(graph.contains(30));
    assert!(!graph.contains(40));
    assert!(graph.requirements(10).is_empty());
}

#[test]
fn repeated_requirement_keeps_its_later_position() {
    let mut graph = DependencyGraph::new();
    assert!(graph.declare(1, &[7, 8, 7]));
    assert_eq!(graph.requirements(1), vec![(8, 1), (7, 2)]);
    assert_eq!(graph.dependents(7), vec![(1, 2)]);
}

#[test]
fn dependents_are_ordered_by_position_then_id() {
    let mut graph = DependencyGraph::new();
    assert!(graph.declare(5, &[1]));
    assert!(graph.declare(3, &[2, 1]));
    assert!(graph.declare(4, &[1]));
    assert_eq!(graph.dependents(1), vec![(4, 0), (5, 0), (3, 1)]);
    assert_eq!(graph.dependents(2), vec![(3, 0)]);
    assert!(graph.dependents(5).is_empty());
}

#[test]
fn a_cycle_is_refused_and_nothing_changes() {
    let mut graph = DependencyGraph::new();
    assert!(graph.declare(1, &[2]));
    assert!(graph.declare(2, &[3]));
    assert!(!graph.declare(3, &[4, 1, 5]));
    assert_eq!(graph.requirements(1), vec![(2, 0)]);
    assert_eq!(graph.requirements(2), vec![(3, 0)]);
    assert!(graph.requirements(3).is_empty());
    assert!(graph.dependents(1).is_empty());
    assert!(graph.contains(3));
    assert!(!graph.contains(4));
    assert!(!graph.contains(5));
    assert!(graph.declare(3, &[4, 5]));
    assert_eq!(graph.requirements(3), vec![(4, 0), (5, 1)]);
}

#[test]
fn a_plugin_cannot_require_itself() {
    let mut graph = DependencyGraph::new();
    assert!(!graph.declare(1, &[1]));
    assert!(!graph.contains(1));
    assert!(!graph.declare(2, &[3, 2]));
    assert!(!graph.contains(2));
    assert!(!graph.contains(3));
}

#[test]
fn a_refused_declaration_restores_replaced_positions() {
    let mut graph = DependencyGraph::new();
    assert!(graph.declare(1, &[2, 3]));
    assert!(graph.declare(3, &[4]));
    assert!(!graph.declare(1, &[3, 2, 1]));
    assert_eq!(graph.requirements(1), vec![(2, 0), (3, 1)]);
    assert_eq!(graph.requirements(3), vec![(4, 0)]);
}

#[test]
fn pruning_spares_what_is_still_required() {
    let mut graph = DependencyGraph::new();
    assert!(graph.declare(1, &[2]));
    assert!(graph.declare(2, &[3]));
    assert!(!graph.prune(2));
    assert_eq!(graph.requirements(2), vec![(3, 0)]);
    assert!(graph.prune(1));
    assert!(!graph.contains(1));
    assert!(graph.dependents(2).is_empty());
    assert!(graph.prune(2));
    assert!(!graph.contains(2));
    assert!(graph.contains(3));
    assert!(graph.dependents(3).is_empty());
    assert!(graph.prune(9));
}

#[test]
fn sorting_orders_by_position_then_id() {
    assert_eq!(
        sort_for_visit(vec![(9, 2), (4, 0), (7, 1), (3, 1), (8, 0)]),
        vec![(4, 0), (8, 0), (3, 1), (7, 1), (9, 2)]
    );
    assert_eq!(sort_for_visit(vec![]), vec![]);
    assert_eq!(ids(sort_for_visit(vec![(2, 5)])), vec![2]);
}

#[test]
fn a_rejection_becomes_a_mismatch_with_its_reason() {
    assert_eq!(dependency_verdict(1, 2, Ok(())), Ok(()));
    assert_eq!(
        dependency_verdict(1, 2, Err("too old".to_string())),
        Err(LoadPluginError::DependencyMismatch {
            plugin: 1,
            dependency: 2,
            reason: "too old".to_string()
        })
    );
}
