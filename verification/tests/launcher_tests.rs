use repo_launcher::launcher::topological_order;

#[test]
fn no_edges_preserves_input_order() {
    let nodes = [3, 1, 2];
    let result = topological_order(&nodes, &[]).unwrap();
    assert_eq!(result, vec![3, 1, 2]);
}

#[test]
fn simple_chain_orders_dependencies_first() {
    // 1 depends on 2, 2 depends on 3 -> 3, 2, 1
    let nodes = [3, 1, 2];
    let edges = [(1, 2), (2, 3)];
    let result = topological_order(&nodes, &edges).unwrap();
    assert_eq!(result, vec![3, 2, 1]);
}

#[test]
fn diamond_resolves_to_valid_order() {
    // a depends on b and c; b and c both depend on d.
    // edges are (dependent, depends_on).
    let nodes = [1, 2, 3, 4]; // a=1, b=2, c=3, d=4
    let edges = [(1, 2), (1, 3), (2, 4), (3, 4)];
    let result = topological_order(&nodes, &edges).unwrap();

    assert_eq!(result.len(), 4);
    let pos = |id: i64| result.iter().position(|&x| x == id).unwrap();
    assert!(pos(4) < pos(2)); // d before b
    assert!(pos(4) < pos(3)); // d before c
    assert!(pos(2) < pos(1)); // b before a
    assert!(pos(3) < pos(1)); // c before a
    assert_eq!(pos(4), 0); // d has no deps, first ready
    assert_eq!(pos(1), 3); // a depends on both, last
}

#[test]
fn independent_nodes_keep_stable_order() {
    let nodes = [5, 2, 8, 1];
    let result = topological_order(&nodes, &[]).unwrap();
    assert_eq!(result, vec![5, 2, 8, 1]);
}

#[test]
fn direct_cycle_is_reported() {
    let nodes = [1, 2];
    let edges = [(1, 2), (2, 1)];
    let err = topological_order(&nodes, &edges).unwrap_err();
    assert_eq!(err.len(), 2);
    assert!(err.contains(&1));
    assert!(err.contains(&2));
}

#[test]
fn transitive_cycle_is_reported() {
    // A depends on B, B depends on C, C depends on A.
    let nodes = [10, 20, 30];
    let edges = [(10, 20), (20, 30), (30, 10)];
    let err = topological_order(&nodes, &edges).unwrap_err();
    assert_eq!(err.len(), 3);
    assert!(err.contains(&10));
    assert!(err.contains(&20));
    assert!(err.contains(&30));
}

#[test]
fn edge_to_unknown_node_is_ignored() {
    let nodes = [1, 2];
    // 1 depends on 99, which isn't in `nodes` - should not panic or constrain ordering.
    let edges = [(1, 99)];
    let result = topological_order(&nodes, &edges).unwrap();
    assert_eq!(result, vec![1, 2]);
}

#[test]
fn duplicate_edges_do_not_cause_false_cycle() {
    let nodes = [1, 2];
    let edges = [(1, 2), (1, 2), (1, 2)];
    let result = topological_order(&nodes, &edges).unwrap();
    assert_eq!(result, vec![2, 1]);
}

#[test]
fn self_edge_is_ignored_not_a_cycle() {
    let nodes = [1, 2];
    let edges = [(1, 1), (1, 2)];
    let result = topological_order(&nodes, &edges).unwrap();
    assert_eq!(result, vec![2, 1]);
}

#[test]
fn cycle_reports_only_the_blocked_nodes_in_node_order() {
    // 4 is free; 1 -> 2 -> 3 -> 1 is a cycle; 5 depends on the cycle.
    let nodes = [5, 4, 3, 2, 1];
    let edges = [(1, 2), (2, 3), (3, 1), (5, 1)];
    let err = topological_order(&nodes, &edges).unwrap_err();
    assert_eq!(err, vec![5, 3, 2, 1]);
}

#[test]
fn cycle_report_leaves_out_what_the_cycle_depends_on() {
    // 1 <-> 2 is a cycle that itself depends on 3; 4 depends on 5, which depends on the
    // cycle. 3 can start; everything held by the cycle is reported, in node order.
    let nodes = [1, 2, 3, 4, 5];
    let edges = [(1, 2), (2, 1), (1, 3), (4, 5), (5, 1)];
    let err = topological_order(&nodes, &edges).unwrap_err();
    assert_eq!(err, vec![1, 2, 4, 5]);
}
