use painter_core::depgraph::DepGraph;
use painter_core::execution_order::{compute_execution, OrderCalculationError};
use painter_core::executor::{default_executor, NullBackend, OperationStage};

fn position(order: &Vec<OperationStage>, operation: u64) -> usize {
    order
        .iter()
        .position(|x| x.operation.0.id == operation)
        .expect("Operation not in execution stages!")
}

#[test]
fn test_chain_ordering() {
    let mut graph = DepGraph::new();
    // 1 -> 2 -> 3
    graph.insert(1, vec![2]);
    graph.insert(2, vec![3]);
    graph.insert(3, vec![]);

    let order = compute_execution(&graph, vec![1], 10).expect("Computation Failed");

    assert!(order.len() == 3);
    assert!(position(&order, 1) > position(&order, 2));
    assert!(position(&order, 2) > position(&order, 3));
}

#[test]
fn test_wide_ordering() {
    let mut graph = DepGraph::new();
    graph.insert(1, vec![2, 3, 4]);
    graph.insert(2, vec![]);
    graph.insert(3, vec![]);
    graph.insert(4, vec![]);

    let order = compute_execution(&graph, vec![1], 10).expect("Computation Failed");

    assert!(order.len() == 4);
    assert!(position(&order, 1) > position(&order, 2));
    assert!(position(&order, 1) > position(&order, 3));
    assert!(position(&order, 1) > position(&order, 4));
}

#[test]
fn test_unknown_dep_1() {
    let mut graph = DepGraph::new();
    graph.insert(1, vec![2]);

    let order = compute_execution(&graph, vec![1], 10);

    assert_eq!(order.unwrap_err(), OrderCalculationError::UnknownDependency);
}

#[test]
fn test_unknown_dep_2() {
    let mut graph = DepGraph::new();
    graph.insert(1, vec![]);

    let order: Result<_, OrderCalculationError> = compute_execution(&graph, vec![2], 10);

    assert_eq!(order.unwrap_err(), OrderCalculationError::UnknownDependency);
}

#[test]
fn test_unexecuted() {
    // Node 3 is never live, yet it still needs node 2: node 2 can never be
    // scheduled, so no complete schedule exists.
    let mut graph = DepGraph::new();
    graph.insert(1, vec![2]);
    graph.insert(2, vec![]);
    graph.insert(3, vec![2]);

    let order = compute_execution(&graph, vec![1], 10);

    assert_eq!(order.unwrap_err(), OrderCalculationError::IterationLimitReached);
}

#[test]
fn chain_schedule_is_exact() {
    let mut graph = DepGraph::new();
    graph.insert(1, vec![2]);
    graph.insert(2, vec![3]);
    graph.insert(3, vec![]);
    let order = compute_execution(&graph, vec![1], 2).expect("two registers suffice");
    let ids: Vec<u64> = order.iter().map(|s| s.operation.0.id).collect();
    let addrs: Vec<usize> = order.iter().map(|s| s.operation.1).collect();
    assert_eq!(ids, vec![3, 2, 1]);
    assert_eq!(addrs, vec![0, 1, 0]);
    assert_eq!(order[1].operation.0.depends_on, vec![3]);
    assert_eq!(order[1].allocate_before.len(), 1);
    assert_eq!(order[1].allocate_before[0].id, 2);
    assert_eq!(order[1].allocate_before[0].addr, 1);
    assert_eq!(order[1].delete_after.len(), 1);
    assert_eq!(order[1].delete_after[0].id, 3);
    assert_eq!(order[1].delete_after[0].addr, 0);
    assert!(order[2].delete_after.len() == 1 && order[2].delete_after[0].id == 2);
    assert!(order[0].delete_after.is_empty());
}

#[test]
fn diamond_needs_three_registers() {
    // A=1 -> {B=2, C=3}; B -> D=4; C -> D; D leaf. Running A takes a
    // register for A and one each for B and C.
    let mut graph = DepGraph::new();
    graph.insert(1, vec![2, 3]);
    graph.insert(2, vec![4]);
    graph.insert(3, vec![4]);
    graph.insert(4, vec![]);
    assert_eq!(
        compute_execution(&graph, vec![1], 1).unwrap_err(),
        OrderCalculationError::ResourceLimitExceeded
    );
    assert_eq!(
        compute_execution(&graph, vec![1], 2).unwrap_err(),
        OrderCalculationError::ResourceLimitExceeded
    );
    let order = compute_execution(&graph, vec![1], 3).expect("three registers suffice");
    assert_eq!(order.len(), 4);
    assert!(position(&order, 4) < position(&order, 2));
    assert!(position(&order, 4) < position(&order, 3));
    assert!(position(&order, 2) < position(&order, 1));
    assert!(position(&order, 3) < position(&order, 1));
    let mut backend = NullBackend::new();
    assert_eq!(default_executor(order, 3, &mut backend), Ok(()));
}

#[test]
fn no_registers_means_resource_limit() {
    let mut graph = DepGraph::new();
    graph.insert(1, vec![]);
    assert_eq!(
        compute_execution(&graph, vec![1], 0).unwrap_err(),
        OrderCalculationError::ResourceLimitExceeded
    );
}

#[test]
fn cycle_reaches_iteration_limit() {
    let mut graph = DepGraph::new();
    graph.insert(1, vec![2]);
    graph.insert(2, vec![3]);
    graph.insert(3, vec![2]);
    assert_eq!(
        compute_execution(&graph, vec![1], 10).unwrap_err(),
        OrderCalculationError::IterationLimitReached
    );
}

#[test]
fn scheduled_graph_runs_on_the_executor() {
    let mut graph = DepGraph::new();
    let edges: Vec<(u64, Vec<u64>)> = vec![
        (1, vec![2, 7]),
        (2, vec![3, 8]),
        (3, vec![4, 6]),
        (4, vec![5]),
        (5, vec![]),
        (6, vec![]),
        (7, vec![6, 13]),
        (8, vec![9]),
        (9, vec![10]),
        (10, vec![11, 4]),
        (11, vec![12]),
        (12, vec![]),
        (13, vec![14, 16]),
        (14, vec![15]),
        (15, vec![16]),
        (16, vec![17]),
        (17, vec![]),
    ];
    for (node, deps) in edges {
        graph.insert(node, deps);
    }
    let stages = compute_execution(&graph, vec![1], 10).expect("Calculating Order Failed");
    assert_eq!(stages.len(), 17);
    let mut backend = NullBackend::new();
    assert_eq!(default_executor(stages, 10, &mut backend), Ok(()));
}

#[test]
fn unreachable_nodes_are_not_scheduled() {
    let mut graph = DepGraph::new();
    graph.insert(1, vec![2]);
    graph.insert(2, vec![]);
    graph.insert(50, vec![51]);
    graph.insert(51, vec![]);
    let order = compute_execution(&graph, vec![1], 4).expect("a schedule exists");
    let ids: Vec<u64> = order.iter().map(|s| s.operation.0.id).collect();
    assert_eq!(ids, vec![2, 1]);
}

#[test]
fn repeated_output_is_scheduled_once() {
    let mut graph = DepGraph::new();
    graph.insert(1, vec![2]);
    graph.insert(2, vec![]);
    let order = compute_execution(&graph, vec![1, 1], 3).expect("a schedule exists");
    let ids: Vec<u64> = order.iter().map(|s| s.operation.0.id).collect();
    assert_eq!(ids, vec![2, 1]);
    assert_eq!(order[1].operation.1, 0);
    let mut backend = NullBackend::new();
    assert_eq!(default_executor(order, 3, &mut backend), Ok(()));
}

#[test]
fn fewest_dependencies_go_first_then_lowest_register() {
    // Both outputs are candidates; 2 has fewer dependencies than 1 and is
    // therefore built first, which makes it the later stage. Of the two
    // leaves, 4 sits in the lower register and is built before 3.
    let mut graph = DepGraph::new();
    graph.insert(1, vec![3, 4]);
    graph.insert(2, vec![3]);
    graph.insert(3, vec![]);
    graph.insert(4, vec![]);
    let order = compute_execution(&graph, vec![1, 2], 4).expect("a schedule exists");
    let ids: Vec<u64> = order.iter().map(|s| s.operation.0.id).collect();
    assert_eq!(ids, vec![3, 4, 1, 2]);
    let mut backend = NullBackend::new();
    assert_eq!(default_executor(order, 4, &mut backend), Ok(()));
}

#[test]
fn outputs_must_fit_into_the_registers() {
    let mut graph = DepGraph::new();
    graph.insert(1, vec![]);
    graph.insert(2, vec![]);
    assert_eq!(
        compute_execution(&graph, vec![1, 2], 1).unwrap_err(),
        OrderCalculationError::ResourceLimitExceeded
    );
    assert_eq!(compute_execution(&graph, vec![1, 2], 2).expect("fits").len(), 2);
}
