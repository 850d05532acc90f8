use painter_core::cached_operation_graph::{operation_eq, CachedOperationGraph};
use painter_core::depgraph::DepGraph;
use painter_core::entities::{BlendMode, Color, Operation, Scalar, StrokeData};
use painter_core::id_map::{GlyphId, IdMap, OperationId};
use painter_core::image::OperationIdMap;

#[test]
fn test_cached_operation_graph_picks_up_new_nodes() {
    let mut cached_graph = CachedOperationGraph::default();
    let mut operations: OperationIdMap = IdMap::starting_at(OperationId::default());
    let dep_graph = DepGraph::default();

    let op_a = Operation::Tag("TestA".to_string());
    let id_a = operations.insert(op_a.clone());

    assert!(cached_graph.compute_changed(&dep_graph, &operations).contains(&id_a));
    cached_graph.do_operation(id_a, op_a, 8);

    let b = operations.insert(Operation::Tag("TestB".to_string()));
    assert!(!cached_graph.compute_changed(&dep_graph, &operations).contains(&id_a));
    assert!(cached_graph.compute_changed(&dep_graph, &operations).contains(&b));
}

#[test]
fn test_cached_operation_graph_dirties_child_nodes() {
    let mut cached_graph = CachedOperationGraph::default();
    let mut operations: OperationIdMap = IdMap::starting_at(OperationId::default());
    let mut dep_graph = DepGraph::default();

    let op_a = Operation::Tag("TestA".to_string());
    let id_a = operations.insert(op_a.clone());

    let op_b = Operation::Tag("TestB".to_string());
    let id_b = operations.insert(op_b.clone());

    dep_graph.insert_as_child(id_b.0, id_a.0);

    cached_graph.do_operation(id_a, op_a, 8);
    cached_graph.do_operation(id_b, op_b, 7);

    assert!(cached_graph.compute_changed(&dep_graph, &operations).len() == 0);

    operations.force(id_a, Operation::Tag("TestA2".to_string()));

    println!("{:?}", cached_graph.compute_changed(&dep_graph, &operations));
    assert!(cached_graph.compute_changed(&dep_graph, &operations).contains(&id_a));
    assert!(cached_graph.compute_changed(&dep_graph, &operations).contains(&id_b));
}

#[test]
fn change_dirties_uncached_dependents_up_to_the_cache() {
    // 4 -> 3 -> 2 -> 1: each depends on the next lower one.
    let mut operations: OperationIdMap = IdMap::starting_at(OperationId(1));
    let mut graph = DepGraph::new();
    let mut cached_graph = CachedOperationGraph::new();
    for n in 1..5u64 {
        let id = operations.insert(Operation::Output(n as u32));
        assert_eq!(id, OperationId(n));
        graph.insert(n, if n == 1 { vec![] } else { vec![n - 1] });
    }
    // Everything was computed; only the result of 3 is still cached.
    for n in [1u64, 2, 4] {
        cached_graph.operations.force(OperationId(n), Operation::Output(n as u32));
    }
    cached_graph.do_operation(OperationId(3), Operation::Output(3), 1);
    assert_eq!(cached_graph.compute_changed(&graph, &operations), vec![]);

    operations.alter(OperationId(1), Operation::Output(100));
    let changed = cached_graph.compute_changed(&graph, &operations);
    assert!(changed.contains(&OperationId(1)));
    assert!(changed.contains(&OperationId(2)));
    assert!(!changed.contains(&OperationId(3)));
    assert!(!changed.contains(&OperationId(4)));

    operations.alter(OperationId(4), Operation::Output(400));
    let changed = cached_graph.compute_changed(&graph, &operations);
    for n in 1..5u64 {
        assert!(changed.contains(&OperationId(n)));
    }
}

#[test]
fn operations_are_compared_by_value() {
    let stroke = |size: u32, samples: usize| {
        let mut s = StrokeData::new(
            Scalar(size),
            Color { r: Scalar(1), g: Scalar(2), b: Scalar(3), a: Scalar(4) },
            GlyphId(0),
            BlendMode::Mix(Scalar(9)),
        );
        for i in 0..samples {
            s.push_sample(
                (Scalar(i as u32), Scalar(0)),
                Scalar(0),
                Scalar(1),
                Color { r: Scalar(0), g: Scalar(0), b: Scalar(0), a: Scalar(i as u32) },
            );
        }
        Operation::Stroke(s)
    };
    assert!(operation_eq(&stroke(1, 2), &stroke(1, 2)));
    assert!(!operation_eq(&stroke(1, 2), &stroke(1, 3)));
    assert!(!operation_eq(&stroke(1, 2), &stroke(2, 2)));
    assert!(operation_eq(&Operation::Tag("a".to_string()), &Operation::Tag("a".to_string())));
    assert!(!operation_eq(&Operation::Tag("a".to_string()), &Operation::Tag("b".to_string())));
    assert!(!operation_eq(&Operation::Output(0), &Operation::Output(1)));
    assert!(!operation_eq(&Operation::Output(0), &Operation::Tag("0".to_string())));
    assert!(operation_eq(
        &Operation::Composite(BlendMode::Mix(Scalar(5))),
        &Operation::Composite(BlendMode::Mix(Scalar(5)))
    ));
    assert!(!operation_eq(
        &Operation::Composite(BlendMode::Mix(Scalar(5))),
        &Operation::Composite(BlendMode::Mix(Scalar(6)))
    ));
}
