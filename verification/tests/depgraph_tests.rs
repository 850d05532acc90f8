use painter_core::depgraph::{node_lines_quoted, DepGraph};
use painter_core::id_map::{IncrId, OperationId};

fn id_of(name: &str) -> u64 {
    let names = ["A", "B", "Base", "C", "D", "New", "Newer"];
    names.iter().position(|n| *n == name).expect("unknown node name") as u64
}

#[test]
fn test_depends_on() {
    let mut d = DepGraph::default();

    d.insert(1, vec![2, 3]);
    d.insert(2, vec![3]);

    assert_eq!(d.depends_on(&1), Some(&vec![2, 3]));
    assert_eq!(d.depends_on(&2), Some(&vec![3]));
}

#[test]
fn test_dependees() {
    let mut d = DepGraph::default();

    d.insert(1, vec![2, 3]);
    d.insert(2, vec![3]);

    assert!(d.dependees(&2).contains(&1));
    assert!(d.dependees(&3).contains(&2));
    assert!(d.dependees(&3).contains(&1));
}

#[test]
fn test_dotfile() {
    let mut d = DepGraph::default();

    d.insert(1, vec![2, 3]);
    d.insert(2, vec![3]);

    println!("{}", d.generate_dotgraph(|x| format!("{:?}", x)))
}

#[test]
fn test_operate_on_simple() {
    let mut d = DepGraph::default();

    let a = id_of("A");
    let base = id_of("Base");
    let c = id_of("C");
    let new = id_of("New");

    d.insert(a, vec![base]);
    d.insert(base, vec![c]);
    d.insert(c, vec![]);

    d.operate_on(new, base);

    assert!(d.depends_on(&a).expect("Missing dep").contains(&new));
    assert!(d.depends_on(&new).expect("Missing dep").contains(&base));
    assert!(d.depends_on(&base).expect("Missing dep").contains(&c));
}

#[test]
fn test_operate_on_with_multi_deps() {
    let mut graph = DepGraph::default();

    let a = id_of("A");
    let b = id_of("B");
    let base = id_of("Base");
    let c = id_of("C");
    let d = id_of("D");
    let new = id_of("New");

    graph.insert(base, vec![c, d]);
    graph.insert(a, vec![base]);
    graph.insert(b, vec![base]);
    graph.insert(c, vec![]);
    graph.insert(d, vec![]);

    graph.operate_on(new, base);

    assert!(graph.depends_on(&base).expect("Missing Dep").contains(&c));
    assert!(graph.depends_on(&base).expect("Missing Dep").contains(&d));
    assert!(graph.depends_on(&new).expect("Missing Dep").contains(&base));
    assert!(graph.depends_on(&a).expect("Missing Dep").contains(&new));
    assert!(graph.depends_on(&b).expect("Missing Dep").contains(&new));

    // Parents no longer reference the base itself
    assert!(!graph.depends_on(&a).expect("Missing Dep").contains(&base));
    assert!(!graph.depends_on(&b).expect("Missing Dep").contains(&base));
}

#[test]
fn test_get_parents() {
    let mut d = DepGraph::default();
    let mut id_store = OperationId::default();
    let id1 = id_store.increment().val();
    let id2 = id_store.increment().val();
    let id3 = id_store.increment().val();

    d.insert_as_child(id1, id2);
    d.insert_as_child(id2, id3);

    assert!(d.get_parents(id2).contains(&id3));
    assert!(d.get_parents(id1).contains(&id2));
}

#[test]
fn test_insert_as_child() {
    let mut d = DepGraph::default();
    let mut id_store = OperationId::default();
    let id1 = id_store.increment().val();
    let id2 = id_store.increment().val();
    let id3 = id_store.increment().val();

    d.insert_as_child(id1, id2);
    d.insert_as_child(id2, id3);

    assert!(d.get_children(id2).contains(&id1));
    assert!(d.get_children(id3).contains(&id2));
}

#[test]
fn test_flip() {
    let mut d = DepGraph::default();
    let mut id_store = OperationId::default();
    let a = id_store.increment().val();
    let b = id_store.increment().val();
    let c = id_store.increment().val();

    d.insert_as_child(b, a);
    d.insert_as_child(c, b);

    assert!(d.get_children(a).contains(&b));
    assert!(d.get_children(b).contains(&c));

    let flipped = d.flip();
    assert!(flipped.get_children(b).contains(&a));
    assert!(flipped.get_children(c).contains(&b));
}

#[test]
fn test_get_children_recursive_breadth_first() {
    {
        let mut graph = DepGraph::default();
        let mut id_store = OperationId::default();
        let a = id_store.increment().val();
        let b = id_store.increment().val();
        let c = id_store.increment().val();
        let d = id_store.increment().val();

        // D <---- C <------ B <----- A
        graph.insert_as_child(b, a);
        graph.insert_as_child(c, b);
        graph.insert_as_child(d, c);

        let all_children = graph.get_children_recursive_breadth_first(a);

        assert_eq!(all_children, vec![b, c, d])
    }

    {
        let mut graph = DepGraph::default();
        let mut id_store = OperationId::default();
        let a = id_store.increment().val();
        let b = id_store.increment().val();
        let c = id_store.increment().val();
        let d = id_store.increment().val();
        let x = id_store.increment().val();
        let y = id_store.increment().val();

        // D <---- C <------ B <----- A
        //         X <------/
        //         Y <-----'
        graph.insert_as_child(b, a);
        graph.insert_as_child(c, b);
        graph.insert_as_child(d, c);
        graph.insert_as_child(x, b);
        graph.insert_as_child(y, b);

        let all_children = graph.get_children_recursive_breadth_first(a);

        assert_eq!(all_children, vec![b, c, x, y, d])
    }
}

#[test]
fn test_get_children_recursive_breadth_first_with_dependency_cycle() {
    let mut graph = DepGraph::default();
    let mut id_store = OperationId::default();
    let a = id_store.increment().val();
    let b = id_store.increment().val();
    let c = id_store.increment().val();
    let d = id_store.increment().val();

    graph.insert_as_child(b, a);
    graph.insert_as_child(c, b);
    graph.insert_as_child(d, c);
    graph.insert_as_child(b, c);

    let all_children = graph.get_children_recursive_breadth_first(a);

    assert!(all_children.contains(&b));
    assert!(all_children.contains(&c));
    assert!(all_children.contains(&d));
    assert!(!all_children.contains(&a));
}

#[test]
fn depgraph_test_operate_on_simple() {
    let mut d = DepGraph::default();

    let mut id_store = OperationId::default();
    let base_child = id_store.increment().val();
    let base = id_store.increment().val();
    let base_parent = id_store.increment().val();
    let new = id_store.increment().val();

    d.insert_as_child(base_child, base);
    d.insert_as_child(base, base_parent);

    d.operate_on(new, base);

    assert!(d.get_children(base).contains(&base_child));
    assert!(d.get_children(new).contains(&base));
    assert!(d.get_children(base_parent).contains(&new));
}

#[test]
fn depgraph_test_operate_on_with_multi_deps() {
    let mut d = DepGraph::default();
    let mut id_store = OperationId::default();

    let base_child1 = id_store.increment().val();
    let base_child2 = id_store.increment().val();
    let base = id_store.increment().val();
    let base_parent1 = id_store.increment().val();
    let base_parent2 = id_store.increment().val();
    let new = id_store.increment().val();

    d.insert_as_child(base_child1, base);
    d.insert_as_child(base_child2, base);
    d.insert_as_child(base, base_parent1);
    d.insert_as_child(base, base_parent2);

    d.operate_on(new, base);

    assert!(d.get_children(base).contains(&base_child1));
    assert!(d.get_children(base).contains(&base_child2));
    assert!(d.get_children(new).contains(&base));
    assert!(d.get_children(base_parent1).contains(&new));
    assert!(d.get_children(base_parent2).contains(&new));

    // Parents no longer reference the base itself
    assert!(!d.get_children(base_parent1).contains(&base));
    assert!(!d.get_children(base_parent2).contains(&base));
}

#[test]
fn insert_replaces_the_previous_list() {
    let mut d = DepGraph::new();
    d.insert(7, vec![1, 2]);
    d.insert(7, vec![3]);
    assert_eq!(d.depends_on(&7), Some(&vec![3]));
    assert!(d.contains(&7));
    assert!(!d.contains(&3));
    assert_eq!(d.depends_on(&3), None);
}

#[test]
fn dependees_are_listed_once_in_insertion_order() {
    let mut d = DepGraph::new();
    d.insert(5, vec![9, 9]);
    d.insert(4, vec![1]);
    d.insert(3, vec![2, 9]);
    assert_eq!(d.dependees(&9), vec![5, 3]);
    assert_eq!(d.dependees(&7), Vec::<u64>::new());
}

#[test]
fn operate_on_twice_gives_a_chain() {
    let mut d = DepGraph::new();
    let base = id_of("Base");
    let new = id_of("New");
    let newer = id_of("Newer");
    d.insert(base, vec![]);
    d.operate_on(new, base);
    assert_eq!(d.depends_on(&new), Some(&vec![base]));
    d.operate_on(newer, new);
    assert_eq!(d.depends_on(&newer), Some(&vec![new]));
    assert_eq!(d.depends_on(&new), Some(&vec![base]));
    assert_eq!(d.depends_on(&base), Some(&vec![]));
}

#[test]
fn operate_on_keeps_the_operand_slot() {
    let mut d = DepGraph::new();
    d.insert(1, vec![]);
    d.insert(2, vec![]);
    d.insert(10, vec![1, 2]);
    d.insert(11, vec![2, 1, 1]);
    d.insert(12, vec![2]);
    d.operate_on(3, 1);
    assert_eq!(d.depends_on(&10), Some(&vec![3, 2]));
    assert_eq!(d.depends_on(&11), Some(&vec![2, 3, 3]));
    assert_eq!(d.depends_on(&12), Some(&vec![2]));
    assert_eq!(d.depends_on(&3), Some(&vec![1]));
    assert_eq!(d.depends_on(&1), Some(&vec![]));
    assert_eq!(d.dependees(&1), vec![3]);
}

#[test]
fn traversal_is_breadth_first() {
    let mut graph = DepGraph::default();
    let mut id_store = OperationId::default();
    let a = id_store.increment().val();
    let b = id_store.increment().val();
    let c = id_store.increment().val();
    let d = id_store.increment().val();
    let e = id_store.increment().val();
    let f = id_store.increment().val();
    graph.insert_as_child(b, a);
    graph.insert_as_child(c, a);
    graph.insert_as_child(d, b);
    graph.insert_as_child(e, c);
    assert_eq!(graph.get_children_recursive_breadth_first(a), vec![b, c, d, e]);
    graph.insert_as_child(f, e);
    assert_eq!(graph.get_children_recursive_breadth_first(a), vec![b, c, d, e, f]);
    assert_eq!(graph.get_children_recursive_breadth_first(c), vec![e, f]);
}

#[test]
fn traversal_lists_each_node_once() {
    // Diamond: a over b and c, both over d.
    let mut graph = DepGraph::new();
    graph.insert(1, vec![2, 3]);
    graph.insert(2, vec![4]);
    graph.insert(3, vec![4, 4]);
    graph.insert(4, vec![]);
    assert_eq!(graph.get_children_recursive_breadth_first(1), vec![2, 3, 4]);
    assert_eq!(graph.get_children_recursive_breadth_first(4), Vec::<u64>::new());
    assert_eq!(graph.get_children_recursive_breadth_first(99), Vec::<u64>::new());
}

#[test]
fn traversal_lists_the_start_only_on_a_cycle() {
    let mut graph = DepGraph::new();
    graph.insert(1, vec![2]);
    graph.insert(2, vec![3, 1]);
    graph.insert(3, vec![2]);
    graph.insert(7, vec![1]);
    assert_eq!(graph.get_children_recursive_breadth_first(1), vec![2, 3, 1]);
    assert_eq!(graph.get_children_recursive_breadth_first(7), vec![1, 2, 3]);
}

#[test]
fn well_formedness_is_decided() {
    let mut graph = DepGraph::new();
    assert!(graph.is_wf());
    graph.insert(1, vec![2]);
    graph.insert(2, vec![]);
    assert!(graph.is_wf());
    graph.order.push(1);
    assert!(!graph.is_wf());
    graph.order.pop();
    graph.order.pop();
    assert!(!graph.is_wf());
    graph.order.push(3);
    assert!(!graph.is_wf());
    graph.order.pop();
    graph.order.push(2);
    assert!(graph.is_wf());
}

#[test]
fn node_lines_are_exact() {
    let text = node_lines_quoted(4, &vec![5, 6], &"<label>".to_string());
    assert_eq!(text, "    op_4 [label=<label>];\n    op_4 -> op_5;\n    op_4 -> op_6;\n");
}

#[test]
fn flip_lists_parent_once_per_edge() {
    let mut d = DepGraph::new();
    d.insert(1, vec![3, 3]);
    d.insert(2, vec![3]);
    d.insert(3, vec![]);
    let flipped = d.flip();
    assert_eq!(flipped.get_children(3), vec![1, 1, 2]);
    assert!(!flipped.contains(&1));
    assert!(!flipped.contains(&2));
}

#[test]
fn dotgraph_text_is_exact() {
    let mut d = DepGraph::new();
    d.insert(1, vec![2, 3]);
    d.insert(2, vec![]);
    let text = d.generate_dotgraph(|x| format!("n{}", x));
    let expected = "digraph depsgraph {\n    op_1 [label=\"n1\"];\n    op_1 -> op_2;\n    op_1 -> op_3;\n    op_2 [label=\"n2\"];\n}\n";
    assert_eq!(text, expected);
}

#[test]
fn dotgraph_labels_are_quoted_and_escaped() {
    let mut d = DepGraph::new();
    d.insert(12, vec![]);
    let labels = vec!["say \"hi\"".to_string()];
    let text = d.dotgraph_with_labels(&labels);
    assert_eq!(text, "digraph depsgraph {\n    op_12 [label=\"say \\\"hi\\\"\"];\n}\n");
}
