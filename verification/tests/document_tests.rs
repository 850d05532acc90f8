use painter_core::cached_operation_graph::operation_eq;
use painter_core::codec::{load_from_reader, write_into, PainterDataError};
use painter_core::context::{operation_label, CanvasTransform, EditContext};
use painter_core::entities::{
    BlendMode, Color, Glyph, Operation, Scalar, StrokeData, SCALAR_HALF, SCALAR_ONE, SCALAR_ZERO,
};
use painter_core::execution_order::compute_execution;
use painter_core::executor::debug_executor;
use painter_core::id_map::{GlyphId, IdMap, IncrId, LayerId, OperationId};
use painter_core::image::{get_output_node, OperationIdMap};
use painter_core::template::create_default_image;
use painter_core::text::decimal_string;
use std::collections::HashMap;

#[test]
fn test_get_output_node() {
    let mut map: OperationIdMap = IdMap::starting_at(OperationId::default());
    let out_node_id = map.insert(Operation::Output(0));
    map.insert(Operation::Tag("test".to_string()));
    assert!(get_output_node(&map) == Some(out_node_id));

    let mut map: OperationIdMap = IdMap::starting_at(OperationId::default());
    map.insert(Operation::Tag("test1".to_string()));
    map.insert(Operation::Tag("test2".to_string()));
    let out_node_id = map.insert(Operation::Output(0));
    map.insert(Operation::Tag("test3".to_string()));
    assert!(get_output_node(&map) == Some(out_node_id));
}

#[test]
fn output_node_is_the_first_sink_zero() {
    let mut map: OperationIdMap = IdMap::starting_at(OperationId::default());
    assert_eq!(get_output_node(&map), None);
    map.insert(Operation::Output(1));
    assert_eq!(get_output_node(&map), None);
    let first = map.insert(Operation::Output(0));
    map.insert(Operation::Output(0));
    assert_eq!(get_output_node(&map), Some(first));
}

#[test]
fn id_map_issues_the_counter_value() {
    let mut map: IdMap<LayerId, u32> = IdMap::starting_at(LayerId::default());
    let a = map.insert(10);
    let b = map.insert(20);
    assert_eq!(a, LayerId(0));
    assert_eq!(b, LayerId(1));
    assert_eq!(map.get(&a), Some(&10));
    assert_eq!(map.get(&b), Some(&20));
    assert_eq!(map.get(&LayerId(2)), None);
    assert_eq!(map.list_ids(), vec![a, b]);
}

#[test]
fn issued_id_stays_until_overwritten() {
    let mut map: IdMap<LayerId, u32> = IdMap::starting_at(LayerId::default());
    let a = map.insert(10);
    let b = map.insert(20);
    map.alter(b, 21);
    map.force(LayerId(9), 90);
    let c = map.insert(30);
    assert_eq!(c, LayerId(2));
    assert_eq!(map.get(&a), Some(&10));
    assert_eq!(*map.get_unchecked(&b), 21);
    assert_eq!(map.get(&LayerId(9)), Some(&90));
    map.force(a, 11);
    assert_eq!(map.get(&a), Some(&11));
    assert_eq!(map.list_ids(), vec![a, b, LayerId(9), c]);
}

#[test]
fn increment_returns_the_previous_value() {
    let mut id = GlyphId::default();
    assert_eq!(id.val(), 0);
    let first = id.increment();
    assert_eq!(first.val(), 0);
    assert_eq!(id.val(), 1);
}

#[test]
fn template_holds_the_default_document() {
    let image = create_default_image(vec![1, 2, 3]);
    assert_eq!(image.operations.get(&OperationId(0)), Some(&Operation::Output(0)));
    assert_eq!(
        image.operations.get(&OperationId(1)),
        Some(&Operation::Composite(BlendMode::Mix(Scalar(SCALAR_ONE))))
    );
    assert_eq!(
        image.operations.get(&OperationId(2)),
        Some(&Operation::Tag("CanvasBase".to_string()))
    );
    assert_eq!(
        image.operations.get(&OperationId(3)),
        Some(&Operation::Tag("BackgroundLayerStart".to_string()))
    );
    assert_eq!(image.operations.get(&OperationId(4)), None);
    assert_eq!(image.depgraph.depends_on(&0), Some(&vec![1]));
    assert_eq!(image.depgraph.depends_on(&1), Some(&vec![3, 2]));
    assert_eq!(image.depgraph.depends_on(&2), Some(&vec![]));
    assert_eq!(image.depgraph.depends_on(&3), Some(&vec![]));
    let layer = image.layers.get(&LayerId(0)).expect("background layer");
    assert_eq!(layer.name, "Background");
    assert_eq!(layer.blend_operation_id, OperationId(1));
    assert_eq!(image.glyphs.get(&GlyphId(0)), Some(&Glyph::Png(vec![1, 2, 3])));
    let brush = image.brushes.list_ids();
    assert_eq!(brush.len(), 1);
    let spiral = image.brushes.get(&brush[0]).expect("spiral brush");
    assert_eq!(spiral.name, "Spiral");
    assert_eq!(spiral.glyph, GlyphId(0));
    assert_eq!(spiral.flow.min_value, Scalar(SCALAR_HALF));
    assert_eq!(spiral.flow.max_value, Scalar(SCALAR_ONE));
    assert_eq!(spiral.gap.max_value, Scalar(SCALAR_ZERO));
    assert_eq!(image.metadata.preview_canvas_size, [1920 * 2, 1080 * 2]);
    assert_eq!(image.metadata.canvas_background_color.a, Scalar(SCALAR_ONE));
    assert_eq!(get_output_node(&image.operations), Some(OperationId(0)));
}

#[test]
fn scalar_constants_are_the_bit_patterns() {
    assert_eq!(SCALAR_ZERO, 0.0f32.to_bits());
    assert_eq!(SCALAR_HALF, 0.5f32.to_bits());
    assert_eq!(SCALAR_ONE, 1.0f32.to_bits());
}

#[test]
fn select_layer_then_insert_grafts_above_the_tip() {
    let mut context = EditContext::new(vec![]);
    assert_eq!(context.insert_operation_onto, None);
    context.select_layer(LayerId(0));
    assert_eq!(context.insert_operation_onto, Some(OperationId(3)));

    let stroke = StrokeData::new(
        Scalar(SCALAR_HALF),
        context.color,
        GlyphId(0),
        BlendMode::Mix(Scalar(SCALAR_ONE)),
    );
    let first = context.insert_operation(Operation::Stroke(stroke.clone()));
    assert_eq!(first, OperationId(4));
    assert_eq!(context.insert_operation_onto, Some(first));
    assert_eq!(context.image.depgraph.depends_on(&4), Some(&vec![3]));
    assert_eq!(context.image.depgraph.depends_on(&1), Some(&vec![4, 2]));

    let second = context.insert_operation(Operation::Stroke(stroke));
    assert_eq!(second, OperationId(5));
    assert_eq!(context.image.depgraph.depends_on(&5), Some(&vec![4]));
    assert_eq!(context.image.depgraph.depends_on(&4), Some(&vec![3]));
    assert_eq!(context.image.depgraph.depends_on(&1), Some(&vec![5, 2]));
    assert_eq!(context.image.depgraph.depends_on(&0), Some(&vec![1]));
}

#[test]
fn insert_without_insertion_point_leaves_the_graph() {
    let mut context = EditContext::new(vec![]);
    let id = context.insert_operation(Operation::Tag("orphan".to_string()));
    assert_eq!(id, OperationId(4));
    assert!(!context.image.depgraph.contains(&4));
    assert_eq!(context.insert_operation_onto, None);
    assert_eq!(
        context.image.operations.get(&id),
        Some(&Operation::Tag("orphan".to_string()))
    );
}

#[test]
fn malformed_layer_composite_clears_the_insertion_point() {
    let mut context = EditContext::new(vec![]);
    context.select_layer(LayerId(0));
    assert!(context.insert_operation_onto.is_some());
    context.image.depgraph.insert(1, vec![3]);
    context.select_layer(LayerId(0));
    assert_eq!(context.insert_operation_onto, None);
}

#[test]
fn context_setters_store_what_they_are_given() {
    let mut context = EditContext::new(vec![]);
    assert_eq!(
        context.color,
        Color {
            r: Scalar(SCALAR_ZERO),
            g: Scalar(SCALAR_ZERO),
            b: Scalar(SCALAR_ONE),
            a: Scalar(SCALAR_ONE)
        }
    );
    assert_eq!(context.canvas_transform, CanvasTransform::default());
    context.set_primary_color(Scalar(1), Scalar(2), Scalar(3), Scalar(4));
    assert_eq!(context.color, Color { r: Scalar(1), g: Scalar(2), b: Scalar(3), a: Scalar(4) });
    context.manipulate_canvas(Scalar(5), Scalar(6), [Scalar(7), Scalar(8)]);
    assert_eq!(
        context.canvas_transform,
        CanvasTransform::new(Scalar(5), Scalar(6), [Scalar(7), Scalar(8)])
    );
}

#[test]
fn edited_document_schedules_and_runs() {
    let mut context = EditContext::new(vec![]);
    context.select_layer(LayerId(0));
    for _ in 0..5 {
        context.insert_operation(Operation::Tag("step".to_string()));
    }
    let root = get_output_node(&context.image.operations).expect("No Output Node");
    let stages = compute_execution(&context.image.depgraph, vec![root.val()], 10)
        .expect("Computing order of operation failed");
    assert_eq!(stages.len(), 9);
    assert_eq!(stages.last().expect("stages").operation.0.id, root.val());
    assert_eq!(debug_executor(stages, 10), Ok(()));
}

#[test]
fn context_dotgraph_labels_operations_by_kind() {
    let context = EditContext::new(vec![]);
    let text = context.generate_dotgraph();
    let expected = "digraph depsgraph {\n    op_3 [label=\"Operation 3 Tag(BackgroundLayerStart)\"];\n    op_2 [label=\"Operation 2 Tag(CanvasBase)\"];\n    op_0 [label=\"Operation 0 Output(0)\"];\n    op_0 -> op_1;\n    op_1 [label=\"Operation 1 Composite\"];\n    op_1 -> op_3;\n    op_1 -> op_2;\n}\n";
    assert_eq!(text, expected);
}

#[test]
fn operation_labels_are_exact() {
    let stroke = StrokeData::new(
        Scalar(0),
        Color { r: Scalar(0), g: Scalar(0), b: Scalar(0), a: Scalar(0) },
        GlyphId(0),
        BlendMode::Mix(Scalar(0)),
    );
    assert_eq!(operation_label(12, &Operation::Stroke(stroke)), "Operation 12 Stroke");
    assert_eq!(operation_label(0, &Operation::Output(40)), "Operation 0 Output(40)");
    assert_eq!(operation_label(7, &Operation::Tag("x y".to_string())), "Operation 7 Tag(x y)");
}

#[test]
fn stroke_samples_stay_parallel() {
    let mut stroke = StrokeData::new(
        Scalar(SCALAR_ONE),
        Color { r: Scalar(0), g: Scalar(0), b: Scalar(0), a: Scalar(0) },
        GlyphId(3),
        BlendMode::Mix(Scalar(SCALAR_ONE)),
    );
    let white = Color {
        r: Scalar(SCALAR_ONE),
        g: Scalar(SCALAR_ONE),
        b: Scalar(SCALAR_ONE),
        a: Scalar(SCALAR_HALF),
    };
    stroke.push_sample((Scalar(1), Scalar(2)), Scalar(0), Scalar(9), white);
    stroke.push_sample((Scalar(3), Scalar(4)), Scalar(0), Scalar(8), white);
    assert_eq!(stroke.position_array, vec![(Scalar(1), Scalar(2)), (Scalar(3), Scalar(4))]);
    assert_eq!(stroke.angle_array.len(), 2);
    assert_eq!(stroke.size_array, vec![Scalar(9), Scalar(8)]);
    assert_eq!(stroke.color_array, vec![white, white]);
    assert_eq!(Operation::Stroke(stroke).arity(), 1);
    assert_eq!(Operation::Composite(BlendMode::Mix(Scalar(0))).arity(), 2);
    assert_eq!(Operation::Output(0).arity(), 1);
    assert_eq!(Operation::Tag(String::new()).arity(), 1);
}

#[test]
fn decimal_numerals_are_exact() {
    assert_eq!(decimal_string(0), "0");
    assert_eq!(decimal_string(9), "9");
    assert_eq!(decimal_string(10), "10");
    assert_eq!(decimal_string(1234567890), "1234567890");
    assert_eq!(decimal_string(u64::MAX), "18446744073709551615");
}

#[test]
fn container_layout_is_exact() {
    let mut out = vec![0xAA];
    write_into(&vec![9, 8, 7], &mut out);
    let mut expected = vec![0xAA];
    expected.extend_from_slice(b"PAINTER_SVEG");
    expected.extend_from_slice(&[1, 0, 0, 0]);
    expected.extend_from_slice(&[9, 8, 7]);
    assert_eq!(out, expected);
}

#[test]
fn container_errors_are_told_apart() {
    assert_eq!(load_from_reader(&b"PAINTER".to_vec()), Err(PainterDataError::ReadError));
    assert_eq!(
        load_from_reader(&b"PAINTER_SVEH\x01\x00\x00\x00".to_vec()),
        Err(PainterDataError::InvalidMagicString)
    );
    assert_eq!(
        load_from_reader(&b"PAINTER_SVEG\x01\x00".to_vec()),
        Err(PainterDataError::ReadError)
    );
    assert_eq!(
        load_from_reader(&b"PAINTER_SVEG\x02\x01\x00\x00".to_vec()),
        Err(PainterDataError::UnknownVersion(258))
    );
    assert_eq!(
        load_from_reader(&b"PAINTER_SVEG\x00\x00\x00\x80".to_vec()),
        Err(PainterDataError::UnknownVersion(0x8000_0000))
    );
    assert_eq!(load_from_reader(&b"PAINTER_SVEG\x01\x00\x00\x00".to_vec()), Ok(vec![]));
    assert_eq!(load_from_reader(&b"PAINTER_SVEG\x01\x00\x00\x00ab".to_vec()), Ok(b"ab".to_vec()));
}

/// An operation without strokes as plain values: kind, number, text.
fn plain(operation: &Operation) -> (u8, u32, String) {
    match operation {
        Operation::Stroke(_) => (0, 0, String::new()),
        Operation::Composite(BlendMode::Mix(opacity)) => (1, opacity.0, String::new()),
        Operation::Output(index) => (2, *index, String::new()),
        Operation::Tag(name) => (3, 0, name.clone()),
    }
}

fn from_plain(value: &(u8, u32, String)) -> Operation {
    match value.0 {
        1 => Operation::Composite(BlendMode::Mix(Scalar(value.1))),
        2 => Operation::Output(value.1),
        _ => Operation::Tag(value.2.clone()),
    }
}

#[test]
fn template_round_trips_through_the_container() {
    let image = create_default_image(vec![4, 5, 6]);
    let mut graph: HashMap<u64, Vec<u64>> = HashMap::new();
    for node in image.depgraph.order.iter() {
        graph.insert(*node, image.depgraph.get_children(*node));
    }
    let operations: Vec<(u64, (u8, u32, String))> = image
        .operations
        .list_ids()
        .iter()
        .map(|id| (id.val(), plain(image.operations.get_unchecked(id))))
        .collect();
    let document =
        (graph, operations, image.operations.id.val(), image.metadata.preview_canvas_size);

    let payload = bincode::serialize(&document).expect("encodes");
    let mut file = Vec::new();
    write_into(&payload, &mut file);
    let read = load_from_reader(&file).expect("a container in the current version");
    assert_eq!(read, payload);
    let loaded: (HashMap<u64, Vec<u64>>, Vec<(u64, (u8, u32, String))>, u64, [u32; 2]) =
        bincode::deserialize(&read).expect("decodes");
    assert_eq!(loaded, document);

    // The operations come back as the same multiset.
    let mut restored: OperationIdMap = IdMap::starting_at(OperationId(loaded.2));
    for (id, value) in loaded.1.iter() {
        restored.force(OperationId(*id), from_plain(value));
    }
    let mut before = image.operations.list_ids();
    let mut after = restored.list_ids();
    before.sort();
    after.sort();
    assert_eq!(before, after);
    for id in before.iter() {
        assert!(operation_eq(image.operations.get_unchecked(id), restored.get_unchecked(id)));
    }
    assert_eq!(restored.id, OperationId(4));
    for node in image.depgraph.order.iter() {
        assert_eq!(loaded.0.get(node), image.depgraph.depends_on(node));
    }
}

#[test]
fn store_well_formedness_is_decided() {
    let mut map: IdMap<LayerId, u32> = IdMap::starting_at(LayerId::default());
    assert!(map.is_wf());
    let a = map.insert(1);
    map.force(LayerId(5), 2);
    assert!(map.is_wf());
    map.order.push(a);
    assert!(!map.is_wf());
    map.order.pop();
    map.order.pop();
    assert!(!map.is_wf());
    map.order.push(LayerId(6));
    assert!(!map.is_wf());
    let image = create_default_image(vec![]);
    assert!(image.is_wf());
}

#[test]
fn earlier_operations_keep_their_values() {
    let mut context = EditContext::new(vec![]);
    let n = context.insert_operation(Operation::Tag("first".to_string()));
    context.select_layer(LayerId(0));
    let m = context.insert_operation(Operation::Output(3));
    context.select_layer(LayerId(0));
    let k = context.insert_operation(Operation::Tag("third".to_string()));
    assert!(n != m && m != k && n != k);
    assert_eq!(context.image.operations.get(&n), Some(&Operation::Tag("first".to_string())));
    assert_eq!(context.image.operations.get(&m), Some(&Operation::Output(3)));
    assert_eq!(context.image.operations.get(&k), Some(&Operation::Tag("third".to_string())));
    assert_eq!(context.image.operations.get(&OperationId(0)), Some(&Operation::Output(0)));
    assert!(context.image.is_wf());
}
