//! The canonical initial document: a background layer, the canvas metadata
//! and a single output sink.

use crate::depgraph::DepGraph;
use crate::entities::BlendMode;
use crate::entities::Brush;
use crate::entities::Color;
use crate::entities::Glyph;
use crate::entities::Layer;
use crate::entities::Operation;
use crate::entities::PressureSettings;
use crate::entities::Scalar;
use crate::entities::SCALAR_HALF;
use crate::entities::SCALAR_ONE;
use crate::entities::SCALAR_ZERO;
use crate::id_map::BrushId;
use crate::id_map::GlyphId;
use crate::id_map::IdMap;
use crate::id_map::LayerId;
use crate::id_map::OperationId;
use crate::image::Image;
use crate::image::MetaData;
use vstd::prelude::*;
use vstd::string::StringExecFns;

verus! {

/// The pressure response from `min` to `max` without noise.
pub open spec fn steady(min: u32, max: u32) -> PressureSettings {
    PressureSettings {
        min_value: Scalar(min),
        max_value: Scalar(max),
        random: Scalar(SCALAR_ZERO),
    }
}

/// What the default document holds, given the encoded image of its one
/// brush tip.
///
/// Operations, in the order issued: the output sink `0`, the background
/// composite `1` at full opacity, and the bookmarks `2` ("CanvasBase") and
/// `3` ("BackgroundLayerStart"). The sink shows the composite, which blends
/// the layer start (underneath) with the canvas base (above). The one layer,
/// "Background", points at the composite. The one brush, "Spiral", draws
/// with glyph `0`.
pub open spec fn is_default_image(image: Image, spiral_png: Seq<u8>) -> bool {
    &&& image.wf()
    &&& image.edges_resolve()
    &&& image.operations@.dom() =~= set![0u64, 1u64, 2u64, 3u64]
    &&& image.operations.ids() == seq![0u64, 1u64, 2u64, 3u64]
    &&& image.operations.counter() == 4
    &&& image.operations.issued_only()
    &&& image.operations@[0].spec_is_output(0)
    &&& image.operations@[1].is_composite(BlendMode::Mix(Scalar(SCALAR_ONE)))
    &&& image.operations@[2].is_tag("CanvasBase"@)
    &&& image.operations@[3].is_tag("BackgroundLayerStart"@)
    &&& image.depgraph@ =~= map![
        3u64 => Seq::<u64>::empty(),
        2u64 => Seq::<u64>::empty(),
        0u64 => seq![1u64],
        1u64 => seq![3u64, 2u64],
    ]
    &&& image.depgraph.keys() == seq![3u64, 2u64, 0u64, 1u64]
    &&& image.layers@.dom() =~= set![0u64]
    &&& image.layers.counter() == 1
    &&& image.layers.issued_only()
    &&& image.layers@[0].name@ == "Background"@
    &&& image.layers@[0].blend_operation_id == OperationId(1)
    &&& image.glyphs@.dom() =~= set![0u64]
    &&& image.glyphs.counter() == 1
    &&& image.glyphs.issued_only()
    &&& (match image.glyphs@[0] {
        Glyph::Png(bytes) => bytes@ == spiral_png,
    })
    &&& image.brushes@.dom() =~= set![0u64]
    &&& image.brushes.counter() == 1
    &&& image.brushes.issued_only()
    &&& image.brushes@[0].name@ == "Spiral"@
    &&& image.brushes@[0].glyph == GlyphId(0)
    &&& image.brushes@[0].size == steady(SCALAR_ZERO, SCALAR_ONE)
    &&& image.brushes@[0].flow == steady(SCALAR_HALF, SCALAR_ONE)
    &&& image.brushes@[0].scatter == steady(SCALAR_ZERO, SCALAR_ZERO)
    &&& image.brushes@[0].gap == steady(SCALAR_ZERO, SCALAR_ZERO)
    &&& image.metadata.preview_canvas_size@ == seq![3840u32, 2160u32]
    &&& image.metadata.canvas_background_color == (Color {
        r: Scalar(SCALAR_ONE),
        g: Scalar(SCALAR_ONE),
        b: Scalar(SCALAR_ONE),
        a: Scalar(SCALAR_ONE),
    })
}

fn steady_response(min: u32, max: u32) -> (r: PressureSettings)
    ensures
        r == steady(min, max),
{
    PressureSettings {
        min_value: Scalar(min),
        max_value: Scalar(max),
        random: Scalar(SCALAR_ZERO),
    }
}

/// Builds the default document around the encoded image of its brush tip.
pub fn create_default_image(spiral_png: Vec<u8>) -> (image: Image)
    ensures
        is_default_image(image, spiral_png@),
{
    let ghost png = spiral_png@;
    let mut image = Image {
        brushes: IdMap::starting_at(BrushId(0)),
        operations: IdMap::starting_at(OperationId(0)),
        glyphs: IdMap::starting_at(GlyphId(0)),
        layers: IdMap::starting_at(LayerId(0)),
        depgraph: DepGraph::new(),
        metadata: MetaData {
            preview_canvas_size: [3840, 2160],
            canvas_background_color: Color {
                r: Scalar(SCALAR_ONE),
                g: Scalar(SCALAR_ONE),
                b: Scalar(SCALAR_ONE),
                a: Scalar(SCALAR_ONE),
            },
        },
    };
    let output_op_id = image.operations.insert(Operation::Output(0));
    let background_blend_op_id = image.operations.insert(
        Operation::Composite(BlendMode::Mix(Scalar(SCALAR_ONE))),
    );
    image.layers.insert(
        Layer { name: String::from_str("Background"), blend_operation_id: background_blend_op_id },
    );
    let canvas_base = image.operations.insert(Operation::Tag(String::from_str("CanvasBase")));
    let background_layer_start = image.operations.insert(
        Operation::Tag(String::from_str("BackgroundLayerStart")),
    );

    image.depgraph.insert(background_layer_start.0, Vec::new());
    image.depgraph.insert(canvas_base.0, Vec::new());
    let mut shown: Vec<u64> = Vec::new();
    shown.push(background_blend_op_id.0);
    assert(shown@ =~= seq![1u64]);
    image.depgraph.insert(output_op_id.0, shown);
    let mut blended: Vec<u64> = Vec::new();
    blended.push(background_layer_start.0);
    blended.push(canvas_base.0);
    assert(blended@ =~= seq![3u64, 2u64]);
    image.depgraph.insert(background_blend_op_id.0, blended);

    let glyph = image.glyphs.insert(Glyph::Png(spiral_png));
    image.brushes.insert(
        Brush {
            name: String::from_str("Spiral"),
            glyph,
            size: steady_response(SCALAR_ZERO, SCALAR_ONE),
            flow: steady_response(SCALAR_HALF, SCALAR_ONE),
            scatter: steady_response(SCALAR_ZERO, SCALAR_ZERO),
            gap: steady_response(SCALAR_ZERO, SCALAR_ZERO),
        },
    );
    proof {
        assert(image.operations@.dom() =~= set![0u64, 1u64, 2u64, 3u64]);
        assert(image.operations.ids() =~= seq![0u64, 1u64, 2u64, 3u64]);
        assert(image.depgraph@ =~= map![
            3u64 => Seq::<u64>::empty(),
            2u64 => Seq::<u64>::empty(),
            0u64 => seq![1u64],
            1u64 => seq![3u64, 2u64],
        ]);
        assert(image.depgraph.keys() =~= seq![3u64, 2u64, 0u64, 1u64]);
        assert(image.layers@.dom() =~= set![0u64]);
        assert(image.glyphs@.dom() =~= set![0u64]);
        assert(image.brushes@.dom() =~= set![0u64]);
        assert(image.metadata.preview_canvas_size@ =~= seq![3840u32, 2160u32]);
        assert(image.edges_resolve()) by {
            assert forall|n: u64| #[trigger] image.depgraph@.contains_key(n) implies {
                &&& image.operations@.contains_key(n)
                &&& forall|k: int|
                    0 <= k < image.depgraph@[n].len() ==> image.operations@.contains_key(
                        #[trigger] image.depgraph@[n][k],
                    )
            } by {}
        }
    }
    image
}

} // verus!
