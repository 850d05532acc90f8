//! The persistent document: the entity stores, the operation graph and the
//! canvas metadata.

use crate::depgraph::DepGraph;
use crate::entities::Brush;
use crate::entities::Color;
use crate::entities::Glyph;
use crate::entities::Layer;
use crate::entities::Operation;
use crate::id_map::BrushId;
use crate::id_map::GlyphId;
use crate::id_map::IdMap;
use crate::id_map::IncrId;
use crate::id_map::LayerId;
use crate::id_map::OperationId;
use vstd::prelude::*;

verus! {

/// The store of brushes.
pub type BrushIdMap = IdMap<BrushId, Brush>;

/// The store of glyphs.
pub type GlyphIdMap = IdMap<GlyphId, Glyph>;

/// The store of layers.
pub type LayerIdMap = IdMap<LayerId, Layer>;

/// The store of operations.
pub type OperationIdMap = IdMap<OperationId, Operation>;

/// Canvas-wide settings.
#[derive(PartialEq, Eq, Debug, Clone)]
pub struct MetaData {
    /// Width and height of the preview canvas, in pixels.
    pub preview_canvas_size: [u32; 2],
    pub canvas_background_color: Color,
}

/// A document.
pub struct Image {
    pub brushes: BrushIdMap,
    pub glyphs: GlyphIdMap,
    pub operations: OperationIdMap,
    pub depgraph: DepGraph,
    pub layers: LayerIdMap,
    pub metadata: MetaData,
}

impl Image {
    /// The stores and the graph are well formed.
    pub open spec fn wf(&self) -> bool {
        &&& self.brushes.wf()
        &&& self.glyphs.wf()
        &&& self.operations.wf()
        &&& self.layers.wf()
        &&& self.depgraph.wf()
    }

    /// Whether the stores and the graph are well formed.
    pub fn is_wf(&self) -> (r: bool)
        ensures
            r == self.wf(),
    {
        self.brushes.is_wf() && self.glyphs.is_wf() && self.operations.is_wf()
            && self.layers.is_wf() && self.depgraph.is_wf()
    }

    /// Every node of the graph, and every dependency listed in it, is an
    /// operation of the document.
    pub open spec fn edges_resolve(&self) -> bool {
        forall|n: u64| #[trigger]
            self.depgraph@.contains_key(n) ==> {
                &&& self.operations@.contains_key(n)
                &&& forall|k: int|
                    0 <= k < self.depgraph@[n].len() ==> self.operations@.contains_key(
                        #[trigger] self.depgraph@[n][k],
                    )
            }
    }
}

/// Position `i` is the first in `order` whose operation is the output sink
/// number zero.
pub open spec fn first_output_at(operations: Map<u64, Operation>, order: Seq<u64>, i: int) -> bool {
    &&& 0 <= i < order.len()
    &&& operations[order[i]].spec_is_output(0)
    &&& forall|j: int| 0 <= j < i ==> !operations[#[trigger] order[j]].spec_is_output(0)
}

/// The render root: the first operation, in the order in which the
/// operations entered the store, that is the output sink number zero.
pub fn get_output_node(operations: &OperationIdMap) -> (r: Option<OperationId>)
    requires
        operations.wf(),
    ensures
        match r {
            Some(id) => exists|i: int|
                first_output_at(operations@, operations.ids(), i) && #[trigger] operations.order@[i]
                    == id,
            None => forall|j: int|
                0 <= j < operations.ids().len() ==> !operations@[#[trigger] operations.ids()[j]].spec_is_output(
                    0,
                ),
        },
{
    let mut i: usize = 0;
    while i < operations.order.len()
        invariant
            i <= operations.order.len(),
            operations.wf(),
            forall|j: int|
                0 <= j < i ==> !operations@[#[trigger] operations.ids()[j]].spec_is_output(0),
        decreases operations.order.len() - i,
    {
        let id = operations.order[i];
        assert(operations.ids()[i as int] == id.number());
        assert(operations.ids().contains(id.number()));
        let op = operations.get_unchecked(&id);
        if op.is_output(0) {
            assert(first_output_at(operations@, operations.ids(), i as int));
            return Some(id);
        }
        i = i + 1;
    }
    None
}

} // verus!
