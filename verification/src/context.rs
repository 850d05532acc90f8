//! The mutation facade of a document: where the next operation is grafted,
//! how the canvas is seen, and the color in use.

use crate::depgraph::dot_text;
use crate::depgraph::operate_on_spec;
use crate::entities::Color;
use crate::entities::Operation;
use crate::entities::Scalar;
use crate::entities::SCALAR_ONE;
use crate::entities::SCALAR_ZERO;
use crate::id_map::LayerId;
use crate::id_map::OperationId;
use crate::image::Image;
use crate::soundness::closed;
use crate::template::create_default_image;
use crate::template::is_default_image;
use crate::text::decimal;
use crate::text::decimal_string;
use crate::text::texts;
use vstd::prelude::*;
use vstd::string::StringExecFns;

verus! {

/// How the canvas is placed on the screen: zoom, rotation angle and
/// translation.
#[derive(PartialEq, Eq, Debug, Clone)]
pub struct CanvasTransform {
    pub zoom: Scalar,
    pub angle: Scalar,
    pub translation: [Scalar; 2],
}

impl CanvasTransform {
    pub fn new(zoom: Scalar, angle: Scalar, translation: [Scalar; 2]) -> (r: Self)
        ensures
            r.zoom == zoom,
            r.angle == angle,
            r.translation == translation,
    {
        CanvasTransform { zoom, angle, translation }
    }

    /// The transform that leaves the canvas as it is.
    pub open spec fn is_identity(&self) -> bool {
        &&& self.zoom == Scalar(SCALAR_ONE)
        &&& self.angle == Scalar(SCALAR_ZERO)
        &&& self.translation@ == seq![Scalar(SCALAR_ZERO), Scalar(SCALAR_ZERO)]
    }
}

impl Default for CanvasTransform {
    fn default() -> (r: Self)
        ensures
            r.is_identity(),
    {
        let r = CanvasTransform {
            zoom: Scalar(SCALAR_ONE),
            angle: Scalar(SCALAR_ZERO),
            translation: [Scalar(SCALAR_ZERO), Scalar(SCALAR_ZERO)],
        };
        assert(r.translation@ =~= seq![Scalar(SCALAR_ZERO), Scalar(SCALAR_ZERO)]);
        r
    }
}

/// An editing session on a document.
pub struct EditContext {
    pub image: Image,
    /// The tip onto which the next operation is grafted, if one is chosen.
    pub insert_operation_onto: Option<OperationId>,
    pub color: Color,
    pub canvas_transform: CanvasTransform,
}

/// The primary color of a new session: opaque blue.
pub open spec fn initial_color() -> Color {
    Color {
        r: Scalar(SCALAR_ZERO),
        g: Scalar(SCALAR_ZERO),
        b: Scalar(SCALAR_ONE),
        a: Scalar(SCALAR_ONE),
    }
}

impl EditContext {
    /// The session can go on editing: the document is well formed and has
    /// issued every operation it holds; every node of the graph is an
    /// operation, every dependency listed is a node, and so is the composite
    /// of every layer; and the insertion point, if one is set, is a node.
    pub open spec fn ready(&self) -> bool {
        &&& self.image.wf()
        &&& self.image.operations.issued_only()
        &&& self.image.edges_resolve()
        &&& closed(self.image.depgraph@)
        &&& forall|l: u64| #[trigger]
            self.image.layers@.contains_key(l) ==> self.image.depgraph@.contains_key(
                self.image.layers@[l].blend_operation_id.0,
            )
        &&& (self.insert_operation_onto.is_some() ==> self.image.depgraph@.contains_key(
            self.insert_operation_onto.unwrap().0,
        ))
    }

    /// A session on `image`, with no insertion point, the initial color and
    /// the canvas untransformed.
    pub fn new_with_image(image: Image) -> (r: Self)
        ensures
            r.image == image,
            r.insert_operation_onto.is_none(),
            r.color == initial_color(),
            r.canvas_transform.is_identity(),
    {
        EditContext {
            image,
            insert_operation_onto: None,
            color: Color {
                r: Scalar(SCALAR_ZERO),
                g: Scalar(SCALAR_ZERO),
                b: Scalar(SCALAR_ONE),
                a: Scalar(SCALAR_ONE),
            },
            canvas_transform: CanvasTransform::default(),
        }
    }

    /// A session on the default document, whose one brush tip is the given
    /// encoded image.
    pub fn new(spiral_png: Vec<u8>) -> (r: Self)
        ensures
            is_default_image(r.image, spiral_png@),
            r.insert_operation_onto.is_none(),
            r.color == initial_color(),
            r.canvas_transform.is_identity(),
            r.ready(),
    {
        let r = Self::new_with_image(create_default_image(spiral_png));
        proof {
            let g = r.image.depgraph@;
            assert(closed(g)) by {
                assert forall|k: u64, i: int|
                    g.contains_key(k) && 0 <= i < g[k].len() implies g.contains_key(
                    #[trigger] g[k][i],
                ) by {}
            }
        }
        r
    }

    /// Stores `operation` under a fresh identifier. With an insertion point
    /// set, the new operation is spliced above it and becomes the insertion
    /// point; without one, the operation stays outside the graph.
    pub fn insert_operation(&mut self, operation: Operation) -> (id: OperationId)
        requires
            old(self).image.wf(),
            old(self).image.operations.counter() < u64::MAX,
            !old(self).image.operations@.contains_key(old(self).image.operations.counter()),
            old(self).insert_operation_onto.is_some() ==> {
                &&& old(self).image.depgraph@.contains_key(
                    old(self).insert_operation_onto.unwrap().0,
                )
                &&& !old(self).image.depgraph@.contains_key(old(self).image.operations.counter())
            },
        ensures
            final(self).image.wf(),
            id.0 == old(self).image.operations.counter(),
            final(self).image.operations.counter() == id.0 + 1,
            final(self).image.operations@ == old(self).image.operations@.insert(id.0, operation),
            old(self).image.operations.issued_only() ==> final(self).image.operations.issued_only(),
            old(self).image.edges_resolve() ==> final(self).image.edges_resolve(),
            old(self).ready() ==> final(self).ready(),
            forall|n: u64| #[trigger]
                old(self).image.operations@.contains_key(n) ==> n != id.0
                    && final(self).image.operations@.contains_key(n)
                    && final(self).image.operations@[n] == old(self).image.operations@[n],
            final(self).image.operations@.contains_key(id.0),
            final(self).image.operations@[id.0] == operation,
            match old(self).insert_operation_onto {
                Some(onto) => {
                    &&& final(self).image.depgraph@ == operate_on_spec(
                        old(self).image.depgraph@,
                        id.0,
                        onto.0,
                    )
                    &&& final(self).image.depgraph.keys() == old(self).image.depgraph.keys().push(
                        id.0,
                    )
                    &&& final(self).insert_operation_onto == Some(id)
                },
                None => {
                    &&& final(self).image.depgraph == old(self).image.depgraph
                    &&& final(self).insert_operation_onto.is_none()
                },
            },
            final(self).image.brushes == old(self).image.brushes,
            final(self).image.glyphs == old(self).image.glyphs,
            final(self).image.layers == old(self).image.layers,
            final(self).image.metadata == old(self).image.metadata,
            final(self).color == old(self).color,
            final(self).canvas_transform == old(self).canvas_transform,
    {
        let new_op_id = self.image.operations.insert(operation);
        match self.insert_operation_onto {
            Some(op_onto) => {
                self.image.depgraph.operate_on(new_op_id.0, op_onto.0);
                self.insert_operation_onto = Some(new_op_id);
                proof {
                    if closed(old(self).image.depgraph@) {
                        lemma_spliced_closed(old(self).image.depgraph@, new_op_id.0, op_onto.0);
                    }
                    if old(self).image.edges_resolve() {
                        lemma_spliced_edges_resolve(
                            old(self).image.depgraph@,
                            old(self).image.operations@,
                            operation,
                            new_op_id.0,
                            op_onto.0,
                        );
                    }
                }
            },
            None => {},
        }
        new_op_id
    }

    /// Makes the local tip of a layer the insertion point: the first
    /// dependency of the layer's composite. A composite that does not have
    /// exactly two dependencies clears the insertion point.
    pub fn select_layer(&mut self, layer_id: LayerId)
        requires
            old(self).image.layers@.contains_key(layer_id.0),
            old(self).image.depgraph@.contains_key(
                old(self).image.layers@[layer_id.0].blend_operation_id.0,
            ),
        ensures
            final(self).image == old(self).image,
            final(self).color == old(self).color,
            final(self).canvas_transform == old(self).canvas_transform,
            final(self).insert_operation_onto == layer_tip(
                old(self).image.depgraph@[old(self).image.layers@[layer_id.0].blend_operation_id.0],
            ),
            old(self).ready() ==> final(self).ready(),
    {
        let layer_blend_op_id = self.image.layers.get_unchecked(&layer_id).blend_operation_id;
        let tip = match self.image.depgraph.depends_on(&layer_blend_op_id.0) {
            Some(layer_existing_tips) => {
                if layer_existing_tips.len() != 2 {
                    None
                } else {
                    Some(OperationId(layer_existing_tips[0]))
                }
            },
            None => None,
        };
        self.insert_operation_onto = tip;
    }

    /// Sets how the canvas is placed on the screen.
    pub fn manipulate_canvas(&mut self, zoom: Scalar, angle: Scalar, translation: [Scalar; 2])
        ensures
            final(self).canvas_transform.zoom == zoom,
            final(self).canvas_transform.angle == angle,
            final(self).canvas_transform.translation == translation,
            final(self).image == old(self).image,
            final(self).color == old(self).color,
            final(self).insert_operation_onto == old(self).insert_operation_onto,
    {
        self.canvas_transform.zoom = zoom;
        self.canvas_transform.angle = angle;
        self.canvas_transform.translation = translation;
    }

    /// Sets the color that the tools draw with.
    pub fn set_primary_color(&mut self, r: Scalar, g: Scalar, b: Scalar, a: Scalar)
        ensures
            final(self).color == (Color { r, g, b, a }),
            final(self).image == old(self).image,
            final(self).canvas_transform == old(self).canvas_transform,
            final(self).insert_operation_onto == old(self).insert_operation_onto,
    {
        self.color.r = r;
        self.color.g = g;
        self.color.b = b;
        self.color.a = a;
    }
}

/// The insertion point that a layer composite with the dependencies `deps`
/// gives: its first dependency, if it has exactly two.
pub open spec fn layer_tip(deps: Seq<u64>) -> Option<OperationId> {
    if deps.len() == 2 {
        Some(OperationId(deps[0]))
    } else {
        None
    }
}

/// The label of an operation in the graph description: its number and its
/// kind, with the name of a bookmark and the index of an output sink.
pub open spec fn label_text(id: u64, operation: Operation) -> Seq<char> {
    "Operation "@ + decimal(id as nat) + match operation {
        Operation::Composite(_) => " Composite"@,
        Operation::Tag(name) => " Tag("@ + name@ + ")"@,
        Operation::Output(index) => " Output("@ + decimal(index as nat) + ")"@,
        Operation::Stroke(_) => " Stroke"@,
    }
}

/// The label of an operation in the graph description.
pub fn operation_label(id: u64, operation: &Operation) -> (r: String)
    ensures
        r@ == label_text(id, *operation),
{
    let mut out = String::from_str("Operation ");
    let digits = decimal_string(id);
    out.append(digits.as_str());
    match operation {
        Operation::Composite(_) => {
            out.append(" Composite");
        },
        Operation::Tag(name) => {
            out.append(" Tag(");
            out.append(name.as_str());
            out.append(")");
            assert(out@ =~= label_text(id, *operation));
        },
        Operation::Output(index) => {
            let n = decimal_string(*index as u64);
            out.append(" Output(");
            out.append(n.as_str());
            out.append(")");
            assert(out@ =~= label_text(id, *operation));
        },
        Operation::Stroke(_) => {
            out.append(" Stroke");
        },
    }
    out
}

/// The labels of the nodes of `order`.
pub open spec fn labels_of(operations: Map<u64, Operation>, order: Seq<u64>) -> Seq<Seq<char>> {
    Seq::new(order.len(), |i: int| label_text(order[i], operations[order[i]]))
}

impl EditContext {
    /// Describes the operation graph in the DOT language, each node
    /// labelled with its operation.
    pub fn generate_dotgraph(&self) -> (r: String)
        requires
            self.image.depgraph.wf(),
            forall|k: u64| #[trigger]
                self.image.depgraph@.contains_key(k) ==> self.image.operations@.contains_key(k),
        ensures
            r@ == dot_text(
                self.image.depgraph@,
                self.image.depgraph.keys(),
                labels_of(self.image.operations@, self.image.depgraph.keys()),
            ),
    {
        let mut labels: Vec<String> = Vec::new();
        let mut i: usize = 0;
        let order = &self.image.depgraph.order;
        while i < order.len()
            invariant
                i <= order.len(),
                order == &self.image.depgraph.order,
                self.image.depgraph.wf(),
                forall|k: u64| #[trigger]
                    self.image.depgraph@.contains_key(k) ==> self.image.operations@.contains_key(
                        k,
                    ),
                labels@.len() == i,
                forall|j: int|
                    0 <= j < i ==> (#[trigger] labels@[j])@ == label_text(
                        order@[j],
                        self.image.operations@[order@[j]],
                    ),
            decreases order.len() - i,
        {
            let k = order[i];
            assert(order@.contains(k));
            assert(self.image.depgraph@.contains_key(k));
            let operation = self.image.operations.get_unchecked(&OperationId(k));
            labels.push(operation_label(k, operation));
            i = i + 1;
        }
        assert(texts(labels@) =~= labels_of(self.image.operations@, self.image.depgraph.keys()));
        self.image.depgraph.dotgraph_with_labels(&labels)
    }
}

/// Splicing a new operation above a node of the graph keeps every node and
/// every listed dependency among the operations.
proof fn lemma_spliced_edges_resolve(
    g: Map<u64, Seq<u64>>,
    operations: Map<u64, Operation>,
    operation: Operation,
    new: u64,
    base: u64,
)
    requires
        g.contains_key(base),
        forall|n: u64| #[trigger]
            g.contains_key(n) ==> {
                &&& operations.contains_key(n)
                &&& forall|k: int|
                    0 <= k < g[n].len() ==> operations.contains_key(#[trigger] g[n][k])
            },
    ensures
        forall|n: u64| #[trigger]
            operate_on_spec(g, new, base).contains_key(n) ==> {
                &&& operations.insert(new, operation).contains_key(n)
                &&& forall|k: int|
                    0 <= k < operate_on_spec(g, new, base)[n].len() ==> operations.insert(
                        new,
                        operation,
                    ).contains_key(#[trigger] operate_on_spec(g, new, base)[n][k])
            },
{
    let after = operate_on_spec(g, new, base);
    let stored = operations.insert(new, operation);
    assert forall|n: u64| #[trigger] after.contains_key(n) implies {
        &&& stored.contains_key(n)
        &&& forall|k: int| 0 <= k < after[n].len() ==> stored.contains_key(#[trigger] after[n][k])
    } by {
        if n != new {
            assert(g.contains_key(n));
            assert forall|k: int| 0 <= k < after[n].len() implies stored.contains_key(
                #[trigger] after[n][k],
            ) by {
                if after[n][k] != new {
                    assert(after[n][k] == g[n][k]);
                }
            }
        }
    }
}

/// Splicing a new node above a node of the graph keeps every listed
/// dependency a node.
proof fn lemma_spliced_closed(g: Map<u64, Seq<u64>>, new: u64, base: u64)
    requires
        g.contains_key(base),
        closed(g),
    ensures
        closed(operate_on_spec(g, new, base)),
{
    let after = operate_on_spec(g, new, base);
    assert forall|k: u64, i: int|
        after.contains_key(k) && 0 <= i < after[k].len() implies after.contains_key(
        #[trigger] after[k][i],
    ) by {
        if k != new {
            assert(g.contains_key(k));
            if after[k][i] != new {
                assert(after[k][i] == g[k][i]);
                assert(g.contains_key(g[k][i]));
            }
        }
    }
}

/// A session that is ready can select each of its layers, and can take a
/// new operation as long as the identifier counter has not run out.
pub proof fn law_ready_session(context: EditContext, layer: u64)
    requires
        context.ready(),
    ensures
        !context.image.operations@.contains_key(context.image.operations.counter()),
        !context.image.depgraph@.contains_key(context.image.operations.counter()),
        context.insert_operation_onto.is_some() ==> context.image.depgraph@.contains_key(
            context.insert_operation_onto.unwrap().0,
        ),
        context.image.layers@.contains_key(layer) ==> context.image.depgraph@.contains_key(
            context.image.layers@[layer].blend_operation_id.0,
        ),
{
    let counter = context.image.operations.counter();
    if context.image.operations@.contains_key(counter) {
        assert(counter < context.image.operations.counter());
    }
    if context.image.depgraph@.contains_key(counter) {
        assert(context.image.operations@.contains_key(counter));
    }
}

} // verus!
