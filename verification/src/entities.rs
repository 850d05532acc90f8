//! The value types of a document: colors, blend modes, brushes, glyphs,
//! strokes, operations and layers.
//!
//! The core stores real numbers and hands them on; it never computes with
//! them. A [`Scalar`] therefore holds a single-precision number by its
//! IEEE-754 bit pattern.

use crate::id_map::GlyphId;
use crate::id_map::OperationId;
use vstd::prelude::*;

verus! {

/// A single-precision real number, held by its bit pattern.
#[derive(PartialEq, Eq, Structural, Debug, Clone, Copy)]
pub struct Scalar(pub u32);

/// The bit pattern of zero.
pub const SCALAR_ZERO: u32 = 0;

/// The bit pattern of one half.
pub const SCALAR_HALF: u32 = 0x3F00_0000;

/// The bit pattern of one.
pub const SCALAR_ONE: u32 = 0x3F80_0000;

/// A color with alpha; each channel is nominally between zero and one, and
/// is stored as given.
#[derive(PartialEq, Eq, Structural, Debug, Clone, Copy)]
pub struct Color {
    pub r: Scalar,
    pub g: Scalar,
    pub b: Scalar,
    pub a: Scalar,
}

/// How two images are combined.
#[derive(PartialEq, Eq, Structural, Debug, Clone, Copy)]
pub enum BlendMode {
    /// Mix with the given opacity.
    Mix(Scalar),
}

/// How a brush property follows pen pressure: from `min_value` at no
/// pressure to `max_value` at full pressure, with noise of amplitude
/// `random`.
#[derive(PartialEq, Eq, Structural, Debug, Clone, Copy)]
pub struct PressureSettings {
    pub min_value: Scalar,
    pub max_value: Scalar,
    pub random: Scalar,
}

/// The image of a brush tip, as encoded bytes. Decoding is left to the
/// backend.
#[derive(PartialEq, Eq, Debug, Clone)]
pub enum Glyph {
    Png(Vec<u8>),
}

/// A brush.
#[derive(PartialEq, Eq, Debug, Clone)]
pub struct Brush {
    pub name: String,
    pub glyph: GlyphId,
    pub size: PressureSettings,
    pub flow: PressureSettings,
    pub scatter: PressureSettings,
    pub gap: PressureSettings,
}

/// The raw image of an image-blit operation, which spans the whole canvas.
#[derive(PartialEq, Eq, Debug, Clone)]
pub struct ImageBlitData {
    pub image_data: Vec<u8>,
}

/// The samples of one stroke. The four arrays run in parallel: one entry
/// each per sample.
#[derive(PartialEq, Eq, Debug, Clone)]
pub struct StrokeData {
    pub position_array: Vec<(Scalar, Scalar)>,
    pub angle_array: Vec<Scalar>,
    pub size: Scalar,
    pub size_array: Vec<Scalar>,
    pub color: Color,
    pub color_array: Vec<Color>,
    pub glyph: GlyphId,
    pub blend_mode: BlendMode,
}

impl StrokeData {
    /// The number of samples.
    pub open spec fn samples(&self) -> nat {
        self.position_array@.len()
    }

    /// The four arrays have one entry per sample.
    pub open spec fn wf(&self) -> bool {
        &&& self.angle_array@.len() == self.position_array@.len()
        &&& self.size_array@.len() == self.position_array@.len()
        &&& self.color_array@.len() == self.position_array@.len()
    }

    /// A stroke without samples.
    pub fn new(size: Scalar, color: Color, glyph: GlyphId, blend_mode: BlendMode) -> (r: Self)
        ensures
            r.wf(),
            r.samples() == 0,
            r.size == size,
            r.color == color,
            r.glyph == glyph,
            r.blend_mode == blend_mode,
    {
        StrokeData {
            position_array: Vec::new(),
            angle_array: Vec::new(),
            size,
            size_array: Vec::new(),
            color,
            color_array: Vec::new(),
            glyph,
            blend_mode,
        }
    }

    /// Appends one sample.
    pub fn push_sample(&mut self, position: (Scalar, Scalar), angle: Scalar, size: Scalar, color: Color)
        requires
            old(self).wf(),
        ensures
            final(self).wf(),
            final(self).position_array@ == old(self).position_array@.push(position),
            final(self).angle_array@ == old(self).angle_array@.push(angle),
            final(self).size_array@ == old(self).size_array@.push(size),
            final(self).color_array@ == old(self).color_array@.push(color),
            final(self).size == old(self).size,
            final(self).color == old(self).color,
            final(self).glyph == old(self).glyph,
            final(self).blend_mode == old(self).blend_mode,
    {
        self.position_array.push(position);
        self.angle_array.push(angle);
        self.size_array.push(size);
        self.color_array.push(color);
    }
}

/// A node of the operation graph.
#[derive(PartialEq, Eq, Debug, Clone)]
pub enum Operation {
    /// Paints a stroke over its one dependency.
    Stroke(StrokeData),
    /// Blends its two dependencies: the first underneath, the second above.
    Composite(BlendMode),
    /// The sink whose one dependency is the visible result.
    Output(u32),
    /// A bookmark that passes its one dependency through unchanged.
    Tag(String),
}

impl Operation {
    /// The number of dependencies that the operation takes.
    pub open spec fn spec_arity(&self) -> nat {
        match self {
            Operation::Composite(_) => 2,
            _ => 1,
        }
    }

    /// The number of dependencies that the operation takes.
    pub fn arity(&self) -> (r: usize)
        ensures
            r == self.spec_arity(),
    {
        match self {
            Operation::Composite(_) => 2,
            _ => 1,
        }
    }

    /// The operation is the output sink number `index`.
    pub open spec fn spec_is_output(&self, index: u32) -> bool {
        match self {
            Operation::Output(i) => *i == index,
            _ => false,
        }
    }

    /// Whether the operation is the output sink number `index`.
    pub fn is_output(&self, index: u32) -> (r: bool)
        ensures
            r == self.spec_is_output(index),
    {
        match self {
            Operation::Output(i) => *i == index,
            _ => false,
        }
    }

    /// The operation is a bookmark of the given name.
    pub open spec fn is_tag(&self, name: Seq<char>) -> bool {
        match self {
            Operation::Tag(s) => s@ == name,
            _ => false,
        }
    }

    /// The operation is a composite with the given blend mode.
    pub open spec fn is_composite(&self, mode: BlendMode) -> bool {
        match self {
            Operation::Composite(m) => *m == mode,
            _ => false,
        }
    }
}

/// A layer: its name and the composite that blends its contents with what
/// lies beneath.
#[derive(PartialEq, Eq, Debug, Clone)]
pub struct Layer {
    pub name: String,
    pub blend_operation_id: OperationId,
}

} // verus!
