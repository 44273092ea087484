//! The paint values that a layer list holds.

use vstd::prelude::*;

verus! {

/// The most layers that one layer-group reference can span: its count is one byte.
pub const MAX_PAINT_COLR_LAYER_COUNT: u8 = 255;

/// One node of a colour glyph's paint graph.
///
/// Only a layer-group reference is looked into. Every other paint is carried
/// as a key chosen by the caller: equal keys stand for structurally equal
/// paints, different keys for different ones.
#[derive(Clone, Copy, Debug, PartialEq, Eq, Hash, Structural)]
pub enum Paint {
    /// Stands for the `num_layers` entries of the layer list that start at
    /// `first_layer_index`.
    ColrLayers { num_layers: u8, first_layer_index: u32 },
    /// Any other paint, by its key.
    Opaque(u64),
}

impl Paint {
    /// Whether this is a reference to at least one layer.
    pub open spec fn is_nonempty_ref(self) -> bool {
        self is ColrLayers && self->num_layers >= 1
    }

    /// A reference to `num_layers` consecutive layers, the first at `first_layer_index`.
    pub fn colr_layers(num_layers: u8, first_layer_index: u32) -> (paint: Paint)
        ensures
            paint == (Paint::ColrLayers { num_layers, first_layer_index }),
    {
        Paint::ColrLayers { num_layers, first_layer_index }
    }
}

} // verus!
