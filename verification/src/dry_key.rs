//! Invalidation key of the persistent page layer (the "dry" framebuffer).
//!
//! The key holds everything that changes the pixels baked into that layer:
//! page, zoom, pan, number of annotations and dark mode. UI overlays are
//! composed on top and never invalidate it.

use vstd::prelude::*;

verus! {

/// Invalidation key of the dry layer.
#[derive(Clone, Copy, Debug, PartialEq, Eq, Structural)]
pub struct DryKey {
    pub page: u32,
    pub zoom_bits: u32,
    pub pan_x: i32,
    pub pan_y: i32,
    pub ann_count: usize,
    pub dark: bool,
}

impl DryKey {
    /// The layer baked under `self` must be redrawn for `other` exactly when
    /// the two keys differ in some field.
    pub fn invalidates(&self, other: &Self) -> (r: bool)
        ensures
            r == (*self != *other),
            r <==> (self.page != other.page || self.zoom_bits != other.zoom_bits
                || self.pan_x != other.pan_x || self.pan_y != other.pan_y
                || self.ann_count != other.ann_count || self.dark != other.dark),
    {
        *self != *other
    }
}

} // verus!
