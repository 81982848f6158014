//! Vocabulary of the ray caster shared with the renderer.
use vstd::prelude::*;

verus! {

/// Orientation of the wall face a ray hit. East/west faces are shaded a bit
/// darker than north/south ones, and the side decides which coordinate maps
/// to the texture column.
#[derive(Clone, Copy, Debug, PartialEq, Eq, Structural)]
pub enum Side {
    /// A vertical face of the block (east or west side).
    Vertical,
    /// A horizontal face of the block (north or south side).
    Horizontal,
}

} // verus!
