//! Minimap geometry: where the minimap sits on screen and how big its cells
//! are. Drawing it is left to the renderer.
use vstd::prelude::*;
use crate::map::BLOCK_SIZE;

verus! {

/// Gap between the minimap and the screen edges, in pixels.
pub const MARGIN: i32 = 12;

/// Side of one block of the grid on the minimap, in pixels.
pub const CELL_PX: i32 = 4;

/// Placement of the minimap on screen.
pub struct MinimapLayout {
    /// Top left corner of the minimap area, in screen pixels.
    pub origin_x: i32,
    pub origin_y: i32,
    pub cell_px: i32,
    pub size_px: i32,
}

/// The minimap in the top right corner of a screen `screen_w` pixels wide:
/// a square of `CELL_PX * BLOCK_SIZE` pixels, `MARGIN` pixels from the top
/// and right edges.
pub fn layout(screen_w: i32) -> (l: MinimapLayout)
    requires
        screen_w - CELL_PX * BLOCK_SIZE - MARGIN >= i32::MIN,
    ensures
        l.size_px == CELL_PX * BLOCK_SIZE,
        l.cell_px == CELL_PX,
        l.origin_y == MARGIN,
        l.origin_x + l.size_px + MARGIN == screen_w,
{
    let size_px = CELL_PX * BLOCK_SIZE as i32;
    MinimapLayout { origin_x: screen_w - size_px - MARGIN, origin_y: MARGIN, cell_px: CELL_PX, size_px }
}

} // verus!
