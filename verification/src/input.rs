//! Decoding pointer positions into cells of the grid.

use vstd::prelude::*;
use crate::rule::WORLD_SIZE;

verus! {

/// Side of the centred block that a reseed command fills.
pub const SEED_BLOCK: usize = 16;

/// Whether the pixel `(px, py)` lies over a cell of the grid when each cell
/// is drawn as a square of `cell_pixels` pixels from the window's origin.
pub open spec fn over_grid(px: int, py: int, cell_pixels: int) -> bool {
    0 <= px && 0 <= py && px / cell_pixels < WORLD_SIZE && py / cell_pixels < WORLD_SIZE
}

/// The cell drawn under the pixel `(px, py)`, or `None` where the pixel
/// lies outside the grid.
pub fn cell_under(px: i32, py: i32, cell_pixels: i32) -> (cell: Option<(usize, usize)>)
    requires
        cell_pixels > 0,
    ensures
        cell.is_some() == over_grid(px as int, py as int, cell_pixels as int),
        cell matches Some((x, y)) ==> x == px / cell_pixels && y == py / cell_pixels
            && x < WORLD_SIZE && y < WORLD_SIZE,
{
    if px < 0 || py < 0 {
        return None;
    }
    let i = px / cell_pixels;
    let j = py / cell_pixels;
    if i < WORLD_SIZE as i32 && j < WORLD_SIZE as i32 {
        Some((i as usize, j as usize))
    } else {
        None
    }
}

} // verus!
