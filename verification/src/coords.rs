//! Mapping between cell coordinates and world coordinates.
//!
//! The cell `(c, r)` occupies a `CELL_SIZE`-sized square of world space
//! centered at `(c * CELL_SIZE, r * CELL_SIZE)`.

use vstd::prelude::*;

verus! {

/// The side length of one grid cell in world units.
pub const CELL_SIZE: i64 = 40;

/// The world coordinate of the center of a cell coordinate.
pub fn cell_to_world(coord: (i64, i64)) -> (w: (i64, i64))
    requires
        -0x0020_0000_0000_0000 <= coord.0 <= 0x0020_0000_0000_0000,
        -0x0020_0000_0000_0000 <= coord.1 <= 0x0020_0000_0000_0000,
    ensures
        w.0 == coord.0 * CELL_SIZE,
        w.1 == coord.1 * CELL_SIZE,
{
    (coord.0 * CELL_SIZE, coord.1 * CELL_SIZE)
}

/// The cell whose square of world space contains the world coordinate `w`,
/// on one axis: rounding to the nearest multiple of `CELL_SIZE`, halves
/// rounded away from zero.
pub open spec fn spec_world_to_cell_axis(w: int) -> int {
    if w >= 0 {
        (w + CELL_SIZE / 2) / (CELL_SIZE as int)
    } else {
        -((-w + CELL_SIZE / 2) / (CELL_SIZE as int))
    }
}

/// Rounds one world axis to its cell index.
pub fn world_to_cell_axis(w: i64) -> (c: i64)
    requires
        -0x0020_0000_0000_0000 <= w <= 0x0020_0000_0000_0000,
    ensures
        c == spec_world_to_cell_axis(w as int),
{
    if w >= 0 {
        (((w as u64) + 20) / 40) as i64
    } else {
        -((((-w) as u64 + 20) / 40) as i64)
    }
}

/// The cell coordinate whose square contains the world coordinate.
pub fn world_to_cell(w: (i64, i64)) -> (c: (i64, i64))
    requires
        -0x0020_0000_0000_0000 <= w.0 <= 0x0020_0000_0000_0000,
        -0x0020_0000_0000_0000 <= w.1 <= 0x0020_0000_0000_0000,
    ensures
        c.0 == spec_world_to_cell_axis(w.0 as int),
        c.1 == spec_world_to_cell_axis(w.1 as int),
{
    (world_to_cell_axis(w.0), world_to_cell_axis(w.1))
}

} // verus!
