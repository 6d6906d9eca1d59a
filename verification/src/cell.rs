//! A single grid cell: terrain state plus cached pathfinding results.

use vstd::prelude::*;
use crate::coords::CELL_SIZE;
use crate::dist::Distance;

verus! {

/// A cell's terrain state.  Only `Empty` and `Mine` can be walked through;
/// every other state is an obstacle.
#[derive(Clone, Copy, Debug, Default, PartialEq, Eq, Structural)]
pub enum CellState {
    #[default]
    Empty,
    Water,
    Iron,
    Rock,
    Building,
    Mine,
}

/// Whether a unit may move through a cell in this state.
pub open spec fn spec_passable(s: CellState) -> bool {
    s == CellState::Empty || s == CellState::Mine
}

/// A cell's steering direction: one grid step toward the destination, or
/// undefined for the destination itself, for impassable cells, and for cells
/// with no reachable neighbor.  A defined direction scales to the unit
/// vector `(dc, dr) / |(dc, dr)|`.
#[derive(Clone, Copy, Debug, PartialEq, Eq, Structural)]
pub enum Direction {
    Undefined,
    Step { dc: i8, dr: i8 },
}

/// A defined direction is a single 8-neighborhood step: each component in
/// `{-1, 0, 1}` and not both zero.
pub open spec fn direction_wf(d: Direction) -> bool {
    match d {
        Direction::Undefined => true,
        Direction::Step { dc, dr } => {
            &&& -1 <= dc <= 1
            &&& -1 <= dr <= 1
            &&& !(dc == 0 && dr == 0)
        },
    }
}

/// One grid cell.  `coord` is its (column, row) identity within the owning
/// field; `distance` and `direction` are only meaningful after a solve.
#[derive(Clone, Copy, Debug, PartialEq)]
pub struct Cell {
    pub coord: (i64, i64),
    pub state: CellState,
    pub distance: Distance,
    pub direction: Direction,
}

impl Cell {
    /// A fresh cell: empty terrain, distance not yet computed, no direction.
    pub fn new(coord: (i64, i64)) -> (c: Cell)
        ensures
            c == (Cell {
                coord,
                state: CellState::Empty,
                distance: Distance::Infinite,
                direction: Direction::Undefined,
            }),
    {
        Cell {
            coord,
            state: CellState::Empty,
            distance: Distance::Infinite,
            direction: Direction::Undefined,
        }
    }

    /// Whether a unit may move through this cell.
    pub fn is_passable(&self) -> (r: bool)
        ensures
            r == spec_passable(self.state),
    {
        match self.state {
            CellState::Empty | CellState::Mine => true,
            _ => false,
        }
    }

    /// The world coordinate of this cell's center: the cell `(c, r)` is
    /// centered at `(c * CELL_SIZE, r * CELL_SIZE)`.
    pub fn center(&self) -> (w: (i64, i64))
        requires
            -0x0020_0000_0000_0000 <= self.coord.0 <= 0x0020_0000_0000_0000,
            -0x0020_0000_0000_0000 <= self.coord.1 <= 0x0020_0000_0000_0000,
        ensures
            w.0 == self.coord.0 * CELL_SIZE,
            w.1 == self.coord.1 * CELL_SIZE,
    {
        (self.coord.0 * CELL_SIZE, self.coord.1 * CELL_SIZE)
    }
}

} // verus!
