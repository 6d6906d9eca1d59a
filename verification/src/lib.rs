//! A grid-based flow-field pathfinding engine.
//!
//! A rectangular field of cells tracks terrain state, computes a
//! shortest-distance field toward a destination cell by relaxation search
//! over the 8-connected grid (with corner-cutting prevention), and derives
//! a per-cell steering direction from the distances.

pub mod cell;
pub mod coords;
pub mod direction;
pub mod dist;
pub mod field;
pub mod laws;
pub mod layer;
pub mod paths;
pub mod protocol;
pub mod solver;
