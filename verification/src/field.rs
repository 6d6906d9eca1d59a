//! The cell field: a dense rectangular grid of cells with bounds-checked
//! access, state mutation, and 8-connected adjacency queries with
//! corner-cutting prevention.

use vstd::prelude::*;
use vstd::arithmetic::div_mod::lemma_fundamental_div_mod_converse;
use crate::cell::{Cell, CellState, Direction, direction_wf, spec_passable};
use crate::dist::{Distance, distance_wf, MAX_CELLS};

verus! {

/// An error of a bounds-checked field operation or of a destination request.
#[derive(Clone, Copy, Debug, PartialEq, Eq, Structural)]
pub enum FieldError {
    /// The coordinate lies outside the grid.
    OutOfBounds,
    /// The requested destination cell is impassable.
    InvalidDestination,
}

/// A dense `cols x rows` grid of cells, stored column-major:
/// cell `(c, r)` sits at index `c * rows + r`.
pub struct CellField {
    pub cells: Vec<Cell>,
    pub cols: usize,
    pub rows: usize,
}

impl CellField {
    /// Whether `(c, r)` lies inside the grid.
    pub open spec fn in_bounds(self, c: int, r: int) -> bool {
        0 <= c < self.cols && 0 <= r < self.rows
    }

    /// Whether the coordinate pair lies inside the grid.
    pub open spec fn in_bounds_p(self, p: (i64, i64)) -> bool {
        self.in_bounds(p.0 as int, p.1 as int)
    }

    /// The storage index of `(c, r)`.
    pub open spec fn spec_idx(self, c: int, r: int) -> int {
        c * self.rows + r
    }

    /// The cell at `(c, r)`.
    pub open spec fn spec_cell(self, c: int, r: int) -> Cell {
        self.cells@[self.spec_idx(c, r)]
    }

    /// The cell at a coordinate pair.
    pub open spec fn spec_cell_p(self, p: (i64, i64)) -> Cell {
        self.spec_cell(p.0 as int, p.1 as int)
    }

    /// The terrain state at `(c, r)`.
    pub open spec fn state_at(self, c: int, r: int) -> CellState {
        self.spec_cell(c, r).state
    }

    /// Whether the cell at `(c, r)` is passable.
    pub open spec fn passable_at(self, c: int, r: int) -> bool {
        spec_passable(self.state_at(c, r))
    }

    /// Whether the cell at a coordinate pair is passable.
    pub open spec fn passable_p(self, p: (i64, i64)) -> bool {
        self.passable_at(p.0 as int, p.1 as int)
    }

    /// The distance at a coordinate pair.
    pub open spec fn dist_p(self, p: (i64, i64)) -> Distance {
        self.spec_cell_p(p).distance
    }

    /// Structural well-formedness: positive bounded dimensions, a fully
    /// allocated grid, every cell carrying its own coordinate, and bounded
    /// distances and well-formed directions throughout.
    pub open spec fn wf(self) -> bool {
        &&& 1 <= self.cols as int
        &&& 1 <= self.rows as int
        &&& self.cols as int * self.rows as int <= MAX_CELLS as int
        &&& self.cells@.len() == self.cols as int * self.rows as int
        &&& forall|c: int, r: int|
            self.in_bounds(c, r) ==> (#[trigger] self.spec_cell(c, r)).coord == (c as i64, r as i64)
        &&& forall|c: int, r: int|
            self.in_bounds(c, r) ==> distance_wf((#[trigger] self.spec_cell(c, r)).distance)
        &&& forall|c: int, r: int|
            self.in_bounds(c, r) ==> direction_wf((#[trigger] self.spec_cell(c, r)).direction)
    }

    /// The number of columns.
    pub fn num_cols(&self) -> (n: usize)
        ensures
            n == self.cols,
    {
        self.cols
    }

    /// The number of rows.
    pub fn num_rows(&self) -> (n: usize)
        ensures
            n == self.rows,
    {
        self.rows
    }

    /// Creates a field of the given dimensions with every cell `Empty`,
    /// every distance infinite and every direction undefined.
    pub fn new(cols: usize, rows: usize) -> (f: CellField)
        requires
            1 <= cols,
            1 <= rows,
            cols * rows <= MAX_CELLS,
        ensures
            f.wf(),
            f.cols == cols,
            f.rows == rows,
            forall|c: int, r: int|
                f.in_bounds(c, r) ==> (#[trigger] f.spec_cell(c, r)) == (Cell {
                    coord: (c as i64, r as i64),
                    state: CellState::Empty,
                    distance: Distance::Infinite,
                    direction: Direction::Undefined,
                }),
    {
        proof {
            lemma_mul_bounds_pos(cols as int, rows as int);
        }
        let n: usize = cols * rows;
        let mut cells: Vec<Cell> = Vec::new();
        let mut i: usize = 0;
        while i < n
            invariant
                0 <= i <= n,
                n == cols as int * rows as int,
                1 <= rows,
                cells@.len() == i,
                forall|j: int|
                    0 <= j < i ==> (#[trigger] cells@[j]) == (Cell {
                        coord: ((j / rows as int) as i64, (j % rows as int) as i64),
                        state: CellState::Empty,
                        distance: Distance::Infinite,
                        direction: Direction::Undefined,
                    }),
            decreases n - i,
        {
            let c = i / rows;
            let r = i % rows;
            cells.push(Cell::new((c as i64, r as i64)));
            i = i + 1;
        }
        let f = CellField { cells, cols, rows };
        proof {
            assert forall|c: int, r: int| f.in_bounds(c, r) implies (#[trigger] f.spec_cell(c, r))
                == (Cell {
                coord: (c as i64, r as i64),
                state: CellState::Empty,
                distance: Distance::Infinite,
                direction: Direction::Undefined,
            }) by {
                lemma_idx_bounds(cols as int, rows as int, c, r);
                lemma_fundamental_div_mod_converse(f.spec_idx(c, r), rows as int, c, r);
            }
        }
        f
    }

    /// Borrows the cell at an already-validated coordinate.
    pub(crate) fn cell_at(&self, c: usize, r: usize) -> (cell: &Cell)
        requires
            self.wf(),
            self.in_bounds(c as int, r as int),
        ensures
            *cell == self.spec_cell(c as int, r as int),
    {
        proof {
            lemma_idx_bounds(self.cols as int, self.rows as int, c as int, r as int);
            lemma_mul_bounds_pos(self.cols as int, self.rows as int);
        }
        &self.cells[c * self.rows + r]
    }

    /// Replaces the distance at an already-validated coordinate; nothing
    /// else changes.
    pub(crate) fn set_distance(&mut self, c: usize, r: usize, d: Distance)
        requires
            old(self).wf(),
            old(self).in_bounds(c as int, r as int),
            distance_wf(d),
        ensures
            final(self).wf(),
            final(self).cols == old(self).cols,
            final(self).rows == old(self).rows,
            final(self).spec_cell(c as int, r as int) == (Cell {
                distance: d,
                ..old(self).spec_cell(c as int, r as int)
            }),
            forall|c2: int, r2: int|
                old(self).in_bounds(c2, r2) && !(c2 == c as int && r2 == r as int)
                    ==> #[trigger] final(self).spec_cell(c2, r2) == old(self).spec_cell(c2, r2),
            final(self).cells@ == old(self).cells@.update(
                old(self).spec_idx(c as int, r as int),
                final(self).spec_cell(c as int, r as int),
            ),
    {
        proof {
            lemma_idx_bounds(self.cols as int, self.rows as int, c as int, r as int);
            lemma_mul_bounds_pos(self.cols as int, self.rows as int);
        }
        let idx = c * self.rows + r;
        self.cells[idx].distance = d;
        proof {
            self.lemma_pointwise_update(*old(self), c as int, r as int);
        }
    }

    /// Replaces the direction at an already-validated coordinate; nothing
    /// else changes.
    pub(crate) fn set_direction(&mut self, c: usize, r: usize, d: Direction)
        requires
            old(self).wf(),
            old(self).in_bounds(c as int, r as int),
            direction_wf(d),
        ensures
            final(self).wf(),
            final(self).cols == old(self).cols,
            final(self).rows == old(self).rows,
            final(self).spec_cell(c as int, r as int) == (Cell {
                direction: d,
                ..old(self).spec_cell(c as int, r as int)
            }),
            forall|c2: int, r2: int|
                old(self).in_bounds(c2, r2) && !(c2 == c as int && r2 == r as int)
                    ==> #[trigger] final(self).spec_cell(c2, r2) == old(self).spec_cell(c2, r2),
    {
        proof {
            lemma_idx_bounds(self.cols as int, self.rows as int, c as int, r as int);
            lemma_mul_bounds_pos(self.cols as int, self.rows as int);
        }
        let idx = c * self.rows + r;
        self.cells[idx].direction = d;
        proof {
            self.lemma_pointwise_update(*old(self), c as int, r as int);
        }
    }

    /// After a one-index store, every other coordinate still reads its old
    /// cell: distinct coordinates use distinct storage indices.
    proof fn lemma_pointwise_update(self, prev: CellField, c: int, r: int)
        requires
            prev.wf(),
            prev.in_bounds(c, r),
            self.cols == prev.cols,
            self.rows == prev.rows,
            self.cells@ == prev.cells@.update(prev.spec_idx(c, r), self.spec_cell(c, r)),
        ensures
            forall|c2: int, r2: int|
                prev.in_bounds(c2, r2) && !(c2 == c && r2 == r)
                    ==> #[trigger] self.spec_cell(c2, r2) == prev.spec_cell(c2, r2),
    {
        assert forall|c2: int, r2: int|
            prev.in_bounds(c2, r2) && !(c2 == c && r2 == r) implies #[trigger] self.spec_cell(
            c2,
            r2,
        ) == prev.spec_cell(c2, r2) by {
            lemma_idx_bounds(prev.cols as int, prev.rows as int, c, r);
            lemma_idx_bounds(prev.cols as int, prev.rows as int, c2, r2);
            if prev.spec_idx(c, r) == prev.spec_idx(c2, r2) {
                lemma_idx_inj(prev.cols as int, prev.rows as int, c, r, c2, r2);
            }
        }
    }

    /// Bounds-checked read access.  Fails with `OutOfBounds` if and only if
    /// the coordinate lies outside the grid.
    pub fn get_cell(&self, coord: (i64, i64)) -> (res: Result<&Cell, FieldError>)
        requires
            self.wf(),
        ensures
            match res {
                Ok(cell) => self.in_bounds_p(coord) && *cell == self.spec_cell_p(coord),
                Err(e) => !self.in_bounds_p(coord) && e == FieldError::OutOfBounds,
            },
    {
        proof {
            lemma_mul_bounds_pos(self.cols as int, self.rows as int);
        }
        if coord.0 < 0 || coord.0 >= self.cols as i64 || coord.1 < 0 || coord.1 >= self.rows as i64 {
            return Err(FieldError::OutOfBounds);
        }
        Ok(self.cell_at(coord.0 as usize, coord.1 as usize))
    }

    /// Bounds-checked state replacement.  Does not itself recompute any
    /// distances or directions: recomputation is the update protocol's
    /// responsibility.  Fails with `OutOfBounds` if and only if the
    /// coordinate lies outside the grid, and then changes nothing.
    pub fn set_state(&mut self, coord: (i64, i64), new_state: CellState) -> (res: Result<
        (),
        FieldError,
    >)
        requires
            old(self).wf(),
        ensures
            final(self).wf(),
            final(self).cols == old(self).cols,
            final(self).rows == old(self).rows,
            match res {
                Ok(()) => {
                    &&& old(self).in_bounds_p(coord)
                    &&& final(self).spec_cell_p(coord) == (Cell {
                        state: new_state,
                        ..old(self).spec_cell_p(coord)
                    })
                    &&& forall|c2: int, r2: int|
                        old(self).in_bounds(c2, r2) && !(c2 == coord.0 as int && r2
                            == coord.1 as int)
                            ==> #[trigger] final(self).spec_cell(c2, r2) == old(self).spec_cell(
                            c2,
                            r2,
                        )
                    &&& final(self).cells@ == old(self).cells@.update(
                        old(self).spec_idx(coord.0 as int, coord.1 as int),
                        final(self).spec_cell_p(coord),
                    )
                },
                Err(e) => {
                    &&& !old(self).in_bounds_p(coord)
                    &&& e == FieldError::OutOfBounds
                    &&& *final(self) == *old(self)
                },
            },
    {
        proof {
            lemma_mul_bounds_pos(self.cols as int, self.rows as int);
        }
        if coord.0 < 0 || coord.0 >= self.cols as i64 || coord.1 < 0 || coord.1 >= self.rows as i64 {
            return Err(FieldError::OutOfBounds);
        }
        let c = coord.0 as usize;
        let r = coord.1 as usize;
        proof {
            lemma_idx_bounds(self.cols as int, self.rows as int, c as int, r as int);
            lemma_mul_bounds_pos(self.cols as int, self.rows as int);
        }
        let idx = c * self.rows + r;
        self.cells[idx].state = new_state;
        proof {
            self.lemma_pointwise_update(*old(self), c as int, r as int);
        }
        Ok(())
    }
}

/// The eight neighbor offsets `(dc, dr)` in the stable enumeration order
/// used for deterministic tie-breaks: the four orthogonal steps first, then
/// the four diagonal steps.
pub open spec fn neighbor_offset(i: int) -> (i64, i64) {
    if i == 0 {
        (0i64, 1i64)
    } else if i == 1 {
        (1i64, 0i64)
    } else if i == 2 {
        (0i64, -1i64)
    } else if i == 3 {
        (-1i64, 0i64)
    } else if i == 4 {
        (-1i64, 1i64)
    } else if i == 5 {
        (-1i64, -1i64)
    } else if i == 6 {
        (1i64, 1i64)
    } else {
        (1i64, -1i64)
    }
}

/// The coordinate one step from `a` along the `i`-th offset.
pub open spec fn step_to(a: (i64, i64), i: int) -> (i64, i64) {
    ((a.0 + neighbor_offset(i).0) as i64, (a.1 + neighbor_offset(i).1) as i64)
}

/// Whether `b` is one of the eight cells around `a`.
pub open spec fn adjacent8(a: (i64, i64), b: (i64, i64)) -> bool {
    &&& -1 <= b.0 - a.0 <= 1
    &&& -1 <= b.1 - a.1 <= 1
    &&& !(b.0 == a.0 && b.1 == a.1)
}

/// Whether the step from `a` to `b` is diagonal.
pub open spec fn diagonal_step(a: (i64, i64), b: (i64, i64)) -> bool {
    a.0 != b.0 && a.1 != b.1
}

/// The eight neighbor offsets, executably.
pub fn neighbor_offset_at(i: usize) -> (o: (i64, i64))
    requires
        i < 8,
    ensures
        o == neighbor_offset(i as int),
{
    match i {
        0 => (0, 1),
        1 => (1, 0),
        2 => (0, -1),
        3 => (-1, 0),
        4 => (-1, 1),
        5 => (-1, -1),
        6 => (1, 1),
        _ => (1, -1),
    }
}

impl CellField {
    /// Whether the diagonal step from `a` to `b` is blocked by its two
    /// orthogonally adjacent cells both being impassable.
    pub open spec fn corner_blocked(self, a: (i64, i64), b: (i64, i64)) -> bool {
        !self.passable_p((b.0, a.1)) && !self.passable_p((a.0, b.1))
    }

    /// Whether a unit standing at `a` may take the single step to `b`: `b`
    /// is an in-bounds passable neighbor of `a`, and a diagonal step does
    /// not cut through the corner between two touching obstacles.
    pub open spec fn edge(self, a: (i64, i64), b: (i64, i64)) -> bool {
        &&& self.in_bounds_p(a)
        &&& self.in_bounds_p(b)
        &&& adjacent8(a, b)
        &&& self.passable_p(b)
        &&& (diagonal_step(a, b) ==> !self.corner_blocked(a, b))
    }

    /// Every 8-adjacent coordinate is reached by exactly one of the eight
    /// enumerated offsets.
    pub proof fn lemma_adjacent_is_offset(self, a: (i64, i64), b: (i64, i64))
        requires
            self.in_bounds_p(a),
            adjacent8(a, b),
        ensures
            exists|i: int| 0 <= i < 8 && b == step_to(a, i),
    {
        let dc = b.0 as int - a.0 as int;
        let dr = b.1 as int - a.1 as int;
        if dc == 0 && dr == 1 {
            assert(b == step_to(a, 0));
        } else if dc == 1 && dr == 0 {
            assert(b == step_to(a, 1));
        } else if dc == 0 && dr == -1 {
            assert(b == step_to(a, 2));
        } else if dc == -1 && dr == 0 {
            assert(b == step_to(a, 3));
        } else if dc == -1 && dr == 1 {
            assert(b == step_to(a, 4));
        } else if dc == -1 && dr == -1 {
            assert(b == step_to(a, 5));
        } else if dc == 1 && dr == 1 {
            assert(b == step_to(a, 6));
        } else {
            assert(dc == 1 && dr == -1);
            assert(b == step_to(a, 7));
        }
    }

    /// Tries the `i`-th neighbor of `a`: returns its coordinate when the
    /// step from `a` to it is allowed, and nothing otherwise.
    pub(crate) fn edge_check(&self, a: (i64, i64), i: usize) -> (r: Option<(i64, i64)>)
        requires
            self.wf(),
            self.in_bounds_p(a),
            i < 8,
        ensures
            match r {
                Some(b) => b == step_to(a, i as int) && self.edge(a, b),
                None => !self.edge(a, step_to(a, i as int)),
            },
    {
        proof {
            lemma_mul_bounds_pos(self.cols as int, self.rows as int);
        }
        let (oc, orr) = neighbor_offset_at(i);
        let nc = a.0 + oc;
        let nr = a.1 + orr;
        if nc < 0 || nc >= self.cols as i64 || nr < 0 || nr >= self.rows as i64 {
            return None;
        }
        if !self.cell_at(nc as usize, nr as usize).is_passable() {
            return None;
        }
        if oc != 0 && orr != 0 {
            if !self.cell_at(nc as usize, a.1 as usize).is_passable() && !self.cell_at(
                a.0 as usize,
                nr as usize,
            ).is_passable() {
                return None;
            }
        }
        Some((nc, nr))
    }

    /// The in-bounds cells among the first `i` neighbor offsets of `a`, in
    /// enumeration order.
    pub open spec fn spec_neighbors8_upto(self, a: (i64, i64), i: int) -> Seq<(i64, i64)>
        decreases i,
    {
        if i <= 0 {
            Seq::empty()
        } else {
            let prev = self.spec_neighbors8_upto(a, i - 1);
            let b = step_to(a, i - 1);
            if self.in_bounds_p(b) {
                prev.push(b)
            } else {
                prev
            }
        }
    }

    /// The up-to-eight grid neighbors of `a`, clipped to the grid.
    pub open spec fn spec_neighbors8(self, a: (i64, i64)) -> Seq<(i64, i64)> {
        self.spec_neighbors8_upto(a, 8)
    }

    /// The reachable cells among the first `i` neighbor offsets of `a`.
    pub open spec fn spec_reachable_upto(self, a: (i64, i64), i: int) -> Seq<(i64, i64)>
        decreases i,
    {
        if i <= 0 {
            Seq::empty()
        } else {
            let prev = self.spec_reachable_upto(a, i - 1);
            let b = step_to(a, i - 1);
            if self.edge(a, b) {
                prev.push(b)
            } else {
                prev
            }
        }
    }

    /// The neighbors of `a` that a unit at `a` may step to.
    pub open spec fn spec_reachable(self, a: (i64, i64)) -> Seq<(i64, i64)> {
        self.spec_reachable_upto(a, 8)
    }

    /// The impassable cells among the first `i` neighbor offsets of `a`.
    pub open spec fn spec_obstacles_upto(self, a: (i64, i64), i: int) -> Seq<(i64, i64)>
        decreases i,
    {
        if i <= 0 {
            Seq::empty()
        } else {
            let prev = self.spec_obstacles_upto(a, i - 1);
            let b = step_to(a, i - 1);
            if self.in_bounds_p(b) && !self.passable_p(b) {
                prev.push(b)
            } else {
                prev
            }
        }
    }

    /// The in-bounds neighbors of `a` that are impassable.
    pub open spec fn spec_obstacles(self, a: (i64, i64)) -> Seq<(i64, i64)> {
        self.spec_obstacles_upto(a, 8)
    }

    /// The up-to-eight grid-adjacent coordinates of `coord` (4 orthogonal
    /// and 4 diagonal), clipped to the grid, in the stable enumeration
    /// order.  Fails with `OutOfBounds` if and only if `coord` itself lies
    /// outside the grid.
    pub fn neighbors8(&self, coord: (i64, i64)) -> (res: Result<Vec<(i64, i64)>, FieldError>)
        requires
            self.wf(),
        ensures
            match res {
                Ok(v) => self.in_bounds_p(coord) && v@ == self.spec_neighbors8(coord),
                Err(e) => !self.in_bounds_p(coord) && e == FieldError::OutOfBounds,
            },
    {
        proof {
            lemma_mul_bounds_pos(self.cols as int, self.rows as int);
        }
        if coord.0 < 0 || coord.0 >= self.cols as i64 || coord.1 < 0 || coord.1 >= self.rows as i64 {
            return Err(FieldError::OutOfBounds);
        }
        let mut v: Vec<(i64, i64)> = Vec::new();
        let mut i: usize = 0;
        while i < 8
            invariant
                0 <= i <= 8,
                self.wf(),
                self.in_bounds_p(coord),
                v@ == self.spec_neighbors8_upto(coord, i as int),
            decreases 8 - i,
        {
            proof {
                lemma_mul_bounds_pos(self.cols as int, self.rows as int);
            }
            let (oc, orr) = neighbor_offset_at(i);
            let nc = coord.0 + oc;
            let nr = coord.1 + orr;
            if nc >= 0 && nc < self.cols as i64 && nr >= 0 && nr < self.rows as i64 {
                v.push((nc, nr));
            }
            i = i + 1;
        }
        Ok(v)
    }

    /// The subset of `neighbors8` that a unit at `coord` may step to:
    /// passable, and a diagonal neighbor only if the step does not cut
    /// through a corner formed by two touching obstacles.  Fails with
    /// `OutOfBounds` if and only if `coord` lies outside the grid.
    pub fn get_reachable_adjacent_cells(&self, coord: (i64, i64)) -> (res: Result<
        Vec<(i64, i64)>,
        FieldError,
    >)
        requires
            self.wf(),
        ensures
            match res {
                Ok(v) => self.in_bounds_p(coord) && v@ == self.spec_reachable(coord),
                Err(e) => !self.in_bounds_p(coord) && e == FieldError::OutOfBounds,
            },
    {
        proof {
            lemma_mul_bounds_pos(self.cols as int, self.rows as int);
        }
        if coord.0 < 0 || coord.0 >= self.cols as i64 || coord.1 < 0 || coord.1 >= self.rows as i64 {
            return Err(FieldError::OutOfBounds);
        }
        let mut v: Vec<(i64, i64)> = Vec::new();
        let mut i: usize = 0;
        while i < 8
            invariant
                0 <= i <= 8,
                self.wf(),
                self.in_bounds_p(coord),
                v@ == self.spec_reachable_upto(coord, i as int),
            decreases 8 - i,
        {
            match self.edge_check(coord, i) {
                Some(b) => v.push(b),
                None => (),
            }
            i = i + 1;
        }
        Ok(v)
    }

    /// The subset of `neighbors8` that is impassable, for rendering and
    /// debug consumers.  Fails with `OutOfBounds` if and only if `coord`
    /// lies outside the grid.
    pub fn get_adjacent_obstacles(&self, coord: (i64, i64)) -> (res: Result<
        Vec<(i64, i64)>,
        FieldError,
    >)
        requires
            self.wf(),
        ensures
            match res {
                Ok(v) => self.in_bounds_p(coord) && v@ == self.spec_obstacles(coord),
                Err(e) => !self.in_bounds_p(coord) && e == FieldError::OutOfBounds,
            },
    {
        proof {
            lemma_mul_bounds_pos(self.cols as int, self.rows as int);
        }
        if coord.0 < 0 || coord.0 >= self.cols as i64 || coord.1 < 0 || coord.1 >= self.rows as i64 {
            return Err(FieldError::OutOfBounds);
        }
        let mut v: Vec<(i64, i64)> = Vec::new();
        let mut i: usize = 0;
        while i < 8
            invariant
                0 <= i <= 8,
                self.wf(),
                self.in_bounds_p(coord),
                v@ == self.spec_obstacles_upto(coord, i as int),
            decreases 8 - i,
        {
            proof {
                lemma_mul_bounds_pos(self.cols as int, self.rows as int);
            }
            let (oc, orr) = neighbor_offset_at(i);
            let nc = coord.0 + oc;
            let nr = coord.1 + orr;
            if nc >= 0 && nc < self.cols as i64 && nr >= 0 && nr < self.rows as i64 {
                if !self.cell_at(nc as usize, nr as usize).is_passable() {
                    v.push((nc, nr));
                }
            }
            i = i + 1;
        }
        Ok(v)
    }

    /// Maps a world coordinate to the cell whose square contains it, if
    /// that cell lies inside this grid.
    pub fn world_to_cell(&self, w: (i64, i64)) -> (res: Option<(i64, i64)>)
        requires
            self.wf(),
            -0x0020_0000_0000_0000 <= w.0 <= 0x0020_0000_0000_0000,
            -0x0020_0000_0000_0000 <= w.1 <= 0x0020_0000_0000_0000,
        ensures
            match res {
                Some(c) => {
                    &&& c.0 == crate::coords::spec_world_to_cell_axis(w.0 as int)
                    &&& c.1 == crate::coords::spec_world_to_cell_axis(w.1 as int)
                    &&& self.in_bounds_p(c)
                },
                None => !self.in_bounds(
                    crate::coords::spec_world_to_cell_axis(w.0 as int),
                    crate::coords::spec_world_to_cell_axis(w.1 as int),
                ),
            },
    {
        proof {
            lemma_mul_bounds_pos(self.cols as int, self.rows as int);
        }
        let c = crate::coords::world_to_cell(w);
        if c.0 < 0 || c.0 >= self.cols as i64 || c.1 < 0 || c.1 >= self.rows as i64 {
            return None;
        }
        Some(c)
    }
}

/// Inside the grid, the storage index lies inside the storage.
pub(crate) proof fn lemma_idx_bounds(cols: int, rows: int, c: int, r: int)
    by (nonlinear_arith)
    requires
        0 <= c < cols,
        0 <= r < rows,
    ensures
        0 <= c * rows + r < cols * rows,
{
}

/// Distinct in-bounds coordinates use distinct storage indices.
proof fn lemma_idx_inj(cols: int, rows: int, c1: int, r1: int, c2: int, r2: int)
    by (nonlinear_arith)
    requires
        0 <= c1 < cols,
        0 <= r1 < rows,
        0 <= c2 < cols,
        0 <= r2 < rows,
        c1 * rows + r1 == c2 * rows + r2,
    ensures
        c1 == c2,
        r1 == r2,
{
}

/// A product of positive factors bounds each factor.
pub(crate) proof fn lemma_mul_bounds_pos(cols: int, rows: int)
    by (nonlinear_arith)
    requires
        1 <= cols,
        1 <= rows,
    ensures
        cols <= cols * rows,
        rows <= cols * rows,
{
}

} // verus!
