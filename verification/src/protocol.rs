//! The update protocol: the state machine that owns the field and the
//! active destination, accepts discrete requests, and re-solves the whole
//! field before anything reads it.
//!
//! Requests queue up between simulation steps; a step drains them in
//! arrival order and then runs the distance and direction solvers
//! synchronously.  A rejected request changes nothing: the previously
//! solved field stays intact.

use vstd::prelude::*;
use crate::cell::{Cell, CellState, spec_passable};
use crate::dist::Distance;
use crate::field::{CellField, FieldError};
use crate::solver::{solve_distance_field, dist_field_solved};
use crate::direction::{solve_direction_field, dir_field_solved};
use crate::paths::same_topology;
use crate::laws::lemma_dist_solved_congruent;

verus! {

/// An obstacle-state request: replace the terrain state of one cell.
#[derive(Clone, Copy, Debug, PartialEq)]
pub struct UpdateCellEvent {
    /// The coordinate of the cell to update.
    pub coord: (i64, i64),
    /// The new terrain state of the cell.
    pub new_state: CellState,
}

/// A request to the update protocol.
#[derive(Clone, Copy, Debug, PartialEq)]
pub enum Request {
    /// Change one cell's terrain state.
    Cell(UpdateCellEvent),
    /// Replace the active destination.
    Destination((i64, i64)),
}

/// The protocol's phase: stable, awaiting a re-solve, or re-solving.
#[derive(Clone, Copy, Debug, PartialEq, Eq, Structural)]
pub enum UpdateState {
    Idle,
    Dirty,
    Solving,
}

/// The update protocol: the field, the active destination (none until the
/// first destination request), the phase, and the queued requests.
pub struct UpdateProtocol {
    pub field: CellField,
    pub destination: Option<(i64, i64)>,
    pub state: UpdateState,
    pub pending: Vec<Request>,
}

/// The request-visible abstraction of the protocol: dimensions, terrain,
/// active destination, and whether a re-solve is owed.
pub struct ProtoModel {
    pub cols: int,
    pub rows: int,
    pub states: Seq<CellState>,
    pub dest: Option<(i64, i64)>,
    pub dirty: bool,
}

/// Whether a coordinate lies inside the modeled grid.
pub open spec fn model_in_bounds(m: ProtoModel, p: (i64, i64)) -> bool {
    0 <= p.0 < m.cols && 0 <= p.1 < m.rows
}

/// The modeled storage index of a coordinate.
pub open spec fn model_idx(m: ProtoModel, p: (i64, i64)) -> int {
    p.0 * m.rows + p.1
}

/// The outcome one request has on a model: accepted, or rejected with
/// which error.
pub open spec fn req_outcome(m: ProtoModel, r: Request) -> Result<(), FieldError> {
    match r {
        Request::Cell(e) => if model_in_bounds(m, e.coord) {
            Result::Ok(())
        } else {
            Result::Err(FieldError::OutOfBounds)
        },
        Request::Destination(d) => if !model_in_bounds(m, d) {
            Result::Err(FieldError::OutOfBounds)
        } else if !spec_passable(m.states[model_idx(m, d)]) {
            Result::Err(FieldError::InvalidDestination)
        } else {
            Result::Ok(())
        },
    }
}

/// The state-machine transition of one request: an accepted request edits
/// the terrain or replaces the destination and marks the protocol dirty; a
/// rejected one changes nothing.
pub open spec fn req_apply(m: ProtoModel, r: Request) -> ProtoModel {
    if req_outcome(m, r) is Err {
        m
    } else {
        match r {
            Request::Cell(e) => ProtoModel {
                states: m.states.update(model_idx(m, e.coord), e.new_state),
                dirty: true,
                ..m
            },
            Request::Destination(d) => ProtoModel { dest: Option::Some(d), dirty: true, ..m },
        }
    }
}

/// The transitions of a whole queue of requests, in arrival order.
pub open spec fn req_apply_all(m: ProtoModel, rs: Seq<Request>) -> ProtoModel
    decreases rs.len(),
{
    if rs.len() == 0 {
        m
    } else {
        req_apply_all(req_apply(m, rs[0]), rs.drop_first())
    }
}

/// Applying one more request continues the fold.
pub proof fn lemma_req_apply_all_snoc(m: ProtoModel, rs: Seq<Request>, r: Request)
    ensures
        req_apply_all(m, rs.push(r)) == req_apply(req_apply_all(m, rs), r),
    decreases rs.len(),
{
    let q = rs.push(r);
    assert(q.len() == rs.len() + 1);
    if rs.len() == 0 {
        assert(q[0] == r);
        assert(q.drop_first() =~= Seq::<Request>::empty());
        assert(req_apply_all(m, q) == req_apply_all(req_apply(m, r), q.drop_first()));
        assert(req_apply_all(req_apply(m, r), q.drop_first()) == req_apply(m, r));
        assert(req_apply_all(m, rs) == m);
    } else {
        assert(q[0] == rs[0]);
        assert(q.drop_first() =~= rs.drop_first().push(r));
        assert(req_apply_all(m, q) == req_apply_all(req_apply(m, rs[0]), q.drop_first()));
        lemma_req_apply_all_snoc(req_apply(m, rs[0]), rs.drop_first(), r);
        assert(req_apply_all(m, rs) == req_apply_all(req_apply(m, rs[0]), rs.drop_first()));
    }
}

impl UpdateProtocol {
    /// The request-visible abstraction of this protocol state.
    pub open spec fn model(self) -> ProtoModel {
        ProtoModel {
            cols: self.field.cols as int,
            rows: self.field.rows as int,
            states: self.field.cells@.map_values(|c: Cell| c.state),
            dest: self.destination,
            dirty: self.state is Dirty,
        }
    }

    /// Structural well-formedness: the owned field is well-formed.
    pub open spec fn wf(self) -> bool {
        self.field.wf()
    }

    /// A fresh session: an all-empty field of the given dimensions, no
    /// destination, nothing pending.
    pub fn new(cols: usize, rows: usize) -> (p: UpdateProtocol)
        requires
            1 <= cols,
            1 <= rows,
            cols * rows <= crate::dist::MAX_CELLS,
        ensures
            p.wf(),
            p.field.cols == cols,
            p.field.rows == rows,
            forall|c: int, r: int|
                p.field.in_bounds(c, r) ==> (#[trigger] p.field.spec_cell(c, r)) == (Cell {
                    coord: (c as i64, r as i64),
                    state: CellState::Empty,
                    distance: Distance::Infinite,
                    direction: crate::cell::Direction::Undefined,
                }),
            p.destination is None,
            p.state == UpdateState::Idle,
            p.pending@ == Seq::<Request>::empty(),
    {
        UpdateProtocol {
            field: CellField::new(cols, rows),
            destination: None,
            state: UpdateState::Idle,
            pending: Vec::new(),
        }
    }

    /// Read access to the owned field.
    pub fn field_ref(&self) -> (f: &CellField)
        ensures
            *f == self.field,
    {
        &self.field
    }

    /// The active destination, if one has been accepted.
    pub fn destination(&self) -> (d: Option<(i64, i64)>)
        ensures
            d == self.destination,
    {
        self.destination
    }

    /// The protocol's phase.
    pub fn state(&self) -> (s: UpdateState)
        ensures
            s == self.state,
    {
        self.state
    }

    /// Queues a request for the next step.
    pub fn push_request(&mut self, r: Request)
        ensures
            final(self).pending@ == old(self).pending@.push(r),
            final(self).field == old(self).field,
            final(self).destination == old(self).destination,
            final(self).state == old(self).state,
    {
        self.pending.push(r);
    }

    /// Applies one obstacle-state request: replaces the cell's terrain and
    /// marks the protocol dirty.  Fails with `OutOfBounds`, changing
    /// nothing, if and only if the coordinate lies outside the grid.  Does
    /// not itself re-solve: distances and directions are untouched (stale
    /// until the next solve).
    pub fn update_cell(&mut self, e: UpdateCellEvent) -> (res: Result<(), FieldError>)
        requires
            old(self).wf(),
        ensures
            final(self).wf(),
            final(self).model() == req_apply(old(self).model(), Request::Cell(e)),
            res == req_outcome(old(self).model(), Request::Cell(e)),
            final(self).destination == old(self).destination,
            final(self).pending == old(self).pending,
            forall|c: int, r: int|
                old(self).field.in_bounds(c, r) ==> {
                    let fc = #[trigger] final(self).field.spec_cell(c, r);
                    let oc = old(self).field.spec_cell(c, r);
                    fc.distance == oc.distance && fc.direction == oc.direction
                },
            res is Ok ==> final(self).state == UpdateState::Dirty,
            res is Err ==> *final(self) == *old(self),
    {
        let res = self.field.set_state(e.coord, e.new_state);
        match res {
            Ok(()) => {
                self.state = UpdateState::Dirty;
                proof {
                    crate::field::lemma_idx_bounds(
                        old(self).field.cols as int,
                        old(self).field.rows as int,
                        e.coord.0 as int,
                        e.coord.1 as int,
                    );
                    assert(self.field.spec_cell_p(e.coord).state == e.new_state);
                    assert(self.model().states =~= req_apply(
                        old(self).model(),
                        Request::Cell(e),
                    ).states);
                }
                Ok(())
            },
            Err(er) => Err(er),
        }
    }

    /// Applies one destination request: replaces the active destination and
    /// marks the protocol dirty.  Fails with `OutOfBounds` for a coordinate
    /// outside the grid and with `InvalidDestination` for an impassable
    /// cell, in either case changing nothing: the field keeps its previous
    /// destination and solved state.
    pub fn set_destination(&mut self, coord: (i64, i64)) -> (res: Result<(), FieldError>)
        requires
            old(self).wf(),
        ensures
            final(self).wf(),
            final(self).field == old(self).field,
            final(self).pending == old(self).pending,
            final(self).model() == req_apply(old(self).model(), Request::Destination(coord)),
            res == req_outcome(old(self).model(), Request::Destination(coord)),
            res is Ok ==> final(self).destination == Some(coord) && final(self).state
                == UpdateState::Dirty,
            res is Err ==> *final(self) == *old(self),
    {
        let passable: bool;
        match self.field.get_cell(coord) {
            Err(er) => {
                return Err(er);
            },
            Ok(cell) => {
                passable = cell.is_passable();
                proof {
                    crate::field::lemma_idx_bounds(
                        self.field.cols as int,
                        self.field.rows as int,
                        coord.0 as int,
                        coord.1 as int,
                    );
                    assert(self.model().states[model_idx(self.model(), coord)]
                        == self.field.spec_cell_p(coord).state);
                }
            },
        }
        if !passable {
            return Err(FieldError::InvalidDestination);
        }
        self.destination = Some(coord);
        self.state = UpdateState::Dirty;
        Ok(())
    }

    /// Runs the pending re-solve, if one is owed and a destination is set:
    /// distance field first, then direction field, synchronously, ending
    /// idle.  With no destination set, or nothing dirty, it only settles
    /// the phase back to idle and changes nothing else.
    ///
    /// Fails, leaving the field intact and the protocol dirty, if and only
    /// if the active destination has become impassable (an obstacle was
    /// placed on it) or lies out of bounds.
    pub fn solve(&mut self) -> (res: Result<(), FieldError>)
        requires
            old(self).wf(),
        ensures
            final(self).wf(),
            final(self).destination == old(self).destination,
            final(self).pending == old(self).pending,
            same_topology(old(self).field, final(self).field),
            final(self).field.cols == old(self).field.cols,
            final(self).field.rows == old(self).field.rows,
            match res {
                Ok(()) => {
                    &&& final(self).model() == (ProtoModel { dirty: false, ..old(self).model() })
                    &&& final(self).state is Idle || final(self).state is Solving
                    &&& old(self).destination matches Some(d) ==> (old(self).state is Dirty ==> {
                        &&& dist_field_solved(final(self).field, d)
                        &&& dir_field_solved(final(self).field, d)
                        &&& final(self).state is Idle
                    })
                    &&& !(old(self).state is Dirty && old(self).destination is Some)
                        ==> final(self).field == old(self).field
                },
                Err(e) => {
                    &&& old(self).state is Dirty
                    &&& final(self).field == old(self).field
                    &&& final(self).state == UpdateState::Dirty
                    &&& old(self).destination matches Some(d) && (e == FieldError::OutOfBounds
                        <==> !old(self).field.in_bounds_p(d)) && (e
                        == FieldError::InvalidDestination <==> old(self).field.in_bounds_p(d)
                        && !old(self).field.passable_p(d))
                },
            },
    {
        let d: (i64, i64);
        match self.destination {
            None => {
                self.state = UpdateState::Idle;
                return Ok(());
            },
            Some(dd) => {
                d = dd;
            },
        }
        match self.state {
            UpdateState::Dirty => (),
            _ => {
                return Ok(());
            },
        }
        self.state = UpdateState::Solving;
        let ghost f0 = self.field;
        match solve_distance_field(&mut self.field, d) {
            Err(e) => {
                self.state = UpdateState::Dirty;
                return Err(e);
            },
            Ok(()) => (),
        }
        let ghost f_mid = self.field;
        match solve_direction_field(&mut self.field, d) {
            Err(e) => {
                proof {
                    assert(false);
                }
                return Err(e);
            },
            Ok(()) => (),
        }
        self.state = UpdateState::Idle;
        proof {
            assert forall|c: int, r: int| f0.in_bounds(c, r) implies #[trigger] f0.state_at(c, r)
                == self.field.state_at(c, r) by {
                assert(f0.state_at(c, r) == f_mid.state_at(c, r));
                assert(f_mid.spec_cell(c, r).state == self.field.spec_cell(c, r).state);
            }
            assert(same_topology(f_mid, self.field)) by {
                assert forall|c: int, r: int| f_mid.in_bounds(c, r) implies #[trigger
                ] f_mid.state_at(c, r) == self.field.state_at(c, r) by {
                    assert(f_mid.spec_cell(c, r).state == self.field.spec_cell(c, r).state);
                }
            }
            lemma_dist_solved_congruent(f_mid, self.field, d);
            lemma_states_seq_equal(old(self).field, self.field);
        }
        Ok(())
    }
}

impl UpdateProtocol {
    /// One simulation step: drains the queued requests in arrival order,
    /// applying each one (a rejected request is reported in the outcomes
    /// and changes nothing), then runs the pending re-solve.  Returns the
    /// per-request outcomes and the solve outcome.
    pub fn step(&mut self) -> (r: (Vec<Result<(), FieldError>>, Result<(), FieldError>))
        requires
            old(self).wf(),
        ensures
            final(self).wf(),
            final(self).pending@ == Seq::<Request>::empty(),
            r.0@.len() == old(self).pending@.len(),
            forall|i: int|
                0 <= i < r.0@.len() ==> #[trigger] r.0@[i] == req_outcome(
                    req_apply_all(old(self).model(), old(self).pending@.take(i)),
                    old(self).pending@[i],
                ),
            ({
                let m_end = req_apply_all(old(self).model(), old(self).pending@);
                match r.1 {
                    Ok(()) => {
                        &&& final(self).model() == (ProtoModel { dirty: false, ..m_end })
                        &&& m_end.dest matches Some(d) ==> (m_end.dirty ==> dist_field_solved(
                            final(self).field,
                            d,
                        ) && dir_field_solved(final(self).field, d))
                    },
                    Err(e) => final(self).model() == m_end,
                }
            }),
    {
        let ghost m0 = self.model();
        let ghost rs = self.pending@;
        let mut outcomes: Vec<Result<(), FieldError>> = Vec::new();
        let n = self.pending.len();
        let mut i: usize = 0;
        while i < n
            invariant
                0 <= i <= n,
                self.wf(),
                self.pending@ == rs,
                n == rs.len(),
                self.model() == req_apply_all(m0, rs.take(i as int)),
                outcomes@.len() == i,
                forall|k: int|
                    0 <= k < i ==> #[trigger] outcomes@[k] == req_outcome(
                        req_apply_all(m0, rs.take(k)),
                        rs[k],
                    ),
            decreases n - i,
        {
            let req = self.pending[i];
            let res = match req {
                Request::Cell(e) => self.update_cell(e),
                Request::Destination(d) => self.set_destination(d),
            };
            outcomes.push(res);
            proof {
                assert(rs.take(i as int + 1) =~= rs.take(i as int).push(rs[i as int]));
                lemma_req_apply_all_snoc(m0, rs.take(i as int), rs[i as int]);
            }
            i = i + 1;
        }
        self.pending = Vec::new();
        proof {
            assert(rs.take(n as int) =~= rs);
        }
        let solved = self.solve();
        (outcomes, solved)
    }
}

/// Fields that agree on dimensions and terrain have equal state sequences.
proof fn lemma_states_seq_equal(f1: CellField, f2: CellField)
    requires
        f1.wf(),
        f2.wf(),
        f1.cols == f2.cols,
        f1.rows == f2.rows,
        same_topology(f1, f2),
    ensures
        f1.cells@.map_values(|c: Cell| c.state) == f2.cells@.map_values(|c: Cell| c.state),
{
    let s1 = f1.cells@.map_values(|c: Cell| c.state);
    let s2 = f2.cells@.map_values(|c: Cell| c.state);
    assert forall|j: int| 0 <= j < s1.len() implies s1[j] == s2[j] by {
        let rows = f1.rows as int;
        let c = j / rows;
        let r = j % rows;
        vstd::arithmetic::div_mod::lemma_fundamental_div_mod(j, rows);
        assert(0 <= r < rows) by {
            vstd::arithmetic::div_mod::lemma_mod_bound(j, rows);
        }
        assert(0 <= c < f1.cols as int) by (nonlinear_arith)
            requires
                j == rows * c + r,
                0 <= j < f1.cols as int * rows,
                0 <= r < rows,
                1 <= rows,
        ;
        assert(c * rows + r == j) by (nonlinear_arith)
            requires
                j == rows * c + r,
        ;
        assert(f1.state_at(c, r) == f2.state_at(c, r));
        assert(f1.spec_cell(c, r) == f1.cells@[j] && f2.spec_cell(c, r) == f2.cells@[j]);
    }
    assert(s1 =~= s2);
}

} // verus!
