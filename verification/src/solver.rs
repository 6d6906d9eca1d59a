//! The distance field solver: a worklist relaxation search (breadth-first
//! over the 8-connected grid with weighted steps) that fills every passable
//! cell's `distance` with the exact length of a shortest corner-respecting
//! route to the destination.
//!
//! The contract pins the result down completely: the destination gets
//! distance zero; every finite distance is the cost of an actual route
//! (carried through the search as ghost witnesses); and no route is
//! shorter than the recorded distance (every step is fully relaxed when
//! the worklist drains).

use vstd::prelude::*;
use std::collections::VecDeque;
use crate::cell::Cell;
use crate::dist::{Dist, Distance, dist_m, dist_of, dist_zero, dist_wf,
    distance_le, distance_lt, distance_wf, lemma_dist_le_plus_step,
    lemma_dist_le_iff_m, lemma_dist_lt_plus_step, lemma_dist_zero_le,
    lemma_distance_le_total, lemma_distance_le_trans};
use crate::field::{CellField, FieldError, diagonal_step, lemma_mul_bounds_pos,
    neighbor_offset, neighbor_offset_at, step_to};
use crate::paths::{lemma_path_cost_len, lemma_path_cost_prefix_le, lemma_path_extend,
    lemma_path_len_bound, lemma_path_ok_prefix, lemma_path_ok_same_topology,
    lemma_edge_same_topology, path_cost, path_ok, same_topology};

verus! {

/// The distance one relaxation step from `a` would assign to `b`.
pub open spec fn relax_bound(f: CellField, a: (i64, i64), b: (i64, i64)) -> Distance {
    Distance::Finite(dist_of(f.dist_p(a)).spec_plus_step(diagonal_step(a, b)))
}

/// Every allowed step out of `a` is relaxed: the step's target is already
/// at most one step costlier than `a`.
pub open spec fn cell_relaxed(f: CellField, a: (i64, i64)) -> bool {
    forall|b: (i64, i64)| #[trigger] f.edge(a, b) ==> distance_le(f.dist_p(b), relax_bound(f, a, b))
}

/// Every passable cell with a finite distance is fully relaxed.
pub open spec fn relaxed_all(f: CellField) -> bool {
    forall|a: (i64, i64)|
        f.in_bounds_p(a) && f.passable_p(a) && (#[trigger] f.dist_p(a)) is Finite
            ==> cell_relaxed(f, a)
}

/// What a solved distance field says, completely:
/// - the destination reads exactly zero;
/// - every passable cell with a finite distance has an actual route of
///   exactly that cost (so a cell with no route never reads finite); and
/// - no valid route to any cell is shorter than the cell's distance (so
///   every cell with a route reads finite, and reads a shortest cost).
pub open spec fn dist_field_solved(f: CellField, dest: (i64, i64)) -> bool {
    &&& f.dist_p(dest) == Distance::Finite(dist_zero())
    &&& forall|c: (i64, i64)|
        f.in_bounds_p(c) && f.passable_p(c) && (#[trigger] f.dist_p(c)) is Finite
            ==> exists|p: Seq<(i64, i64)>|
            path_ok(f, dest, p, c) && path_cost(p) == dist_of(f.dist_p(c))
    &&& forall|p: Seq<(i64, i64)>, c: (i64, i64)|
        #[trigger] path_ok(f, dest, p, c) ==> distance_le(
            f.dist_p(c),
            Distance::Finite(path_cost(p)),
        )
}

/// A distance solve leaves dimensions, terrain, directions, and the
/// distances of impassable cells untouched.
pub open spec fn dist_solve_frame(of: CellField, f: CellField) -> bool {
    &&& f.wf()
    &&& same_topology(of, f)
    &&& forall|c: int, r: int|
        of.in_bounds(c, r) ==> (#[trigger] f.spec_cell(c, r)).direction == of.spec_cell(
            c,
            r,
        ).direction
    &&& forall|c: int, r: int|
        of.in_bounds(c, r) && !of.passable_at(c, r) ==> (#[trigger] f.spec_cell(c, r)).distance
            == of.spec_cell(c, r).distance
}

/// One worklist entry: a cell together with the distance it carried when it
/// was pushed, witnessed by a route of exactly that cost whose every prefix
/// already bounds the stored distance of the cell it ends at.
spec fn entry_ok(f: CellField, dest: (i64, i64), e: ((i64, i64), Dist), p: Seq<(i64, i64)>) -> bool {
    &&& f.in_bounds_p(e.0)
    &&& path_ok(f, dest, p, e.0)
    &&& path_cost(p) == e.1
    &&& forall|k: int|
        0 <= k < p.len() ==> distance_le(
            f.dist_p(#[trigger] p[k]),
            Distance::Finite(path_cost(p.take(k + 1))),
        )
}

/// Every worklist entry carries its witness route.
spec fn entries_ok(
    f: CellField,
    dest: (i64, i64),
    q: Seq<((i64, i64), Dist)>,
    ps: Seq<Seq<(i64, i64)>>,
) -> bool {
    &&& ps.len() == q.len()
    &&& forall|i: int| 0 <= i < q.len() ==> entry_ok(f, dest, #[trigger] q[i], ps[i])
}

/// Every passable cell with a finite distance holds a witness route of
/// exactly that cost.
spec fn cells_dist_ok(f: CellField, dest: (i64, i64), w: Map<(i64, i64), Seq<(i64, i64)>>) -> bool {
    forall|c: (i64, i64)|
        f.in_bounds_p(c) && f.passable_p(c) && (#[trigger] f.dist_p(c)) is Finite ==> {
            &&& w.dom().contains(c)
            &&& path_ok(f, dest, w[c], c)
            &&& path_cost(w[c]) == dist_of(f.dist_p(c))
        }
}

/// A cell is accounted for: either already fully relaxed, or the worklist
/// still holds an entry carrying the cell's current distance.
spec fn cell_covered(f: CellField, q: Seq<((i64, i64), Dist)>, a: (i64, i64)) -> bool {
    cell_relaxed(f, a) || exists|i: int|
        0 <= i < q.len() && (#[trigger] q[i]).0 == a && Distance::Finite(q[i].1) == f.dist_p(a)
}

/// Every finite passable cell other than `ex` is accounted for.
spec fn covers_except(f: CellField, q: Seq<((i64, i64), Dist)>, ex: (i64, i64)) -> bool {
    forall|a: (i64, i64)|
        a != ex && f.in_bounds_p(a) && f.passable_p(a) && (#[trigger] f.dist_p(a)) is Finite
            ==> cell_covered(f, q, a)
}

/// Every finite passable cell is accounted for.
spec fn covers_all(f: CellField, q: Seq<((i64, i64), Dist)>) -> bool {
    forall|a: (i64, i64)|
        f.in_bounds_p(a) && f.passable_p(a) && (#[trigger] f.dist_p(a)) is Finite ==> cell_covered(
            f,
            q,
            a,
        )
}

/// The first `i` neighbor steps out of `cpos` are relaxed against the
/// popped entry's value `v`.
spec fn partial_relaxed(f: CellField, cpos: (i64, i64), v: Dist, i: int) -> bool {
    forall|j: int|
        0 <= j < i && f.edge(cpos, #[trigger] step_to(cpos, j)) ==> distance_le(
            f.dist_p(step_to(cpos, j)),
            Distance::Finite(v.spec_plus_step(diagonal_step(cpos, step_to(cpos, j)))),
        )
}

/// The whole state the search loop maintains.
spec fn solve_loop_inv(
    of: CellField,
    f: CellField,
    dest: (i64, i64),
    q: Seq<((i64, i64), Dist)>,
    ps: Seq<Seq<(i64, i64)>>,
    w: Map<(i64, i64), Seq<(i64, i64)>>,
) -> bool {
    &&& dist_solve_frame(of, f)
    &&& of.in_bounds_p(dest)
    &&& of.passable_p(dest)
    &&& f.dist_p(dest) == Distance::Finite(dist_zero())
    &&& entries_ok(f, dest, q, ps)
    &&& cells_dist_ok(f, dest, w)
}

// ------------------------------------------------------------------
// the termination measure: a strictly shrinking weight of the distances
// ------------------------------------------------------------------

/// The weight of one distance: its linear measure, with infinity above
/// every bounded finite measure.
spec fn dmeas(d: Distance) -> int {
    match d {
        Distance::Infinite => 1_500_000_000_000_000_000,
        Distance::Finite(v) => dist_m(v),
    }
}

/// The total weight of a sequence of cells' distances.
spec fn cells_measure(s: Seq<Cell>) -> int
    decreases s.len(),
{
    if s.len() == 0 {
        0
    } else {
        dmeas(s[0].distance) + cells_measure(s.drop_first())
    }
}

/// The total weight of a field's distances.
spec fn field_measure(f: CellField) -> int {
    cells_measure(f.cells@)
}

proof fn lemma_dmeas_bounds(d: Distance)
    requires
        distance_wf(d),
    ensures
        0 <= dmeas(d) <= 1_500_000_000_000_000_000,
{
    match d {
        Distance::Infinite => (),
        Distance::Finite(v) => {
            assert(dist_m(v) <= 1_414_213_562_373 * (v.ortho + v.diag));
            assert(1_414_213_562_373 * (v.ortho + v.diag) <= 1_414_213_562_373 * 1_000_000);
        },
    }
}

/// Lowering a bounded distance strictly lowers its weight.
proof fn lemma_dmeas_lt(x: Distance, y: Distance)
    requires
        distance_lt(x, y),
        distance_wf(x),
        distance_wf(y),
    ensures
        dmeas(x) < dmeas(y),
{
    match (x, y) {
        (Distance::Finite(xd), Distance::Finite(yd)) => {
            lemma_dist_le_iff_m(yd, xd);
        },
        (Distance::Finite(xd), Distance::Infinite) => {
            lemma_dmeas_bounds(x);
            assert(dist_m(xd) <= 1_414_213_562_373 * (xd.ortho + xd.diag));
            assert(1_414_213_562_373 * (xd.ortho + xd.diag) <= 1_414_213_562_373 * 1_000_000);
        },
        _ => (),
    }
}

proof fn lemma_cells_measure_nonneg(s: Seq<Cell>)
    requires
        forall|j: int| 0 <= j < s.len() ==> distance_wf((#[trigger] s[j]).distance),
    ensures
        cells_measure(s) >= 0,
    decreases s.len(),
{
    if s.len() > 0 {
        lemma_dmeas_bounds(s[0].distance);
        lemma_cells_measure_nonneg(s.drop_first());
    }
}

proof fn lemma_cells_measure_congruent(s1: Seq<Cell>, s2: Seq<Cell>)
    requires
        s1.len() == s2.len(),
        forall|j: int| 0 <= j < s1.len() ==> (#[trigger] s1[j]).distance == s2[j].distance,
    ensures
        cells_measure(s1) == cells_measure(s2),
    decreases s1.len(),
{
    if s1.len() > 0 {
        lemma_cells_measure_congruent(s1.drop_first(), s2.drop_first());
    }
}

/// Strictly lowering one cell's weight strictly lowers the total.
proof fn lemma_cells_measure_update(s1: Seq<Cell>, s2: Seq<Cell>, i: int)
    requires
        s1.len() == s2.len(),
        0 <= i < s1.len(),
        forall|j: int| 0 <= j < s1.len() && j != i ==> (#[trigger] s2[j]).distance == s1[j].distance,
        dmeas(s2[i].distance) < dmeas(s1[i].distance),
    ensures
        cells_measure(s2) < cells_measure(s1),
    decreases s1.len(),
{
    if i == 0 {
        lemma_cells_measure_congruent(s1.drop_first(), s2.drop_first());
    } else {
        lemma_cells_measure_update(s1.drop_first(), s2.drop_first(), i - 1);
    }
}

/// Each in-storage cell of a well-formed field holds a bounded distance.
proof fn lemma_field_dists_wf(f: CellField)
    requires
        f.wf(),
    ensures
        forall|j: int| 0 <= j < f.cells@.len() ==> distance_wf((#[trigger] f.cells@[j]).distance),
{
    assert forall|j: int| 0 <= j < f.cells@.len() implies distance_wf(
        (#[trigger] f.cells@[j]).distance,
    ) by {
        let rows = f.rows as int;
        let c = j / rows;
        let r = j % rows;
        vstd::arithmetic::div_mod::lemma_fundamental_div_mod(j, rows);
        assert(0 <= r < rows) by {
            vstd::arithmetic::div_mod::lemma_mod_bound(j, rows);
        }
        assert(0 <= c < f.cols as int) by (nonlinear_arith)
            requires
                j == rows * c + r,
                0 <= j < f.cols as int * rows,
                0 <= r < rows,
                1 <= rows,
        ;
        assert(c * rows + r == j) by (nonlinear_arith)
            requires
                j == rows * c + r,
        ;
        assert(f.spec_cell(c, r) == f.cells@[j]);
        assert(distance_wf(f.spec_cell(c, r).distance));
    }
}

/// The total weight drops when one coordinate's distance drops.
proof fn lemma_field_measure_lower(fo: CellField, f2: CellField, c: int, r: int)
    requires
        fo.wf(),
        f2.wf(),
        fo.in_bounds(c, r),
        f2.cells@ == fo.cells@.update(fo.spec_idx(c, r), f2.spec_cell(c, r)),
        f2.cols == fo.cols,
        f2.rows == fo.rows,
        distance_lt(f2.spec_cell(c, r).distance, fo.spec_cell(c, r).distance),
    ensures
        field_measure(f2) < field_measure(fo),
{
    let i = fo.spec_idx(c, r);
    lemma_idx_in_storage(fo.cols as int, fo.rows as int, c, r);
    lemma_dmeas_lt(f2.spec_cell(c, r).distance, fo.spec_cell(c, r).distance);
    lemma_cells_measure_update(fo.cells@, f2.cells@, i);
}

/// Inside the grid, the storage index lies inside the storage.
proof fn lemma_idx_in_storage(cols: int, rows: int, c: int, r: int)
    by (nonlinear_arith)
    requires
        0 <= c < cols,
        0 <= r < rows,
    ensures
        0 <= c * rows + r < cols * rows,
{
}

// ------------------------------------------------------------------
// preservation: what survives lowering one cell's distance
// ------------------------------------------------------------------

/// The pointwise frame of one relaxation: only `nb`'s distance moved, and
/// it moved down.
spec fn lowered_at(fo: CellField, f2: CellField, nb: (i64, i64)) -> bool {
    &&& fo.wf()
    &&& f2.wf()
    &&& f2.cols == fo.cols
    &&& f2.rows == fo.rows
    &&& fo.in_bounds_p(nb)
    &&& forall|c: int, r: int|
        fo.in_bounds(c, r) && !(c == nb.0 as int && r == nb.1 as int)
            ==> #[trigger] f2.spec_cell(c, r) == fo.spec_cell(c, r)
    &&& f2.spec_cell_p(nb).state == fo.spec_cell_p(nb).state
    &&& f2.spec_cell_p(nb).direction == fo.spec_cell_p(nb).direction
    &&& distance_le(f2.dist_p(nb), fo.dist_p(nb))
}

proof fn lemma_lowered_same_topology(fo: CellField, f2: CellField, nb: (i64, i64))
    requires
        lowered_at(fo, f2, nb),
    ensures
        same_topology(fo, f2),
{
    assert forall|c: int, r: int| fo.in_bounds(c, r) implies #[trigger] fo.state_at(c, r)
        == f2.state_at(c, r) by {
        if !(c == nb.0 as int && r == nb.1 as int) {
            assert(f2.spec_cell(c, r) == fo.spec_cell(c, r));
        }
    }
}

/// The frame against the pre-solve field survives writing the distance of
/// a passable cell.
proof fn lemma_frame_after_set_distance(of: CellField, fo: CellField, f2: CellField, c: int, r: int)
    requires
        dist_solve_frame(of, fo),
        fo.in_bounds(c, r),
        fo.passable_at(c, r),
        f2.wf(),
        f2.cols == fo.cols,
        f2.rows == fo.rows,
        forall|c2: int, r2: int|
            fo.in_bounds(c2, r2) && !(c2 == c && r2 == r) ==> #[trigger] f2.spec_cell(c2, r2)
                == fo.spec_cell(c2, r2),
        f2.spec_cell(c, r).state == fo.spec_cell(c, r).state,
        f2.spec_cell(c, r).direction == fo.spec_cell(c, r).direction,
    ensures
        dist_solve_frame(of, f2),
{
    assert forall|c2: int, r2: int| of.in_bounds(c2, r2) implies #[trigger] of.state_at(c2, r2)
        == f2.state_at(c2, r2) by {
        if !(c2 == c && r2 == r) {
            assert(f2.spec_cell(c2, r2) == fo.spec_cell(c2, r2));
        }
    }
    assert forall|c2: int, r2: int| of.in_bounds(c2, r2) implies (#[trigger] f2.spec_cell(
        c2,
        r2,
    )).direction == of.spec_cell(c2, r2).direction by {
        if !(c2 == c && r2 == r) {
            assert(f2.spec_cell(c2, r2) == fo.spec_cell(c2, r2));
        }
    }
    assert forall|c2: int, r2: int|
        of.in_bounds(c2, r2) && !of.passable_at(c2, r2) implies (#[trigger] f2.spec_cell(
        c2,
        r2,
    )).distance == of.spec_cell(c2, r2).distance by {
        if !(c2 == c && r2 == r) {
            assert(f2.spec_cell(c2, r2) == fo.spec_cell(c2, r2));
        } else {
            assert(of.state_at(c2, r2) == fo.state_at(c2, r2));
            assert(false);
        }
    }
}

/// A worklist entry survives one lowering: its route is about terrain
/// only, and its prefix bounds only get easier.
proof fn lemma_entry_ok_after_lower(
    fo: CellField,
    f2: CellField,
    dest: (i64, i64),
    e: ((i64, i64), Dist),
    p: Seq<(i64, i64)>,
    nb: (i64, i64),
)
    requires
        lowered_at(fo, f2, nb),
        entry_ok(fo, dest, e, p),
    ensures
        entry_ok(f2, dest, e, p),
{
    lemma_lowered_same_topology(fo, f2, nb);
    lemma_path_ok_same_topology(fo, f2, dest, p, e.0);
    lemma_path_len_bound(fo, dest, p, e.0);
    lemma_mul_bounds_pos(fo.cols as int, fo.rows as int);
    assert forall|k: int| 0 <= k < p.len() implies distance_le(
        f2.dist_p(#[trigger] p[k]),
        Distance::Finite(path_cost(p.take(k + 1))),
    ) by {
        lemma_path_cost_len(p.take(k + 1));
        assert(distance_le(fo.dist_p(p[k]), Distance::Finite(path_cost(p.take(k + 1)))));
        if p[k] == nb {
            lemma_field_dist_wf_at(fo, p[k]);
            lemma_field_dist_wf_at(f2, p[k]);
            lemma_distance_le_trans(
                f2.dist_p(p[k]),
                fo.dist_p(p[k]),
                Distance::Finite(path_cost(p.take(k + 1))),
            );
        } else {
            lemma_path_cell_in_bounds(fo, dest, p, e.0, k);
            assert(f2.spec_cell(p[k].0 as int, p[k].1 as int) == fo.spec_cell(
                p[k].0 as int,
                p[k].1 as int,
            ));
        }
    }
}

/// Each cell of a valid route is in bounds.
proof fn lemma_path_cell_in_bounds(
    f: CellField,
    dest: (i64, i64),
    p: Seq<(i64, i64)>,
    end: (i64, i64),
    k: int,
)
    requires
        path_ok(f, dest, p, end),
        0 <= k < p.len(),
        p.len() >= 2 || f.in_bounds_p(dest),
    ensures
        f.in_bounds_p(p[k]),
{
    if p.len() >= 2 {
        if k < p.len() - 1 {
            assert(f.edge(p[k], p[k + 1]));
        } else {
            assert(f.edge(p[k - 1], p[k - 1 + 1]));
        }
    }
}

/// A well-formed field stores a bounded distance at each in-bounds cell.
proof fn lemma_field_dist_wf_at(f: CellField, a: (i64, i64))
    requires
        f.wf(),
        f.in_bounds_p(a),
    ensures
        distance_wf(f.dist_p(a)),
{
}

/// A fully relaxed cell other than the lowered one stays fully relaxed.
proof fn lemma_cell_relaxed_after_lower(
    fo: CellField,
    f2: CellField,
    a: (i64, i64),
    nb: (i64, i64),
)
    requires
        lowered_at(fo, f2, nb),
        cell_relaxed(fo, a),
        a != nb,
        fo.in_bounds_p(a),
    ensures
        cell_relaxed(f2, a),
{
    lemma_lowered_same_topology(fo, f2, nb);
    assert(f2.spec_cell(a.0 as int, a.1 as int) == fo.spec_cell(a.0 as int, a.1 as int));
    assert forall|b: (i64, i64)| #[trigger] f2.edge(a, b) implies distance_le(
        f2.dist_p(b),
        relax_bound(f2, a, b),
    ) by {
        lemma_edge_same_topology(fo, f2, a, b);
        assert(fo.edge(a, b));
        assert(distance_le(fo.dist_p(b), relax_bound(fo, a, b)));
        assert(relax_bound(f2, a, b) == relax_bound(fo, a, b));
        if b == nb {
            lemma_field_dist_wf_at(fo, b);
            lemma_field_dist_wf_at(f2, b);
            lemma_field_dist_wf_at(fo, a);
            lemma_distance_le_trans(f2.dist_p(b), fo.dist_p(b), relax_bound(fo, a, b));
        } else {
            assert(f2.spec_cell(b.0 as int, b.1 as int) == fo.spec_cell(b.0 as int, b.1 as int));
        }
    }
}

/// Distinct neighbor offsets from the same cell land on distinct cells.
proof fn lemma_step_to_distinct(a: (i64, i64), i: int, j: int)
    requires
        0 <= i < 8,
        0 <= j < 8,
        i != j,
        0 <= a.0 <= 0x10_0000,
        0 <= a.1 <= 0x10_0000,
    ensures
        step_to(a, i) != step_to(a, j),
{
    assert(neighbor_offset(i) != neighbor_offset(j));
}

/// A worklist entry always names a passable cell whose stored distance is
/// finite: the destination itself, or the target of an allowed step.
proof fn lemma_entry_cell_passable(
    f: CellField,
    dest: (i64, i64),
    e: ((i64, i64), Dist),
    p: Seq<(i64, i64)>,
)
    requires
        f.wf(),
        entry_ok(f, dest, e, p),
        f.passable_p(dest),
    ensures
        f.passable_p(e.0),
        f.dist_p(e.0) is Finite,
{
    let n = p.len() as int;
    if n >= 2 {
        assert(f.edge(p[n - 2], p[n - 2 + 1]));
        assert(p[n - 1] == e.0);
    } else {
        assert(p[0] == dest && p[0] == e.0);
    }
    assert(distance_le(f.dist_p(p[n - 1]), Distance::Finite(path_cost(p.take(n)))));
    assert(p.take(n) =~= p);
}

/// Popping the front entry keeps every remaining entry witnessed and every
/// cell accounted for, except possibly the popped cell itself when the
/// entry carried its current distance.
#[verifier::rlimit(100)]
#[verifier::spinoff_prover]
proof fn lemma_after_pop(
    f: CellField,
    dest: (i64, i64),
    q_before: Seq<((i64, i64), Dist)>,
    ps_before: Seq<Seq<(i64, i64)>>,
    q_after: Seq<((i64, i64), Dist)>,
    ps_after: Seq<Seq<(i64, i64)>>,
    cpos: (i64, i64),
    v: Dist,
)
    requires
        entries_ok(f, dest, q_before, ps_before),
        covers_all(f, q_before),
        q_before.len() >= 1,
        q_before[0] == (cpos, v),
        q_after == q_before.subrange(1, q_before.len() as int),
        ps_after == ps_before.drop_first(),
    ensures
        entries_ok(f, dest, q_after, ps_after),
        entry_ok(f, dest, (cpos, v), ps_before[0]),
        covers_except(f, q_after, cpos),
        Distance::Finite(v) != f.dist_p(cpos) && f.in_bounds_p(cpos) && f.passable_p(cpos)
            && f.dist_p(cpos) is Finite ==> cell_covered(f, q_after, cpos),
{
    assert forall|i: int| 0 <= i < q_after.len() implies entry_ok(
        f,
        dest,
        #[trigger] q_after[i],
        ps_after[i],
    ) by {
        assert(q_after[i] == q_before[i + 1]);
        assert(entry_ok(f, dest, q_before[i + 1], ps_before[i + 1]));
    }
    assert(entry_ok(f, dest, q_before[0], ps_before[0]));
    assert forall|a: (i64, i64)|
        a != cpos && f.in_bounds_p(a) && f.passable_p(a) && (#[trigger] f.dist_p(a)) is Finite
        implies cell_covered(f, q_after, a) by {
        assert(cell_covered(f, q_before, a));
        if !cell_relaxed(f, a) {
            let i = choose|i: int|
                0 <= i < q_before.len() && (#[trigger] q_before[i]).0 == a && Distance::Finite(
                    q_before[i].1,
                ) == f.dist_p(a);
            assert(i >= 1);
            assert(q_after[i - 1] == q_before[i]);
        }
    }
    if Distance::Finite(v) != f.dist_p(cpos) && f.in_bounds_p(cpos) && f.passable_p(cpos)
        && f.dist_p(cpos) is Finite {
        assert(cell_covered(f, q_before, cpos));
        if !cell_relaxed(f, cpos) {
            let i = choose|i: int|
                0 <= i < q_before.len() && (#[trigger] q_before[i]).0 == cpos && Distance::Finite(
                    q_before[i].1,
                ) == f.dist_p(cpos);
            assert(i >= 1);
            assert(q_after[i - 1] == q_before[i]);
        }
    }
}

/// A cell accounted for on top of coverage of all the others restores full
/// coverage.
proof fn lemma_covers_restore(
    f: CellField,
    q: Seq<((i64, i64), Dist)>,
    cpos: (i64, i64),
)
    requires
        covers_except(f, q, cpos),
        cell_covered(f, q, cpos),
    ensures
        covers_all(f, q),
{
}

/// An accepted relaxation lands on a cell that is neither the destination
/// nor anywhere on the popped entry's witness route, and its candidate
/// stays bounded.
proof fn lemma_accept_fresh_cell(
    f: CellField,
    dest: (i64, i64),
    e: ((i64, i64), Dist),
    pe: Seq<(i64, i64)>,
    nb: (i64, i64),
    cand: Dist,
)
    requires
        f.wf(),
        entry_ok(f, dest, e, pe),
        f.edge(e.0, nb),
        cand == e.1.spec_plus_step(diagonal_step(e.0, nb)),
        distance_lt(Distance::Finite(cand), f.dist_p(nb)),
        f.dist_p(dest) == Distance::Finite(dist_zero()),
        e.1.ortho + e.1.diag + 1 <= crate::dist::MAX_CELLS,
    ensures
        !pe.contains(nb),
        nb != dest,
        dist_wf(cand),
        nb != e.0,
{
    lemma_path_len_bound(f, dest, pe, e.0);
    lemma_mul_bounds_pos(f.cols as int, f.rows as int);
    lemma_path_cost_len(pe);
    lemma_dist_lt_plus_step(e.1, diagonal_step(e.0, nb));
    if nb == dest {
        lemma_dist_zero_le(cand);
        assert(false);
    }
    if pe.contains(nb) {
        let k = choose|k: int| 0 <= k < pe.len() && pe[k] == nb;
        assert(distance_le(f.dist_p(pe[k]), Distance::Finite(path_cost(pe.take(k + 1)))));
        lemma_path_cost_prefix_le(pe, k + 1);
        lemma_path_cost_len(pe.take(k + 1));
        lemma_field_dist_wf_at(f, nb);
        lemma_distance_le_trans(
            f.dist_p(nb),
            Distance::Finite(path_cost(pe.take(k + 1))),
            Distance::Finite(path_cost(pe)),
        );
        lemma_distance_le_total(Distance::Finite(cand), Distance::Finite(e.1));
        assert(distance_le(Distance::Finite(e.1), Distance::Finite(cand)));
        lemma_distance_le_trans(
            f.dist_p(nb),
            Distance::Finite(path_cost(pe)),
            Distance::Finite(cand),
        );
        assert(false);
    }
}

/// Everything the inner loop maintains, re-established after one accepted
/// relaxation: the write of `Finite(cand)` at `nb` and the push of the new
/// entry.
#[verifier::rlimit(100)]
#[verifier::spinoff_prover]
proof fn lemma_after_accept(
    of: CellField,
    fo: CellField,
    f2: CellField,
    dest: (i64, i64),
    q_old: Seq<((i64, i64), Dist)>,
    ps_old: Seq<Seq<(i64, i64)>>,
    w_old: Map<(i64, i64), Seq<(i64, i64)>>,
    cpos: (i64, i64),
    v: Dist,
    pe: Seq<(i64, i64)>,
    nb: (i64, i64),
    cand: Dist,
    np: Seq<(i64, i64)>,
    i: int,
)
    requires
        lowered_at(fo, f2, nb),
        dist_solve_frame(of, fo),
        entries_ok(fo, dest, q_old, ps_old),
        entry_ok(fo, dest, (cpos, v), pe),
        cells_dist_ok(fo, dest, w_old),
        fo.in_bounds_p(dest),
        fo.dist_p(dest) == Distance::Finite(dist_zero()),
        fo.passable_p(cpos),
        fo.dist_p(cpos) is Finite,
        covers_except(fo, q_old, cpos),
        partial_relaxed(fo, cpos, v, i),
        0 <= i < 8,
        fo.edge(cpos, nb),
        nb == step_to(cpos, i),
        nb != dest,
        nb != cpos,
        !pe.contains(nb),
        cand == v.spec_plus_step(diagonal_step(cpos, nb)),
        f2.dist_p(nb) == Distance::Finite(cand),
        np == pe.push(nb),
        path_ok(f2, dest, np, nb),
        path_cost(np) == cand,
    ensures
        dist_solve_frame(of, f2),
        entries_ok(f2, dest, q_old.push((nb, cand)), ps_old.push(np)),
        entry_ok(f2, dest, (cpos, v), pe),
        cells_dist_ok(f2, dest, w_old.insert(nb, np)),
        f2.dist_p(dest) == Distance::Finite(dist_zero()),
        covers_except(f2, q_old.push((nb, cand)), cpos),
        cell_covered(fo, q_old, cpos) ==> cell_covered(f2, q_old.push((nb, cand)), cpos),
        partial_relaxed(f2, cpos, v, i + 1),
        f2.dist_p(cpos) == fo.dist_p(cpos),
{
    let q2 = q_old.push((nb, cand));
    let ps2 = ps_old.push(np);
    let w2 = w_old.insert(nb, np);
    lemma_mul_bounds_pos(fo.cols as int, fo.rows as int);
    lemma_lowered_same_topology(fo, f2, nb);
    assert(fo.passable_p(nb));
    lemma_frame_after_set_distance(
        of,
        fo,
        f2,
        nb.0 as int,
        nb.1 as int,
    );
    // the destination and the popped cell keep their distances
    assert(f2.spec_cell(dest.0 as int, dest.1 as int) == fo.spec_cell(
        dest.0 as int,
        dest.1 as int,
    ));
    assert(f2.spec_cell(cpos.0 as int, cpos.1 as int) == fo.spec_cell(
        cpos.0 as int,
        cpos.1 as int,
    ));

    // worklist entries, old and new
    assert forall|k: int| 0 <= k < q2.len() implies entry_ok(f2, dest, #[trigger] q2[k], ps2[k]) by {
        if k < q_old.len() {
            assert(entry_ok(fo, dest, q_old[k], ps_old[k]));
            lemma_entry_ok_after_lower(fo, f2, dest, q_old[k], ps_old[k], nb);
        } else {
            lemma_new_entry_ok(fo, f2, dest, (cpos, v), pe, nb, cand, np);
        }
    }
    lemma_entry_ok_after_lower(fo, f2, dest, (cpos, v), pe, nb);

    // per-cell witness routes
    assert forall|c: (i64, i64)|
        f2.in_bounds_p(c) && f2.passable_p(c) && (#[trigger] f2.dist_p(c)) is Finite implies {
        &&& w2.dom().contains(c)
        &&& path_ok(f2, dest, w2[c], c)
        &&& path_cost(w2[c]) == dist_of(f2.dist_p(c))
    } by {
        if c == nb {
            assert(w2[nb] == np);
        } else {
            assert(f2.spec_cell(c.0 as int, c.1 as int) == fo.spec_cell(c.0 as int, c.1 as int));
            assert(fo.in_bounds_p(c) && fo.passable_p(c) && fo.dist_p(c) is Finite);
            lemma_path_ok_same_topology(fo, f2, dest, w_old[c], c);
            assert(w2[c] == w_old[c]);
        }
    }

    // coverage of every cell but the popped one
    assert forall|a: (i64, i64)|
        a != cpos && f2.in_bounds_p(a) && f2.passable_p(a) && (#[trigger] f2.dist_p(a)) is Finite
        implies cell_covered(f2, q2, a) by {
        lemma_covered_after_accept(fo, f2, q_old, a, nb, cand);
    }
    if cell_covered(fo, q_old, cpos) {
        lemma_covered_after_accept(fo, f2, q_old, cpos, nb, cand);
    }

    // one more neighbor relaxed
    assert forall|j: int|
        0 <= j < i + 1 && f2.edge(cpos, #[trigger] step_to(cpos, j)) implies distance_le(
        f2.dist_p(step_to(cpos, j)),
        Distance::Finite(v.spec_plus_step(diagonal_step(cpos, step_to(cpos, j)))),
    ) by {
        let b = step_to(cpos, j);
        if j == i {
            assert(b == nb);
        } else {
            lemma_step_to_distinct(cpos, i, j);
            assert(b != nb);
            lemma_edge_same_topology(fo, f2, cpos, b);
            assert(fo.edge(cpos, b));
            assert(distance_le(
                fo.dist_p(b),
                Distance::Finite(v.spec_plus_step(diagonal_step(cpos, b))),
            ));
            assert(f2.spec_cell(b.0 as int, b.1 as int) == fo.spec_cell(b.0 as int, b.1 as int));
        }
    }
}

/// The pushed entry is well-formed: its new route extends the popped one.
proof fn lemma_new_entry_ok(
    fo: CellField,
    f2: CellField,
    dest: (i64, i64),
    e: ((i64, i64), Dist),
    pe: Seq<(i64, i64)>,
    nb: (i64, i64),
    cand: Dist,
    np: Seq<(i64, i64)>,
)
    requires
        lowered_at(fo, f2, nb),
        entry_ok(fo, dest, e, pe),
        !pe.contains(nb),
        np == pe.push(nb),
        path_ok(f2, dest, np, nb),
        path_cost(np) == cand,
        f2.dist_p(nb) == Distance::Finite(cand),
    ensures
        entry_ok(f2, dest, (nb, cand), np),
{
    assert forall|k: int| 0 <= k < np.len() implies distance_le(
        f2.dist_p(#[trigger] np[k]),
        Distance::Finite(path_cost(np.take(k + 1))),
    ) by {
        if k < pe.len() {
            assert(np[k] == pe[k]);
            assert(np.take(k + 1) =~= pe.take(k + 1));
            assert(distance_le(fo.dist_p(pe[k]), Distance::Finite(path_cost(pe.take(k + 1)))));
            assert(pe[k] != nb);
            lemma_path_cell_in_bounds(fo, dest, pe, e.0, k);
            assert(f2.spec_cell(pe[k].0 as int, pe[k].1 as int) == fo.spec_cell(
                pe[k].0 as int,
                pe[k].1 as int,
            ));
        } else {
            assert(np[k] == nb);
            assert(np.take(k + 1) =~= np);
        }
    }
}

/// Coverage of a cell other than the lowered one survives the write and
/// the push.
proof fn lemma_covered_after_accept(
    fo: CellField,
    f2: CellField,
    q_old: Seq<((i64, i64), Dist)>,
    a: (i64, i64),
    nb: (i64, i64),
    cand: Dist,
)
    requires
        lowered_at(fo, f2, nb),
        f2.in_bounds_p(a),
        f2.passable_p(a),
        f2.dist_p(a) is Finite,
        a == nb || cell_covered(fo, q_old, a),
        f2.dist_p(nb) == Distance::Finite(cand),
    ensures
        cell_covered(f2, q_old.push((nb, cand)), a),
{
    let q2 = q_old.push((nb, cand));
    if a == nb {
        assert(q2[q_old.len() as int].0 == a && Distance::Finite(q2[q_old.len() as int].1)
            == f2.dist_p(a));
    } else {
        assert(f2.spec_cell(a.0 as int, a.1 as int) == fo.spec_cell(a.0 as int, a.1 as int));
        if cell_relaxed(fo, a) {
            lemma_cell_relaxed_after_lower(fo, f2, a, nb);
        } else {
            let i = choose|i: int|
                0 <= i < q_old.len() && (#[trigger] q_old[i]).0 == a && Distance::Finite(
                    q_old[i].1,
                ) == fo.dist_p(a);
            assert(q2[i].0 == a && Distance::Finite(q2[i].1) == f2.dist_p(a));
        }
    }
}

/// When every neighbor step of the popped cell has been relaxed against the
/// entry's value, and that value is still the cell's distance, the cell is
/// fully relaxed.
proof fn lemma_fresh_fully_relaxed(f: CellField, cpos: (i64, i64), v: Dist)
    requires
        f.wf(),
        f.in_bounds_p(cpos),
        partial_relaxed(f, cpos, v, 8),
        f.dist_p(cpos) == Distance::Finite(v),
    ensures
        cell_relaxed(f, cpos),
{
    assert forall|b: (i64, i64)| #[trigger] f.edge(cpos, b) implies distance_le(
        f.dist_p(b),
        relax_bound(f, cpos, b),
    ) by {
        f.lemma_adjacent_is_offset(cpos, b);
        let j = choose|j: int| 0 <= j < 8 && b == step_to(cpos, j);
        assert(f.edge(cpos, step_to(cpos, j)));
        assert(distance_le(
            f.dist_p(step_to(cpos, j)),
            Distance::Finite(v.spec_plus_step(diagonal_step(cpos, step_to(cpos, j)))),
        ));
    }
}

/// Any valid route bounds the stored distance of its endpoint once every
/// step is relaxed: by induction along the route.
proof fn lemma_relaxed_path_bound(
    f: CellField,
    dest: (i64, i64),
    p: Seq<(i64, i64)>,
    c: (i64, i64),
)
    requires
        f.wf(),
        relaxed_all(f),
        f.dist_p(dest) == Distance::Finite(dist_zero()),
        f.in_bounds_p(dest),
        f.passable_p(dest),
        path_ok(f, dest, p, c),
    ensures
        distance_le(f.dist_p(c), Distance::Finite(path_cost(p))),
    decreases p.len(),
{
    lemma_path_len_bound(f, dest, p, c);
    lemma_mul_bounds_pos(f.cols as int, f.rows as int);
    lemma_path_cost_len(p);
    if p.len() == 1 {
        assert(c == dest);
    } else {
        let n = p.len() as int;
        let prev = p[n - 2];
        let q = p.take(n - 1);
        lemma_path_ok_prefix(f, dest, p, c, n - 1);
        lemma_relaxed_path_bound(f, dest, q, prev);
        lemma_path_cost_len(q);
        // the previous cell is passable: it is the destination, or an edge
        // leads into it
        if n - 2 > 0 {
            assert(f.edge(p[n - 3], p[n - 3 + 1]));
        }
        assert(f.in_bounds_p(prev) && f.passable_p(prev));
        assert(f.dist_p(prev) is Finite);
        assert(cell_relaxed(f, prev));
        assert(f.edge(p[n - 2], p[n - 2 + 1]));
        assert(f.edge(prev, c));
        assert(distance_le(f.dist_p(c), relax_bound(f, prev, c)));
        let dv = dist_of(f.dist_p(prev));
        let diag = diagonal_step(prev, c);
        lemma_field_dist_wf_at(f, prev);
        lemma_dist_le_plus_step(dv, path_cost(q), diag);
        assert(p.drop_last() =~= q);
        assert(path_cost(p) == path_cost(q).spec_plus_step(diag));
        lemma_path_cell_in_bounds(f, dest, p, c, n - 1);
        lemma_field_dist_wf_at(f, c);
        lemma_distance_le_trans(
            f.dist_p(c),
            relax_bound(f, prev, c),
            Distance::Finite(path_cost(p)),
        );
    }
}

/// At exit, with the worklist drained, the field is solved.
proof fn lemma_solved_at_exit(
    of: CellField,
    f: CellField,
    dest: (i64, i64),
    w: Map<(i64, i64), Seq<(i64, i64)>>,
)
    requires
        dist_solve_frame(of, f),
        of.in_bounds_p(dest),
        of.passable_p(dest),
        f.dist_p(dest) == Distance::Finite(dist_zero()),
        cells_dist_ok(f, dest, w),
        covers_all(f, Seq::<((i64, i64), Dist)>::empty()),
    ensures
        dist_field_solved(f, dest),
{
    assert(f.in_bounds_p(dest));
    assert(f.state_at(dest.0 as int, dest.1 as int) == of.state_at(dest.0 as int, dest.1 as int));
    assert(f.passable_p(dest));
    assert forall|a: (i64, i64)|
        f.in_bounds_p(a) && f.passable_p(a) && (#[trigger] f.dist_p(a)) is Finite implies
        cell_relaxed(f, a) by {
        assert(cell_covered(f, Seq::<((i64, i64), Dist)>::empty(), a));
    }
    assert(relaxed_all(f));
    assert forall|c: (i64, i64)|
        f.in_bounds_p(c) && f.passable_p(c) && (#[trigger] f.dist_p(c)) is Finite implies exists|
        p: Seq<(i64, i64)>,
    | path_ok(f, dest, p, c) && path_cost(p) == dist_of(f.dist_p(c)) by {
        assert(path_ok(f, dest, w[c], c) && path_cost(w[c]) == dist_of(f.dist_p(c)));
    }
    assert forall|p: Seq<(i64, i64)>, c: (i64, i64)| #[trigger] path_ok(f, dest, p, c) implies
        distance_le(f.dist_p(c), Distance::Finite(path_cost(p))) by {
        lemma_relaxed_path_bound(f, dest, p, c);
    }
}

// ------------------------------------------------------------------
// the solver
// ------------------------------------------------------------------

/// Recomputes the whole distance field for `dest`.
///
/// Rejects a destination outside the grid with `OutOfBounds` and an
/// impassable one with `InvalidDestination`, leaving the field untouched.
/// On success the distances satisfy [`dist_field_solved`]: exactly the
/// shortest corner-respecting route costs, infinite where no route exists.
/// Terrain, directions, and the distances of impassable cells are left as
/// they were.
#[verifier::rlimit(100)]
pub fn solve_distance_field(field: &mut CellField, dest: (i64, i64)) -> (res: Result<
    (),
    FieldError,
>)
    requires
        old(field).wf(),
    ensures
        final(field).wf(),
        final(field).cols == old(field).cols,
        final(field).rows == old(field).rows,
        match res {
            Ok(()) => {
                &&& old(field).in_bounds_p(dest)
                &&& old(field).passable_p(dest)
                &&& dist_solve_frame(*old(field), *final(field))
                &&& dist_field_solved(*final(field), dest)
            },
            Err(e) => {
                &&& *final(field) == *old(field)
                &&& (e == FieldError::OutOfBounds <==> !old(field).in_bounds_p(dest))
                &&& (e == FieldError::InvalidDestination <==> old(field).in_bounds_p(dest)
                    && !old(field).passable_p(dest))
            },
        },
{
    proof {
        lemma_mul_bounds_pos(field.cols as int, field.rows as int);
    }
    let cols = field.num_cols();
    let rows = field.num_rows();
    if dest.0 < 0 || dest.0 >= cols as i64 || dest.1 < 0 || dest.1 >= rows as i64 {
        return Err(FieldError::OutOfBounds);
    }
    if !field.cell_at(dest.0 as usize, dest.1 as usize).is_passable() {
        return Err(FieldError::InvalidDestination);
    }

    // reset: every passable cell becomes unreached
    let mut c: usize = 0;
    while c < cols
        invariant
            0 <= c <= cols,
            cols == old(field).cols,
            rows == old(field).rows,
            dist_solve_frame(*old(field), *field),
            forall|c2: int, r2: int|
                old(field).in_bounds(c2, r2) && c2 < c && old(field).passable_at(c2, r2)
                    ==> (#[trigger] field.spec_cell(c2, r2)).distance == Distance::Infinite,
        decreases cols - c,
    {
        let mut r: usize = 0;
        while r < rows
            invariant
                0 <= c < cols,
                0 <= r <= rows,
                cols == old(field).cols,
                rows == old(field).rows,
                dist_solve_frame(*old(field), *field),
                forall|c2: int, r2: int|
                    old(field).in_bounds(c2, r2) && c2 < c && old(field).passable_at(c2, r2)
                        ==> (#[trigger] field.spec_cell(c2, r2)).distance == Distance::Infinite,
                forall|r2: int|
                    0 <= r2 < r && old(field).passable_at(c as int, r2)
                        ==> (#[trigger] field.spec_cell(c as int, r2)).distance
                        == Distance::Infinite,
            decreases rows - r,
        {
            if field.cell_at(c, r).is_passable() {
                let ghost f_prev = *field;
                field.set_distance(c, r, Distance::Infinite);
                proof {
                    assert(f_prev.passable_at(c as int, r as int)) by {
                        assert(f_prev.state_at(c as int, r as int) == old(field).state_at(
                            c as int,
                            r as int,
                        ));
                    }
                    lemma_frame_after_set_distance(*old(field), f_prev, *field, c as int, r as int);
                }
            }
            r = r + 1;
        }
        c = c + 1;
    }
    let ghost f_reset = *field;
    field.set_distance(dest.0 as usize, dest.1 as usize, Distance::Finite(Dist::zero()));
    proof {
        lemma_frame_after_set_distance(
            *old(field),
            f_reset,
            *field,
            dest.0 as int,
            dest.1 as int,
        );
    }

    // the worklist, each entry shadowed by a ghost witness route
    let mut queue: VecDeque<((i64, i64), Dist)> = VecDeque::new();
    queue.push_back((dest, Dist::zero()));
    let ghost dest_path: Seq<(i64, i64)> = seq![dest];
    let ghost mut paths: Seq<Seq<(i64, i64)>> = seq![dest_path];
    let ghost mut wit: Map<(i64, i64), Seq<(i64, i64)>> = Map::empty().insert(dest, dest_path);

    proof {
        assert(path_cost(dest_path) == dist_zero());
        assert(path_ok(*field, dest, dest_path, dest));
        assert(dest_path.take(1) =~= dest_path);
        assert(entry_ok(*field, dest, (dest, Dist { ortho: 0, diag: 0 }), dest_path));
        assert forall|a: (i64, i64)|
            field.in_bounds_p(a) && field.passable_p(a) && (#[trigger] field.dist_p(a)) is Finite
            implies a == dest by {
            if a != dest {
                assert(field.spec_cell(a.0 as int, a.1 as int).distance == Distance::Infinite);
            }
        }
        assert(cell_covered(*field, queue@, dest)) by {
            assert(queue@[0].0 == dest && Distance::Finite(queue@[0].1) == field.dist_p(dest));
        }
    }

    while queue.len() > 0
        invariant
            solve_loop_inv(*old(field), *field, dest, queue@, paths, wit),
            covers_all(*field, queue@),
        decreases field_measure(*field), queue@.len(),
    {
        proof {
            lemma_field_dists_wf(*field);
            lemma_cells_measure_nonneg(field.cells@);
        }
        let ghost q_before = queue@;
        let ghost ps_before = paths;
        let popped = queue.pop_front();
        match popped {
            None => {
                proof {
                    assert(false);
                }
            },
            Some((cpos, v)) => {
                let ghost pe = ps_before[0];
                proof {
                    paths = ps_before.drop_first();
                    lemma_after_pop(*field, dest, q_before, ps_before, queue@, paths, cpos, v);
                    assert(field.passable_p(dest)) by {
                        assert(old(field).state_at(dest.0 as int, dest.1 as int) == field.state_at(
                            dest.0 as int,
                            dest.1 as int,
                        ));
                    }
                    lemma_entry_cell_passable(*field, dest, (cpos, v), pe);
                }
                let ghost m0 = field_measure(*field);
                let ghost l0 = queue@.len();
                let ghost sv = field.dist_p(cpos);
                let ghost fresh = (Distance::Finite(v) == sv);

                let mut i: usize = 0;
                while i < 8
                    invariant
                        0 <= i <= 8,
                        solve_loop_inv(*old(field), *field, dest, queue@, paths, wit),
                        entry_ok(*field, dest, (cpos, v), pe),
                        field.dist_p(cpos) == sv,
                        covers_except(*field, queue@, cpos),
                        fresh == (Distance::Finite(v) == sv),
                        partial_relaxed(*field, cpos, v, i as int),
                        !fresh ==> cell_covered(*field, queue@, cpos),
                        field_measure(*field) <= m0,
                        queue@.len() >= l0,
                        queue@.len() > l0 ==> field_measure(*field) < m0,
                    decreases 8 - i,
                {
                    let ghost f_loop = *field;
                    match field.edge_check(cpos, i) {
                        None => {
                            proof {
                                assert(partial_relaxed(*field, cpos, v, i + 1)) by {
                                    assert(!field.edge(cpos, step_to(cpos, i as int)));
                                }
                            }
                        },
                        Some(nb) => {
                            proof {
                                lemma_path_len_bound(*field, dest, pe, cpos);
                                lemma_path_cost_len(pe);
                                lemma_mul_bounds_pos(field.cols as int, field.rows as int);
                            }
                            let o = neighbor_offset_at(i);
                            let diag = o.0 != 0 && o.1 != 0;
                            proof {
                                assert(diag == diagonal_step(cpos, nb));
                            }
                            let cand = v.plus_step(diag);
                            let nbd = field.cell_at(nb.0 as usize, nb.1 as usize).distance;
                            if Distance::Finite(cand).lt(nbd) {
                                let ghost np = pe.push(nb);
                                let ghost f_before = *field;
                                let ghost q_old = queue@;
                                let ghost ps_old = paths;
                                let ghost w_old = wit;
                                proof {
                                    lemma_accept_fresh_cell(
                                        *field,
                                        dest,
                                        (cpos, v),
                                        pe,
                                        nb,
                                        cand,
                                    );
                                    lemma_path_extend(*field, dest, pe, cpos, nb);
                                }
                                field.set_distance(
                                    nb.0 as usize,
                                    nb.1 as usize,
                                    Distance::Finite(cand),
                                );
                                queue.push_back((nb, cand));
                                proof {
                                    paths = ps_old.push(np);
                                    wit = w_old.insert(nb, np);
                                    lemma_distance_le_total(
                                        Distance::Finite(cand),
                                        f_before.dist_p(nb),
                                    );
                                    assert(lowered_at(f_before, *field, nb));
                                    lemma_lowered_same_topology(f_before, *field, nb);
                                    lemma_path_ok_same_topology(f_before, *field, dest, np, nb);
                                    assert(f_before.passable_p(dest)) by {
                                        assert(old(field).state_at(dest.0 as int, dest.1 as int)
                                            == f_before.state_at(dest.0 as int, dest.1 as int));
                                    }
                                    lemma_entry_cell_passable(f_before, dest, (cpos, v), pe);
                                    lemma_after_accept(
                                        *old(field),
                                        f_before,
                                        *field,
                                        dest,
                                        q_old,
                                        ps_old,
                                        w_old,
                                        cpos,
                                        v,
                                        pe,
                                        nb,
                                        cand,
                                        np,
                                        i as int,
                                    );
                                    lemma_field_measure_lower(
                                        f_before,
                                        *field,
                                        nb.0 as int,
                                        nb.1 as int,
                                    );
                                    assert(partial_relaxed(*field, cpos, v, i + 1));
                                }
                            } else {
                                proof {
                                    assert forall|j: int|
                                        0 <= j < i + 1 && field.edge(
                                            cpos,
                                            #[trigger] step_to(cpos, j),
                                        ) implies distance_le(
                                        field.dist_p(step_to(cpos, j)),
                                        Distance::Finite(
                                            v.spec_plus_step(diagonal_step(cpos, step_to(cpos, j))),
                                        ),
                                    ) by {
                                        if j == i {
                                            assert(step_to(cpos, j) == nb);
                                            assert(distance_le(
                                                field.dist_p(nb),
                                                Distance::Finite(cand),
                                            ));
                                        }
                                    }
                                }
                            }
                        },
                    }
                    i = i + 1;
                }
                proof {
                    if fresh {
                        lemma_fresh_fully_relaxed(*field, cpos, v);
                        assert(cell_covered(*field, queue@, cpos));
                    }
                    lemma_covers_restore(*field, queue@, cpos);
                    lemma_field_dists_wf(*field);
                    lemma_cells_measure_nonneg(field.cells@);
                }
            },
        }
    }

    proof {
        assert(queue@ =~= Seq::<((i64, i64), Dist)>::empty());
        lemma_solved_at_exit(*old(field), *field, dest, wit);
    }
    Ok(())
}

} // verus!
