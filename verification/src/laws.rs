//! Theorems that tie the solvers' contracts together: what a consumer of a
//! solved field may rely on across components.

use vstd::prelude::*;
use crate::cell::Direction;
use crate::dist::{Distance, dist_le, dist_of, distance_le, lemma_distance_le_antisym};
use crate::field::{CellField, diagonal_step, neighbor_offset, step_to};
use crate::paths::{path_cost, path_ok, same_topology, lemma_path_ok_same_topology};
use crate::solver::dist_field_solved;
use crate::direction::{best_upto, dir_candidate, dir_field_solved, spec_direction_of,
    lemma_best_upto_props, lemma_direction_of_congruent};

verus! {

/// A cell cut off from the destination keeps an infinite distance: a solved
/// field reads finite only where an actual route exists.
pub proof fn lemma_unreachable_infinite(f: CellField, dest: (i64, i64), c: (i64, i64))
    requires
        dist_field_solved(f, dest),
        f.in_bounds_p(c),
        f.passable_p(c),
        !(exists|p: Seq<(i64, i64)>| path_ok(f, dest, p, c)),
    ensures
        f.dist_p(c) == Distance::Infinite,
{
    if f.dist_p(c) is Finite {
        let p = choose|p: Seq<(i64, i64)>|
            path_ok(f, dest, p, c) && path_cost(p) == dist_of(f.dist_p(c));
        assert(path_ok(f, dest, p, c));
        assert(false);
    }
}

/// A cell with a route to the destination reads a finite distance, at most
/// that route's cost.
pub proof fn lemma_reachable_finite(
    f: CellField,
    dest: (i64, i64),
    p: Seq<(i64, i64)>,
    c: (i64, i64),
)
    requires
        dist_field_solved(f, dest),
        path_ok(f, dest, p, c),
    ensures
        f.dist_p(c) is Finite,
        distance_le(f.dist_p(c), Distance::Finite(path_cost(p))),
{
}

/// Corner-cutting prevention: wherever a valid route steps diagonally, at
/// least one of the two cells orthogonally adjacent to that step is
/// passable — a diagonal between two touching obstacles is never taken.
pub proof fn lemma_no_corner_cut(
    f: CellField,
    dest: (i64, i64),
    p: Seq<(i64, i64)>,
    end: (i64, i64),
    i: int,
)
    requires
        path_ok(f, dest, p, end),
        0 <= i < p.len() - 1,
        diagonal_step(p[i], p[i + 1]),
    ensures
        f.passable_p((p[i + 1].0, p[i].1)) || f.passable_p((p[i].0, p[i + 1].1)),
{
    assert(f.edge(p[i], p[i + 1]));
}

/// Solving is deterministic: two solved distance fields over the same
/// terrain and destination agree on every passable cell.  In particular,
/// solving twice in a row changes nothing.
pub proof fn lemma_solved_dist_unique(f1: CellField, f2: CellField, dest: (i64, i64))
    requires
        same_topology(f1, f2),
        dist_field_solved(f1, dest),
        dist_field_solved(f2, dest),
    ensures
        forall|a: (i64, i64)|
            f1.in_bounds_p(a) && f1.passable_p(a) ==> #[trigger] f1.dist_p(a) == f2.dist_p(a),
{
    assert forall|a: (i64, i64)|
        f1.in_bounds_p(a) && f1.passable_p(a) implies #[trigger] f1.dist_p(a) == f2.dist_p(a) by {
        lemma_same_topology_sym(f1, f2);
        assert(f2.in_bounds_p(a) && f2.passable_p(a)) by {
            assert(f1.state_at(a.0 as int, a.1 as int) == f2.state_at(a.0 as int, a.1 as int));
        }
        if f1.dist_p(a) is Finite {
            let p1 = choose|p: Seq<(i64, i64)>|
                path_ok(f1, dest, p, a) && path_cost(p) == dist_of(f1.dist_p(a));
            lemma_path_ok_same_topology(f1, f2, dest, p1, a);
            assert(path_ok(f2, dest, p1, a));
            assert(distance_le(f2.dist_p(a), Distance::Finite(path_cost(p1))));
            assert(distance_le(f2.dist_p(a), f1.dist_p(a)));
        }
        if f2.dist_p(a) is Finite {
            let p2 = choose|p: Seq<(i64, i64)>|
                path_ok(f2, dest, p, a) && path_cost(p) == dist_of(f2.dist_p(a));
            lemma_path_ok_same_topology(f2, f1, dest, p2, a);
            assert(path_ok(f1, dest, p2, a));
            assert(distance_le(f1.dist_p(a), Distance::Finite(path_cost(p2))));
            assert(distance_le(f1.dist_p(a), f2.dist_p(a)));
        }
        if f1.dist_p(a) is Finite || f2.dist_p(a) is Finite {
            lemma_distance_le_antisym(f1.dist_p(a), f2.dist_p(a));
        }
    }
}

/// Direction solving is deterministic too: equal terrain and equal passable
/// distances force equal directions everywhere.
#[verifier::rlimit(100)]
#[verifier::spinoff_prover]
pub proof fn lemma_solved_dir_unique(f1: CellField, f2: CellField, dest: (i64, i64))
    requires
        f1.wf(),
        f2.wf(),
        same_topology(f1, f2),
        f1.cols == f2.cols,
        f1.rows == f2.rows,
        forall|a: (i64, i64)|
            f1.in_bounds_p(a) && f1.passable_p(a) ==> #[trigger] f1.dist_p(a) == f2.dist_p(a),
        dir_field_solved(f1, dest),
        dir_field_solved(f2, dest),
    ensures
        forall|a: (i64, i64)|
            f1.in_bounds_p(a) ==> (#[trigger] f1.spec_cell_p(a)).direction == f2.spec_cell_p(
                a,
            ).direction,
{
    lemma_same_topology_sym(f1, f2);
    crate::field::lemma_mul_bounds_pos(f1.cols as int, f1.rows as int);
    assert forall|c: int, r: int|
        f1.in_bounds(c, r) && f1.passable_at(c, r) implies (#[trigger] f1.spec_cell(
        c,
        r,
    )).distance == f2.spec_cell(c, r).distance by {
        let a: (i64, i64) = (c as i64, r as i64);
        assert(f1.in_bounds_p(a) && f1.passable_p(a));
        assert(f1.dist_p(a) == f2.dist_p(a));
    }
    assert forall|a: (i64, i64)| f1.in_bounds_p(a) implies (#[trigger] f1.spec_cell_p(
        a,
    )).direction == f2.spec_cell_p(a).direction by {
        lemma_direction_of_congruent(f1, f2, dest, a);
        assert(f2.in_bounds_p(a));
    }
}

/// A defined direction is a single unit grid step (its components in
/// `{-1, 0, 1}`, not both zero) toward a reachable neighbor of minimal
/// distance; an undefined one means the cell is impassable, the
/// destination, or has no reachable neighbor with a finite distance.
pub proof fn lemma_direction_downhill(f: CellField, dest: (i64, i64), a: (i64, i64))
    requires
        f.wf(),
        dir_field_solved(f, dest),
        f.in_bounds_p(a),
    ensures
        match f.spec_cell_p(a).direction {
            Direction::Undefined => !(f.passable_p(a) && a != dest) || forall|j: int|
                0 <= j < 8 ==> !dir_candidate(f, a, j),
            Direction::Step { dc, dr } => {
                &&& -1 <= dc <= 1
                &&& -1 <= dr <= 1
                &&& !(dc == 0 && dr == 0)
                &&& exists|j: int|
                    {
                        &&& 0 <= j < 8
                        &&& neighbor_offset(j) == (dc as i64, dr as i64)
                        &&& #[trigger] dir_candidate(f, a, j)
                        &&& forall|k: int|
                            0 <= k < 8 && #[trigger] dir_candidate(f, a, k) ==> dist_le(
                                dist_of(f.dist_p(step_to(a, j))),
                                dist_of(f.dist_p(step_to(a, k))),
                            )
                    }
            },
        },
{
    assert(f.spec_cell_p(a).direction == spec_direction_of(f, dest, a));
    lemma_best_upto_props(f, a, 8);
    if f.passable_p(a) && a != dest {
        match best_upto(f, a, 8) {
            Option::None => (),
            Option::Some(j) => {
                assert(neighbor_offset(j) == (
                    neighbor_offset(j).0 as i8 as i64,
                    neighbor_offset(j).1 as i8 as i64,
                ));
            },
        }
    }
}

/// Terrain agreement is symmetric.
pub proof fn lemma_same_topology_sym(f1: CellField, f2: CellField)
    requires
        same_topology(f1, f2),
    ensures
        same_topology(f2, f1),
{
    assert forall|c: int, r: int| f2.in_bounds(c, r) implies #[trigger] f2.state_at(c, r)
        == f1.state_at(c, r) by {
        assert(f1.state_at(c, r) == f2.state_at(c, r));
    }
}

/// A solved distance field stays solved when only directions change:
/// solvedness is about dimensions, terrain and distances alone.
pub proof fn lemma_dist_solved_congruent(f1: CellField, f2: CellField, dest: (i64, i64))
    requires
        f1.wf(),
        f2.wf(),
        dist_field_solved(f1, dest),
        f1.in_bounds_p(dest),
        f1.cols == f2.cols,
        f1.rows == f2.rows,
        same_topology(f1, f2),
        forall|c: int, r: int|
            f1.in_bounds(c, r) ==> (#[trigger] f1.spec_cell(c, r)).distance == f2.spec_cell(
                c,
                r,
            ).distance,
    ensures
        dist_field_solved(f2, dest),
{
    lemma_same_topology_sym(f1, f2);
    assert(f2.dist_p(dest) == f1.dist_p(dest));
    assert forall|c: (i64, i64)|
        f2.in_bounds_p(c) && f2.passable_p(c) && (#[trigger] f2.dist_p(c)) is Finite implies exists|
        p: Seq<(i64, i64)>,
    | path_ok(f2, dest, p, c) && path_cost(p) == dist_of(f2.dist_p(c)) by {
        assert(f1.state_at(c.0 as int, c.1 as int) == f2.state_at(c.0 as int, c.1 as int));
        assert(f1.dist_p(c) == f2.dist_p(c));
        let p = choose|p: Seq<(i64, i64)>|
            path_ok(f1, dest, p, c) && path_cost(p) == dist_of(f1.dist_p(c));
        lemma_path_ok_same_topology(f1, f2, dest, p, c);
        assert(path_ok(f2, dest, p, c) && path_cost(p) == dist_of(f2.dist_p(c)));
    }
    assert forall|p: Seq<(i64, i64)>, c: (i64, i64)| #[trigger] path_ok(f2, dest, p, c) implies
        distance_le(f2.dist_p(c), Distance::Finite(path_cost(p))) by {
        lemma_path_ok_same_topology(f2, f1, dest, p, c);
        assert(distance_le(f1.dist_p(c), Distance::Finite(path_cost(p))));
        if p.len() >= 2 {
            let n = p.len() as int;
            assert(f1.edge(p[n - 2], p[n - 2 + 1]));
            assert(f1.in_bounds_p(c));
        } else {
            assert(c == dest);
        }
        assert(f1.dist_p(c) == f2.dist_p(c));
    }
}

} // verus!
