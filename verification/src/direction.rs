//! The direction field solver: derives each passable cell's steering
//! direction from a solved distance field.
//!
//! Every passable cell other than the destination points one grid step
//! toward its reachable neighbor with the smallest distance, ties broken by
//! the stable neighbor enumeration order (the first minimum wins).  The
//! destination, impassable cells, and cells with no reachable finite
//! neighbor keep the undefined direction.

use vstd::prelude::*;
use crate::cell::Direction;
use crate::dist::{Dist, Distance, dist_lt, dist_of, dist_le, lemma_dist_le_total,
    lemma_dist_le_trans};
use crate::field::{CellField, FieldError, lemma_mul_bounds_pos, neighbor_offset,
    neighbor_offset_at, step_to};
use crate::paths::{lemma_edge_same_topology, same_topology};

verus! {

/// Whether the `j`-th neighbor of `a` is a steering candidate: reachable by
/// an allowed step and holding a finite distance.
pub open spec fn dir_candidate(f: CellField, a: (i64, i64), j: int) -> bool {
    f.edge(a, step_to(a, j)) && f.dist_p(step_to(a, j)) is Finite
}

/// The index of the best steering candidate among the first `i` neighbors
/// of `a`: the first one attaining the minimum distance.
pub open spec fn best_upto(f: CellField, a: (i64, i64), i: int) -> Option<int>
    decreases i,
{
    if i <= 0 {
        None
    } else {
        let prev = best_upto(f, a, i - 1);
        if dir_candidate(f, a, i - 1) {
            match prev {
                Option::None => Option::Some(i - 1),
                Option::Some(j) => if dist_lt(
                    dist_of(f.dist_p(step_to(a, i - 1))),
                    dist_of(f.dist_p(step_to(a, j))),
                ) {
                    Option::Some(i - 1)
                } else {
                    Option::Some(j)
                },
            }
        } else {
            prev
        }
    }
}

/// The direction a solved field assigns to `a`: one step toward the best
/// candidate, or undefined for the destination, for impassable cells, and
/// for cells with no candidate.
pub open spec fn spec_direction_of(f: CellField, dest: (i64, i64), a: (i64, i64)) -> Direction {
    if f.in_bounds_p(a) && f.passable_p(a) && a != dest {
        match best_upto(f, a, 8) {
            Option::None => Direction::Undefined,
            Option::Some(j) => Direction::Step {
                dc: neighbor_offset(j).0 as i8,
                dr: neighbor_offset(j).1 as i8,
            },
        }
    } else {
        Direction::Undefined
    }
}

/// Every cell carries exactly the direction the solved field assigns it.
pub open spec fn dir_field_solved(f: CellField, dest: (i64, i64)) -> bool {
    forall|a: (i64, i64)|
        f.in_bounds_p(a) ==> (#[trigger] f.spec_cell_p(a)).direction == spec_direction_of(
            f,
            dest,
            a,
        )
}

/// A direction solve leaves dimensions, terrain and distances untouched.
pub open spec fn dir_solve_frame(of: CellField, f: CellField) -> bool {
    &&& f.wf()
    &&& f.cols == of.cols
    &&& f.rows == of.rows
    &&& forall|c: int, r: int|
        of.in_bounds(c, r) ==> (#[trigger] f.spec_cell(c, r)).state == of.spec_cell(c, r).state
            && f.spec_cell(c, r).distance == of.spec_cell(c, r).distance
}

/// What the chosen candidate satisfies: it is a candidate, no candidate
/// beats it, and it strictly beats every earlier candidate.
pub proof fn lemma_best_upto_props(f: CellField, a: (i64, i64), i: int)
    requires
        f.wf(),
        f.in_bounds_p(a),
    ensures
        match best_upto(f, a, i) {
            Option::None => forall|j: int| 0 <= j < i ==> !dir_candidate(f, a, j),
            Option::Some(j) => {
                &&& 0 <= j < i
                &&& dir_candidate(f, a, j)
                &&& forall|k: int|
                    0 <= k < i && #[trigger] dir_candidate(f, a, k) ==> dist_le(
                        dist_of(f.dist_p(step_to(a, j))),
                        dist_of(f.dist_p(step_to(a, k))),
                    )
                &&& forall|k: int|
                    0 <= k < j && #[trigger] dir_candidate(f, a, k) ==> dist_lt(
                        dist_of(f.dist_p(step_to(a, j))),
                        dist_of(f.dist_p(step_to(a, k))),
                    )
            },
        },
    decreases i,
{
    if i > 0 {
        lemma_best_upto_props(f, a, i - 1);
        if dir_candidate(f, a, i - 1) {
            let dn = dist_of(f.dist_p(step_to(a, i - 1)));
            match best_upto(f, a, i - 1) {
                Option::None => {
                    // the new candidate is the first one
                },
                Option::Some(j0) => {
                    let d0 = dist_of(f.dist_p(step_to(a, j0)));
                    if dist_lt(dn, d0) {
                        // the new candidate replaces the old best
                        lemma_dist_le_total(dn, d0);
                        assert forall|k: int|
                            0 <= k < i && #[trigger] dir_candidate(f, a, k) implies dist_le(
                            dn,
                            dist_of(f.dist_p(step_to(a, k))),
                        ) by {
                            if k < i - 1 {
                                let dk = dist_of(f.dist_p(step_to(a, k)));
                                lemma_cmp_bounds(f, a, i - 1, j0, k);
                                lemma_dist_le_trans(dn, d0, dk);
                            }
                        }
                        assert forall|k: int|
                            0 <= k < i - 1 && #[trigger] dir_candidate(f, a, k) implies dist_lt(
                            dn,
                            dist_of(f.dist_p(step_to(a, k))),
                        ) by {
                            let dk = dist_of(f.dist_p(step_to(a, k)));
                            if dist_le(dk, dn) {
                                lemma_cmp_bounds(f, a, i - 1, j0, k);
                                lemma_dist_le_trans(d0, dk, dn);
                                assert(false);
                            }
                        }
                    } else {
                        // the old best stands: the new candidate is no better
                        assert(dist_le(d0, dn));
                    }
                },
            }
        }
    }
}

/// Candidate distances are bounded, so their comparisons chain.
proof fn lemma_cmp_bounds(f: CellField, a: (i64, i64), j1: int, j2: int, j3: int)
    requires
        f.wf(),
        dir_candidate(f, a, j1),
        dir_candidate(f, a, j2),
        dir_candidate(f, a, j3),
    ensures
        crate::dist::dist_cmp_bounded(dist_of(f.dist_p(step_to(a, j1)))),
        crate::dist::dist_cmp_bounded(dist_of(f.dist_p(step_to(a, j2)))),
        crate::dist::dist_cmp_bounded(dist_of(f.dist_p(step_to(a, j3)))),
{
    assert(f.in_bounds_p(step_to(a, j1)));
    assert(f.in_bounds_p(step_to(a, j2)));
    assert(f.in_bounds_p(step_to(a, j3)));
}

/// The choice of best candidate depends only on dimensions, terrain and
/// distances.
pub proof fn lemma_best_upto_congruent(f1: CellField, f2: CellField, a: (i64, i64), i: int)
    requires
        same_topology(f1, f2),
        f1.cols == f2.cols,
        f1.rows == f2.rows,
        forall|c: int, r: int|
            f1.in_bounds(c, r) && f1.passable_at(c, r) ==> (#[trigger] f1.spec_cell(
                c,
                r,
            )).distance == f2.spec_cell(c, r).distance,
    ensures
        best_upto(f1, a, i) == best_upto(f2, a, i),
        forall|j: int| 0 <= j < i ==> dir_candidate(f1, a, j) == dir_candidate(f2, a, j),
    decreases i,
{
    if i > 0 {
        lemma_best_upto_congruent(f1, f2, a, i - 1);
        lemma_candidate_congruent(f1, f2, a, i - 1);
        if dir_candidate(f1, a, i - 1) {
            let b = step_to(a, i - 1);
            assert(f1.spec_cell(b.0 as int, b.1 as int).distance == f2.spec_cell(
                b.0 as int,
                b.1 as int,
            ).distance);
            match best_upto(f1, a, i - 1) {
                Option::None => (),
                Option::Some(j) => {
                    lemma_candidate_congruent(f1, f2, a, j);
                    let bj = step_to(a, j);
                    assert(dir_candidate(f1, a, j)) by {
                        lemma_best_upto_props_weak(f1, a, i - 1);
                    }
                    assert(f1.spec_cell(bj.0 as int, bj.1 as int).distance == f2.spec_cell(
                        bj.0 as int,
                        bj.1 as int,
                    ).distance);
                },
            }
        }
    }
}

/// The chosen index, when there is one, names a candidate.
proof fn lemma_best_upto_props_weak(f: CellField, a: (i64, i64), i: int)
    ensures
        match best_upto(f, a, i) {
            Option::None => true,
            Option::Some(j) => 0 <= j < i && dir_candidate(f, a, j),
        },
    decreases i,
{
    if i > 0 {
        lemma_best_upto_props_weak(f, a, i - 1);
    }
}

/// Candidacy depends only on dimensions, terrain and distances.
proof fn lemma_candidate_congruent(f1: CellField, f2: CellField, a: (i64, i64), j: int)
    requires
        same_topology(f1, f2),
        f1.cols == f2.cols,
        f1.rows == f2.rows,
        forall|c: int, r: int|
            f1.in_bounds(c, r) && f1.passable_at(c, r) ==> (#[trigger] f1.spec_cell(
                c,
                r,
            )).distance == f2.spec_cell(c, r).distance,
    ensures
        dir_candidate(f1, a, j) == dir_candidate(f2, a, j),
{
    let b = step_to(a, j);
    lemma_edge_same_topology(f1, f2, a, b);
    if f1.edge(a, b) {
        assert(f1.spec_cell(b.0 as int, b.1 as int).distance == f2.spec_cell(
            b.0 as int,
            b.1 as int,
        ).distance);
    }
}

/// The assigned direction depends only on dimensions, terrain and
/// distances.
pub proof fn lemma_direction_of_congruent(
    f1: CellField,
    f2: CellField,
    dest: (i64, i64),
    a: (i64, i64),
)
    requires
        same_topology(f1, f2),
        f1.cols == f2.cols,
        f1.rows == f2.rows,
        forall|c: int, r: int|
            f1.in_bounds(c, r) && f1.passable_at(c, r) ==> (#[trigger] f1.spec_cell(
                c,
                r,
            )).distance == f2.spec_cell(c, r).distance,
    ensures
        spec_direction_of(f1, dest, a) == spec_direction_of(f2, dest, a),
{
    lemma_best_upto_congruent(f1, f2, a, 8);
    if f1.in_bounds_p(a) {
        assert(f1.state_at(a.0 as int, a.1 as int) == f2.state_at(a.0 as int, a.1 as int));
    }
}

/// Recomputes every cell's steering direction from the current distances,
/// for the given destination.
///
/// Rejects a destination outside the grid with `OutOfBounds`, changing
/// nothing.  On success every cell's direction is exactly what
/// [`spec_direction_of`] assigns: one step toward the first
/// minimum-distance reachable neighbor, or undefined for the destination,
/// impassable cells and cells with no such neighbor.  Dimensions, terrain
/// and distances are untouched.
#[verifier::rlimit(100)]
pub fn solve_direction_field(field: &mut CellField, dest: (i64, i64)) -> (res: Result<
    (),
    FieldError,
>)
    requires
        old(field).wf(),
    ensures
        final(field).wf(),
        final(field).cols == old(field).cols,
        final(field).rows == old(field).rows,
        match res {
            Ok(()) => {
                &&& old(field).in_bounds_p(dest)
                &&& dir_solve_frame(*old(field), *final(field))
                &&& dir_field_solved(*final(field), dest)
            },
            Err(e) => {
                &&& *final(field) == *old(field)
                &&& e == FieldError::OutOfBounds
                &&& !old(field).in_bounds_p(dest)
            },
        },
{
    proof {
        lemma_mul_bounds_pos(field.cols as int, field.rows as int);
    }
    let cols = field.num_cols();
    let rows = field.num_rows();
    if dest.0 < 0 || dest.0 >= cols as i64 || dest.1 < 0 || dest.1 >= rows as i64 {
        return Err(FieldError::OutOfBounds);
    }

    let mut c: usize = 0;
    while c < cols
        invariant
            0 <= c <= cols,
            cols == old(field).cols,
            rows == old(field).rows,
            dir_solve_frame(*old(field), *field),
            forall|c2: int, r2: int|
                old(field).in_bounds(c2, r2) && c2 < c ==> (#[trigger] field.spec_cell(
                    c2,
                    r2,
                )).direction == spec_direction_of(*old(field), dest, (c2 as i64, r2 as i64)),
        decreases cols - c,
    {
        let mut r: usize = 0;
        while r < rows
            invariant
                0 <= c < cols,
                0 <= r <= rows,
                cols == old(field).cols,
                rows == old(field).rows,
                dir_solve_frame(*old(field), *field),
                forall|c2: int, r2: int|
                    old(field).in_bounds(c2, r2) && c2 < c ==> (#[trigger] field.spec_cell(
                        c2,
                        r2,
                    )).direction == spec_direction_of(*old(field), dest, (c2 as i64, r2 as i64)),
                forall|r2: int|
                    0 <= r2 < r ==> (#[trigger] field.spec_cell(c as int, r2)).direction
                        == spec_direction_of(*old(field), dest, (c as i64, r2 as i64)),
            decreases rows - r,
        {
            proof {
                lemma_mul_bounds_pos(field.cols as int, field.rows as int);
            }
            let a: (i64, i64) = (c as i64, r as i64);
            let ghost f_at = *field;
            let dir: Direction;
            if !field.cell_at(c, r).is_passable() || (a.0 == dest.0 && a.1 == dest.1) {
                dir = Direction::Undefined;
            } else {
                let mut best: Option<usize> = None;
                let mut best_d: Dist = Dist::zero();
                let mut i: usize = 0;
                while i < 8
                    invariant
                        0 <= i <= 8,
                        field.wf(),
                        field.in_bounds_p(a),
                        *field == f_at,
                        match best_upto(*field, a, i as int) {
                            Option::None => best is None,
                            Option::Some(j) => best == Some(j as usize) && best_d == dist_of(
                                field.dist_p(step_to(a, j)),
                            ),
                        },
                    decreases 8 - i,
                {
                    match field.edge_check(a, i) {
                        None => {},
                        Some(nb) => {
                            let nd = field.cell_at(nb.0 as usize, nb.1 as usize).distance;
                            match nd {
                                Distance::Finite(ndv) => {
                                    let take = match best {
                                        None => true,
                                        Some(_) => ndv.lt(best_d),
                                    };
                                    if take {
                                        best = Some(i);
                                        best_d = ndv;
                                    }
                                },
                                Distance::Infinite => {},
                            }
                        },
                    }
                    i = i + 1;
                }
                match best {
                    None => {
                        dir = Direction::Undefined;
                    },
                    Some(bj) => {
                        proof {
                            lemma_best_upto_props_weak(*field, a, 8);
                        }
                        let o = neighbor_offset_at(bj);
                        dir = Direction::Step { dc: o.0 as i8, dr: o.1 as i8 };
                    },
                }
            }
            proof {
                lemma_direction_of_congruent(*field, *old(field), dest, a);
                assert(field.state_at(a.0 as int, a.1 as int) == old(field).state_at(
                    a.0 as int,
                    a.1 as int,
                ));
                assert(dir == spec_direction_of(*old(field), dest, a));
            }
            let ghost f_prev = *field;
            field.set_direction(c, r, dir);
            proof {
                assert forall|c2: int, r2: int| old(field).in_bounds(c2, r2) implies
                    (#[trigger] field.spec_cell(c2, r2)).state == old(field).spec_cell(
                    c2,
                    r2,
                ).state && field.spec_cell(c2, r2).distance == old(field).spec_cell(
                    c2,
                    r2,
                ).distance by {
                    if !(c2 == c as int && r2 == r as int) {
                        assert(field.spec_cell(c2, r2) == f_prev.spec_cell(c2, r2));
                    }
                }
            }
            r = r + 1;
        }
        c = c + 1;
    }
    proof {
        assert forall|a: (i64, i64)| field.in_bounds_p(a) implies (#[trigger] field.spec_cell_p(
            a,
        )).direction == spec_direction_of(*field, dest, a) by {
            assert(field.spec_cell(a.0 as int, a.1 as int).direction == spec_direction_of(
                *old(field),
                dest,
                (a.0 as int as i64, a.1 as int as i64),
            ));
            lemma_direction_of_congruent(*field, *old(field), dest, a);
        }
    }
    Ok(())
}

} // verus!
