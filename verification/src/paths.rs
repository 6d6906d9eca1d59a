//! Routes through the field: the mathematical model that the distance
//! solver's contract is stated against.
//!
//! A route is a sequence of coordinates that starts at the destination,
//! takes only allowed steps (8-adjacent, into passable cells, never cutting
//! a blocked corner), and visits no cell twice.  Its cost counts orthogonal
//! and diagonal steps exactly.

use vstd::prelude::*;
use vstd::set_lib::{lemma_len_subset, lemma_int_range, set_int_range};
use crate::dist::{Dist, MAX_CELLS, dist_le, lemma_dist_le_total, lemma_dist_le_trans,
    lemma_dist_lt_plus_step};
use crate::field::{CellField, diagonal_step};

verus! {

/// A valid route from `dest` to `end` through `f`: nonempty, endpoints as
/// named, every consecutive pair an allowed step, and no repeated cell.
pub open spec fn path_ok(f: CellField, dest: (i64, i64), p: Seq<(i64, i64)>, end: (i64, i64)) -> bool {
    &&& p.len() >= 1
    &&& p[0] == dest
    &&& p[p.len() - 1] == end
    &&& forall|i: int| 0 <= i < p.len() - 1 ==> #[trigger] f.edge(p[i], p[i + 1])
    &&& p.no_duplicates()
}

/// The exact cost of a route: one orthogonal or diagonal step per
/// consecutive pair.
pub open spec fn path_cost(p: Seq<(i64, i64)>) -> Dist
    decreases p.len(),
{
    if p.len() <= 1 {
        Dist { ortho: 0, diag: 0 }
    } else {
        path_cost(p.drop_last()).spec_plus_step(diagonal_step(p[p.len() - 2], p[p.len() - 1]))
    }
}

/// A route of `k + 1` cells costs exactly `k` steps.
pub proof fn lemma_path_cost_len(p: Seq<(i64, i64)>)
    requires
        1 <= p.len() <= 0xffff_ffff,
    ensures
        path_cost(p).ortho + path_cost(p).diag == p.len() - 1,
    decreases p.len(),
{
    if p.len() > 1 {
        lemma_path_cost_len(p.drop_last());
    }
}

/// Every prefix of a valid route is a valid route.
pub proof fn lemma_path_ok_prefix(
    f: CellField,
    dest: (i64, i64),
    p: Seq<(i64, i64)>,
    end: (i64, i64),
    i: int,
)
    requires
        path_ok(f, dest, p, end),
        1 <= i <= p.len(),
    ensures
        path_ok(f, dest, p.take(i), p[i - 1]),
{
    let q = p.take(i);
    assert(q[0] == p[0]);
    assert(forall|j: int| 0 <= j < i ==> q[j] == p[j]);
}

/// A prefix of a route costs no more than the whole route.
pub proof fn lemma_path_cost_prefix_le(p: Seq<(i64, i64)>, i: int)
    requires
        1 <= i <= p.len(),
        p.len() <= MAX_CELLS,
    ensures
        dist_le(path_cost(p.take(i)), path_cost(p)),
    decreases p.len() - i,
{
    lemma_path_cost_len(p.take(i));
    if i == p.len() {
        assert(p.take(i) =~= p);
        lemma_dist_le_total(path_cost(p), path_cost(p));
    } else {
        let q = p.take(i + 1);
        assert(q.drop_last() =~= p.take(i));
        assert(q[q.len() - 2] == p[i - 1] && q[q.len() - 1] == p[i]);
        assert(path_cost(q) == path_cost(p.take(i)).spec_plus_step(
            diagonal_step(p[i - 1], p[i]),
        ));
        lemma_path_cost_len(q);
        lemma_path_cost_len(p);
        lemma_dist_lt_plus_step(path_cost(p.take(i)), diagonal_step(p[i - 1], p[i]));
        lemma_dist_le_total(path_cost(p.take(i)), path_cost(q));
        lemma_path_cost_prefix_le(p, i + 1);
        lemma_dist_le_trans(path_cost(p.take(i)), path_cost(q), path_cost(p));
    }
}

/// Appending one allowed step to a fresh cell extends a valid route, and
/// adds exactly that step's cost.
pub proof fn lemma_path_extend(
    f: CellField,
    dest: (i64, i64),
    p: Seq<(i64, i64)>,
    c: (i64, i64),
    nb: (i64, i64),
)
    requires
        path_ok(f, dest, p, c),
        f.edge(c, nb),
        !p.contains(nb),
    ensures
        path_ok(f, dest, p.push(nb), nb),
        path_cost(p.push(nb)) == path_cost(p).spec_plus_step(diagonal_step(c, nb)),
{
    let q = p.push(nb);
    assert(q.drop_last() =~= p);
    assert(forall|j: int| 0 <= j < p.len() ==> q[j] == p[j]);
    assert forall|i: int| 0 <= i < q.len() - 1 implies #[trigger] f.edge(q[i], q[i + 1]) by {
        if i < p.len() - 1 {
            assert(f.edge(p[i], p[i + 1]));
        } else {
            assert(q[i] == c && q[i + 1] == nb);
        }
    }
    assert forall|i: int, j: int|
        0 <= i < q.len() && 0 <= j < q.len() && i != j implies q[i] != q[j] by {
        if i < p.len() && j < p.len() {
        } else if j == p.len() {
            assert(q[i] == p[i] && !p.contains(nb));
        } else {
            assert(q[j] == p[j] && !p.contains(nb));
        }
    }
    assert(q[q.len() - 2] == c && q[q.len() - 1] == nb);
}

/// A route visits each cell at most once, so it has no more cells than the
/// grid.
pub proof fn lemma_path_len_bound(
    f: CellField,
    dest: (i64, i64),
    p: Seq<(i64, i64)>,
    end: (i64, i64),
)
    requires
        f.wf(),
        path_ok(f, dest, p, end),
    ensures
        p.len() <= f.cols as int * f.rows as int,
{
    let n = f.cols as int * f.rows as int;
    if p.len() > 1 {
        // every route cell is in bounds: each one is an endpoint of a step
        assert forall|i: int| 0 <= i < p.len() implies f.in_bounds_p(#[trigger] p[i]) by {
            if i < p.len() - 1 {
                assert(f.edge(p[i], p[i + 1]));
            } else {
                assert(f.edge(p[i - 1], p[i - 1 + 1]));
            }
        }
        let s = p.map_values(|pt: (i64, i64)| pt.0 as int * f.rows as int + pt.1 as int);
        assert forall|i: int, j: int|
            0 <= i < s.len() && 0 <= j < s.len() && i != j implies s[i] != s[j] by {
            lemma_storage_idx_inj(f, p[i], p[j]);
        }
        assert(s.no_duplicates());
        s.unique_seq_to_set();
        lemma_int_range(0, n);
        assert forall|x: int| s.to_set().contains(x) implies set_int_range(0, n).contains(x) by {
            let i = choose|i: int| 0 <= i < s.len() && s[i] == x;
            lemma_storage_idx_bounds(f, p[i]);
        }
        assert(s.to_set().subset_of(set_int_range(0, n)));
        lemma_len_subset(s.to_set(), set_int_range(0, n));
    } else {
        lemma_grid_nonempty(f.cols as int, f.rows as int);
    }
}

/// Whether two fields agree on dimensions and terrain, whatever their
/// cached distances and directions say.
pub open spec fn same_topology(f1: CellField, f2: CellField) -> bool {
    &&& f1.cols == f2.cols
    &&& f1.rows == f2.rows
    &&& forall|c: int, r: int| f1.in_bounds(c, r) ==> #[trigger] f1.state_at(c, r) == f2.state_at(c, r)
}

/// Allowed steps depend only on dimensions and terrain.
pub proof fn lemma_edge_same_topology(f1: CellField, f2: CellField, a: (i64, i64), b: (i64, i64))
    requires
        same_topology(f1, f2),
    ensures
        f1.edge(a, b) == f2.edge(a, b),
{
    if f1.in_bounds_p(a) && f1.in_bounds_p(b) {
        assert(f1.state_at(b.0 as int, b.1 as int) == f2.state_at(b.0 as int, b.1 as int));
        if adjacent_corner_in_bounds(f1, a, b) {
            assert(f1.state_at(b.0 as int, a.1 as int) == f2.state_at(b.0 as int, a.1 as int));
            assert(f1.state_at(a.0 as int, b.1 as int) == f2.state_at(a.0 as int, b.1 as int));
        }
    }
}

/// The two corner cells of an in-bounds pair of diagonal neighbors are in
/// bounds themselves.
spec fn adjacent_corner_in_bounds(f: CellField, a: (i64, i64), b: (i64, i64)) -> bool {
    f.in_bounds(b.0 as int, a.1 as int) && f.in_bounds(a.0 as int, b.1 as int)
}

/// Valid routes depend only on dimensions and terrain.
pub proof fn lemma_path_ok_same_topology(
    f1: CellField,
    f2: CellField,
    dest: (i64, i64),
    p: Seq<(i64, i64)>,
    end: (i64, i64),
)
    requires
        same_topology(f1, f2),
        path_ok(f1, dest, p, end),
    ensures
        path_ok(f2, dest, p, end),
{
    assert forall|i: int| 0 <= i < p.len() - 1 implies #[trigger] f2.edge(p[i], p[i + 1]) by {
        assert(f1.edge(p[i], p[i + 1]));
        lemma_edge_same_topology(f1, f2, p[i], p[i + 1]);
    }
}

/// The storage index map is injective on in-bounds coordinates.
proof fn lemma_storage_idx_inj(f: CellField, a: (i64, i64), b: (i64, i64))
    requires
        f.wf(),
        f.in_bounds_p(a),
        f.in_bounds_p(b),
        a != b,
    ensures
        a.0 as int * f.rows as int + a.1 as int != b.0 as int * f.rows as int + b.1 as int,
{
    if a.0 as int * f.rows as int + a.1 as int == b.0 as int * f.rows as int + b.1 as int {
        lemma_storage_collision(
            f.cols as int,
            f.rows as int,
            a.0 as int,
            a.1 as int,
            b.0 as int,
            b.1 as int,
        );
    }
}

/// The storage index of an in-bounds coordinate lies inside the storage.
proof fn lemma_storage_idx_bounds(f: CellField, a: (i64, i64))
    requires
        f.wf(),
        f.in_bounds_p(a),
    ensures
        0 <= (a.0 as int * f.rows as int + a.1 as int) < (f.cols as int * f.rows as int),
{
    lemma_storage_range(f.cols as int, f.rows as int, a.0 as int, a.1 as int);
}

/// Distinct in-bounds coordinates use distinct storage indices.
proof fn lemma_storage_collision(cols: int, rows: int, c1: int, r1: int, c2: int, r2: int)
    by (nonlinear_arith)
    requires
        0 <= c1 < cols,
        0 <= r1 < rows,
        0 <= c2 < cols,
        0 <= r2 < rows,
        c1 * rows + r1 == c2 * rows + r2,
    ensures
        c1 == c2,
        r1 == r2,
{
}

/// Inside the grid, the storage index lies inside the storage.
proof fn lemma_storage_range(cols: int, rows: int, c: int, r: int)
    by (nonlinear_arith)
    requires
        0 <= c < cols,
        0 <= r < rows,
    ensures
        0 <= c * rows + r < cols * rows,
{
}

/// A grid with positive dimensions has at least one cell.
proof fn lemma_grid_nonempty(cols: int, rows: int)
    by (nonlinear_arith)
    requires
        1 <= cols,
        1 <= rows,
    ensures
        1 <= cols * rows,
{
}

} // verus!
