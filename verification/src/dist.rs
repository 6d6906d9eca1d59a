//! Exact path lengths on an 8-connected grid.
//!
//! A path length is a count of orthogonal steps (cost 1 each) and diagonal
//! steps (cost sqrt(2) each), kept exactly as the pair of counts rather than
//! as an inexact numeric value.  The order between two lengths
//! `a + b*sqrt(2)` and `c + d*sqrt(2)` is decided exactly with integer
//! arithmetic: comparing with `sqrt(2)` amounts to comparing a square with a
//! doubled square.

use vstd::prelude::*;

verus! {

/// Path lengths stay below this many steps: a field never holds more than
/// this many cells, and a simple path visits each cell at most once.
pub const MAX_CELLS: usize = 1_000_000;

/// An exact path length: `ortho` orthogonal steps and `diag` diagonal steps,
/// standing for the real value `ortho + diag * sqrt(2)`.
#[derive(Clone, Copy, Debug, PartialEq, Eq, Structural)]
pub struct Dist {
    pub ortho: u32,
    pub diag: u32,
}

/// A cell's distance to the destination: a finite path length, or infinite
/// for a cell that is unreachable or not yet computed.
#[derive(Clone, Copy, Debug, PartialEq, Eq, Structural)]
pub enum Distance {
    Infinite,
    Finite(Dist),
}

/// `x <= y` as real numbers: `x.ortho + x.diag*sqrt(2) <= y.ortho + y.diag*sqrt(2)`.
///
/// With `da = y.ortho - x.ortho` and `db = y.diag - x.diag` the claim reads
/// `-da <= db*sqrt(2)`, which is decided by comparing signs and then the
/// squares `da*da` and `2*db*db`.
pub open spec fn dist_le(x: Dist, y: Dist) -> bool {
    let da = y.ortho as int - x.ortho as int;
    let db = y.diag as int - x.diag as int;
    if db >= 0 {
        da >= 0 || da * da <= 2 * (db * db)
    } else {
        da > 0 && da * da >= 2 * (db * db)
    }
}

/// `x < y` as real numbers.
pub open spec fn dist_lt(x: Dist, y: Dist) -> bool {
    !dist_le(y, x)
}

/// Both step counts within the global bound, so that comparisons can be
/// settled by the fixed-precision linear measure below.
pub open spec fn dist_wf(d: Dist) -> bool {
    d.ortho + d.diag <= MAX_CELLS
}

/// The looser bound under which the linear measure still decides the order
/// exactly: bounded lengths extended by a step stay comparable.
pub open spec fn dist_cmp_bounded(d: Dist) -> bool {
    d.ortho + d.diag <= 1_900_000
}

/// The zero length.
pub open spec fn dist_zero() -> Dist {
    Dist { ortho: 0, diag: 0 }
}

/// The finite length inside a distance (meaningful only for finite ones).
pub open spec fn dist_of(d: Distance) -> Dist {
    match d {
        Distance::Infinite => Dist { ortho: 0, diag: 0 },
        Distance::Finite(v) => v,
    }
}

/// A linear integer measure that orders bounded lengths exactly as the real
/// values do: `1_414_213_562_373 / 1_000_000_000_000` approximates `sqrt(2)`
/// closely enough that no two lengths with step counts up to [`MAX_CELLS`]
/// fall between the rational and the irrational ratio.
pub open spec fn dist_m(d: Dist) -> int {
    d.ortho as int * 1_000_000_000_000 + d.diag as int * 1_414_213_562_373
}

impl Dist {
    /// The zero-length path.
    pub fn zero() -> (r: Dist)
        ensures
            r == (Dist { ortho: 0, diag: 0 }),
    {
        Dist { ortho: 0, diag: 0 }
    }

    /// The length extended by one step, diagonal or orthogonal.
    pub open spec fn spec_plus_step(self, diagonal: bool) -> Dist {
        if diagonal {
            Dist { ortho: self.ortho, diag: (self.diag + 1) as u32 }
        } else {
            Dist { ortho: (self.ortho + 1) as u32, diag: self.diag }
        }
    }

    /// Appends one step of the given kind.
    pub fn plus_step(self, diagonal: bool) -> (r: Dist)
        requires
            self.ortho < u32::MAX,
            self.diag < u32::MAX,
        ensures
            r == self.spec_plus_step(diagonal),
    {
        if diagonal {
            Dist { ortho: self.ortho, diag: self.diag + 1 }
        } else {
            Dist { ortho: self.ortho + 1, diag: self.diag }
        }
    }

    /// Exact comparison `self <= other` of the real values.
    pub fn le(self, other: Dist) -> (r: bool)
        ensures
            r == dist_le(self, other),
    {
        let da: i128 = other.ortho as i128 - self.ortho as i128;
        let db: i128 = other.diag as i128 - self.diag as i128;
        proof {
            lemma_sq_bound(da as int, 0x1_0000_0000);
            lemma_sq_bound(db as int, 0x1_0000_0000);
        }
        if db >= 0 {
            da >= 0 || da * da <= 2 * (db * db)
        } else {
            da > 0 && da * da >= 2 * (db * db)
        }
    }

    /// Exact comparison `self < other` of the real values.
    pub fn lt(self, other: Dist) -> (r: bool)
        ensures
            r == dist_lt(self, other),
    {
        !other.le(self)
    }
}

/// `x <= y` on distances, with `Infinite` above every finite length.
pub open spec fn distance_le(x: Distance, y: Distance) -> bool {
    match y {
        Distance::Infinite => true,
        Distance::Finite(yd) => match x {
            Distance::Infinite => false,
            Distance::Finite(xd) => dist_le(xd, yd),
        },
    }
}

/// `x < y` on distances.
pub open spec fn distance_lt(x: Distance, y: Distance) -> bool {
    !distance_le(y, x)
}

/// Every finite length bounded by [`dist_wf`].
pub open spec fn distance_wf(d: Distance) -> bool {
    match d {
        Distance::Infinite => true,
        Distance::Finite(v) => dist_wf(v),
    }
}

impl Distance {
    /// Exact comparison `self <= other`.
    pub fn le(self, other: Distance) -> (r: bool)
        ensures
            r == distance_le(self, other),
    {
        match other {
            Distance::Infinite => true,
            Distance::Finite(yd) => match self {
                Distance::Infinite => false,
                Distance::Finite(xd) => xd.le(yd),
            },
        }
    }

    /// Exact comparison `self < other`.
    pub fn lt(self, other: Distance) -> (r: bool)
        ensures
            r == distance_lt(self, other),
    {
        !other.le(self)
    }

    /// Whether the distance is finite.
    pub fn is_finite(self) -> (r: bool)
        ensures
            r == (self is Finite),
    {
        match self {
            Distance::Infinite => false,
            Distance::Finite(_) => true,
        }
    }
}

/// No integers satisfy `a*a == 2*b*b` except zero: `sqrt(2)` is irrational.
/// By infinite descent: `a` must be even, and halving both sides repeats the
/// equation with smaller numbers.
proof fn lemma_sqrt2_irrational_nat(a: nat, b: nat)
    requires
        a * a == 2 * (b * b),
    ensures
        a == 0,
        b == 0,
    decreases a,
{
    if a > 0 {
        let h = a / 2;
        if a != 2 * h {
            assert(a == 2 * h + 1);
            assert((2 * h + 1) * (2 * h + 1) == 2 * (2 * (h * h) + 2 * h) + 1)
                by (nonlinear_arith);
            assert(false);
        }
        assert(b * b == 2 * (h * h)) by (nonlinear_arith)
            requires
                a == 2 * h,
                a * a == 2 * (b * b),
        ;
        assert(b < a) by (nonlinear_arith)
            requires
                a * a == 2 * (b * b),
                b * b == 2 * (h * h),
                a > 0,
        ;
        lemma_sqrt2_irrational_nat(b, h);
        assert(false);
    } else {
        assert(b * b == 0);
        assert(b == 0) by (nonlinear_arith)
            requires
                b * b == 0,
        ;
    }
}

/// The integer form of the descent above.
proof fn lemma_sqrt2_irrational(a: int, b: int)
    requires
        a * a == 2 * (b * b),
    ensures
        a == 0,
        b == 0,
{
    let na = (if a >= 0 { a } else { -a }) as nat;
    let nb = (if b >= 0 { b } else { -b }) as nat;
    assert(na * na == a * a && nb * nb == b * b) by (nonlinear_arith)
        requires
            na == (if a >= 0 { a } else { -a }),
            nb == (if b >= 0 { b } else { -b }),
    ;
    lemma_sqrt2_irrational_nat(na, nb);
}

/// Square comparison of nonnegative integers settles their order.
proof fn lemma_sq_le(u: int, v: int)
    by (nonlinear_arith)
    requires
        0 <= u,
        0 <= v,
        u * u <= v * v,
    ensures
        u <= v,
{
}

/// Strict square comparison of nonnegative integers.
proof fn lemma_sq_lt(u: int, v: int)
    by (nonlinear_arith)
    requires
        0 <= u,
        0 <= v,
        u * u < v * v,
    ensures
        u < v,
{
}

/// A square is bounded by the square of a bound on the absolute value.
proof fn lemma_sq_bound(v: int, b: int)
    by (nonlinear_arith)
    requires
        -b <= v <= b,
        0 <= b,
    ensures
        0 <= v * v <= b * b,
{
}

/// Squaring forgets the sign.
proof fn lemma_neg_sq(v: int)
    by (nonlinear_arith)
    ensures
        (-v) * (-v) == v * v,
{
}

/// Scaling inside a square scales the square.
proof fn lemma_scaled_sq(c: int, v: int, w: int)
    by (nonlinear_arith)
    requires
        w == c * v,
    ensures
        w * w == (c * c) * (v * v),
{
}

/// The order is reflexive.
pub proof fn lemma_dist_le_refl(x: Dist)
    ensures
        dist_le(x, x),
{
}

/// The order is total: of two lengths one is below the other.
pub proof fn lemma_dist_le_total(x: Dist, y: Dist)
    ensures
        dist_le(x, y) || dist_le(y, x),
{
    let da = y.ortho as int - x.ortho as int;
    let db = y.diag as int - x.diag as int;
    lemma_neg_sq(da);
    lemma_neg_sq(db);
    assert(x.ortho as int - y.ortho as int == -da);
    assert(x.diag as int - y.diag as int == -db);
}

/// Zero is the least length.
pub proof fn lemma_dist_zero_le(x: Dist)
    ensures
        dist_le(Dist { ortho: 0, diag: 0 }, x),
{
}

/// The order is antisymmetric: equal real values are the same pair, since
/// `sqrt(2)` is irrational.
pub proof fn lemma_dist_le_antisym(x: Dist, y: Dist)
    requires
        dist_le(x, y),
        dist_le(y, x),
    ensures
        x == y,
{
    let da = y.ortho as int - x.ortho as int;
    let db = y.diag as int - x.diag as int;
    lemma_neg_sq(da);
    lemma_neg_sq(db);
    assert(x.ortho as int - y.ortho as int == -da);
    assert(x.diag as int - y.diag as int == -db);
    if da * da == 2 * (db * db) {
        lemma_sqrt2_irrational(da, db);
    }
}

/// For bounded lengths the exact order agrees with the linear measure
/// [`dist_m`], which makes transitivity and termination arguments linear.
pub proof fn lemma_dist_le_iff_m(x: Dist, y: Dist)
    requires
        dist_cmp_bounded(x),
        dist_cmp_bounded(y),
    ensures
        dist_le(x, y) <==> dist_m(x) <= dist_m(y),
{
    let da = y.ortho as int - x.ortho as int;
    let db = y.diag as int - x.diag as int;
    let q = da * da;
    let p = db * db;
    lemma_sq_bound(da, 1_900_000);
    lemma_sq_bound(db, 1_900_000);
    assert(dist_m(y) - dist_m(x) == da * 1_000_000_000_000 + db * 1_414_213_562_373);
    if dist_le(x, y) {
        if db >= 0 {
            if da >= 0 {
                assert(dist_m(x) <= dist_m(y));
            } else {
                // -da <= db*sqrt(2): square the claim, with one unit of slack
                // from irrationality.
                if q == 2 * p {
                    lemma_sqrt2_irrational(da, db);
                }
                assert(q <= 2 * p - 1);
                let u = 1_000_000_000_000 * (-da);
                let v = 1_414_213_562_373 * db;
                lemma_scaled_sq(1_000_000_000_000, -da, u);
                lemma_scaled_sq(1_414_213_562_373, db, v);
                lemma_neg_sq(da);
                assert(u * u == 1_000_000_000_000_000_000_000_000 * q);
                assert(v * v == 1_999_999_999_999_731_161_391_129 * p);
                assert(u * u <= v * v);
                lemma_sq_le(u, v);
                assert(dist_m(x) <= dist_m(y));
            }
        } else {
            // da >= -db*sqrt(2) > 0: squaring needs no slack since the
            // rational ratio undershoots sqrt(2).
            let u = 1_414_213_562_373 * (-db);
            let v = 1_000_000_000_000 * da;
            lemma_scaled_sq(1_414_213_562_373, -db, u);
            lemma_scaled_sq(1_000_000_000_000, da, v);
            lemma_neg_sq(db);
            assert(u * u == 1_999_999_999_999_731_161_391_129 * p);
            assert(v * v == 1_000_000_000_000_000_000_000_000 * q);
            assert(u * u <= v * v);
            lemma_sq_le(u, v);
            assert(dist_m(x) <= dist_m(y));
        }
    }
    if !dist_le(x, y) {
        if db >= 0 {
            assert(da < 0 && q > 2 * p);
            let u = 1_414_213_562_373 * db;
            let v = 1_000_000_000_000 * (-da);
            lemma_scaled_sq(1_414_213_562_373, db, u);
            lemma_scaled_sq(1_000_000_000_000, -da, v);
            lemma_neg_sq(da);
            assert(u * u == 1_999_999_999_999_731_161_391_129 * p);
            assert(v * v == 1_000_000_000_000_000_000_000_000 * q);
            assert(u * u < v * v);
            lemma_sq_lt(u, v);
            assert(dist_m(y) < dist_m(x));
        } else {
            if da <= 0 {
                assert(dist_m(y) < dist_m(x));
            } else {
                assert(q < 2 * p);
                let u = 1_000_000_000_000 * da;
                let v = 1_414_213_562_373 * (-db);
                lemma_scaled_sq(1_000_000_000_000, da, u);
                lemma_scaled_sq(1_414_213_562_373, -db, v);
                lemma_neg_sq(db);
                assert(u * u == 1_000_000_000_000_000_000_000_000 * q);
                assert(v * v == 1_999_999_999_999_731_161_391_129 * p);
                assert(u * u < v * v);
                lemma_sq_lt(u, v);
                assert(dist_m(y) < dist_m(x));
            }
        }
    }
}

/// The order is transitive on bounded lengths.
pub proof fn lemma_dist_le_trans(x: Dist, y: Dist, z: Dist)
    requires
        dist_cmp_bounded(x),
        dist_cmp_bounded(y),
        dist_cmp_bounded(z),
        dist_le(x, y),
        dist_le(y, z),
    ensures
        dist_le(x, z),
{
    lemma_dist_le_iff_m(x, y);
    lemma_dist_le_iff_m(y, z);
    lemma_dist_le_iff_m(x, z);
}

/// Every finite length inside bounded by [`dist_cmp_bounded`].
pub open spec fn distance_cmp_bounded(d: Distance) -> bool {
    match d {
        Distance::Infinite => true,
        Distance::Finite(v) => dist_cmp_bounded(v),
    }
}

/// The distance order is total.
pub proof fn lemma_distance_le_total(x: Distance, y: Distance)
    ensures
        distance_le(x, y) || distance_le(y, x),
{
    match (x, y) {
        (Distance::Finite(xd), Distance::Finite(yd)) => lemma_dist_le_total(xd, yd),
        _ => (),
    }
}

/// The distance order is transitive on bounded distances.
pub proof fn lemma_distance_le_trans(x: Distance, y: Distance, z: Distance)
    requires
        distance_cmp_bounded(x),
        distance_cmp_bounded(y),
        distance_cmp_bounded(z),
        distance_le(x, y),
        distance_le(y, z),
    ensures
        distance_le(x, z),
{
    match (x, y, z) {
        (Distance::Finite(xd), Distance::Finite(yd), Distance::Finite(zd)) => {
            lemma_dist_le_trans(xd, yd, zd);
        },
        _ => (),
    }
}

/// The distance order is antisymmetric.
pub proof fn lemma_distance_le_antisym(x: Distance, y: Distance)
    requires
        distance_le(x, y),
        distance_le(y, x),
    ensures
        x == y,
{
    match (x, y) {
        (Distance::Finite(xd), Distance::Finite(yd)) => lemma_dist_le_antisym(xd, yd),
        _ => (),
    }
}

/// Appending the same step on both sides preserves the order.
pub proof fn lemma_dist_le_plus_step(x: Dist, y: Dist, diagonal: bool)
    requires
        dist_le(x, y),
        x.ortho < u32::MAX,
        x.diag < u32::MAX,
        y.ortho < u32::MAX,
        y.diag < u32::MAX,
    ensures
        dist_le(x.spec_plus_step(diagonal), y.spec_plus_step(diagonal)),
{
}

/// Appending a step strictly lengthens a path.
pub proof fn lemma_dist_lt_plus_step(x: Dist, diagonal: bool)
    requires
        x.ortho < u32::MAX,
        x.diag < u32::MAX,
    ensures
        dist_lt(x, x.spec_plus_step(diagonal)),
{
    let y = x.spec_plus_step(diagonal);
    let da = x.ortho as int - y.ortho as int;
    let db = x.diag as int - y.diag as int;
    if diagonal {
        assert(da == 0 && db == -1);
        assert(da * da == 0 && db * db == 1) by (nonlinear_arith)
            requires
                da == 0,
                db == -1,
        ;
    } else {
        assert(da == -1 && db == 0);
        assert(da * da == 1 && db * db == 0) by (nonlinear_arith)
            requires
                da == -1,
                db == 0,
        ;
    }
}

} // verus!
