//! The cost model: straight-line distances in millionths of a straight step,
//! rounded up.

use vstd::prelude::*;
use crate::node::Pos;

verus! {

/// The cost of one step along a row or a column.
pub const STRAIGHT: u64 = 1_000_000;

/// The cost of one diagonal step: the square root of two, in millionths,
/// rounded up.
pub const DIAGONAL: u64 = 1_414_214;

/// The cost recorded for a cell that no path has reached yet.
pub const UNREACHED: u64 = 0xffff_ffff_ffff_ffff;

/// The largest coordinate, and the largest number of cells, that a grid may have.
pub const MAX_CELLS: usize = 1_000_000_000;

/// `r` is the least natural number whose square is at least `v`.
pub open spec fn is_ceil_sqrt(v: int, r: int) -> bool {
    &&& 0 <= r
    &&& v <= r * r
    &&& (r == 0 || (r - 1) * (r - 1) < v)
}

/// The square root of `v`, rounded up.
pub open spec fn ceil_sqrt(v: int) -> int {
    choose|r: int| is_ceil_sqrt(v, r)
}

/// Every natural number has a rounded-up square root.
pub proof fn lemma_ceil_sqrt_exists(v: int)
    requires
        0 <= v,
    ensures
        is_ceil_sqrt(v, ceil_sqrt(v)),
    decreases v,
{
    if v == 0 {
        assert(is_ceil_sqrt(0, 0));
    } else {
        lemma_ceil_sqrt_exists(v - 1);
        let r = ceil_sqrt(v - 1);
        if r * r >= v {
            assert(is_ceil_sqrt(v, r));
        } else {
            assert((r + 1) * (r + 1) >= v) by (nonlinear_arith)
                requires
                    r * r >= v - 1,
                    r >= 0,
            ;
            assert(is_ceil_sqrt(v, r + 1));
        }
    }
}

/// The rounded-up square root is unique.
pub proof fn lemma_ceil_sqrt_unique(v: int, r: int)
    requires
        is_ceil_sqrt(v, r),
    ensures
        ceil_sqrt(v) == r,
{
    let s = ceil_sqrt(v);
    assert(is_ceil_sqrt(v, s));
    if s < r {
        assert(s * s <= (r - 1) * (r - 1)) by (nonlinear_arith)
            requires
                0 <= s <= r - 1,
        ;
    } else if r < s {
        assert(r * r <= (s - 1) * (s - 1)) by (nonlinear_arith)
            requires
                0 <= r <= s - 1,
        ;
    }
}

/// A bound `c` with `v <= c * c` is at least the rounded-up square root of `v`.
pub proof fn lemma_ceil_sqrt_least(v: int, c: int)
    requires
        0 <= v,
        0 <= c,
        v <= c * c,
    ensures
        ceil_sqrt(v) <= c,
{
    lemma_ceil_sqrt_exists(v);
    let r = ceil_sqrt(v);
    if c < r {
        assert(c * c <= (r - 1) * (r - 1)) by (nonlinear_arith)
            requires
                0 <= c <= r - 1,
        ;
    }
}

/// The square root of `v`, rounded up to the next whole number.
pub fn isqrt_ceil(v: u128) -> (r: u64)
    requires
        v <= 0x1000_0000_0000_0000_0000_0000_0000_0000,
    ensures
        r == ceil_sqrt(v as int),
        is_ceil_sqrt(v as int, r as int),
{
    let mut lo: u128 = 0;
    let mut hi: u128 = 0x4000_0000_0000_0000;
    assert(hi * hi == 0x1000_0000_0000_0000_0000_0000_0000_0000) by (nonlinear_arith)
        requires
            hi == 0x4000_0000_0000_0000,
    ;
    while lo < hi
        invariant
            lo <= hi <= 0x4000_0000_0000_0000,
            v <= hi * hi,
            lo == 0 || (lo - 1) * (lo - 1) < v,
        decreases hi - lo,
    {
        let mid: u128 = lo + (hi - lo) / 2;
        assert(mid * mid <= 0x1000_0000_0000_0000_0000_0000_0000_0000) by (nonlinear_arith)
            requires
                mid <= 0x4000_0000_0000_0000,
        ;
        if mid * mid >= v {
            hi = mid;
        } else {
            lo = mid + 1;
        }
    }
    proof {
        lemma_ceil_sqrt_unique(v as int, lo as int);
    }
    lo as u64
}

/// The square of the straight-line distance between two cells.
pub open spec fn sq_dist(a: (int, int), b: (int, int)) -> int {
    (a.0 - b.0) * (a.0 - b.0) + (a.1 - b.1) * (a.1 - b.1)
}

/// The straight-line distance between two cells, in millionths of a straight
/// step, rounded up.
pub open spec fn dist_spec(a: (int, int), b: (int, int)) -> int {
    ceil_sqrt(STRAIGHT * STRAIGHT * sq_dist(a, b))
}

/// Two cells are neighbours: they differ, by at most one row and one column.
pub open spec fn adjacent(a: (int, int), b: (int, int)) -> bool {
    &&& a != b
    &&& -1 <= a.0 - b.0 <= 1
    &&& -1 <= a.1 - b.1 <= 1
}

/// The cost of the step between two neighbours.
pub open spec fn step_cost(a: (int, int), b: (int, int)) -> int {
    if a.0 != b.0 && a.1 != b.1 {
        DIAGONAL as int
    } else {
        STRAIGHT as int
    }
}

/// A squared distance is never negative.
pub proof fn lemma_sq_dist_nonnegative(a: (int, int), b: (int, int))
    ensures
        0 <= sq_dist(a, b),
        0 <= STRAIGHT * STRAIGHT * sq_dist(a, b),
{
    let dx = a.0 - b.0;
    let dy = a.1 - b.1;
    assert(0 <= dx * dx) by (nonlinear_arith);
    assert(0 <= dy * dy) by (nonlinear_arith);
}

/// A distance is never negative, and its square covers the squared distance.
pub proof fn lemma_dist_is_root(a: (int, int), b: (int, int))
    ensures
        is_ceil_sqrt(STRAIGHT * STRAIGHT * sq_dist(a, b), dist_spec(a, b)),
        0 <= dist_spec(a, b),
{
    lemma_sq_dist_nonnegative(a, b);
    lemma_ceil_sqrt_exists(STRAIGHT * STRAIGHT * sq_dist(a, b));
}

/// The distance from a cell to itself is zero.
pub proof fn lemma_dist_to_self(a: (int, int))
    ensures
        dist_spec(a, a) == 0,
{
    assert(is_ceil_sqrt(0, 0));
    lemma_ceil_sqrt_unique(0, 0);
}

/// The distance between neighbours is the cost of the step between them.
pub proof fn lemma_dist_of_neighbours(a: (int, int), b: (int, int))
    requires
        adjacent(a, b),
    ensures
        dist_spec(a, b) == step_cost(a, b),
{
    let dx = a.0 - b.0;
    let dy = a.1 - b.1;
    assert(dx * dx == 0 || dx * dx == 1) by (nonlinear_arith)
        requires
            -1 <= dx <= 1,
    ;
    assert(dy * dy == 0 || dy * dy == 1) by (nonlinear_arith)
        requires
            -1 <= dy <= 1,
    ;
    assert(dx * dx == 0 <==> dx == 0) by (nonlinear_arith);
    assert(dy * dy == 0 <==> dy == 0) by (nonlinear_arith);
    if dx != 0 && dy != 0 {
        assert(is_ceil_sqrt(2_000_000_000_000, 1_414_214)) by (nonlinear_arith);
        lemma_ceil_sqrt_unique(2_000_000_000_000, 1_414_214);
    } else {
        assert(is_ceil_sqrt(1_000_000_000_000, 1_000_000)) by (nonlinear_arith);
        lemma_ceil_sqrt_unique(1_000_000_000_000, 1_000_000);
    }
}

/// Between cells whose coordinates a grid can have, the distance stays far
/// below the cost of an unreached cell.
pub proof fn lemma_dist_bounded(a: (int, int), b: (int, int))
    requires
        0 <= a.0 <= MAX_CELLS,
        0 <= a.1 <= MAX_CELLS,
        0 <= b.0 <= MAX_CELLS,
        0 <= b.1 <= MAX_CELLS,
    ensures
        0 <= dist_spec(a, b) <= 1_500_000_000_000_000,
{
    lemma_dist_is_root(a, b);
    lemma_sq_dist_nonnegative(a, b);
    let dx = a.0 - b.0;
    let dy = a.1 - b.1;
    assert(dx * dx <= 1_000_000_000_000_000_000) by (nonlinear_arith)
        requires
            -1_000_000_000 <= dx <= 1_000_000_000,
    ;
    assert(dy * dy <= 1_000_000_000_000_000_000) by (nonlinear_arith)
        requires
            -1_000_000_000 <= dy <= 1_000_000_000,
    ;
    let bound: int = 1_500_000_000_000_000;
    assert(bound * bound == 2_250_000_000_000_000_000_000_000_000_000) by (nonlinear_arith)
        requires
            bound == 1_500_000_000_000_000,
    ;
    assert(STRAIGHT * STRAIGHT * sq_dist(a, b) <= bound * bound) by (nonlinear_arith)
        requires
            sq_dist(a, b) <= 2_000_000_000_000_000_000,
            bound * bound == 2_250_000_000_000_000_000_000_000_000_000,
    ;
    lemma_ceil_sqrt_least(STRAIGHT * STRAIGHT * sq_dist(a, b), bound);
}

/// The triangle inequality for one step: the distance from a cell to a target
/// is at most the cost of a step to a neighbour plus the distance from there.
pub proof fn lemma_dist_consistent(a: (int, int), b: (int, int), t: (int, int))
    requires
        adjacent(a, b),
    ensures
        dist_spec(a, t) <= step_cost(a, b) + dist_spec(b, t),
{
    lemma_dist_is_root(b, t);
    lemma_sq_dist_nonnegative(a, t);
    lemma_sq_dist_nonnegative(b, t);
    let r = dist_spec(b, t);
    let s = step_cost(a, b);
    let ex = a.0 - b.0;
    let ey = a.1 - b.1;
    let ux = b.0 - t.0;
    let uy = b.1 - t.1;
    let e2 = ex * ex + ey * ey;
    let nb = sq_dist(b, t);
    let na = sq_dist(a, t);
    let ip = ux * ex + uy * ey;
    assert(na == nb + 2 * ip + e2) by (nonlinear_arith)
        requires
            na == (ux + ex) * (ux + ex) + (uy + ey) * (uy + ey),
            nb == ux * ux + uy * uy,
            ip == ux * ex + uy * ey,
            e2 == ex * ex + ey * ey,
    ;
    assert(1_000_000_000_000 * e2 <= s * s) by (nonlinear_arith)
        requires
            -1 <= ex <= 1,
            -1 <= ey <= 1,
            e2 == ex * ex + ey * ey,
            s == (if ex != 0 && ey != 0 { 1_414_214int } else { 1_000_000int }),
            !(ex == 0 && ey == 0),
    ;
    assert(0 <= e2) by (nonlinear_arith)
        requires
            e2 == ex * ex + ey * ey,
    ;
    assert(1_000_000_000_000 * ip <= r * s) by {
        if ip > 0 {
            lemma_step_projection(ex, ey, ux, uy);
            lemma_square_le(1_000_000_000_000 * ip, r * s, 1_000_000_000_000 * e2, 1_000_000_000_000 * nb, s, r, ip, e2, nb);
        } else {
            assert(0 <= r * s) by (nonlinear_arith)
                requires
                    0 <= r,
                    0 <= s,
            ;
        }
    }
    assert(1_000_000_000_000 * na <= (r + s) * (r + s)) by (nonlinear_arith)
        requires
            na == nb + 2 * ip + e2,
            1_000_000_000_000 * nb <= r * r,
            1_000_000_000_000 * e2 <= s * s,
            1_000_000_000_000 * ip <= r * s,
    ;
    lemma_ceil_sqrt_least(STRAIGHT * STRAIGHT * na, r + s);
}

/// The Cauchy-Schwarz inequality for a step `(ex, ey)` and a displacement
/// `(ux, uy)`.
proof fn lemma_step_projection(ex: int, ey: int, ux: int, uy: int)
    requires
        -1 <= ex <= 1,
        -1 <= ey <= 1,
    ensures
        (ux * ex + uy * ey) * (ux * ex + uy * ey) <= (ex * ex + ey * ey) * (ux * ux + uy * uy),
{
    if ex == 0 {
        assert((ux * ex + uy * ey) * (ux * ex + uy * ey) <= (ex * ex + ey * ey) * (ux * ux
            + uy * uy)) by (nonlinear_arith)
            requires
                ex == 0,
                -1 <= ey <= 1,
        ;
    } else if ey == 0 {
        assert((ux * ex + uy * ey) * (ux * ex + uy * ey) <= (ex * ex + ey * ey) * (ux * ux
            + uy * uy)) by (nonlinear_arith)
            requires
                ey == 0,
                -1 <= ex <= 1,
        ;
    } else if ex == ey {
        assert((ux * ex + uy * ey) * (ux * ex + uy * ey) == (ux + uy) * (ux + uy))
            by (nonlinear_arith)
            requires
                ex == ey,
                ex == 1 || ex == -1,
        ;
        assert((ex * ex + ey * ey) == 2) by (nonlinear_arith)
            requires
                ex == ey,
                ex == 1 || ex == -1,
        ;
        assert((ux + uy) * (ux + uy) <= 2 * (ux * ux + uy * uy)) by (nonlinear_arith);
    } else {
        assert((ux * ex + uy * ey) * (ux * ex + uy * ey) == (ux - uy) * (ux - uy))
            by (nonlinear_arith)
            requires
                ex == -ey,
                ex == 1 || ex == -1,
        ;
        assert((ex * ex + ey * ey) == 2) by (nonlinear_arith)
            requires
                ex == -ey,
                ex == 1 || ex == -1,
        ;
        assert((ux - uy) * (ux - uy) <= 2 * (ux * ux + uy * uy)) by (nonlinear_arith);
    }
}

/// From `ip^2 <= e2 * nb`, `x = 10^12 e2 <= s^2` and `y = 10^12 nb <= r^2`
/// follows `a = 10^12 ip <= r s = b`, all of them being non-negative.
proof fn lemma_square_le(a: int, b: int, x: int, y: int, s: int, r: int, ip: int, e2: int, nb: int)
    requires
        a == 1_000_000_000_000 * ip,
        b == r * s,
        x == 1_000_000_000_000 * e2,
        y == 1_000_000_000_000 * nb,
        0 < ip,
        0 <= e2,
        0 <= nb,
        0 <= r,
        0 <= s,
        ip * ip <= e2 * nb,
        x <= s * s,
        y <= r * r,
    ensures
        a <= b,
{
    assert(a * a <= x * y) by (nonlinear_arith)
        requires
            a == 1_000_000_000_000 * ip,
            x == 1_000_000_000_000 * e2,
            y == 1_000_000_000_000 * nb,
            ip * ip <= e2 * nb,
    ;
    assert(x * y <= (s * s) * (r * r)) by (nonlinear_arith)
        requires
            0 <= x <= s * s,
            0 <= y <= r * r,
    ;
    assert((s * s) * (r * r) == b * b) by (nonlinear_arith)
        requires
            b == r * s,
    ;
    assert(a <= b) by (nonlinear_arith)
        requires
            a * a <= b * b,
            0 <= b,
    ;
}

/// The straight-line distance between two positions, in millionths of a
/// straight step, rounded up.
pub fn dist(p: &Pos, q: &Pos) -> (d: u64)
    requires
        p.x <= MAX_CELLS,
        p.y <= MAX_CELLS,
        q.x <= MAX_CELLS,
        q.y <= MAX_CELLS,
    ensures
        d == dist_spec(p@, q@),
{
    let dx: u128 = (if p.x >= q.x { p.x - q.x } else { q.x - p.x }) as u128;
    let dy: u128 = (if p.y >= q.y { p.y - q.y } else { q.y - p.y }) as u128;
    assert(dx * dx <= 1_000_000_000_000_000_000) by (nonlinear_arith)
        requires
            dx <= 1_000_000_000,
    ;
    assert(dy * dy <= 1_000_000_000_000_000_000) by (nonlinear_arith)
        requires
            dy <= 1_000_000_000,
    ;
    let n: u128 = dx * dx + dy * dy;
    assert(n == sq_dist(p@, q@)) by (nonlinear_arith)
        requires
            n == dx * dx + dy * dy,
            dx == p@.0 - q@.0 || dx == q@.0 - p@.0,
            dy == p@.1 - q@.1 || dy == q@.1 - p@.1,
    ;
    isqrt_ceil(1_000_000_000_000u128 * n)
}

} // verus!
