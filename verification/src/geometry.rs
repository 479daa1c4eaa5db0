//! Fixed-point coordinates in the unit square and the integer geometry built on them.
//!
//! A coordinate is a `u32` that counts units of `1 / SCALE`; the unit square is
//! `[0, SCALE] x [0, SCALE]`. Lengths use the same unit, squared lengths its square.

use vstd::prelude::*;

verus! {

/// Number of coordinate units in the side of the unit square.
pub const SCALE: u32 = 1_000_000_000;

/// A point whose coordinates count units of `1 / SCALE`.
#[derive(Clone, Copy, Debug, PartialEq, Eq, Structural)]
pub struct Point {
    /// Distance from the left border.
    pub x: u32,
    /// Distance from the lower border.
    pub y: u32,
}

impl Point {
    /// Both coordinates lie in `[0, SCALE]`.
    pub open spec fn in_unit_square(self) -> bool {
        self.x <= SCALE && self.y <= SCALE
    }

    /// The point `(x, y)`.
    pub fn new(x: u32, y: u32) -> (p: Point)
        ensures
            p == (Point { x, y }),
    {
        Point { x, y }
    }
}

/// Whether `(x, y)` may become a vertex: both coordinates lie in the unit square.
pub fn valid_new_vertex(x: u32, y: u32) -> (ok: bool)
    ensures
        ok == (Point { x, y }).in_unit_square(),
{
    x <= SCALE && y <= SCALE
}

/// Distance between two integers.
pub open spec fn gap(a: int, b: int) -> int {
    if a >= b {
        a - b
    } else {
        b - a
    }
}

/// Squared Euclidean distance between two points.
pub open spec fn dist2(a: Point, b: Point) -> int {
    (a.x - b.x) * (a.x - b.x) + (a.y - b.y) * (a.y - b.y)
}

/// The point halfway between two points, each coordinate rounded down.
pub open spec fn midpoint(a: Point, b: Point) -> Point {
    Point { x: ((a.x + b.x) / 2) as u32, y: ((a.y + b.y) / 2) as u32 }
}

/// Largest natural number whose square does not exceed `n`.
pub open spec fn isqrt(n: nat) -> nat
    decreases n,
{
    if n == 0 {
        0
    } else {
        let r = isqrt((n - 1) as nat);
        if (r + 1) * (r + 1) <= n {
            r + 1
        } else {
            r
        }
    }
}

/// Euclidean distance between two points, rounded down.
pub open spec fn dist(a: Point, b: Point) -> nat {
    isqrt(dist2(a, b) as nat)
}

/// Index along one axis of the grid cell that holds coordinate `x`, on a grid of
/// `nz` cells per axis. The far border of the square belongs to the last cell.
pub open spec fn cell_coord(x: u32, nz: nat) -> nat {
    let c = (x * nz) / (SCALE as int);
    if c >= nz {
        (nz - 1) as nat
    } else {
        c as nat
    }
}

/// Index of the grid cell that holds `p`, cells numbered row by row along `x`.
pub open spec fn cell_index(p: Point, nz: nat) -> nat {
    cell_coord(p.x, nz) * nz + cell_coord(p.y, nz)
}

/// The cells of `a` and `b` are the same cell or touch, corners included.
pub open spec fn adjacent_cells(a: Point, b: Point, nz: nat) -> bool {
    gap(cell_coord(a.x, nz) as int, cell_coord(b.x, nz) as int) <= 1 && gap(
        cell_coord(a.y, nz) as int,
        cell_coord(b.y, nz) as int,
    ) <= 1
}

/// Both coordinates of `p` keep the distance `limit` from the border of the unit
/// square.
pub open spec fn within_margin(p: Point, limit: u32) -> bool {
    limit <= p.x && p.x + limit <= SCALE && limit <= p.y && p.y + limit <= SCALE
}

/// `isqrt(n)` squared is at most `n`, and the next square is beyond `n`.
pub proof fn lemma_isqrt_bounds(n: nat)
    ensures
        isqrt(n) * isqrt(n) <= n,
        n < (isqrt(n) + 1) * (isqrt(n) + 1),
    decreases n,
{
    let s = isqrt(n);
    if n > 0 {
        lemma_isqrt_bounds((n - 1) as nat);
        let r = isqrt((n - 1) as nat);
        if (r + 1) * (r + 1) <= n {
            assert(s == r + 1);
            assert(s * s <= n && n < (s + 1) * (s + 1)) by (nonlinear_arith)
                requires
                    s == r + 1,
                    (r + 1) * (r + 1) <= n,
                    n - 1 < (r + 1) * (r + 1),
            ;
        } else {
            assert(s == r);
        }
    } else {
        assert(s == 0);
        assert(s * s <= n && n < (s + 1) * (s + 1)) by (nonlinear_arith)
            requires
                s == 0,
                n == 0,
        ;
    }
}

/// Only one natural number lies between the root bounds.
pub proof fn lemma_isqrt_unique(n: nat, r: nat)
    requires
        r * r <= n,
        n < (r + 1) * (r + 1),
    ensures
        r == isqrt(n),
{
    lemma_isqrt_bounds(n);
    let s = isqrt(n);
    assert(r == s) by (nonlinear_arith)
        requires
            r * r <= n,
            n < (r + 1) * (r + 1),
            s * s <= n,
            n < (s + 1) * (s + 1),
    ;
}

/// The rounded root is monotone, and compares with `t` as `n` does with `t * t`.
pub proof fn lemma_isqrt_compare(n: nat, t: nat)
    ensures
        isqrt(n) >= t <==> n >= t * t,
{
    lemma_isqrt_bounds(n);
    let s = isqrt(n);
    assert(s >= t <==> n >= t * t) by (nonlinear_arith)
        requires
            s * s <= n,
            n < (s + 1) * (s + 1),
    ;
}

/// A coordinate difference never exceeds the rounded distance.
pub proof fn lemma_gap_le_dist(a: Point, b: Point)
    ensures
        gap(a.x as int, b.x as int) <= dist(a, b),
        gap(a.y as int, b.y as int) <= dist(a, b),
        dist2(a, b) >= 0,
{
    let dx = gap(a.x as int, b.x as int);
    let dy = gap(a.y as int, b.y as int);
    assert(dx * dx == (a.x - b.x) * (a.x - b.x)) by (nonlinear_arith)
        requires
            dx == a.x - b.x || dx == b.x - a.x,
    ;
    assert(dy * dy == (a.y - b.y) * (a.y - b.y)) by (nonlinear_arith)
        requires
            dy == a.y - b.y || dy == b.y - a.y,
    ;
    assert(dx * dx >= 0 && dy * dy >= 0) by (nonlinear_arith);
    lemma_isqrt_compare(dist2(a, b) as nat, dx as nat);
    lemma_isqrt_compare(dist2(a, b) as nat, dy as nat);
}

/// Two coordinates no farther apart than one cell width fall into the same cell
/// or into neighbouring cells.
pub proof fn lemma_cell_coord_near(a: u32, b: u32, rad: nat, nz: nat)
    requires
        nz >= 1,
        gap(a as int, b as int) <= rad,
        rad * nz <= SCALE,
    ensures
        gap(cell_coord(a, nz) as int, cell_coord(b, nz) as int) <= 1,
{
    let s = SCALE as int;
    let qa = (a * nz) / s;
    let qb = (b * nz) / s;
    assert(gap(qa, qb) <= 1) by (nonlinear_arith)
        requires
            nz >= 1,
            gap(a as int, b as int) <= rad,
            rad * nz <= s,
            s > 0,
            qa == (a * nz) / s,
            qb == (b * nz) / s,
    ;
    assert(qa >= 0 && qb >= 0) by (nonlinear_arith)
        requires
            nz >= 1,
            s > 0,
            qa == (a * nz) / s,
            qb == (b * nz) / s,
    ;
}

/// Squared distance between two points of the unit square.
pub fn squared_distance(a: Point, b: Point) -> (d: u64)
    requires
        a.in_unit_square(),
        b.in_unit_square(),
    ensures
        d == dist2(a, b),
        d <= 2 * (SCALE as int) * (SCALE as int),
{
    let dx: u64 = if a.x >= b.x {
        (a.x - b.x) as u64
    } else {
        (b.x - a.x) as u64
    };
    let dy: u64 = if a.y >= b.y {
        (a.y - b.y) as u64
    } else {
        (b.y - a.y) as u64
    };
    assert(dx * dx == (a.x - b.x) * (a.x - b.x) && dx * dx <= 1_000_000_000_000_000_000)
        by (nonlinear_arith)
        requires
            dx == a.x - b.x || dx == b.x - a.x,
            dx <= 1_000_000_000,
    ;
    assert(dy * dy == (a.y - b.y) * (a.y - b.y) && dy * dy <= 1_000_000_000_000_000_000)
        by (nonlinear_arith)
        requires
            dy == a.y - b.y || dy == b.y - a.y,
            dy <= 1_000_000_000,
    ;
    dx * dx + dy * dy
}

/// Square root of `n`, rounded down.
pub fn integer_sqrt(n: u64) -> (r: u32)
    ensures
        r == isqrt(n as nat),
{
    let mut lo: u64 = 0;
    let mut hi: u64 = 0x1_0000_0000;
    assert(lo * lo <= n && n < hi * hi) by (nonlinear_arith)
        requires
            lo == 0,
            hi == 0x1_0000_0000,
            n <= 0xffff_ffff_ffff_ffff,
    ;
    while hi - lo > 1
        invariant
            lo < hi <= 0x1_0000_0000,
            lo * lo <= n,
            n < hi * hi,
        decreases hi - lo,
    {
        let mid: u64 = lo + (hi - lo) / 2;
        assert(mid * mid <= 0xffff_ffff * 0xffff_ffff) by (nonlinear_arith)
            requires
                mid <= 0xffff_ffff,
        ;
        if mid * mid <= n {
            lo = mid;
        } else {
            hi = mid;
        }
    }
    proof {
        lemma_isqrt_unique(n as nat, lo as nat);
    }
    lo as u32
}

/// Distance between two points of the unit square, rounded down.
pub fn distance(a: Point, b: Point) -> (d: u32)
    requires
        a.in_unit_square(),
        b.in_unit_square(),
    ensures
        d == dist(a, b),
{
    integer_sqrt(squared_distance(a, b))
}

/// The point halfway between two points.
pub fn midpoint_of(a: Point, b: Point) -> (m: Point)
    ensures
        m == midpoint(a, b),
        a.in_unit_square() && b.in_unit_square() ==> m.in_unit_square(),
{
    let x: u64 = (a.x as u64 + b.x as u64) / 2;
    let y: u64 = (a.y as u64 + b.y as u64) / 2;
    Point { x: x as u32, y: y as u32 }
}

/// Index along one axis of the grid cell that holds coordinate `x`.
pub fn zone_coordinate(x: u32, nz: usize) -> (c: usize)
    requires
        1 <= nz <= 0xffff_ffff,
    ensures
        c == cell_coord(x, nz as nat),
        c < nz,
{
    assert(x * nz <= 0xffff_ffff * 0xffff_ffff) by (nonlinear_arith)
        requires
            x <= 0xffff_ffff,
            nz <= 0xffff_ffff,
    ;
    let q: u64 = (x as u64 * nz as u64) / (SCALE as u64);
    if q >= nz as u64 {
        nz - 1
    } else {
        q as usize
    }
}

} // verus!
