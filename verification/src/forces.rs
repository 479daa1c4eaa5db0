//! The forces between vertices: linked vertices that are too far apart pull each other,
//! unlinked vertices that are close push each other away.

use vstd::prelude::*;
use crate::geometry::Point;
use crate::geometry::SCALE;
use crate::geometry::dist2;
use crate::geometry::gap;
use crate::geometry::isqrt;
use crate::geometry::lemma_gap_le_dist;
use crate::geometry::lemma_isqrt_bounds;
use crate::geometry::lemma_isqrt_compare;
use crate::mesh::MeshView;
use crate::mesh::VertexView;

verus! {

/// Greatest size of one component of the force between two vertices.
pub const FORCE_BOUND: u64 = 0x8_0000_0000;

/// One component of the pull of length `step` on a vertex, toward a neighbour at
/// distance `d`, where the vertex stands `delta` ahead of the neighbour on that axis.
pub open spec fn attraction(step: u32, delta: int, d: nat) -> int {
    if delta >= 0 {
        -((step * delta) / (d as int))
    } else {
        (step * (-delta)) / (d as int)
    }
}

/// One component of the push on a vertex away from a vertex at distance `d`, where the
/// first stands `delta` ahead of the other on that axis. The push has the size
/// `step * (far_l - d) / SCALE`: it fades out as `d` reaches `far_l`.
pub open spec fn repulsion(step: u32, far_l: u32, delta: int, d: nat) -> int {
    if delta >= 0 {
        (step * delta * (far_l - d)) / (d * SCALE)
    } else {
        -((step * (-delta) * (far_l - d)) / (d * SCALE))
    }
}

/// The force on a vertex at `p` from a vertex at `q`. A linked vertex pulls with a
/// force of size `step` where it is farther than `near_l`, and does nothing else. An
/// unlinked vertex pushes where it is no farther than `far_l`. Two vertices at the same
/// place do nothing to each other.
pub open spec fn pair_force(p: Point, q: Point, linked: bool, near_l: u32, far_l: u32, step: u32) -> (
    int,
    int,
) {
    let d2 = dist2(p, q);
    let d = isqrt(d2 as nat);
    let dx = p.x - q.x;
    let dy = p.y - q.y;
    if linked {
        if d2 > near_l * near_l {
            (attraction(step, dx, d), attraction(step, dy, d))
        } else {
            (0, 0)
        }
    } else {
        if 0 < d2 <= far_l * far_l {
            (repulsion(step, far_l, dx, d), repulsion(step, far_l, dy, d))
        } else {
            (0, 0)
        }
    }
}

/// Vertex `u` is joined to vertex `v` by one of the recorded edges of `v`.
pub open spec fn linked(m: MeshView, v: int, u: int) -> bool {
    m.neighbour(v as usize, m.vertices[v].edges.0) == Some(u as usize) || m.neighbour(
        v as usize,
        m.vertices[v].edges.1,
    ) == Some(u as usize)
}

/// The force on vertex `v` from vertex `u`.
pub open spec fn force(m: MeshView, near_l: u32, far_l: u32, step: u32, v: int, u: int) -> (int, int) {
    pair_force(m.vertices[v].pos, m.vertices[u].pos, linked(m, v, u), near_l, far_l, step)
}

/// The values of `f` on the elements of `ids`, added up.
pub open spec fn sum_seq(ids: Seq<usize>, f: spec_fn(usize) -> int) -> int
    decreases ids.len(),
{
    if ids.len() == 0 {
        0
    } else {
        sum_seq(ids.drop_last(), f) + f(ids.last())
    }
}

/// The values of `f` on the numbers below `n`, added up.
pub open spec fn sum_range(n: nat, f: spec_fn(usize) -> int) -> int
    decreases n,
{
    if n == 0 {
        0
    } else {
        sum_range((n - 1) as nat, f) + f((n - 1) as usize)
    }
}

/// Taking one element out of a list takes its value out of the sum.
pub proof fn lemma_sum_remove(ids: Seq<usize>, f: spec_fn(usize) -> int, k: int)
    requires
        0 <= k < ids.len(),
    ensures
        sum_seq(ids, f) == sum_seq(ids.remove(k), f) + f(ids[k]),
    decreases ids.len(),
{
    if k == ids.len() - 1 {
        assert(ids.remove(k) =~= ids.drop_last());
    } else {
        lemma_sum_remove(ids.drop_last(), f, k);
        assert(ids.drop_last().remove(k) =~= ids.remove(k).drop_last());
        assert(ids.remove(k).last() == ids.last());
    }
}

/// A sum over a list without repetitions is the sum over all numbers below `n`,
/// provided the list holds only numbers below `n` and `f` vanishes on the numbers it
/// leaves out.
pub proof fn lemma_sum_seq_range(ids: Seq<usize>, f: spec_fn(usize) -> int, n: nat)
    requires
        n <= usize::MAX + 1,
        ids.no_duplicates(),
        forall|k: int| 0 <= k < ids.len() ==> (#[trigger] ids[k]) < n,
        forall|u: usize| u < n && !ids.contains(u) ==> #[trigger] f(u) == 0,
    ensures
        sum_seq(ids, f) == sum_range(n, f),
    decreases n,
{
    if n == 0 {
        if ids.len() > 0 {
            assert(ids[0] < 0);
        }
    } else {
        let last = (n - 1) as usize;
        if ids.contains(last) {
            let k = choose|k: int| 0 <= k < ids.len() && ids[k] == last;
            let rest = ids.remove(k);
            lemma_sum_remove(ids, f, k);
            assert forall|j: int| 0 <= j < rest.len() implies (#[trigger] rest[j]) < n - 1 by {
                let i = if j < k { j } else { j + 1 };
                assert(rest[j] == ids[i]);
                assert(ids[i] < n);
                assert(ids[i] != ids[k]);
            }
            assert(rest.no_duplicates()) by {
                assert forall|i: int, j: int| 0 <= i < rest.len() && 0 <= j < rest.len() && i != j implies rest[i]
                    != rest[j] by {
                    let si = if i < k { i } else { i + 1 };
                    let sj = if j < k { j } else { j + 1 };
                    assert(rest[i] == ids[si] && rest[j] == ids[sj]);
                }
            }
            assert forall|u: usize| u < n - 1 && !rest.contains(u) implies #[trigger] f(u) == 0 by {
                if ids.contains(u) {
                    let i = choose|i: int| 0 <= i < ids.len() && ids[i] == u;
                    assert(i != k);
                    let j = if i < k { i } else { i - 1 };
                    assert(rest[j] == u);
                }
            }
            lemma_sum_seq_range(rest, f, (n - 1) as nat);
        } else {
            assert forall|k: int| 0 <= k < ids.len() implies (#[trigger] ids[k]) < n - 1 by {
                assert(ids[k] < n);
                assert(ids.contains(ids[k]));
            }
            lemma_sum_seq_range(ids, f, (n - 1) as nat);
        }
    }
}

/// Size of one component of a pull.
pub proof fn lemma_pull_bound(step: u32, a: int, d: nat)
    requires
        0 <= a <= d,
        d >= 1,
    ensures
        0 <= (step * a) / (d as int) <= step,
{
    let n = step * a;
    let q = n / (d as int);
    assert(0 <= n <= step * d) by (nonlinear_arith)
        requires
            0 <= a <= d,
            n == step * a,
            step >= 0,
    ;
    vstd::arithmetic::div_mod::lemma_fundamental_div_mod(n, d as int);
    vstd::arithmetic::div_mod::lemma_mod_pos_bound(n, d as int);
    assert(0 <= q <= step) by (nonlinear_arith)
        requires
            n == d * q + n % (d as int),
            0 <= n % (d as int) < d,
            0 <= n <= step * d,
            d >= 1,
    ;
}

/// Size of one component of a push.
pub proof fn lemma_push_bound(step: u32, far_l: u32, a: int, d: nat)
    requires
        0 <= a <= d,
        1 <= d <= far_l,
    ensures
        0 <= (step * a * (far_l - d)) / (d * SCALE) <= FORCE_BOUND,
        step * a * (far_l - d) >= 0,
        d * SCALE > 0,
{
    let n = step * a * (far_l - d);
    let den = d * SCALE;
    let q = n / den;
    let w = step * (far_l - d);
    assert(0 <= w <= 0xffff_ffff * 0xffff_ffff) by (nonlinear_arith)
        requires
            w == step * (far_l - d),
            0 <= step <= 0xffff_ffff,
            0 <= far_l - d <= 0xffff_ffff,
    ;
    assert(n == w * a && 0 <= n <= w * d) by (nonlinear_arith)
        requires
            n == step * a * (far_l - d),
            w == step * (far_l - d),
            0 <= a <= d,
            w >= 0,
    ;
    assert(den > 0) by (nonlinear_arith)
        requires
            den == d * SCALE,
            d >= 1,
            SCALE > 0,
    ;
    vstd::arithmetic::div_mod::lemma_fundamental_div_mod(n, den);
    vstd::arithmetic::div_mod::lemma_mod_pos_bound(n, den);
    assert(0 <= q && q * SCALE <= w) by (nonlinear_arith)
        requires
            n == den * q + n % den,
            0 <= n % den < den,
            den == d * SCALE,
            0 <= n <= w * d,
            d >= 1,
            SCALE > 0,
    ;
}

/// The `x` component of the force on vertex `v`, as a function of the other vertex.
pub open spec fn pull_x(m: MeshView, near_l: u32, far_l: u32, step: u32, v: int) -> spec_fn(
    usize,
) -> int {
    |u: usize| force(m, near_l, far_l, step, v, u as int).0
}

/// The `y` component of the force on vertex `v`, as a function of the other vertex.
pub open spec fn pull_y(m: MeshView, near_l: u32, far_l: u32, step: u32, v: int) -> spec_fn(
    usize,
) -> int {
    |u: usize| force(m, near_l, far_l, step, v, u as int).1
}

/// The `x` component of the force on vertex `v` from a vertex that a query round `v`
/// with radius `far_l` reports; zero for any other vertex.
pub open spec fn near_pull_x(m: MeshView, near_l: u32, far_l: u32, step: u32, v: int) -> spec_fn(
    usize,
) -> int {
    |u: usize|
        if m.near(v, u as int, far_l) {
            force(m, near_l, far_l, step, v, u as int).0
        } else {
            0
        }
}

/// The `y` component of the force on vertex `v` from a vertex that a query round `v`
/// with radius `far_l` reports; zero for any other vertex.
pub open spec fn near_pull_y(m: MeshView, near_l: u32, far_l: u32, step: u32, v: int) -> spec_fn(
    usize,
) -> int {
    |u: usize|
        if m.near(v, u as int, far_l) {
            force(m, near_l, far_l, step, v, u as int).1
        } else {
            0
        }
}

/// The displacement of vertex `v` in one relaxation step: for an active vertex the
/// forces from all vertices that a query round it with radius `far_l` reports, added
/// up; nothing for any other vertex.
pub open spec fn displacement(m: MeshView, near_l: u32, far_l: u32, step: u32, v: int) -> (int, int) {
    if m.active(v) {
        (
            sum_range(m.vertices.len(), near_pull_x(m, near_l, far_l, step, v)),
            sum_range(m.vertices.len(), near_pull_y(m, near_l, far_l, step, v)),
        )
    } else {
        (0, 0)
    }
}

/// The coordinate nearest to `x` in the unit square.
pub open spec fn clamp_coord(x: int) -> u32 {
    if x < 0 {
        0
    } else if x > SCALE {
        SCALE
    } else {
        x as u32
    }
}

/// The point `p` moved by `s`, and back to the border where that leaves the unit
/// square.
pub open spec fn displaced(p: Point, s: (int, int)) -> Point {
    Point { x: clamp_coord(p.x + s.0), y: clamp_coord(p.y + s.1) }
}

/// Vertex `v` after one relaxation step: a live vertex is moved by its displacement,
/// a deleted one stays as it is.
pub open spec fn relaxed_vertex(m: MeshView, near_l: u32, far_l: u32, step: u32, v: int) -> VertexView {
    if m.live(v) {
        VertexView {
            pos: displaced(m.vertices[v].pos, displacement(m, near_l, far_l, step, v)),
            ..m.vertices[v]
        }
    } else {
        m.vertices[v]
    }
}

/// The mesh after the vertices below `k` have made their relaxation step, each by the
/// forces that the mesh `m` exerts.
pub open spec fn relaxed_below(m: MeshView, near_l: u32, far_l: u32, step: u32, k: int) -> MeshView {
    MeshView {
        vertices: Seq::new(
            m.vertices.len(),
            |v: int|
                if v < k {
                    relaxed_vertex(m, near_l, far_l, step, v)
                } else {
                    m.vertices[v]
                },
        ),
        ..m
    }
}

/// The mesh after one relaxation step: every live vertex moved by its displacement,
/// all displacements taken from the positions before the step.
pub open spec fn relaxed(m: MeshView, near_l: u32, far_l: u32, step: u32) -> MeshView {
    relaxed_below(m, near_l, far_l, step, m.vertices.len() as int)
}

/// Two functions that agree on the elements of a list have the same sum over it.
pub proof fn lemma_sum_seq_agree(ids: Seq<usize>, f: spec_fn(usize) -> int, g: spec_fn(usize) -> int)
    requires
        forall|k: int| 0 <= k < ids.len() ==> f(#[trigger] ids[k]) == g(ids[k]),
    ensures
        sum_seq(ids, f) == sum_seq(ids, g),
    decreases ids.len(),
{
    if ids.len() > 0 {
        assert(f(ids[ids.len() - 1]) == g(ids[ids.len() - 1]));
        assert forall|k: int| 0 <= k < ids.drop_last().len() implies f(#[trigger] ids.drop_last()[k])
            == g(ids.drop_last()[k]) by {
            assert(ids.drop_last()[k] == ids[k]);
        }
        lemma_sum_seq_agree(ids.drop_last(), f, g);
    }
}

/// One component of the pull of length `step` toward a neighbour at distance `d`, for
/// a vertex at coordinate `a` and a neighbour at coordinate `b`.
pub fn pull(step: u32, a: u32, b: u32, d: u32) -> (r: i64)
    requires
        d >= 1,
        gap(a as int, b as int) <= d,
    ensures
        r == attraction(step, a - b, d as nat),
        -FORCE_BOUND <= r <= FORCE_BOUND,
{
    let delta: u64 = if a >= b { (a - b) as u64 } else { (b - a) as u64 };
    proof {
        lemma_pull_bound(step, delta as int, d as nat);
    }
    assert(step * delta <= 0xffff_ffff * 0xffff_ffff) by (nonlinear_arith)
        requires
            step <= 0xffff_ffff,
            delta <= 0xffff_ffff,
    ;
    let q: u64 = (step as u64 * delta) / (d as u64);
    if a >= b {
        -(q as i64)
    } else {
        q as i64
    }
}

/// One component of the push away from a vertex at distance `d`, for a vertex at
/// coordinate `a` and the other at coordinate `b`.
pub fn push(step: u32, far_l: u32, a: u32, b: u32, d: u32) -> (r: i64)
    requires
        1 <= d <= far_l,
        gap(a as int, b as int) <= d,
    ensures
        r == repulsion(step, far_l, a - b, d as nat),
        -FORCE_BOUND <= r <= FORCE_BOUND,
{
    let delta: u128 = if a >= b { (a - b) as u128 } else { (b - a) as u128 };
    let room: u128 = (far_l - d) as u128;
    proof {
        lemma_push_bound(step, far_l, delta as int, d as nat);
    }
    assert(step * delta <= 0xffff_ffff * 0xffff_ffff) by (nonlinear_arith)
        requires
            step <= 0xffff_ffff,
            delta <= 0xffff_ffff,
    ;
    assert(step * delta * room <= 0xffff_ffff * 0xffff_ffff * 0xffff_ffff) by (nonlinear_arith)
        requires
            step * delta <= 0xffff_ffff * 0xffff_ffff,
            step * delta >= 0,
            0 <= room <= 0xffff_ffff,
    ;
    assert(d * SCALE <= 0xffff_ffff * 1_000_000_000) by (nonlinear_arith)
        requires
            d <= 0xffff_ffff,
            SCALE == 1_000_000_000,
    ;
    let num: u128 = step as u128 * delta * room;
    let den: u128 = d as u128 * (SCALE as u128);
    let q: u128 = num / den;
    if a >= b {
        q as i64
    } else {
        -(q as i64)
    }
}

/// The force on a vertex at `p` from a vertex at `q`.
pub fn vertex_force(p: Point, q: Point, linked: bool, near_l: u32, far_l: u32, step: u32) -> (f: (
    i64,
    i64,
))
    requires
        p.in_unit_square(),
        q.in_unit_square(),
    ensures
        f.0 == pair_force(p, q, linked, near_l, far_l, step).0,
        f.1 == pair_force(p, q, linked, near_l, far_l, step).1,
        -FORCE_BOUND <= f.0 <= FORCE_BOUND,
        -FORCE_BOUND <= f.1 <= FORCE_BOUND,
{
    let d2 = crate::geometry::squared_distance(p, q);
    proof {
        lemma_gap_le_dist(p, q);
        lemma_isqrt_bounds(d2 as nat);
        lemma_isqrt_compare(d2 as nat, 1);
    }
    assert(near_l * near_l <= 0xffff_ffff * 0xffff_ffff) by (nonlinear_arith)
        requires
            near_l <= 0xffff_ffff,
    ;
    assert(far_l * far_l <= 0xffff_ffff * 0xffff_ffff) by (nonlinear_arith)
        requires
            far_l <= 0xffff_ffff,
    ;
    if linked {
        if d2 > near_l as u64 * near_l as u64 {
            let d = crate::geometry::integer_sqrt(d2);
            (pull(step, p.x, q.x, d), pull(step, p.y, q.y, d))
        } else {
            (0, 0)
        }
    } else {
        if d2 > 0 && d2 <= far_l as u64 * far_l as u64 {
            let d = crate::geometry::integer_sqrt(d2);
            assert(d <= far_l) by (nonlinear_arith)
                requires
                    d * d <= d2,
                    d2 <= far_l * far_l,
            ;
            (push(step, far_l, p.x, q.x, d), push(step, far_l, p.y, q.y, d))
        } else {
            (0, 0)
        }
    }
}

} // verus!
