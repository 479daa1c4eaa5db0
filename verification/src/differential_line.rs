//! The solver: one relaxation step moves every active vertex by the forces on it.

use vstd::prelude::*;
use crate::forces::FORCE_BOUND;
use crate::forces::displacement;
use crate::forces::lemma_sum_seq_agree;
use crate::forces::lemma_sum_seq_range;
use crate::forces::near_pull_x;
use crate::forces::near_pull_y;
use crate::forces::pull_x;
use crate::forces::pull_y;
use crate::forces::relaxed;
use crate::forces::relaxed_below;
use crate::forces::sum_seq;
use crate::forces::vertex_force;
use crate::geometry::Point;
use crate::geometry::SCALE;
use crate::mesh::VertexStatus;
use crate::segments::Segments;
use crate::segments::grid_resolution;

verus! {

/// A mesh together with the two distances that rule the forces in it.
pub struct DifferentialLine {
    /// The mesh that the solver moves and grows.
    segments: Segments,
    /// The closest comfortable distance between two linked vertices.
    near_l: u32,
    /// The distance beyond which unlinked vertices ignore each other.
    far_l: u32,
    /// State of the random number generator.
    rng: u64,
    /// Displacement of each vertex along `x` in the step under way.
    sx: Vec<i128>,
    /// Displacement of each vertex along `y` in the step under way.
    sy: Vec<i128>,
    /// The vertices near the vertex under way.
    vertices: Vec<usize>,
}

/// State of the random number generator of a new solver.
pub const DEFAULT_SEED: u64 = 0x853c_49e6_748f_ea9b;

/// Multiplier of the random number generator.
pub const LCG_MULTIPLIER: u64 = 6364136223846793005;

/// Increment of the random number generator.
pub const LCG_INCREMENT: u64 = 1442695040888963407;

/// The state that follows state `s` of the random number generator.
pub open spec fn lcg_next(s: u64) -> u64 {
    ((s * LCG_MULTIPLIER + LCG_INCREMENT) % 0x1_0000_0000_0000_0000) as u64
}

/// The number below `SCALE` that state `s` of the random number generator stands for:
/// its upper half, scaled down from `2^32` to `SCALE`.
pub open spec fn lcg_draw(s: u64) -> u32 {
    (((s / 0x1_0000_0000) * SCALE) / 0x1_0000_0000) as u32
}

impl DifferentialLine {
    /// The mesh that the solver moves and grows.
    pub closed spec fn mesh(&self) -> Segments {
        self.segments
    }

    /// The closest comfortable distance between two linked vertices.
    pub closed spec fn near(&self) -> u32 {
        self.near_l
    }

    /// The distance beyond which unlinked vertices ignore each other.
    pub closed spec fn far(&self) -> u32 {
        self.far_l
    }

    /// State of the random number generator.
    pub closed spec fn seed(&self) -> u64 {
        self.rng
    }

    /// A solver on an empty mesh with room for `n_max` vertices and `n_max` edges,
    /// indexed by a grid of cells about `zone_width` wide.
    pub fn new(n_max: usize, zone_width: u32, near_l: u32, far_l: u32) -> (df: DifferentialLine)
        requires
            zone_width > 0,
            grid_resolution(zone_width) * grid_resolution(zone_width) <= usize::MAX,
        ensures
            df.mesh().wf(),
            df.mesh()@.n_max == n_max,
            df.mesh()@.s_num == 0,
            df.mesh()@.nz == grid_resolution(zone_width),
            df.mesh()@.vertices.len() == 0,
            df.mesh()@.edges.len() == 0,
            df.near() == near_l,
            df.far() == far_l,
            df.seed() == DEFAULT_SEED,
    {
        DifferentialLine {
            segments: Segments::new(n_max, zone_width),
            near_l,
            far_l,
            rng: DEFAULT_SEED,
            sx: Vec::with_capacity(n_max),
            sy: Vec::with_capacity(n_max),
            vertices: Vec::with_capacity(n_max),
        }
    }

    /// The mesh, to read.
    pub fn segments(&self) -> (s: &Segments)
        ensures
            *s == self.mesh(),
    {
        &self.segments
    }

    /// The mesh, to initialise and to edit.
    pub fn segments_mut(&mut self) -> (s: &mut Segments)
        ensures
            *s == old(self).mesh(),
            final(self).mesh() == *final(s),
            final(self).near() == old(self).near(),
            final(self).far() == old(self).far(),
            final(self).seed() == old(self).seed(),
    {
        &mut self.segments
    }

    /// The closest comfortable distance between two linked vertices.
    pub fn near_l(&self) -> (r: u32)
        ensures
            r == self.near(),
    {
        self.near_l
    }

    /// The distance beyond which unlinked vertices ignore each other.
    pub fn far_l(&self) -> (r: u32)
        ensures
            r == self.far(),
    {
        self.far_l
    }

    /// State of the random number generator.
    pub fn rng_state(&self) -> (r: u64)
        ensures
            r == self.seed(),
    {
        self.rng
    }

    /// Sets the state of the random number generator.
    pub fn reseed(&mut self, seed: u64)
        ensures
            final(self).seed() == seed,
            final(self).mesh() == old(self).mesh(),
            final(self).near() == old(self).near(),
            final(self).far() == old(self).far(),
    {
        self.rng = seed;
    }

    /// Advances the random number generator and returns a number below `SCALE`.
    pub fn draw(&mut self) -> (r: u32)
        ensures
            final(self).seed() == lcg_next(old(self).seed()),
            r == lcg_draw(final(self).seed()),
            r < SCALE,
            final(self).mesh() == old(self).mesh(),
            final(self).near() == old(self).near(),
            final(self).far() == old(self).far(),
    {
        assert(self.rng * LCG_MULTIPLIER <= 0xffff_ffff_ffff_ffff * 6364136223846793005)
            by (nonlinear_arith)
            requires
                self.rng <= 0xffff_ffff_ffff_ffff,
                LCG_MULTIPLIER == 6364136223846793005,
        ;
        let wide: u128 = self.rng as u128 * (LCG_MULTIPLIER as u128) + (LCG_INCREMENT as u128);
        let next: u64 = (wide % 0x1_0000_0000_0000_0000u128) as u64;
        self.rng = next;
        let high: u64 = next / 0x1_0000_0000;
        assert(high * SCALE <= 0xffff_ffff * 1_000_000_000) by (nonlinear_arith)
            requires
                high <= 0xffff_ffff,
                SCALE == 1_000_000_000,
        ;
        ((high * (SCALE as u64)) / 0x1_0000_0000) as u32
    }

    /// The forces on vertex `v` from the vertices `vertices`, added up; `None` for a
    /// vertex that is not active, which no force moves.
    pub fn reject(&self, v: usize, vertices: &Vec<usize>, step: u32) -> (r: Option<(i128, i128)>)
        requires
            self.mesh().wf(),
            v < self.mesh()@.vertices.len(),
            forall|k: int| 0 <= k < vertices@.len() ==> (#[trigger] vertices@[k]) < self.mesh()@.vertices.len(),
        ensures
            r is Some == self.mesh()@.active(v as int),
            match r {
                Some(s) => {
                    &&& s.0 == sum_seq(
                        vertices@,
                        pull_x(self.mesh()@, self.near(), self.far(), step, v as int),
                    )
                    &&& s.1 == sum_seq(
                        vertices@,
                        pull_y(self.mesh()@, self.near(), self.far(), step, v as int),
                    )
                    &&& -(vertices@.len() * FORCE_BOUND) <= s.0 <= vertices@.len() * FORCE_BOUND
                    &&& -(vertices@.len() * FORCE_BOUND) <= s.1 <= vertices@.len() * FORCE_BOUND
                },
                None => true,
            },
    {
        if !matches!(self.segments.vertex_status(v), VertexStatus::Active) {
            return None;
        }
        let (v1, v2) = self.segments.linked_vertices(v);
        let p = self.segments.vertex_position(v);
        let ghost m = self.segments@;
        let ghost gx = pull_x(m, self.near(), self.far(), step, v as int);
        let ghost gy = pull_y(m, self.near(), self.far(), step, v as int);
        let mut res_x: i128 = 0;
        let mut res_y: i128 = 0;
        let n = vertices.len();
        let mut k: usize = 0;
        while k < n
            invariant
                self.segments.wf(),
                m == self.segments@,
                gx == pull_x(m, self.near(), self.far(), step, v as int),
                gy == pull_y(m, self.near(), self.far(), step, v as int),
                v < m.vertices.len(),
                p == m.vertices[v as int].pos,
                p.in_unit_square(),
                v1 == m.neighbour(v, m.vertices[v as int].edges.0),
                v2 == m.neighbour(v, m.vertices[v as int].edges.1),
                forall|j: int| 0 <= j < vertices@.len() ==> (#[trigger] vertices@[j]) < m.vertices.len(),
                k <= n,
                n == vertices@.len(),
                res_x == sum_seq(vertices@.subrange(0, k as int), gx),
                res_y == sum_seq(vertices@.subrange(0, k as int), gy),
                -(k * FORCE_BOUND) <= res_x <= k * FORCE_BOUND,
                -(k * FORCE_BOUND) <= res_y <= k * FORCE_BOUND,
            decreases n - k,
        {
            let u = vertices[k];
            let q = self.segments.vertex_position(u);
            let is_linked = v1 == Some(u) || v2 == Some(u);
            let f = vertex_force(p, q, is_linked, self.near_l, self.far_l, step);
            proof {
                assert(vertices@.subrange(0, k + 1).drop_last() =~= vertices@.subrange(0, k as int));
                assert(vertices@.subrange(0, k + 1).last() == u);
                assert(gx(u) == f.0);
                assert(gy(u) == f.1);
            }
            res_x = res_x + f.0 as i128;
            res_y = res_y + f.1 as i128;
            k += 1;
        }
        proof {
            assert(vertices@.subrange(0, n as int) =~= vertices@);
        }
        Some((res_x, res_y))
    }

    /// One relaxation step. Every active vertex is moved by the forces on it from the
    /// vertices within `far_l` of it that the grid finds: a pull of length `step` toward
    /// a linked vertex that is farther than `near_l`, a push away from an unlinked one.
    /// All forces are taken from the positions before the step. A vertex that would
    /// leave the unit square stops at its border.
    pub fn optimize_position(&mut self, step: u32)
        requires
            old(self).mesh().wf(),
        ensures
            final(self).mesh().wf(),
            final(self).mesh()@ == relaxed(
                old(self).mesh()@,
                old(self).near(),
                old(self).far(),
                step,
            ),
            final(self).near() == old(self).near(),
            final(self).far() == old(self).far(),
            final(self).seed() == old(self).seed(),
    {
        let n = self.segments.v_num();
        let ghost m0 = self.segments@;
        proof {
            self.segments.lemma_wf();
        }
        let ghost near_l = self.near_l;
        let ghost far_l = self.far_l;
        self.sx.clear();
        self.sy.clear();
        let mut v: usize = 0;
        while v < n
            invariant
                self.segments.wf(),
                self.segments@ == m0,
                self.near_l == near_l,
                self.far_l == far_l,
                self.rng == old(self).rng,
                n == m0.vertices.len(),
                v <= n,
                self.sx@.len() == v,
                self.sy@.len() == v,
                forall|w: int|
                    0 <= w < v ==> (#[trigger] self.sx@[w]) == displacement(m0, near_l, far_l, step, w).0
                        && -(usize::MAX * FORCE_BOUND) <= self.sx@[w] <= usize::MAX * FORCE_BOUND,
                forall|w: int|
                    0 <= w < v ==> (#[trigger] self.sy@[w]) == displacement(m0, near_l, far_l, step, w).1
                        && -(usize::MAX * FORCE_BOUND) <= self.sy@[w] <= usize::MAX * FORCE_BOUND,
            decreases n - v,
        {
            self.segments.sphere_vertices(v, self.far_l, &mut self.vertices);
            proof {
                assert forall|k: int| 0 <= k < self.vertices@.len() implies (
                #[trigger] self.vertices@[k]) < m0.vertices.len() by {
                    assert(self.vertices@.contains(self.vertices@[k]));
                }
            }
            let s = match self.reject(v, &self.vertices, step) {
                Some(s) => s,
                None => (0, 0),
            };
            proof {
                if m0.active(v as int) {
                    let ids = self.vertices@;
                    let fx = near_pull_x(m0, near_l, far_l, step, v as int);
                    let fy = near_pull_y(m0, near_l, far_l, step, v as int);
                    let gx = pull_x(m0, near_l, far_l, step, v as int);
                    let gy = pull_y(m0, near_l, far_l, step, v as int);
                    assert forall|k: int| 0 <= k < ids.len() implies fx(#[trigger] ids[k]) == gx(
                        ids[k],
                    ) && fy(ids[k]) == gy(ids[k]) by {
                        assert(ids.contains(ids[k]));
                    }
                    lemma_sum_seq_agree(ids, fx, gx);
                    lemma_sum_seq_agree(ids, fy, gy);
                    lemma_sum_seq_range(ids, fx, n as nat);
                    lemma_sum_seq_range(ids, fy, n as nat);
                    assert(ids.len() * FORCE_BOUND <= usize::MAX * FORCE_BOUND) by (nonlinear_arith)
                        requires
                            ids.len() <= usize::MAX,
                    ;
                }
            }
            self.sx.push(s.0);
            self.sy.push(s.1);
            v += 1;
        }
        let ghost sxs = self.sx@;
        let ghost sys = self.sy@;
        proof {
            assert(self.segments@ =~= relaxed_below(m0, near_l, far_l, step, 0)) by {
                assert(self.segments@.vertices =~= relaxed_below(m0, near_l, far_l, step, 0).vertices);
            }
        }
        let mut v: usize = 0;
        while v < n
            invariant
                self.segments.wf(),
                m0.wf(),
                self.segments@ == relaxed_below(m0, near_l, far_l, step, v as int),
                self.near_l == near_l,
                self.far_l == far_l,
                self.rng == old(self).rng,
                n == m0.vertices.len(),
                v <= n,
                self.sx@ == sxs,
                self.sy@ == sys,
                sxs.len() == n,
                sys.len() == n,
                forall|w: int|
                    0 <= w < n ==> (#[trigger] sxs[w]) == displacement(m0, near_l, far_l, step, w).0
                        && -(usize::MAX * FORCE_BOUND) <= sxs[w] <= usize::MAX * FORCE_BOUND,
                forall|w: int|
                    0 <= w < n ==> (#[trigger] sys[w]) == displacement(m0, near_l, far_l, step, w).1
                        && -(usize::MAX * FORCE_BOUND) <= sys[w] <= usize::MAX * FORCE_BOUND,
            decreases n - v,
        {
            let ghost before = self.segments@;
            if !matches!(self.segments.vertex_status(v), VertexStatus::Deleted) {
                let p = self.segments.vertex_position(v);
                let dx = self.sx[v];
                let dy = self.sy[v];
                proof {
                    assert(sxs[v as int] == dx);
                    assert(sys[v as int] == dy);
                    assert(usize::MAX * FORCE_BOUND <= 0xffff_ffff_ffff_ffff * 0x8_0000_0000)
                        by (nonlinear_arith)
                        requires
                            usize::MAX <= 0xffff_ffff_ffff_ffff,
                            FORCE_BOUND == 0x8_0000_0000,
                    ;
                }
                let nx: i128 = p.x as i128 + dx;
                let ny: i128 = p.y as i128 + dy;
                let x: u32 = if nx < 0 {
                    0
                } else if nx > SCALE as i128 {
                    SCALE
                } else {
                    nx as u32
                };
                let y: u32 = if ny < 0 {
                    0
                } else if ny > SCALE as i128 {
                    SCALE
                } else {
                    ny as u32
                };
                self.segments.move_vertex(v, Point { x, y });
            }
            proof {
                assert(self.segments@.vertices =~= relaxed_below(
                    m0,
                    near_l,
                    far_l,
                    step,
                    v + 1,
                ).vertices);
            }
            v += 1;
        }
    }
}

} // verus!
