//! Read-only questions to the mesh.

use vstd::prelude::*;
use crate::geometry::Point;
use crate::geometry::SCALE;
use crate::geometry::dist2;
use crate::geometry::distance;
use crate::geometry::integer_sqrt;
use crate::geometry::isqrt;
use crate::geometry::squared_distance;
use crate::mesh::VertexStatus;
use crate::segments::Segments;

verus! {

impl Segments {
    /// Length of edge `e1`, rounded down.
    pub fn get_edge_length(&self, e1: usize) -> (r: u32)
        requires
            self.wf(),
            self@.edge_exists(e1 as int),
        ensures
            r == self@.edge_length(e1 as int),
    {
        proof {
            assert(self@.edge_ok(e1 as int));
        }
        let (v1, v2) = self.ev[e1].unwrap();
        proof {
            assert(self@.vertex_ok(v1 as int));
            assert(self@.vertex_ok(v2 as int));
        }
        distance(self.pos[v1], self.pos[v2])
    }

    /// The ids of the existing edges, in increasing order.
    pub fn get_edges(&self) -> (r: Vec<usize>)
        ensures
            r@ == self@.live_edges(self@.edges.len()),
    {
        let mut r: Vec<usize> = Vec::new();
        let n = self.ev.len();
        let mut e: usize = 0;
        while e < n
            invariant
                e <= n,
                n == self@.edges.len(),
                r@ == self@.live_edges(e as nat),
            decreases n - e,
        {
            if self.ev[e].is_some() {
                r.push(e);
            }
            e += 1;
        }
        r
    }

    /// The endpoints of the existing edges, by increasing edge id.
    pub fn get_edges_vertices(&self) -> (r: Vec<(usize, usize)>)
        ensures
            r@ == self@.ends_of(self@.live_edges(self@.edges.len())),
    {
        let mut r: Vec<(usize, usize)> = Vec::new();
        self.np_get_edges(&mut r);
        r
    }

    /// Puts the endpoints of the existing edges into `buf`, by increasing edge id, in
    /// place of what `buf` held, and returns their number.
    pub fn np_get_edges(&self, buf: &mut Vec<(usize, usize)>) -> (n: usize)
        ensures
            final(buf)@ == self@.ends_of(self@.live_edges(self@.edges.len())),
            n == final(buf)@.len(),
    {
        buf.clear();
        let e_num = self.ev.len();
        let mut e: usize = 0;
        while e < e_num
            invariant
                e <= e_num,
                e_num == self@.edges.len(),
                buf@ == self@.ends_of(self@.live_edges(e as nat)),
            decreases e_num - e,
        {
            if let Some(ends) = self.ev[e] {
                buf.push(ends);
                assert(buf@ =~= self@.ends_of(self@.live_edges((e + 1) as nat)));
            }
            e += 1;
        }
        buf.len()
    }

    /// Puts the positions of the two endpoints of each existing edge into `buf`, by
    /// increasing edge id, in place of what `buf` held, and returns their number.
    pub fn np_get_edges_coordinates(&self, buf: &mut Vec<(Point, Point)>) -> (n: usize)
        requires
            self.wf(),
        ensures
            final(buf)@ == self@.end_points_of(self@.live_edges(self@.edges.len())),
            n == final(buf)@.len(),
    {
        buf.clear();
        let e_num = self.ev.len();
        let mut e: usize = 0;
        while e < e_num
            invariant
                self.wf(),
                e <= e_num,
                e_num == self@.edges.len(),
                buf@ == self@.end_points_of(self@.live_edges(e as nat)),
            decreases e_num - e,
        {
            if let Some((v1, v2)) = self.ev[e] {
                proof {
                    assert(self@.edge_ok(e as int));
                }
                buf.push((self.pos[v1], self.pos[v2]));
                assert(buf@ =~= self@.end_points_of(self@.live_edges((e + 1) as nat)));
            }
            e += 1;
        }
        buf.len()
    }

    /// Puts the positions of the live vertices into `buf`, by increasing vertex id, in
    /// place of what `buf` held, and returns their number.
    pub fn np_get_vertex_coordinates(&self, buf: &mut Vec<Point>) -> (n: usize)
        requires
            self.wf(),
        ensures
            final(buf)@ == self@.positions_of(self@.live_vertices(self@.vertices.len())),
            n == final(buf)@.len(),
    {
        buf.clear();
        let v_num = self.pos.len();
        let mut v: usize = 0;
        while v < v_num
            invariant
                self.wf(),
                v <= v_num,
                v_num == self@.vertices.len(),
                buf@ == self@.positions_of(self@.live_vertices(v as nat)),
            decreases v_num - v,
        {
            if !matches!(self.va[v], VertexStatus::Deleted) {
                buf.push(self.pos[v]);
                assert(buf@ =~= self@.positions_of(self@.live_vertices((v + 1) as nat)));
            }
            v += 1;
        }
        buf.len()
    }

    /// Distance, rounded down, from `(x, y)` to the live vertex farthest from it; zero
    /// for a mesh without live vertices.
    pub fn get_greatest_distance(&self, x: u32, y: u32) -> (r: u32)
        requires
            self.wf(),
            (Point { x, y }).in_unit_square(),
        ensures
            r == isqrt(self@.greatest_dist2(Point { x, y }, self@.vertices.len()) as nat),
    {
        let p = Point { x, y };
        let mut max_dist2: u64 = 0;
        let v_num = self.pos.len();
        let mut v: usize = 0;
        while v < v_num
            invariant
                self.wf(),
                p.in_unit_square(),
                v <= v_num,
                v_num == self@.vertices.len(),
                max_dist2 == self@.greatest_dist2(p, v as nat),
            decreases v_num - v,
        {
            if !matches!(self.va[v], VertexStatus::Deleted) {
                proof {
                    assert(self@.vertex_ok(v as int));
                }
                let d = squared_distance(p, self.pos[v]);
                if d > max_dist2 {
                    max_dist2 = d;
                }
            }
            v += 1;
        }
        integer_sqrt(max_dist2)
    }

    /// Number of active vertices.
    pub fn get_active_vertex_count(&self) -> (n: usize)
        requires
            self.wf(),
        ensures
            n == self@.active_count(self@.vertices.len()),
    {
        let mut n: usize = 0;
        let v_num = self.va.len();
        let mut v: usize = 0;
        while v < v_num
            invariant
                self.wf(),
                v <= v_num,
                v_num == self@.vertices.len(),
                n == self@.active_count(v as nat),
                n <= v,
            decreases v_num - v,
        {
            if matches!(self.va[v], VertexStatus::Active) {
                n += 1;
            }
            v += 1;
        }
        n
    }

    /// Whether every live vertex keeps the distance `limit` from the border of the unit
    /// square, on both axes.
    pub fn safe_vertex_positions(&self, limit: u32) -> (r: bool)
        requires
            self.wf(),
        ensures
            r == self@.safe(limit),
    {
        if limit > SCALE {
            let v_num = self.va.len();
            let mut v: usize = 0;
            while v < v_num
                invariant
                    self.wf(),
                    v <= v_num,
                    v_num == self@.vertices.len(),
                    limit > SCALE,
                    forall|w: int| 0 <= w < v ==> !self@.live(w),
                decreases v_num - v,
            {
                if !matches!(self.va[v], VertexStatus::Deleted) {
                    assert(self@.live(v as int));
                    return false;
                }
                v += 1;
            }
            return true;
        }
        let hi: u32 = SCALE - limit;
        let v_num = self.va.len();
        let mut v: usize = 0;
        while v < v_num
            invariant
                self.wf(),
                v <= v_num,
                v_num == self@.vertices.len(),
                hi == SCALE - limit,
                forall|w: int|
                    0 <= w < v && #[trigger] self@.live(w) ==> crate::geometry::within_margin(
                        self@.vertices[w].pos,
                        limit,
                    ),
            decreases v_num - v,
        {
            if !matches!(self.va[v], VertexStatus::Deleted) {
                let p = self.pos[v];
                if p.x < limit || p.x > hi || p.y < limit || p.y > hi {
                    assert(self@.live(v as int));
                    return false;
                }
            }
            v += 1;
        }
        true
    }

    /// The vertices at the far ends of the two recorded edges of `v`.
    pub fn linked_vertices(&self, v: usize) -> (r: (Option<usize>, Option<usize>))
        requires
            self.wf(),
            v < self@.vertices.len(),
        ensures
            r.0 == self@.neighbour(v, self@.vertices[v as int].edges.0),
            r.1 == self@.neighbour(v, self@.vertices[v as int].edges.1),
    {
        proof {
            assert(self@.vertex_ok(v as int));
        }
        let slots = self.ve[v];
        let first = match slots.0 {
            Some(e) => {
                let (a, b) = self.ev[e].unwrap();
                Some(if a == v { b } else { a })
            },
            None => None,
        };
        let second = match slots.1 {
            Some(e) => {
                let (a, b) = self.ev[e].unwrap();
                Some(if a == v { b } else { a })
            },
            None => None,
        };
        (first, second)
    }

    /// Nine times the greatest number of vertices that any cell of the grid has held,
    /// or `usize::MAX` where that does not fit: no result of `sphere_vertices` on the
    /// mesh as it stands is longer.
    pub fn get_max_sphere_count(&self) -> (n: usize)
        ensures
            n == if 9 * self.greatest_zone_size() <= usize::MAX {
                9 * self.greatest_zone_size()
            } else {
                usize::MAX as nat
            },
    {
        self.zone_map.get_max_sphere_count()
    }

    /// Collects into `vertices` the live vertices within `rad` of vertex `v`, from the
    /// grid cell of `v` and the eight cells around it, and returns their number. What
    /// `vertices` held before is dropped. A live `v` is among them.
    pub fn sphere_vertices(&self, v: usize, rad: u32, vertices: &mut Vec<usize>) -> (num: usize)
        requires
            self.wf(),
            v < self@.vertices.len(),
        ensures
            num == final(vertices)@.len(),
            num <= 9 * self.greatest_zone_size(),
            final(vertices)@.no_duplicates(),
            forall|u: usize| final(vertices)@.contains(u) <==> self@.near(v as int, u as int, rad),
            rad * self@.nz <= SCALE ==> forall|u: usize|
                #![trigger final(vertices)@.contains(u)]
                self@.live(u as int) && dist2(
                    self@.vertices[v as int].pos,
                    self@.vertices[u as int].pos,
                ) <= rad * rad ==> final(vertices)@.contains(u),
    {
        proof {
            assert(self@.vertex_ok(v as int));
        }
        let num = self.zone_map.sphere_vertices(v, &self.pos, rad, vertices);
        proof {
            let zm = self.zone_map@;
            let centre = self.pos@[v as int];
            assert forall|u: usize| vertices@.contains(u) <==> self@.near(v as int, u as int, rad) by {
                crate::zone_map::lemma_cell_index_parts(centre, zm.nz);
                if zm.zone_of.dom().contains(u) {
                    crate::zone_map::lemma_cell_index_parts(self.pos@[u as int], zm.nz);
                }
                assert(zm.zone_of.dom().contains(u) <==> self@.live(u as int));
            }
            if rad * self@.nz <= SCALE {
                assert forall|u: usize|
                    #![trigger vertices@.contains(u)]
                    self@.live(u as int) && dist2(
                        self@.vertices[v as int].pos,
                        self@.vertices[u as int].pos,
                    ) <= rad * rad implies vertices@.contains(u) by {
                    crate::laws::sphere_query_misses_nothing(*self, v as int, u as int, rad);
                }
            }
        }
        num
    }

    /// Twice the area of the triangle that the vectors of two edges span.
    fn cross_product(&self, e1: usize, e2: usize) -> (r: u64)
        requires
            self.wf(),
            self@.edge_exists(e1 as int),
            self@.edge_exists(e2 as int),
        ensures
            r == self@.cross(e1 as int, e2 as int),
            r <= 2_000_000_000_000_000_000,
    {
        proof {
            assert(self@.edge_ok(e1 as int));
            assert(self@.edge_ok(e2 as int));
        }
        let (a, b) = self.ev[e1].unwrap();
        let (c, d) = self.ev[e2].unwrap();
        proof {
            assert(self@.vertex_ok(a as int));
            assert(self@.vertex_ok(b as int));
            assert(self@.vertex_ok(c as int));
            assert(self@.vertex_ok(d as int));
        }
        let ax: i64 = self.pos[c].x as i64 - self.pos[d].x as i64;
        let ay: i64 = self.pos[c].y as i64 - self.pos[d].y as i64;
        let bx: i64 = self.pos[a].x as i64 - self.pos[b].x as i64;
        let by: i64 = self.pos[a].y as i64 - self.pos[b].y as i64;
        assert(-1_000_000_000_000_000_000 <= ax * by <= 1_000_000_000_000_000_000) by (nonlinear_arith)
            requires
                -1_000_000_000 <= ax <= 1_000_000_000,
                -1_000_000_000 <= by <= 1_000_000_000,
        ;
        assert(-1_000_000_000_000_000_000 <= ay * bx <= 1_000_000_000_000_000_000) by (nonlinear_arith)
            requires
                -1_000_000_000 <= ay <= 1_000_000_000,
                -1_000_000_000 <= bx <= 1_000_000_000,
        ;
        let c1: i64 = ax * by;
        let c2: i64 = ay * bx;
        if c1 >= c2 {
            (c1 - c2) as u64
        } else {
            (c2 - c1) as u64
        }
    }

    /// The bend at edge `e1`: the areas of the two triangles that the edge spans with
    /// its neighbouring edges, added up. This is no curvature in the strict sense. The
    /// edge must have a neighbouring edge at each endpoint, and the bend must not
    /// vanish.
    pub fn get_edge_curvature(&self, e1: usize) -> (t: u64)
        requires
            self.wf(),
            self@.connected(e1 as int),
            self@.curvature(e1 as int) > 0,
        ensures
            t == self@.curvature(e1 as int),
    {
        proof {
            assert(self@.edge_ok(e1 as int));
        }
        let (v1, v2) = self.ev[e1].unwrap();
        proof {
            assert(self@.vertex_ok(v1 as int));
            assert(self@.vertex_ok(v2 as int));
        }
        let s1 = self.ve[v1];
        let s2 = self.ve[v2];
        let e2 = (if s1.0 == Some(e1) { s1.1 } else { s1.0 }).unwrap();
        let e3 = (if s2.0 == Some(e1) { s2.1 } else { s2.0 }).unwrap();
        proof {
            assert(self@.touches(e2 as int, v1 as int));
            assert(self@.touches(e3 as int, v2 as int));
        }
        let t = self.cross_product(e1, e2) + self.cross_product(e1, e3);
        t / 2
    }

    /// The bend at edge `e1`, or `None` for an edge that does not exist, that lacks a
    /// neighbouring edge at an endpoint, or at which the bend vanishes.
    pub fn checked_edge_curvature(&self, e1: usize) -> (t: Option<u64>)
        requires
            self.wf(),
        ensures
            t == if self@.connected(e1 as int) && self@.curvature(e1 as int) > 0 {
                Some(self@.curvature(e1 as int) as u64)
            } else {
                None
            },
    {
        if e1 >= self.ev.len() {
            return None;
        }
        let (v1, v2) = match self.ev[e1] {
            Some(ends) => ends,
            None => {
                return None;
            },
        };
        proof {
            assert(self@.edge_ok(e1 as int));
            assert(self@.vertex_ok(v1 as int));
            assert(self@.vertex_ok(v2 as int));
        }
        let s1 = self.ve[v1];
        let s2 = self.ve[v2];
        let e2 = match (if s1.0 == Some(e1) { s1.1 } else { s1.0 }) {
            Some(e) => e,
            None => {
                return None;
            },
        };
        let e3 = match (if s2.0 == Some(e1) { s2.1 } else { s2.0 }) {
            Some(e) => e,
            None => {
                return None;
            },
        };
        proof {
            assert(self@.touches(e2 as int, v1 as int));
            assert(self@.touches(e3 as int, v2 as int));
        }
        let t = (self.cross_product(e1, e2) + self.cross_product(e1, e3)) / 2;
        if t == 0 {
            None
        } else {
            Some(t)
        }
    }

    /// Squared length of edge `e1`.
    pub fn get_edge_length2(&self, e1: usize) -> (r: u64)
        requires
            self.wf(),
            self@.edge_exists(e1 as int),
        ensures
            r == self@.edge_length2(e1 as int),
    {
        proof {
            assert(self@.edge_ok(e1 as int));
        }
        let (v1, v2) = self.ev[e1].unwrap();
        proof {
            assert(self@.vertex_ok(v1 as int));
            assert(self@.vertex_ok(v2 as int));
        }
        squared_distance(self.pos[v1], self.pos[v2])
    }

    /// Whether edge `e1` can be collapsed: it exists, both endpoints are active, and
    /// the first has a second edge, which leads to a vertex other than the second.
    pub fn can_collapse(&self, e1: usize) -> (r: bool)
        requires
            self.wf(),
        ensures
            r == self@.collapsible(e1 as int),
    {
        if e1 >= self.ev.len() {
            return false;
        }
        let (v1, v2) = match self.ev[e1] {
            Some(ends) => ends,
            None => {
                return false;
            },
        };
        proof {
            assert(self@.edge_ok(e1 as int));
            assert(self@.vertex_ok(v1 as int));
        }
        if !matches!(self.va[v1], VertexStatus::Active) || !matches!(
            self.va[v2],
            VertexStatus::Active
        ) {
            return false;
        }
        let slots = self.ve[v1];
        match (if slots.0 == Some(e1) { slots.1 } else { slots.0 }) {
            Some(e2) => {
                proof {
                    assert(self@.touches(e2 as int, v1 as int));
                }
                let (a, b) = self.ev[e2].unwrap();
                (if a == v1 { b } else { a }) != v2
            },
            None => false,
        }
    }

    /// Whether edge `e1` may be split with the least length `min_len`: what
    /// `split_edge` asks of its caller.
    pub fn split_allowed(&self, e1: usize, min_len: u32) -> (r: bool)
        requires
            self.wf(),
        ensures
            r == self@.may_split(e1 as int, min_len),
    {
        if min_len == 0 || e1 >= self.ev.len() {
            return true;
        }
        match self.ev[e1] {
            Some((v1, _)) => {
                proof {
                    assert(self@.edge_ok(e1 as int));
                }
                assert(min_len * min_len <= 0xffff_ffff * 0xffff_ffff) by (nonlinear_arith)
                    requires
                        min_len <= 0xffff_ffff,
                ;
                self.vs[v1].is_none() || self.get_edge_length2(e1) >= min_len as u64 * min_len as u64
            },
            None => true,
        }
    }

    /// Whether edge `e1` may be collapsed with the greatest length `max_len`: what
    /// `collapse_edge` asks of its caller.
    pub fn collapse_allowed(&self, e1: usize, max_len: u32) -> (r: bool)
        requires
            self.wf(),
        ensures
            r == self@.may_collapse(e1 as int, max_len),
    {
        if !self.can_collapse(e1) {
            return false;
        }
        assert(max_len * max_len <= 0xffff_ffff * 0xffff_ffff) by (nonlinear_arith)
            requires
                max_len <= 0xffff_ffff,
        ;
        max_len == 0 || self.get_edge_length2(e1) <= max_len as u64 * max_len as u64
    }

    /// The walk round the loop: the common part of the two sorted exports.
    fn walk_loop(&self, out: &mut Vec<usize>)
        requires
            self.wf(),
        ensures
            final(out)@ == self@.sorted_vertices(),
    {
        out.clear();
        let e_num = self.ev.len();
        let mut n: usize = e_num;
        while n > 0 && self.ev[n - 1].is_none()
            invariant
                n <= e_num,
                e_num == self@.edges.len(),
                self@.last_edge(e_num as nat) == self@.last_edge(n as nat),
            decreases n,
        {
            n -= 1;
        }
        if n == 0 {
            return ;
        }
        let e_start = n - 1;
        proof {
            assert(self@.edge_ok(e_start as int));
            assert(self@.last_edge(n as nat) == Some(e_start));
        }
        let (v_end, v_first) = self.ev[e_start].unwrap();
        out.push(v_first);
        let mut v_cur = v_first;
        let mut e_cur = e_start;
        let mut fuel = e_num;
        while v_cur != v_end && fuel > 0
            invariant
                self.wf(),
                self@.touches(e_cur as int, v_cur as int),
                v_cur < self@.vertices.len(),
                out@ + self@.walk(v_end, v_cur, e_cur, fuel as nat) == self@.sorted_vertices(),
            decreases fuel,
        {
            proof {
                assert(self@.vertex_ok(v_cur as int));
            }
            let slots = self.ve[v_cur];
            let e = match (if slots.0 == Some(e_cur) { slots.1 } else { slots.0 }) {
                Some(e) => e,
                None => {
                    assert(self@.walk(v_end, v_cur, e_cur, fuel as nat) == Seq::<usize>::empty());
                    assert(out@ + Seq::<usize>::empty() =~= out@);
                    return ;
                },
            };
            proof {
                assert(self@.touches(e as int, v_cur as int));
                assert(self@.edge_ok(e as int));
            }
            let (a, b) = self.ev[e].unwrap();
            let w = if a == v_cur { b } else { a };
            proof {
                let rest = self@.walk(v_end, w, e, (fuel - 1) as nat);
                assert(self@.walk(v_end, v_cur, e_cur, fuel as nat) == seq![w] + rest);
                assert(out@.push(w) + rest =~= out@ + (seq![w] + rest));
            }
            out.push(w);
            v_cur = w;
            e_cur = e;
            fuel -= 1;
        }
        proof {
            assert(self@.walk(v_end, v_cur, e_cur, fuel as nat) == Seq::<usize>::empty());
            assert(out@ + Seq::<usize>::empty() =~= out@);
        }
    }

    /// Puts the vertices of a closed loop into `buf`, in the order of the loop, in
    /// place of what `buf` held, and returns their number. The walk sets out along the
    /// existing edge with the greatest id, from its first endpoint to its second: the
    /// second endpoint comes first, then every vertex that the walk arrives at, the
    /// first endpoint last. It is meant for a mesh that is one closed loop, of which
    /// it gives every vertex once; on any other mesh it ends at the first vertex
    /// without a further edge, or after as many steps as there are edge ids.
    pub fn np_get_sorted_vertices(&self, buf: &mut Vec<usize>) -> (n: usize)
        requires
            self.wf(),
        ensures
            final(buf)@ == self@.sorted_vertices(),
            n == final(buf)@.len(),
    {
        self.walk_loop(buf);
        buf.len()
    }

    /// Puts the positions of the vertices of a closed loop into `buf`, in the order of
    /// the loop, in place of what `buf` held, and returns their number. The order is
    /// that of `np_get_sorted_vertices`.
    pub fn np_get_sorted_vertex_coordinates(&self, buf: &mut Vec<Point>) -> (n: usize)
        requires
            self.wf(),
        ensures
            final(buf)@ == self@.positions_of(self@.sorted_vertices()),
            n == final(buf)@.len(),
    {
        let mut ordered: Vec<usize> = Vec::new();
        self.walk_loop(&mut ordered);
        proof {
            self.lemma_walk_in_range();
        }
        buf.clear();
        let n = ordered.len();
        let mut i: usize = 0;
        while i < n
            invariant
                self.wf(),
                i <= n,
                n == ordered@.len(),
                ordered@ == self@.sorted_vertices(),
                forall|k: int| 0 <= k < n ==> (#[trigger] ordered@[k]) < self@.vertices.len(),
                buf@ == self@.positions_of(ordered@.subrange(0, i as int)),
            decreases n - i,
        {
            let v = ordered[i];
            buf.push(self.pos[v]);
            proof {
                assert(ordered@.subrange(0, i + 1) =~= ordered@.subrange(0, i as int).push(v));
                assert(buf@ =~= self@.positions_of(ordered@.subrange(0, i + 1)));
            }
            i += 1;
        }
        proof {
            assert(ordered@.subrange(0, n as int) =~= ordered@);
        }
        n
    }

    /// Every vertex that the walk round the loop reports exists.
    pub proof fn lemma_walk_in_range(&self)
        requires
            self.wf(),
        ensures
            forall|k: int|
                0 <= k < self@.sorted_vertices().len() ==> (#[trigger] self@.sorted_vertices()[k])
                    < self@.vertices.len(),
    {
        let m = self@;
        match m.last_edge(m.edges.len()) {
            None => {},
            Some(e) => {
                m.lemma_last_edge(m.edges.len());
                assert(m.edge_ok(e as int));
                let (v_end, v_cur) = m.edges[e as int].unwrap();
                m.lemma_walk(v_end, v_cur, e, m.edges.len());
                let rest = m.walk(v_end, v_cur, e, m.edges.len());
                let all = m.sorted_vertices();
                assert forall|k: int| 0 <= k < all.len() implies (#[trigger] all[k])
                    < m.vertices.len() by {
                    if k > 0 {
                        assert(all[k] == rest[k - 1]);
                    }
                }
            },
        }
    }
}

} // verus!
