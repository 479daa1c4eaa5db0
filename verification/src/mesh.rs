//! The mathematical model of the mesh: vertices with a position, a status and up to
//! two incident edges, and edges that join two distinct live vertices.

use vstd::prelude::*;
use crate::geometry::Point;
use crate::geometry::adjacent_cells;
use crate::geometry::dist2;
use crate::geometry::within_margin;
use crate::geometry::isqrt;
use crate::geometry::midpoint;

verus! {

/// Whether a vertex is gone, anchored, or free to move.
#[derive(Clone, Copy, Debug, PartialEq, Eq, Structural)]
pub enum VertexStatus {
    /// The vertex has been removed; its id is never used again.
    Deleted,
    /// The vertex is part of the mesh but is never moved by the solver.
    Passive,
    /// The vertex is part of the mesh and moves with the forces on it.
    Active,
}

/// Why an edit of the mesh was not carried out.
#[derive(Clone, Copy, Debug, PartialEq, Eq, Structural)]
pub enum MeshError {
    /// A coordinate lies outside the unit square.
    OutsideUnitSquare,
    /// The mesh has no room left for the vertices or edges that the edit creates.
    CapacityExceeded,
    /// A closed shape needs at least two points.
    DegenerateShape,
    /// The edge does not exist, or exists no longer.
    NoSuchEdge,
    /// The first endpoint of the edge belongs to no segment.
    InvalidSegment,
}

impl MeshError {
    /// Whether the error is an expected outcome of a scan over edges, as opposed to a
    /// mistake of the caller or an exhausted mesh.
    pub open spec fn is_soft(self) -> bool {
        self == MeshError::NoSuchEdge || self == MeshError::InvalidSegment
    }

    /// Whether the error is an expected outcome of a scan over edges.
    pub fn soft(&self) -> (r: bool)
        ensures
            r == self.is_soft(),
    {
        match self {
            MeshError::NoSuchEdge => true,
            MeshError::InvalidSegment => true,
            _ => false,
        }
    }
}

/// The two places in which a vertex keeps the ids of its incident edges.
pub type EdgeSlots = (Option<usize>, Option<usize>);

/// The slots after edge `e` has been put into the first free one. With no free slot
/// the second one is overwritten.
pub open spec fn slots_with(s: EdgeSlots, e: usize) -> EdgeSlots {
    if s.0 is None {
        (Some(e), s.1)
    } else {
        (s.0, Some(e))
    }
}

/// The slots after edge `e` has been taken out, the remaining edge moved to the front.
pub open spec fn slots_without(s: EdgeSlots, e: usize) -> EdgeSlots {
    if s.0 == Some(e) {
        (s.1, None)
    } else if s.1 == Some(e) {
        (s.0, None)
    } else {
        s
    }
}

/// How many of the slots are taken.
pub open spec fn slots_count(s: EdgeSlots) -> nat {
    if s.0 is None {
        0
    } else if s.1 is None {
        1
    } else {
        2
    }
}

/// The edge in the slots that is not `e`, if there is one.
pub open spec fn slots_other(s: EdgeSlots, e: usize) -> Option<usize> {
    if s.0 == Some(e) {
        s.1
    } else {
        s.0
    }
}

/// Status of point `i` of `n` in a new shape: `ends` for the first and the last point,
/// `inner` for the others.
pub open spec fn shape_status(i: int, n: int, ends: VertexStatus, inner: VertexStatus) -> VertexStatus {
    if i == 0 || i == n - 1 {
        ends
    } else {
        inner
    }
}

/// Number of edges of a shape of `n` points.
pub open spec fn shape_edges(n: nat, closed: bool) -> nat {
    let path: nat = if n >= 1 {
        (n - 1) as nat
    } else {
        0
    };
    if closed {
        path + 1
    } else {
        path
    }
}

/// Number of edges at point `j` of a row of vertices of which the first `i + 1` have
/// been joined in a row.
pub open spec fn path_degree(j: int, i: int) -> nat {
    let before: nat = if 1 <= j <= i {
        1
    } else {
        0
    };
    let after: nat = if 0 <= j < i {
        1
    } else {
        0
    };
    before + after
}

/// One vertex of the mesh.
pub struct VertexView {
    /// Where the vertex stands.
    pub pos: Point,
    /// Whether the vertex is gone, anchored, or free to move.
    pub status: VertexStatus,
    /// The initial shape that the vertex stems from.
    pub segment: Option<usize>,
    /// The ids of the incident edges.
    pub edges: EdgeSlots,
}

/// The mesh as a value: what every operation on `Segments` is stated over.
pub struct MeshView {
    /// Greatest number of vertices, and of edges, that the mesh can ever hold.
    pub n_max: nat,
    /// Number of initial shapes so far.
    pub s_num: nat,
    /// Cells per axis of the grid that indexes the vertices.
    pub nz: nat,
    /// All vertices ever created, by id.
    pub vertices: Seq<VertexView>,
    /// All edges ever created, by id; `None` for a deleted edge.
    pub edges: Seq<Option<(usize, usize)>>,
}

impl MeshView {
    /// Vertex `v` has been created and not deleted.
    pub open spec fn live(self, v: int) -> bool {
        0 <= v < self.vertices.len() && self.vertices[v].status != VertexStatus::Deleted
    }

    /// Vertex `v` is live and free to move.
    pub open spec fn active(self, v: int) -> bool {
        0 <= v < self.vertices.len() && self.vertices[v].status == VertexStatus::Active
    }

    /// Edge `e` has been created and not deleted.
    pub open spec fn edge_exists(self, e: int) -> bool {
        0 <= e < self.edges.len() && self.edges[e] is Some
    }

    /// Edge `e` is one of the incident edges that vertex `v` records.
    pub open spec fn has_edge(self, v: int, e: usize) -> bool {
        self.vertices[v].edges.0 == Some(e) || self.vertices[v].edges.1 == Some(e)
    }

    /// Number of incident edges that vertex `v` records.
    pub open spec fn degree(self, v: int) -> nat {
        slots_count(self.vertices[v].edges)
    }

    /// Edge `e` exists and ends in vertex `v`.
    pub open spec fn touches(self, e: int, v: int) -> bool {
        self.edge_exists(e) && (self.edges[e].unwrap().0 == v || self.edges[e].unwrap().1 == v)
    }

    /// The endpoint of edge `e` that is not `v`.
    pub open spec fn other_end(self, e: int, v: usize) -> usize {
        let (a, b) = self.edges[e].unwrap();
        if a == v {
            b
        } else {
            a
        }
    }

    /// A recorded edge of `v` exists and ends in `v`.
    pub open spec fn slot_ok(self, v: int, s: Option<usize>) -> bool {
        match s {
            Some(e) => self.touches(e as int, v),
            None => true,
        }
    }

    /// Vertex `v` lies in the unit square, and its slots hold distinct existing edges
    /// that end in it, the first slot filled first.
    pub open spec fn vertex_ok(self, v: int) -> bool {
        let s = self.vertices[v].edges;
        &&& self.vertices[v].pos.in_unit_square()
        &&& self.slot_ok(v, s.0)
        &&& self.slot_ok(v, s.1)
        &&& (s.0 is None ==> s.1 is None)
        &&& (s.0 is Some ==> s.0 != s.1)
    }

    /// Edge `e`, where it exists, joins two distinct live vertices, and both record it.
    pub open spec fn edge_ok(self, e: int) -> bool {
        match self.edges[e] {
            Some((a, b)) => {
                &&& a != b
                &&& self.live(a as int)
                &&& self.live(b as int)
                &&& self.has_edge(a as int, e as usize)
                &&& self.has_edge(b as int, e as usize)
            },
            None => true,
        }
    }

    /// The mesh is within its capacity, every vertex lies in the unit square, and
    /// vertices and edges refer to each other consistently.
    pub open spec fn wf(self) -> bool {
        &&& self.vertices.len() <= self.n_max <= usize::MAX
        &&& self.edges.len() <= self.n_max
        &&& self.nz >= 1
        &&& forall|v: int| 0 <= v < self.vertices.len() ==> #[trigger] self.vertex_ok(v)
        &&& forall|e: int| 0 <= e < self.edges.len() ==> #[trigger] self.edge_ok(e)
    }

    /// The mesh with one more vertex, which has no edges yet.
    pub open spec fn with_vertex(self, p: Point, status: VertexStatus, segment: Option<usize>) -> MeshView {
        MeshView {
            vertices: self.vertices.push(VertexView { pos: p, status, segment, edges: (None, None) }),
            ..self
        }
    }

    /// The mesh in which vertex `v` records edge `e`.
    pub open spec fn link(self, v: int, e: usize) -> MeshView {
        MeshView {
            vertices: self.vertices.update(
                v,
                VertexView { edges: slots_with(self.vertices[v].edges, e), ..self.vertices[v] },
            ),
            ..self
        }
    }

    /// The mesh in which vertex `v` no longer records edge `e`.
    pub open spec fn unlink(self, v: int, e: usize) -> MeshView {
        MeshView {
            vertices: self.vertices.update(
                v,
                VertexView { edges: slots_without(self.vertices[v].edges, e), ..self.vertices[v] },
            ),
            ..self
        }
    }

    /// The mesh with one more edge, from `a` to `b`, recorded at both.
    pub open spec fn with_edge(self, a: usize, b: usize) -> MeshView {
        let e = self.edges.len() as usize;
        MeshView { edges: self.edges.push(Some((a, b))), ..self }.link(a as int, e).link(b as int, e)
    }

    /// The mesh after edge `e` has been deleted and taken out of the records of its
    /// endpoints. A deleted edge stays deleted.
    pub open spec fn without_edge(self, e: int) -> MeshView {
        match self.edges[e] {
            Some((a, b)) => MeshView { edges: self.edges.update(e, None), ..self }.unlink(
                a as int,
                e as usize,
            ).unlink(b as int, e as usize),
            None => self,
        }
    }

    /// The mesh in which vertex `v` has status `status`.
    pub open spec fn with_status(self, v: int, status: VertexStatus) -> MeshView {
        MeshView {
            vertices: self.vertices.update(v, VertexView { status, ..self.vertices[v] }),
            ..self
        }
    }

    /// The mesh in which vertex `v` stands at `p`.
    pub open spec fn with_position(self, v: int, p: Point) -> MeshView {
        MeshView { vertices: self.vertices.update(v, VertexView { pos: p, ..self.vertices[v] }), ..self }
    }

    /// The mesh after one more initial shape has been counted.
    pub open spec fn with_segment(self) -> MeshView {
        MeshView { s_num: self.s_num + 1, ..self }
    }

    /// The point halfway along edge `e`.
    pub open spec fn edge_midpoint(self, e: int) -> Point {
        let (a, b) = self.edges[e].unwrap();
        midpoint(self.vertices[a as int].pos, self.vertices[b as int].pos)
    }

    /// Squared length of edge `e`.
    pub open spec fn edge_length2(self, e: int) -> int {
        let (a, b) = self.edges[e].unwrap();
        dist2(self.vertices[a as int].pos, self.vertices[b as int].pos)
    }

    /// Length of edge `e`, rounded down.
    pub open spec fn edge_length(self, e: int) -> nat {
        isqrt(self.edge_length2(e) as nat)
    }

    /// Why edge `e` cannot be split, if it cannot: it does not exist, its first
    /// endpoint belongs to no segment, or there is no room for one more vertex and two
    /// more edges.
    pub open spec fn split_error(self, e: int) -> Option<MeshError> {
        if !self.edge_exists(e) {
            Some(MeshError::NoSuchEdge)
        } else if self.vertices[self.edges[e].unwrap().0 as int].segment is None {
            Some(MeshError::InvalidSegment)
        } else if self.vertices.len() + 1 > self.n_max || self.edges.len() + 2 > self.n_max {
            Some(MeshError::CapacityExceeded)
        } else {
            None
        }
    }

    /// Edge `e` may be split with the least length `min_len`: where it exists, its
    /// first endpoint belongs to a segment and `min_len` is positive, it is at least that
    /// long.
    pub open spec fn may_split(self, e: int, min_len: u32) -> bool {
        self.edge_exists(e) && min_len > 0 && self.vertices[self.edges[e].unwrap().0 as int].segment is Some
            ==> self.edge_length2(e) >= min_len * min_len
    }

    /// The mesh after edge `e = (a, b)` has been split: a new active vertex `m` at the
    /// midpoint, in the segment of `a`; `e` deleted; new edges `(a, m)` and `(b, m)`.
    pub open spec fn split(self, e: int) -> MeshView {
        let (a, b) = self.edges[e].unwrap();
        let m = self.vertices.len() as usize;
        self.with_vertex(
            self.edge_midpoint(e),
            VertexStatus::Active,
            self.vertices[a as int].segment,
        ).without_edge(e).with_edge(a, m).with_edge(b, m)
    }

    /// The edge at the first endpoint of `e` that is not `e`.
    pub open spec fn collapse_partner(self, e: int) -> Option<usize> {
        slots_other(self.vertices[self.edges[e].unwrap().0 as int].edges, e as usize)
    }

    /// Edge `e = (a, b)` can be collapsed: it exists, both endpoints are active, and
    /// `a` has a second edge, which leads to a vertex other than `b`.
    pub open spec fn collapsible(self, e: int) -> bool {
        &&& self.edge_exists(e)
        &&& self.active(self.edges[e].unwrap().0 as int)
        &&& self.active(self.edges[e].unwrap().1 as int)
        &&& self.collapse_partner(e) is Some
        &&& self.other_end(self.collapse_partner(e).unwrap() as int, self.edges[e].unwrap().0)
            != self.edges[e].unwrap().1
    }

    /// Edge `e` may be collapsed with the greatest length `max_len`: it can be
    /// collapsed, and where `max_len` is positive it is at most that long.
    pub open spec fn may_collapse(self, e: int, max_len: u32) -> bool {
        self.collapsible(e) && (max_len > 0 ==> self.edge_length2(e) <= max_len * max_len)
    }

    /// The mesh after edge `e = (a, b)` has been collapsed: `b` moved to the midpoint;
    /// `e` and the other edge of `a`, which leads to `c`, deleted; `a` deleted; a new
    /// edge `(c, b)`.
    pub open spec fn collapse(self, e: int) -> MeshView {
        let (a, b) = self.edges[e].unwrap();
        let e2 = self.collapse_partner(e).unwrap();
        let c = self.other_end(e2 as int, a);
        self.with_position(b as int, self.edge_midpoint(e)).without_edge(e).without_edge(
            e2 as int,
        ).with_status(a as int, VertexStatus::Deleted).with_edge(c, b)
    }

    /// The mesh after the first `k` of the points `pts` have become vertices of the
    /// initial shape `s`: the first and the last point with status `ends`, the others
    /// with status `inner`.
    pub open spec fn with_points(
        self,
        pts: Seq<Point>,
        ends: VertexStatus,
        inner: VertexStatus,
        s: usize,
        k: nat,
    ) -> MeshView
        decreases k,
    {
        if k == 0 {
            self
        } else {
            self.with_points(pts, ends, inner, s, (k - 1) as nat).with_vertex(
                pts[k - 1],
                shape_status(k - 1, pts.len() as int, ends, inner),
                Some(s),
            )
        }
    }

    /// The mesh after `k` edges have joined the vertices `first`, `first + 1`, ... in a
    /// row.
    pub open spec fn with_path(self, first: usize, k: nat) -> MeshView
        decreases k,
    {
        if k == 0 {
            self
        } else {
            self.with_path(first, (k - 1) as nat).with_edge(
                (first + k - 1) as usize,
                (first + k) as usize,
            )
        }
    }

    /// The mesh after the points `pts` have become a new initial shape: one vertex per
    /// point, in order; an edge between each two consecutive vertices; for a closed
    /// shape an edge from the last vertex to the first.
    pub open spec fn with_shape(
        self,
        pts: Seq<Point>,
        ends: VertexStatus,
        inner: VertexStatus,
        closed: bool,
    ) -> MeshView {
        let first = self.vertices.len() as usize;
        let open_shape = self.with_points(pts, ends, inner, self.s_num as usize, pts.len()).with_path(
            first,
            if pts.len() >= 1 {
                (pts.len() - 1) as nat
            } else {
                0
            },
        );
        if closed {
            open_shape.with_edge((first + pts.len() - 1) as usize, first).with_segment()
        } else {
            open_shape.with_segment()
        }
    }

    /// Why the points `pts` cannot become a new initial shape, if they cannot: a closed
    /// shape of fewer than two points, a point outside the unit square, or a mesh
    /// without room for the vertices and edges of the shape.
    pub open spec fn shape_error(self, pts: Seq<Point>, closed: bool) -> Option<MeshError> {
        if closed && pts.len() < 2 {
            Some(MeshError::DegenerateShape)
        } else if exists|i: int| 0 <= i < pts.len() && !(#[trigger] pts[i]).in_unit_square() {
            Some(MeshError::OutsideUnitSquare)
        } else if self.vertices.len() + pts.len() > self.n_max || self.edges.len() + shape_edges(
            pts.len(),
            closed,
        ) > self.n_max || self.s_num >= usize::MAX {
            Some(MeshError::CapacityExceeded)
        } else {
            None
        }
    }

    /// Ids of the existing edges below `n`, in increasing order.
    pub open spec fn live_edges(self, n: nat) -> Seq<usize>
        decreases n,
    {
        if n == 0 {
            Seq::empty()
        } else if self.edge_exists(n - 1) {
            self.live_edges((n - 1) as nat).push((n - 1) as usize)
        } else {
            self.live_edges((n - 1) as nat)
        }
    }

    /// Ids of the live vertices below `n`, in increasing order.
    pub open spec fn live_vertices(self, n: nat) -> Seq<usize>
        decreases n,
    {
        if n == 0 {
            Seq::empty()
        } else if self.live(n - 1) {
            self.live_vertices((n - 1) as nat).push((n - 1) as usize)
        } else {
            self.live_vertices((n - 1) as nat)
        }
    }

    /// The endpoints of the edges `ids`.
    pub open spec fn ends_of(self, ids: Seq<usize>) -> Seq<(usize, usize)> {
        ids.map_values(|e: usize| self.edges[e as int].unwrap())
    }

    /// The positions of the endpoints of the edges `ids`.
    pub open spec fn end_points_of(self, ids: Seq<usize>) -> Seq<(Point, Point)> {
        ids.map_values(
            |e: usize|
                (
                    self.vertices[self.edges[e as int].unwrap().0 as int].pos,
                    self.vertices[self.edges[e as int].unwrap().1 as int].pos,
                ),
        )
    }

    /// The positions of the vertices `ids`.
    pub open spec fn positions_of(self, ids: Seq<usize>) -> Seq<Point> {
        ids.map_values(|v: usize| self.vertices[v as int].pos)
    }

    /// Number of active vertices below `n`.
    pub open spec fn active_count(self, n: nat) -> nat
        decreases n,
    {
        if n == 0 {
            0
        } else if self.active(n - 1) {
            self.active_count((n - 1) as nat) + 1
        } else {
            self.active_count((n - 1) as nat)
        }
    }

    /// Greatest squared distance from `p` to a live vertex below `n`; zero without one.
    pub open spec fn greatest_dist2(self, p: Point, n: nat) -> int
        decreases n,
    {
        if n == 0 {
            0
        } else {
            let rest = self.greatest_dist2(p, (n - 1) as nat);
            if self.live(n - 1) && dist2(p, self.vertices[n - 1].pos) > rest {
                dist2(p, self.vertices[n - 1].pos)
            } else {
                rest
            }
        }
    }

    /// Every live vertex keeps the distance `limit` from the border of the unit square.
    pub open spec fn safe(self, limit: u32) -> bool {
        forall|v: int| #[trigger] self.live(v) ==> within_margin(self.vertices[v].pos, limit)
    }

    /// The vertex at the far end of a recorded edge of `v`.
    pub open spec fn neighbour(self, v: usize, slot: Option<usize>) -> Option<usize> {
        match slot {
            Some(e) => Some(self.other_end(e as int, v)),
            None => None,
        }
    }

    /// Vertex `u` is what a query round vertex `v` with radius `rad` reports: it is
    /// live, its cell is the cell of `v` or one next to it, and it lies within `rad`.
    pub open spec fn near(self, v: int, u: int, rad: u32) -> bool {
        &&& self.live(u)
        &&& adjacent_cells(self.vertices[v].pos, self.vertices[u].pos, self.nz)
        &&& dist2(self.vertices[v].pos, self.vertices[u].pos) <= rad * rad
    }

    /// Edge `e` exists, has an active endpoint, and is longer than `limit`.
    pub open spec fn long_edge(self, e: int, limit: u32) -> bool {
        &&& self.edge_exists(e)
        &&& (self.active(self.edges[e].unwrap().0 as int) || self.active(
            self.edges[e].unwrap().1 as int,
        ))
        &&& self.edge_length2(e) > limit * limit
    }

    /// The mesh after the edges below `n` have been visited in increasing order and
    /// each long one split, as far as the mesh had room.
    pub open spec fn split_long(self, limit: u32, n: nat) -> MeshView
        decreases n,
    {
        if n == 0 {
            self
        } else {
            let m = self.split_long(limit, (n - 1) as nat);
            if m.long_edge(n - 1, limit) && m.split_error(n - 1) is None {
                m.split(n - 1)
            } else {
                m
            }
        }
    }

    /// Whether, in that visit of the edges below `n`, some long edge stayed unsplit
    /// because the mesh had no room for it.
    pub open spec fn split_long_starved(self, limit: u32, n: nat) -> bool
        decreases n,
    {
        if n == 0 {
            false
        } else {
            let m = self.split_long(limit, (n - 1) as nat);
            self.split_long_starved(limit, (n - 1) as nat) || (m.long_edge(n - 1, limit)
                && m.split_error(n - 1) == Some(MeshError::CapacityExceeded))
        }
    }

    /// Twice the area of the triangle that the vectors of the edges `e` and `f` span.
    pub open spec fn cross(self, e: int, f: int) -> int {
        let (a, b) = self.edges[e].unwrap();
        let (c, d) = self.edges[f].unwrap();
        let ax = self.vertices[c as int].pos.x - self.vertices[d as int].pos.x;
        let ay = self.vertices[c as int].pos.y - self.vertices[d as int].pos.y;
        let bx = self.vertices[a as int].pos.x - self.vertices[b as int].pos.x;
        let by = self.vertices[a as int].pos.y - self.vertices[b as int].pos.y;
        if ax * by - ay * bx >= 0 {
            ax * by - ay * bx
        } else {
            ay * bx - ax * by
        }
    }

    /// The edge next to `e` at its endpoint `v`.
    pub open spec fn next_edge(self, e: int, v: usize) -> Option<usize> {
        slots_other(self.vertices[v as int].edges, e as usize)
    }

    /// Edge `e` exists and has a neighbouring edge at each endpoint.
    pub open spec fn connected(self, e: int) -> bool {
        &&& self.edge_exists(e)
        &&& self.next_edge(e, self.edges[e].unwrap().0) is Some
        &&& self.next_edge(e, self.edges[e].unwrap().1) is Some
    }

    /// The bend at edge `e`: the areas of the two triangles that `e` spans with its
    /// neighbouring edges, added up and rounded down.
    pub open spec fn curvature(self, e: int) -> int {
        let (a, b) = self.edges[e].unwrap();
        (self.cross(e, self.next_edge(e, a).unwrap() as int) + self.cross(
            e,
            self.next_edge(e, b).unwrap() as int,
        )) / 2
    }

    /// The existing edge below `n` with the greatest id.
    pub open spec fn last_edge(self, n: nat) -> Option<usize>
        decreases n,
    {
        if n == 0 {
            None
        } else if self.edge_exists(n - 1) {
            Some((n - 1) as usize)
        } else {
            self.last_edge((n - 1) as nat)
        }
    }

    /// The vertices that a walk arrives at which stands at `v_cur`, has come by edge
    /// `e_cur`, always leaves by the other edge, and stops at `v_end`, at a vertex
    /// without other edge, or after `fuel` steps.
    pub open spec fn walk(self, v_end: usize, v_cur: usize, e_cur: usize, fuel: nat) -> Seq<usize>
        decreases fuel,
    {
        if v_cur == v_end || fuel == 0 {
            Seq::empty()
        } else {
            match self.next_edge(e_cur as int, v_cur) {
                None => Seq::empty(),
                Some(e) => {
                    let w = self.other_end(e as int, v_cur);
                    seq![w] + self.walk(v_end, w, e, (fuel - 1) as nat)
                },
            }
        }
    }

    /// The vertices of a closed loop in the order of the loop. The walk sets out along
    /// the existing edge with the greatest id, from its first endpoint to its second:
    /// the second endpoint comes first, then every vertex that the walk arrives at, the
    /// first endpoint of that edge last. It takes no more steps than there are edge
    /// ids. A mesh without edges has no such order.
    pub open spec fn sorted_vertices(self) -> Seq<usize> {
        match self.last_edge(self.edges.len()) {
            None => Seq::empty(),
            Some(e) => seq![self.edges[e as int].unwrap().1] + self.walk(
                self.edges[e as int].unwrap().0,
                self.edges[e as int].unwrap().1,
                e,
                self.edges.len(),
            ),
        }
    }

    /// The existing edges that end in vertex `v`.
    pub open spec fn incident_edges(self, v: int) -> Set<int> {
        Set::new(|e: int| self.touches(e, v))
    }

    /// Number of existing edges below `n`.
    pub open spec fn edge_count(self, n: nat) -> nat
        decreases n,
    {
        if n == 0 {
            0
        } else if self.edge_exists(n - 1) {
            self.edge_count((n - 1) as nat) + 1
        } else {
            self.edge_count((n - 1) as nat)
        }
    }

    /// Number of live vertices below `n`.
    pub open spec fn vertex_count(self, n: nat) -> nat
        decreases n,
    {
        if n == 0 {
            0
        } else if self.live(n - 1) {
            self.vertex_count((n - 1) as nat) + 1
        } else {
            self.vertex_count((n - 1) as nat)
        }
    }

}

impl MeshView {
    /// Every vertex of a well-formed mesh is in order.
    pub proof fn lemma_vertex_ok(self, v: int)
        requires
            self.wf(),
            0 <= v < self.vertices.len(),
        ensures
            self.vertex_ok(v),
    {
    }

    /// A new vertex keeps a well-formed mesh well-formed.
    pub proof fn lemma_with_vertex(self, p: Point, status: VertexStatus, segment: Option<usize>)
        requires
            self.wf(),
            self.vertices.len() < self.n_max,
            p.in_unit_square(),
        ensures
            self.with_vertex(p, status, segment).wf(),
    {
        let n = self.with_vertex(p, status, segment);
        assert forall|v: int| 0 <= v < n.vertices.len() implies #[trigger] n.vertex_ok(v) by {
            if v < self.vertices.len() {
                assert(self.vertex_ok(v));
            }
        }
        assert forall|e: int| 0 <= e < n.edges.len() implies #[trigger] n.edge_ok(e) by {
            assert(self.edge_ok(e));
        }
    }

    /// A new edge between two distinct live vertices that both have a free slot keeps
    /// a well-formed mesh well-formed.
    pub proof fn lemma_with_edge(self, a: usize, b: usize)
        requires
            self.wf(),
            a != b,
            self.live(a as int),
            self.live(b as int),
            self.degree(a as int) < 2,
            self.degree(b as int) < 2,
            self.edges.len() < self.n_max,
        ensures
            self.with_edge(a, b).wf(),
            self.with_edge(a, b).degree(a as int) == self.degree(a as int) + 1,
            self.with_edge(a, b).degree(b as int) == self.degree(b as int) + 1,
            self.with_edge(a, b).vertices.len() == self.vertices.len(),
            self.with_edge(a, b).edges == self.edges.push(Some((a, b))),
            forall|v: int|
                0 <= v < self.vertices.len() ==> (#[trigger] self.with_edge(a, b).vertices[v]).status
                    == self.vertices[v].status && self.with_edge(a, b).vertices[v].pos
                    == self.vertices[v].pos && self.with_edge(a, b).vertices[v].segment
                    == self.vertices[v].segment && self.with_edge(a, b).vertices[v].edges == if v == a
                    || v == b {
                    slots_with(self.vertices[v].edges, self.edges.len() as usize)
                } else {
                    self.vertices[v].edges
                },
    {
        let n = self.with_edge(a, b);
        let e = self.edges.len() as usize;
        assert(self.vertex_ok(a as int));
        assert(self.vertex_ok(b as int));
        assert forall|v: int| 0 <= v < n.vertices.len() implies #[trigger] n.vertex_ok(v) by {
            assert(self.vertex_ok(v));
            let s = self.vertices[v].edges;
            if s.0 is Some {
                assert(self.touches(s.0.unwrap() as int, v));
            }
            if s.1 is Some {
                assert(self.touches(s.1.unwrap() as int, v));
            }
        }
        assert forall|x: int| 0 <= x < n.edges.len() implies #[trigger] n.edge_ok(x) by {
            if x < self.edges.len() {
                assert(self.edge_ok(x));
            }
        }
    }

    /// Deleting an edge keeps a well-formed mesh well-formed and frees a slot at each
    /// of its endpoints.
    pub proof fn lemma_without_edge(self, e: int)
        requires
            self.wf(),
            0 <= e < self.edges.len(),
        ensures
            self.without_edge(e).wf(),
            !self.without_edge(e).edge_exists(e),
            self.without_edge(e).vertices.len() == self.vertices.len(),
            self.without_edge(e).edges.len() == self.edges.len(),
            forall|v: int|
                0 <= v < self.vertices.len() ==> (#[trigger] self.without_edge(e).vertices[v]).status
                    == self.vertices[v].status && self.without_edge(e).vertices[v].pos
                    == self.vertices[v].pos && self.without_edge(e).vertices[v].segment
                    == self.vertices[v].segment && self.without_edge(e).vertices[v].edges
                    == slots_without(self.vertices[v].edges, e as usize),
    {
        let n = self.without_edge(e);
        assert(self.edge_ok(e));
        if self.edges[e] is Some {
            let (a, b) = self.edges[e].unwrap();
            assert forall|v: int| 0 <= v < self.vertices.len() implies (#[trigger] n.vertices[v]).edges
                == slots_without(self.vertices[v].edges, e as usize) by {
                assert(self.vertex_ok(v));
                let s = self.vertices[v].edges;
                if v != a && v != b {
                    if s.0 == Some(e as usize) {
                        assert(self.touches(e, v));
                    }
                    if s.1 == Some(e as usize) {
                        assert(self.touches(e, v));
                    }
                }
            }
            assert forall|v: int| 0 <= v < n.vertices.len() implies #[trigger] n.vertex_ok(v) by {
                assert(self.vertex_ok(v));
                let s = self.vertices[v].edges;
                if s.0 is Some {
                    assert(self.touches(s.0.unwrap() as int, v));
                }
                if s.1 is Some {
                    assert(self.touches(s.1.unwrap() as int, v));
                }
            }
            assert forall|x: int| 0 <= x < n.edges.len() implies #[trigger] n.edge_ok(x) by {
                assert(self.edge_ok(x));
            }
        } else {
            assert forall|v: int| 0 <= v < self.vertices.len() implies (#[trigger] n.vertices[v]).edges
                == slots_without(self.vertices[v].edges, e as usize) by {
                assert(self.vertex_ok(v));
                let s = self.vertices[v].edges;
                if s.0 == Some(e as usize) {
                    assert(self.touches(e, v));
                }
                if s.1 == Some(e as usize) {
                    assert(self.touches(e, v));
                }
            }
        }
    }

    /// Deleting a vertex without edges keeps a well-formed mesh well-formed.
    pub proof fn lemma_without_vertex(self, v: int)
        requires
            self.wf(),
            0 <= v < self.vertices.len(),
            self.degree(v) == 0,
        ensures
            self.with_status(v, VertexStatus::Deleted).wf(),
    {
        let n = self.with_status(v, VertexStatus::Deleted);
        assert(self.vertex_ok(v));
        assert forall|w: int| 0 <= w < n.vertices.len() implies #[trigger] n.vertex_ok(w) by {
            assert(self.vertex_ok(w));
        }
        assert forall|x: int| 0 <= x < n.edges.len() implies #[trigger] n.edge_ok(x) by {
            assert(self.edge_ok(x));
        }
    }

    /// Changing a live vertex between passive and active keeps a well-formed mesh
    /// well-formed.
    pub proof fn lemma_with_status(self, v: int, status: VertexStatus)
        requires
            self.wf(),
            self.live(v),
            status != VertexStatus::Deleted,
        ensures
            self.with_status(v, status).wf(),
    {
        let n = self.with_status(v, status);
        assert forall|w: int| 0 <= w < n.vertices.len() implies #[trigger] n.vertex_ok(w) by {
            assert(self.vertex_ok(w));
        }
        assert forall|x: int| 0 <= x < n.edges.len() implies #[trigger] n.edge_ok(x) by {
            assert(self.edge_ok(x));
        }
    }

    /// Moving a vertex within the unit square keeps a well-formed mesh well-formed.
    pub proof fn lemma_with_position(self, v: int, p: Point)
        requires
            self.wf(),
            0 <= v < self.vertices.len(),
            p.in_unit_square(),
        ensures
            self.with_position(v, p).wf(),
    {
        let n = self.with_position(v, p);
        assert forall|w: int| 0 <= w < n.vertices.len() implies #[trigger] n.vertex_ok(w) by {
            assert(self.vertex_ok(w));
        }
        assert forall|x: int| 0 <= x < n.edges.len() implies #[trigger] n.edge_ok(x) by {
            assert(self.edge_ok(x));
        }
    }

    /// A split leaves the mesh well-formed. It adds one active vertex at the midpoint,
    /// deletes the edge and adds its two halves, and leaves every other edge, and the
    /// position, status and segment of every other vertex, as they are.
    pub proof fn lemma_split(self, e: int)
        requires
            self.wf(),
            self.split_error(e) is None,
        ensures
            self.split(e).wf(),
            self.split(e).vertices.len() == self.vertices.len() + 1,
            self.split(e).edges.len() == self.edges.len() + 2,
            self.split(e).n_max == self.n_max,
            self.split(e).s_num == self.s_num,
            self.split(e).nz == self.nz,
            self.split(e).edges == self.edges.update(e, None).push(
                Some((self.edges[e].unwrap().0, self.vertices.len() as usize)),
            ).push(Some((self.edges[e].unwrap().1, self.vertices.len() as usize))),
            self.split(e).vertices[self.vertices.len() as int].pos == self.edge_midpoint(e),
            self.split(e).vertices[self.vertices.len() as int].status == VertexStatus::Active,
            forall|v: int|
                0 <= v < self.vertices.len() ==> (#[trigger] self.split(e).vertices[v]).pos
                    == self.vertices[v].pos && self.split(e).vertices[v].status
                    == self.vertices[v].status && self.split(e).vertices[v].segment
                    == self.vertices[v].segment,
            self.split(e).edge_count(self.split(e).edges.len()) == self.edge_count(self.edges.len())
                + 1,
            self.split(e).vertex_count(self.split(e).vertices.len()) == self.vertex_count(
                self.vertices.len(),
            ) + 1,
    {
        let (a, b) = self.edges[e].unwrap();
        let m = self.vertices.len() as usize;
        let mid = self.edge_midpoint(e);
        assert(self.edge_ok(e));
        assert(self.vertex_ok(a as int));
        assert(self.vertex_ok(b as int));
        let m1 = self.with_vertex(mid, VertexStatus::Active, self.vertices[a as int].segment);
        self.lemma_with_vertex(mid, VertexStatus::Active, self.vertices[a as int].segment);
        let m2 = m1.without_edge(e);
        m1.lemma_without_edge(e);
        assert(m1.vertex_ok(a as int));
        assert(m1.vertex_ok(b as int));
        assert(m2.degree(a as int) < 2);
        assert(m2.degree(b as int) < 2);
        assert(m2.degree(m as int) == 0);
        m2.lemma_with_edge(a, m);
        let m3 = m2.with_edge(a, m);
        m3.lemma_with_edge(b, m);
        let r = self.split(e);
        assert(r == m3.with_edge(b, m));
        assert(r.edges =~= self.edges.update(e, None).push(Some((a, m))).push(Some((b, m))));
        assert forall|v: int| 0 <= v < self.vertices.len() implies (#[trigger] r.vertices[v]).pos
            == self.vertices[v].pos && r.vertices[v].status == self.vertices[v].status
            && r.vertices[v].segment == self.vertices[v].segment by {
            assert(m1.vertices[v] == self.vertices[v]);
            assert(m2.vertices[v].status == m1.vertices[v].status);
            assert(m3.vertices[v].status == m2.vertices[v].status);
        }
        assert(r.vertices[m as int].status == VertexStatus::Active && r.vertices[m as int].pos == mid) by {
            assert(m2.vertices[m as int].status == m1.vertices[m as int].status);
            assert(m3.vertices[m as int].status == m2.vertices[m as int].status);
        }
        let n = self.edges.len();
        self.lemma_edge_count_less(r, n, e);
        assert(r.edge_count((n + 1) as nat) == r.edge_count(n) + 1);
        assert(r.edge_count((n + 2) as nat) == r.edge_count((n + 1) as nat) + 1);
        let k = self.vertices.len();
        self.lemma_vertex_count_same(r, k);
        assert(r.vertex_count((k + 1) as nat) == r.vertex_count(k) + 1);
    }

    /// The edges that end in a vertex are the edges in its slots.
    pub proof fn lemma_incident_edges(self, v: int)
        requires
            self.wf(),
            0 <= v < self.vertices.len(),
        ensures
            self.incident_edges(v).finite(),
            self.incident_edges(v).len() == self.degree(v),
            self.degree(v) <= 2,
    {
        let s = self.vertices[v].edges;
        let inc = self.incident_edges(v);
        assert(self.vertex_ok(v));
        assert forall|e: int| inc.contains(e) implies s.0 == Some(e as usize) || s.1 == Some(
            e as usize,
        ) by {
            assert(self.edge_ok(e));
        }
        if s.0 is None {
            assert(inc =~= Set::<int>::empty());
        } else if s.1 is None {
            let e0 = s.0.unwrap() as int;
            assert(self.touches(e0, v));
            assert(inc =~= Set::<int>::empty().insert(e0));
        } else {
            let e0 = s.0.unwrap() as int;
            let e1 = s.1.unwrap() as int;
            assert(self.touches(e0, v));
            assert(self.touches(e1, v));
            assert(inc =~= Set::<int>::empty().insert(e0).insert(e1));
        }
    }

    /// Two meshes with the same edges below `n` have the same number of them.
    pub proof fn lemma_edge_count_same(self, other: MeshView, n: nat)
        requires
            n <= self.edges.len(),
            n <= other.edges.len(),
            forall|e: int| 0 <= e < n ==> (#[trigger] self.edges[e] is Some) == (other.edges[e] is Some),
        ensures
            self.edge_count(n) == other.edge_count(n),
        decreases n,
    {
        if n > 0 {
            assert((self.edges[n - 1] is Some) == (other.edges[n - 1] is Some));
            self.lemma_edge_count_same(other, (n - 1) as nat);
        }
    }

    /// Deleting one existing edge below `n` lowers the number of edges below `n` by
    /// one, whatever is appended.
    pub proof fn lemma_edge_count_less(self, other: MeshView, n: nat, x: int)
        requires
            n <= self.edges.len(),
            n <= other.edges.len(),
            0 <= x < n,
            self.edges[x] is Some,
            other.edges[x] is None,
            forall|e: int|
                0 <= e < n && e != x ==> (#[trigger] self.edges[e] is Some) == (other.edges[e] is Some),
        ensures
            self.edge_count(n) == other.edge_count(n) + 1,
        decreases n,
    {
        if n - 1 == x {
            self.lemma_edge_count_same(other, (n - 1) as nat);
        } else {
            assert((self.edges[n - 1] is Some) == (other.edges[n - 1] is Some));
            self.lemma_edge_count_less(other, (n - 1) as nat, x);
        }
    }

    /// Two meshes with the same live vertices below `n` have the same number of them.
    pub proof fn lemma_vertex_count_same(self, other: MeshView, n: nat)
        requires
            n <= self.vertices.len(),
            n <= other.vertices.len(),
            forall|v: int| 0 <= v < n ==> #[trigger] self.live(v) == other.live(v),
        ensures
            self.vertex_count(n) == other.vertex_count(n),
        decreases n,
    {
        if n > 0 {
            assert(self.live(n - 1) == other.live(n - 1));
            self.lemma_vertex_count_same(other, (n - 1) as nat);
        }
    }

    /// Deleting one live vertex below `n` lowers the number of live vertices below
    /// `n` by one.
    pub proof fn lemma_vertex_count_less(self, other: MeshView, n: nat, x: int)
        requires
            n <= self.vertices.len(),
            n <= other.vertices.len(),
            0 <= x < n,
            self.live(x),
            !other.live(x),
            forall|v: int| 0 <= v < n && v != x ==> #[trigger] self.live(v) == other.live(v),
        ensures
            self.vertex_count(n) == other.vertex_count(n) + 1,
        decreases n,
    {
        if n - 1 == x {
            self.lemma_vertex_count_same(other, (n - 1) as nat);
        } else {
            assert(self.live(n - 1) == other.live(n - 1));
            self.lemma_vertex_count_less(other, (n - 1) as nat, x);
        }
    }

    /// The last edge below `n`, where there is one, exists.
    pub proof fn lemma_last_edge(self, n: nat)
        requires
            n <= usize::MAX,
        ensures
            match self.last_edge(n) {
                Some(e) => e < n && self.edge_exists(e as int),
                None => forall|x: int| 0 <= x < n ==> !self.edge_exists(x),
            },
        decreases n,
    {
        if n > 0 && !self.edge_exists(n - 1) {
            self.lemma_last_edge((n - 1) as nat);
        }
    }

    /// Every vertex that a walk arrives at exists.
    pub proof fn lemma_walk(self, v_end: usize, v_cur: usize, e_cur: usize, fuel: nat)
        requires
            self.wf(),
            self.touches(e_cur as int, v_cur as int),
            v_cur < self.vertices.len(),
        ensures
            forall|k: int|
                0 <= k < self.walk(v_end, v_cur, e_cur, fuel).len() ==> (#[trigger] self.walk(
                    v_end,
                    v_cur,
                    e_cur,
                    fuel,
                )[k]) < self.vertices.len(),
        decreases fuel,
    {
        if v_cur != v_end && fuel > 0 {
            assert(self.vertex_ok(v_cur as int));
            match self.next_edge(e_cur as int, v_cur) {
                None => {},
                Some(e) => {
                    assert(self.touches(e as int, v_cur as int));
                    assert(self.edge_ok(e as int));
                    let w = self.other_end(e as int, v_cur);
                    let rest = self.walk(v_end, w, e, (fuel - 1) as nat);
                    self.lemma_walk(v_end, w, e, (fuel - 1) as nat);
                    let all = self.walk(v_end, v_cur, e_cur, fuel);
                    assert(all == seq![w] + rest);
                    assert forall|k: int| 0 <= k < all.len() implies (#[trigger] all[k])
                        < self.vertices.len() by {
                        if k > 0 {
                            assert(all[k] == rest[k - 1]);
                        }
                    }
                },
            }
        }
    }
}

} // verus!
