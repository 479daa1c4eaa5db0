//! The mesh: vertices and edges in storage of fixed capacity, with the grid that
//! indexes the live vertices kept in step with their positions.

pub mod queries;

use vstd::prelude::*;
use crate::geometry::Point;
use crate::geometry::SCALE;
use crate::geometry::valid_new_vertex;
use crate::mesh::EdgeSlots;
use crate::mesh::MeshError;
use crate::mesh::MeshView;
use crate::mesh::VertexStatus;
use crate::mesh::VertexView;
use crate::mesh::path_degree;
use crate::mesh::slots_with;
use crate::mesh::slots_without;
use crate::zone_map::ZoneMap;

verus! {

/// Cells per axis of the grid for cells about `zone_width` wide: the nearest whole
/// number to `SCALE / zone_width`, or one cell where that is less than three.
pub open spec fn grid_resolution(zone_width: u32) -> nat {
    let n = (2 * SCALE + zone_width) / (2 * zone_width);
    if n < 3 {
        1
    } else {
        n as nat
    }
}

/// Cells per axis of the grid for cells about `zone_width` wide.
pub fn grid_cells(zone_width: u32) -> (n: u64)
    requires
        zone_width > 0,
    ensures
        n == grid_resolution(zone_width),
        1 <= n <= 0xffff_ffff,
{
    let n: u64 = (2 * (SCALE as u64) + zone_width as u64) / (2 * (zone_width as u64));
    assert(n <= 0xffff_ffff) by (nonlinear_arith)
        requires
            n == (2 * 1_000_000_000 + zone_width) / (2 * zone_width),
            0 < zone_width <= 0xffff_ffff,
    ;
    if n < 3 {
        1
    } else {
        n
    }
}

/// Whether a mesh can be indexed by a grid of cells about `zone_width` wide: the
/// width is positive, and the number of cells is one that this machine can count.
pub fn grid_fits(zone_width: u32) -> (r: bool)
    ensures
        r == (zone_width > 0 && grid_resolution(zone_width) * grid_resolution(zone_width)
            <= usize::MAX),
{
    if zone_width == 0 {
        return false;
    }
    let n = grid_cells(zone_width);
    assert(n * n <= 0xffff_ffff * 0xffff_ffff) by (nonlinear_arith)
        requires
            n <= 0xffff_ffff,
    ;
    n * n <= usize::MAX as u64
}

/// Linked vertices in the unit square, with the operations that differential growth
/// needs: splitting an edge by a new vertex, and collapsing an edge.
pub struct Segments {
    /// Greatest number of vertices, and of edges.
    n_max: usize,
    /// Number of initial shapes.
    s_num: usize,
    /// Position of each vertex, by vertex id.
    pos: Vec<Point>,
    /// Status of each vertex.
    va: Vec<VertexStatus>,
    /// Initial shape of each vertex.
    vs: Vec<Option<usize>>,
    /// The two endpoints of each edge, by edge id; `None` for a deleted edge.
    ev: Vec<Option<(usize, usize)>>,
    /// The edges of each vertex.
    ve: Vec<EdgeSlots>,
    /// The grid that files the live vertices by position.
    zone_map: ZoneMap,
}

impl View for Segments {
    type V = MeshView;

    closed spec fn view(&self) -> MeshView {
        MeshView {
            n_max: self.n_max as nat,
            s_num: self.s_num as nat,
            nz: self.zone_map@.nz,
            vertices: Seq::new(
                self.pos@.len(),
                |v: int|
                    VertexView {
                        pos: self.pos@[v],
                        status: self.va@[v],
                        segment: self.vs@[v],
                        edges: self.ve@[v],
                    },
            ),
            edges: self.ev@,
        }
    }
}

impl Segments {
    /// The mesh is well-formed, and the grid records exactly the live vertices, each
    /// under the cell of its position.
    pub closed spec fn wf(&self) -> bool {
        &&& self@.wf()
        &&& self.va@.len() == self.pos@.len()
        &&& self.vs@.len() == self.pos@.len()
        &&& self.ve@.len() == self.pos@.len()
        &&& self.zone_map@.wf()
        &&& self.zone_map@.consistent_with(self.pos@)
        &&& forall|u: usize| #[trigger]
            self.zone_map@.zone_of.dom().contains(u) <==> self@.live(u as int)
    }

    /// Greatest number of vertices that any cell of the grid has held at one time.
    pub closed spec fn greatest_zone_size(&self) -> nat {
        self.zone_map@.greatest
    }

    /// A well-formed `Segments` holds a well-formed mesh.
    pub proof fn lemma_wf(&self)
        requires
            self.wf(),
        ensures
            self@.wf(),
    {
    }

    /// An empty mesh with room for `n_max` vertices and `n_max` edges, indexed by a grid
    /// of cells about `zone_width` wide.
    pub fn new(n_max: usize, zone_width: u32) -> (s: Segments)
        requires
            zone_width > 0,
            grid_resolution(zone_width) * grid_resolution(zone_width) <= usize::MAX,
        ensures
            s.wf(),
            s@.n_max == n_max,
            s@.s_num == 0,
            s@.nz == grid_resolution(zone_width),
            s@.vertices.len() == 0,
            s@.edges.len() == 0,
    {
        let n = grid_cells(zone_width);
        assert(n <= usize::MAX) by (nonlinear_arith)
            requires
                n * n <= usize::MAX,
                n >= 0,
        ;
        let nz: usize = n as usize;
        let s = Segments {
            n_max,
            s_num: 0,
            pos: Vec::with_capacity(n_max),
            va: Vec::with_capacity(n_max),
            vs: Vec::with_capacity(n_max),
            ev: Vec::with_capacity(n_max),
            ve: Vec::with_capacity(n_max),
            zone_map: ZoneMap::new(nz),
        };
        s
    }

    /// Greatest number of vertices, and of edges, that the mesh can hold.
    pub fn n_max(&self) -> (n: usize)
        ensures
            n == self@.n_max,
    {
        self.n_max
    }

    /// Number of initial shapes so far.
    pub fn s_num(&self) -> (n: usize)
        ensures
            n == self@.s_num,
    {
        self.s_num
    }

    /// Cells per axis of the grid that indexes the vertices.
    pub fn nz(&self) -> (n: usize)
        ensures
            n == self@.nz,
    {
        self.zone_map.nz()
    }

    /// The ids of the edges that vertex `v1` records.
    pub fn vertex_edges(&self, v1: usize) -> (r: EdgeSlots)
        requires
            self.wf(),
            v1 < self@.vertices.len(),
        ensures
            r == self@.vertices[v1 as int].edges,
    {
        self.ve[v1]
    }

    /// Number of vertices ever created.
    pub fn v_num(&self) -> (n: usize)
        ensures
            n == self@.vertices.len(),
    {
        self.pos.len()
    }

    /// Number of edges ever created.
    pub fn e_num(&self) -> (n: usize)
        ensures
            n == self@.edges.len(),
    {
        self.ev.len()
    }

    /// Whether edge `e1` has been created and not deleted.
    pub fn edge_exists(&self, e1: usize) -> (r: bool)
        ensures
            r == self@.edge_exists(e1 as int),
    {
        e1 < self.ev.len() && self.ev[e1].is_some()
    }

    /// Whether vertex `v1` has been created and not deleted.
    pub fn vertex_exists(&self, v1: usize) -> (r: bool)
        requires
            self.wf(),
        ensures
            r == self@.live(v1 as int),
    {
        v1 < self.va.len() && !matches!(self.va[v1], VertexStatus::Deleted)
    }

    /// The status of vertex `v1`.
    pub fn vertex_status(&self, v1: usize) -> (r: VertexStatus)
        requires
            self.wf(),
            v1 < self@.vertices.len(),
        ensures
            r == self@.vertices[v1 as int].status,
    {
        self.va[v1]
    }

    /// The initial shape that vertex `v1` stems from.
    pub fn vertex_segment(&self, v1: usize) -> (r: Option<usize>)
        requires
            self.wf(),
            v1 < self@.vertices.len(),
        ensures
            r == self@.vertices[v1 as int].segment,
    {
        self.vs[v1]
    }

    /// The position of vertex `v1`.
    pub fn vertex_position(&self, v1: usize) -> (r: Point)
        requires
            self.wf(),
            v1 < self@.vertices.len(),
        ensures
            r == self@.vertices[v1 as int].pos,
            r.in_unit_square(),
    {
        proof {
            assert(self@.vertex_ok(v1 as int));
        }
        self.pos[v1]
    }

    /// The endpoints of edge `e1`, or `None` for an edge that does not exist.
    pub fn get_edge_vertices(&self, e1: usize) -> (r: Option<(usize, usize)>)
        ensures
            r == if self@.edge_exists(e1 as int) {
                self@.edges[e1 as int]
            } else {
                None
            },
    {
        if e1 < self.ev.len() {
            self.ev[e1]
        } else {
            None
        }
    }

    /// Whether an edge may join `v1` and `v2`: both are live.
    pub fn valid_new_edge(&self, v1: usize, v2: usize) -> (r: bool)
        requires
            self.wf(),
        ensures
            r == (self@.live(v1 as int) && self@.live(v2 as int)),
    {
        self.vertex_exists(v1) && self.vertex_exists(v2)
    }

    /// Creates a vertex of the given status: the common part of `add_vertex` and
    /// `add_passive_vertex`.
    fn push_vertex(&mut self, x: u32, y: u32, s: Option<usize>, status: VertexStatus) -> (r: Result<
        usize,
        MeshError,
    >)
        requires
            old(self).wf(),
            status != VertexStatus::Deleted,
        ensures
            final(self).wf(),
            match r {
                Ok(v) => {
                    &&& (Point { x, y }).in_unit_square()
                    &&& old(self)@.vertices.len() < old(self)@.n_max
                    &&& v == old(self)@.vertices.len()
                    &&& final(self)@ == old(self)@.with_vertex(Point { x, y }, status, s)
                },
                Err(e) => {
                    &&& final(self)@ == old(self)@
                    &&& e == if !(Point { x, y }).in_unit_square() {
                        MeshError::OutsideUnitSquare
                    } else {
                        MeshError::CapacityExceeded
                    }
                    &&& (!(Point { x, y }).in_unit_square() || old(self)@.vertices.len()
                        == old(self)@.n_max)
                },
            },
    {
        if !valid_new_vertex(x, y) {
            return Err(MeshError::OutsideUnitSquare);
        }
        let v = self.pos.len();
        if v >= self.n_max {
            return Err(MeshError::CapacityExceeded);
        }
        proof {
            old(self)@.lemma_with_vertex(Point { x, y }, status, s);
        }
        self.pos.push(Point { x, y });
        self.va.push(status);
        self.vs.push(s);
        self.ve.push((None, None));
        self.zone_map.add_vertex(v, &self.pos);
        proof {
            assert(self@.vertices =~= old(self)@.with_vertex(Point { x, y }, status, s).vertices);
            self.lemma_grid_follows(old(self), v);
        }
        Ok(v)
    }

    /// Creates an active vertex at `(x, y)` of the initial shape `s`, if any, and returns its
    /// id. A point outside the unit square, or a mesh that is full, leaves the mesh as
    /// it is.
    pub fn add_vertex(&mut self, x: u32, y: u32, s: Option<usize>) -> (r: Result<usize, MeshError>)
        requires
            old(self).wf(),
        ensures
            final(self).wf(),
            match r {
                Ok(v) => {
                    &&& (Point { x, y }).in_unit_square()
                    &&& old(self)@.vertices.len() < old(self)@.n_max
                    &&& v == old(self)@.vertices.len()
                    &&& final(self)@ == old(self)@.with_vertex(
                        Point { x, y },
                        VertexStatus::Active,
                        s,
                    )
                },
                Err(e) => {
                    &&& final(self)@ == old(self)@
                    &&& e == if !(Point { x, y }).in_unit_square() {
                        MeshError::OutsideUnitSquare
                    } else {
                        MeshError::CapacityExceeded
                    }
                    &&& (!(Point { x, y }).in_unit_square() || old(self)@.vertices.len()
                        == old(self)@.n_max)
                },
            },
    {
        self.push_vertex(x, y, s, VertexStatus::Active)
    }

    /// Creates a passive vertex at `(x, y)` of the initial shape `s`, if any, and returns its
    /// id. A point outside the unit square, or a mesh that is full, leaves the mesh as
    /// it is.
    pub fn add_passive_vertex(&mut self, x: u32, y: u32, s: Option<usize>) -> (r: Result<usize, MeshError>)
        requires
            old(self).wf(),
        ensures
            final(self).wf(),
            match r {
                Ok(v) => {
                    &&& (Point { x, y }).in_unit_square()
                    &&& old(self)@.vertices.len() < old(self)@.n_max
                    &&& v == old(self)@.vertices.len()
                    &&& final(self)@ == old(self)@.with_vertex(
                        Point { x, y },
                        VertexStatus::Passive,
                        s,
                    )
                },
                Err(e) => {
                    &&& final(self)@ == old(self)@
                    &&& e == if !(Point { x, y }).in_unit_square() {
                        MeshError::OutsideUnitSquare
                    } else {
                        MeshError::CapacityExceeded
                    }
                    &&& (!(Point { x, y }).in_unit_square() || old(self)@.vertices.len()
                        == old(self)@.n_max)
                },
            },
    {
        self.push_vertex(x, y, s, VertexStatus::Passive)
    }

    /// Records edge `e` in the first free slot of vertex `v`.
    fn add_e_to_ve(ve: &mut Vec<EdgeSlots>, v: usize, e: usize)
        requires
            v < old(ve)@.len(),
        ensures
            final(ve)@ == old(ve)@.update(v as int, slots_with(old(ve)@[v as int], e)),
    {
        let s = ve[v];
        if s.0.is_none() {
            ve[v] = (Some(e), s.1);
        } else {
            ve[v] = (s.0, Some(e));
        }
    }

    /// Takes edge `e` out of the slots of vertex `v` and moves the other edge to the
    /// front.
    fn delete_e_from_ve(ve: &mut Vec<EdgeSlots>, v: usize, e: usize)
        requires
            v < old(ve)@.len(),
        ensures
            final(ve)@ == old(ve)@.update(v as int, slots_without(old(ve)@[v as int], e)),
    {
        let s = ve[v];
        if s.0 == Some(e) {
            ve[v] = (s.1, None);
        } else if s.1 == Some(e) {
            ve[v] = (s.0, None);
        } else {
            assert(old(ve)@.update(v as int, slots_without(old(ve)@[v as int], e)) =~= old(ve)@);
        }
    }

    /// The vertices, the positions and the grid are those of `before`, so the grid
    /// still records the live vertices under the cells of their positions.
    proof fn lemma_grid_kept(&self, before: &Segments)
        requires
            before.wf(),
            self.pos == before.pos,
            self.va == before.va,
            self.zone_map == before.zone_map,
            self.vs@.len() == self.pos@.len(),
            self.ve@.len() == self.pos@.len(),
            self@.wf(),
        ensures
            self.wf(),
    {
        assert forall|u: usize| #[trigger]
            self.zone_map@.zone_of.dom().contains(u) <==> self@.live(u as int) by {
            assert(before.zone_map@.zone_of.dom().contains(u) <==> before@.live(u as int));
        }
    }

    /// The grid still records the live vertices under the cells of their positions
    /// after an edit that touched vertex `v1` alone, in the mesh and in the grid, and
    /// left the grid right for `v1`.
    proof fn lemma_grid_follows(&self, before: &Segments, v1: usize)
        requires
            before.wf(),
            self@.wf(),
            self.va@.len() == self.pos@.len(),
            self.vs@.len() == self.pos@.len(),
            self.ve@.len() == self.pos@.len(),
            self.zone_map@.wf(),
            self.zone_map@.nz == before.zone_map@.nz,
            self.pos@.len() == before.pos@.len() || (self.pos@.len() == before.pos@.len() + 1 && v1
                == before.pos@.len()),
            forall|u: int|
                0 <= u < before.pos@.len() && u != v1 ==> #[trigger] self.pos@[u] == before.pos@[u]
                    && self.va@[u] == before.va@[u],
            forall|u: usize|
                u != v1 ==> (#[trigger] self.zone_map@.zone_of.dom().contains(u))
                    == before.zone_map@.zone_of.dom().contains(u) && (
                before.zone_map@.zone_of.dom().contains(u) ==> self.zone_map@.zone_of[u]
                    == before.zone_map@.zone_of[u]),
            self.zone_map@.zone_of.dom().contains(v1) <==> self@.live(v1 as int),
            self.zone_map@.zone_of.dom().contains(v1) ==> self.zone_map@.zone_of[v1]
                == crate::geometry::cell_index(self.pos@[v1 as int], self.zone_map@.nz),
        ensures
            self.wf(),
    {
        assert forall|u: usize| #[trigger]
            self.zone_map@.zone_of.dom().contains(u) <==> self@.live(u as int) by {
            if u != v1 {
                assert(before.zone_map@.zone_of.dom().contains(u) <==> before@.live(u as int));
            }
        }
        assert forall|u: usize| #[trigger]
            self.zone_map@.zone_of.dom().contains(u) implies u < self.pos@.len()
            && self.pos@[u as int].in_unit_square() && self.zone_map@.zone_of[u]
            == crate::geometry::cell_index(self.pos@[u as int], self.zone_map@.nz) by {
            assert(self@.vertex_ok(u as int));
            if u != v1 {
                assert(before.zone_map@.zone_of.dom().contains(u));
            }
        }
    }

    /// Joins the live vertices `v1` and `v2` by a new edge and returns its id. Both
    /// must have a free slot. A mesh that is full is left as it is.
    pub fn add_edge(&mut self, v1: usize, v2: usize) -> (r: Result<usize, MeshError>)
        requires
            old(self).wf(),
            v1 != v2,
            old(self)@.live(v1 as int),
            old(self)@.live(v2 as int),
            old(self)@.degree(v1 as int) < 2,
            old(self)@.degree(v2 as int) < 2,
        ensures
            final(self).wf(),
            match r {
                Ok(e) => {
                    &&& old(self)@.edges.len() < old(self)@.n_max
                    &&& e == old(self)@.edges.len()
                    &&& final(self)@ == old(self)@.with_edge(v1, v2)
                },
                Err(err) => {
                    &&& err == MeshError::CapacityExceeded
                    &&& old(self)@.edges.len() == old(self)@.n_max
                    &&& final(self)@ == old(self)@
                },
            },
    {
        let e = self.ev.len();
        if e >= self.n_max {
            return Err(MeshError::CapacityExceeded);
        }
        self.ev.push(Some((v1, v2)));
        Self::add_e_to_ve(&mut self.ve, v1, e);
        Self::add_e_to_ve(&mut self.ve, v2, e);
        proof {
            old(self)@.lemma_with_edge(v1, v2);
            assert(self@.vertices =~= old(self)@.with_edge(v1, v2).vertices);
            self.lemma_grid_kept(old(self));
        }
        Ok(e)
    }

    /// Deletes edge `e1` and takes it out of the records of its endpoints. An edge
    /// that was deleted before stays so.
    pub fn delete_edge(&mut self, e1: usize)
        requires
            old(self).wf(),
            e1 < old(self)@.edges.len(),
        ensures
            final(self).wf(),
            final(self)@ == old(self)@.without_edge(e1 as int),
    {
        let ends = self.ev[e1];
        proof {
            old(self)@.lemma_without_edge(e1 as int);
            assert(old(self)@.edge_ok(e1 as int));
        }
        if let Some((v1, v2)) = ends {
            self.ev[e1] = None;
            Self::delete_e_from_ve(&mut self.ve, v1, e1);
            Self::delete_e_from_ve(&mut self.ve, v2, e1);
            proof {
                assert(self@.vertices =~= old(self)@.without_edge(e1 as int).vertices);
                assert(self@.edges =~= old(self)@.without_edge(e1 as int).edges);
                self.lemma_grid_kept(old(self));
            }
        }
    }

    /// Deletes vertex `v1`, which must have no edges left, and takes it off the grid.
    pub fn delete_vertex(&mut self, v1: usize)
        requires
            old(self).wf(),
            v1 < old(self)@.vertices.len(),
            old(self)@.degree(v1 as int) == 0,
        ensures
            final(self).wf(),
            final(self)@ == old(self)@.with_status(v1 as int, VertexStatus::Deleted),
    {
        proof {
            old(self)@.lemma_without_vertex(v1 as int);
            old(self).zone_map@.lemma_deleted_wf(v1);
        }
        self.va[v1] = VertexStatus::Deleted;
        self.zone_map.delete_vertex(v1);
        proof {
            assert(self@.vertices =~= old(self)@.with_status(
                v1 as int,
                VertexStatus::Deleted,
            ).vertices);
            self.lemma_grid_follows(old(self), v1);
        }
    }

    /// Anchors the live vertex `v1`.
    pub fn set_passive_vertex(&mut self, v1: usize)
        requires
            old(self).wf(),
            old(self)@.live(v1 as int),
        ensures
            final(self).wf(),
            final(self)@ == old(self)@.with_status(v1 as int, VertexStatus::Passive),
    {
        proof {
            old(self)@.lemma_with_status(v1 as int, VertexStatus::Passive);
        }
        self.va[v1] = VertexStatus::Passive;
        proof {
            assert(self@.vertices =~= old(self)@.with_status(
                v1 as int,
                VertexStatus::Passive,
            ).vertices);
            self.lemma_grid_follows(old(self), v1);
        }
    }

    /// Puts vertex `v1` at `p` and files it under the cell of `p`.
    pub fn move_vertex(&mut self, v1: usize, p: Point)
        requires
            old(self).wf(),
            v1 < old(self)@.vertices.len(),
            p.in_unit_square(),
        ensures
            final(self).wf(),
            final(self)@ == old(self)@.with_position(v1 as int, p),
    {
        proof {
            old(self)@.lemma_with_position(v1 as int, p);
            crate::zone_map::lemma_cell_index_parts(p, old(self).zone_map@.nz);
            assert(p == Point { x: p.x, y: p.y });
            old(self).zone_map@.lemma_relocated_wf(
                v1,
                crate::geometry::cell_index(p, old(self).zone_map@.nz) as usize,
            );
        }
        self.pos[v1] = p;
        self.zone_map.update_vertex(v1, p.x, p.y);
        proof {
            assert(self@.vertices =~= old(self)@.with_position(v1 as int, p).vertices);
            self.lemma_grid_follows(old(self), v1);
        }
    }

    /// Splits edge `e1 = (v1, v2)`: a new active vertex at the midpoint, in the segment
    /// of `v1`, takes the place of the edge, joined to `v1` and to `v2`. With a positive
    /// `min_len` the edge must be at least that long. An edge that does not exist, an
    /// endpoint `v1` without segment, or a mesh without room for one vertex and two
    /// edges, leaves the mesh as it is.
    pub fn split_edge(&mut self, e1: usize, min_len: u32) -> (r: Result<(), MeshError>)
        requires
            old(self).wf(),
            old(self)@.may_split(e1 as int, min_len),
        ensures
            final(self).wf(),
            match r {
                Ok(()) => old(self)@.split_error(e1 as int) is None && final(self)@ == old(
                    self,
                )@.split(e1 as int),
                Err(x) => old(self)@.split_error(e1 as int) == Some(x) && final(self)@ == old(
                    self,
                )@,
            },
    {
        if e1 >= self.ev.len() {
            return Err(MeshError::NoSuchEdge);
        }
        let (v1, v2) = match self.ev[e1] {
            Some(ends) => ends,
            None => {
                return Err(MeshError::NoSuchEdge);
            },
        };
        proof {
            assert(self@.edge_ok(e1 as int));
            assert(self@.vertex_ok(v1 as int));
            assert(self@.vertex_ok(v2 as int));
        }
        let s = match self.vs[v1] {
            Some(s) => s,
            None => {
                return Err(MeshError::InvalidSegment);
            },
        };
        if self.pos.len() >= self.n_max || self.n_max - self.ev.len() < 2 {
            return Err(MeshError::CapacityExceeded);
        }
        let mid = crate::geometry::midpoint_of(self.pos[v1], self.pos[v2]);
        let ghost m0 = old(self)@;
        let ghost m1 = m0.with_vertex(mid, VertexStatus::Active, Some(s));
        let ghost m2 = m1.without_edge(e1 as int);
        let v3 = self.pos.len();
        proof {
            m0.lemma_with_vertex(mid, VertexStatus::Active, Some(s));
            m1.lemma_without_edge(e1 as int);
            assert(m1.vertex_ok(v1 as int));
            assert(m1.vertex_ok(v2 as int));
            assert(m2.degree(v1 as int) < 2);
            assert(m2.degree(v2 as int) < 2);
            assert(m2.degree(v3 as int) == 0);
            m2.lemma_with_edge(v1, v3);
        }
        match self.add_vertex(mid.x, mid.y, Some(s)) {
            Ok(_) => {},
            Err(x) => {
                return Err(x);
            },
        }
        self.delete_edge(e1);
        match self.add_edge(v1, v3) {
            Ok(_) => {},
            Err(x) => {
                return Err(x);
            },
        }
        match self.add_edge(v2, v3) {
            Ok(_) => {},
            Err(x) => {
                return Err(x);
            },
        }
        Ok(())
    }

    /// Splits edge `e1` whatever its length.
    pub fn split_edge_no_min(&mut self, e1: usize) -> (r: Result<(), MeshError>)
        requires
            old(self).wf(),
        ensures
            final(self).wf(),
            match r {
                Ok(()) => old(self)@.split_error(e1 as int) is None && final(self)@ == old(
                    self,
                )@.split(e1 as int),
                Err(x) => old(self)@.split_error(e1 as int) == Some(x) && final(self)@ == old(
                    self,
                )@,
            },
    {
        self.split_edge(e1, 0)
    }

    /// Collapses edge `e1 = (v1, v2)`: `v2` moves to the midpoint, `v1` goes, and the
    /// vertex that the other edge of `v1` led to is joined to `v2`. Both endpoints must
    /// be active and `v1` must have that other edge, to a vertex other than `v2`; with
    /// a positive `max_len` the edge must be at most that long. A mesh without room
    /// for one more edge is left as it is.
    pub fn collapse_edge(&mut self, e1: usize, max_len: u32) -> (r: Result<(), MeshError>)
        requires
            old(self).wf(),
            old(self)@.may_collapse(e1 as int, max_len),
        ensures
            final(self).wf(),
            match r {
                Ok(()) => old(self)@.edges.len() < old(self)@.n_max && final(self)@ == old(
                    self,
                )@.collapse(e1 as int),
                Err(x) => x == MeshError::CapacityExceeded && old(self)@.edges.len() == old(
                    self,
                )@.n_max && final(self)@ == old(self)@,
            },
    {
        if self.ev.len() >= self.n_max {
            return Err(MeshError::CapacityExceeded);
        }
        proof {
            assert(self@.edge_ok(e1 as int));
        }
        let (v1, v2) = match self.ev[e1] {
            Some(ends) => ends,
            None => {
                return Err(MeshError::NoSuchEdge);
            },
        };
        proof {
            assert(self@.vertex_ok(v1 as int));
            assert(self@.vertex_ok(v2 as int));
        }
        let slots = self.ve[v1];
        let e2 = match (if slots.0 == Some(e1) { slots.1 } else { slots.0 }) {
            Some(e2) => e2,
            None => {
                return Err(MeshError::NoSuchEdge);
            },
        };
        proof {
            assert(self@.touches(e2 as int, v1 as int));
            assert(self@.edge_ok(e2 as int));
        }
        let v3 = match self.ev[e2] {
            Some((a, b)) => if a == v1 { b } else { a },
            None => {
                return Err(MeshError::NoSuchEdge);
            },
        };
        proof {
            assert(self@.vertex_ok(v3 as int));
        }
        let mid = crate::geometry::midpoint_of(self.pos[v1], self.pos[v2]);
        let ghost m0 = old(self)@;
        let ghost m1 = m0.with_position(v2 as int, mid);
        let ghost m2 = m1.without_edge(e1 as int);
        let ghost m3 = m2.without_edge(e2 as int);
        let ghost m4 = m3.with_status(v1 as int, VertexStatus::Deleted);
        proof {
            m0.lemma_with_position(v2 as int, mid);
            m1.lemma_without_edge(e1 as int);
            m2.lemma_without_edge(e2 as int);
            assert(m3.degree(v1 as int) == 0);
            m3.lemma_without_vertex(v1 as int);
            assert(m4.degree(v2 as int) < 2);
            assert(m4.degree(v3 as int) < 2);
            assert(m4.live(v2 as int));
            assert(m4.live(v3 as int));
        }
        self.move_vertex(v2, mid);
        self.delete_edge(e1);
        self.delete_edge(e2);
        self.delete_vertex(v1);
        match self.add_edge(v3, v2) {
            Ok(_) => {},
            Err(x) => {
                return Err(x);
            },
        }
        Ok(())
    }

    /// Collapses edge `e1` whatever its length.
    pub fn collapse_edge_no_max(&mut self, e1: usize) -> (r: Result<(), MeshError>)
        requires
            old(self).wf(),
            old(self)@.collapsible(e1 as int),
        ensures
            final(self).wf(),
            match r {
                Ok(()) => old(self)@.edges.len() < old(self)@.n_max && final(self)@ == old(
                    self,
                )@.collapse(e1 as int),
                Err(x) => x == MeshError::CapacityExceeded && old(self)@.edges.len() == old(
                    self,
                )@.n_max && final(self)@ == old(self)@,
            },
    {
        self.collapse_edge(e1, 0)
    }

    /// Creates a shape from points: the common part of the four initialisers. The
    /// first and the last vertex get the status `ends`, the others `inner`; a closed
    /// shape gets an edge from the last vertex to the first.
    fn init_shape(
        &mut self,
        xys: &[Point],
        ends: VertexStatus,
        inner: VertexStatus,
        closed: bool,
    ) -> (r: Result<(), MeshError>)
        requires
            old(self).wf(),
            ends != VertexStatus::Deleted,
            inner != VertexStatus::Deleted,
        ensures
            final(self).wf(),
            match r {
                Ok(()) => old(self)@.shape_error(xys@, closed) is None && final(self)@ == old(
                    self,
                )@.with_shape(xys@, ends, inner, closed),
                Err(x) => old(self)@.shape_error(xys@, closed) == Some(x) && final(self)@ == old(
                    self,
                )@,
            },
    {
        let n = xys.len();
        if closed && n < 2 {
            return Err(MeshError::DegenerateShape);
        }
        let ghost m0 = old(self)@;
        let mut i: usize = 0;
        while i < n
            invariant
                i <= n,
                n == xys@.len(),
                self.wf(),
                self@ == m0,
                !(closed && n < 2),
                forall|j: int| 0 <= j < i ==> (#[trigger] xys@[j]).in_unit_square(),
            decreases n - i,
        {
            if !valid_new_vertex(xys[i].x, xys[i].y) {
                assert(!xys@[i as int].in_unit_square());
                return Err(MeshError::OutsideUnitSquare);
            }
            i += 1;
        }
        let path: usize = if n >= 1 { n - 1 } else { 0 };
        let v0 = self.pos.len();
        let e0 = self.ev.len();
        if self.n_max - v0 < n || self.n_max - e0 < path || (closed && self.n_max - e0 - path < 1)
            || self.s_num == usize::MAX {
            return Err(MeshError::CapacityExceeded);
        }
        let s = self.s_num;
        let ghost pts = xys@;
        let mut i: usize = 0;
        while i < n
            invariant
                i <= n,
                n == pts.len(),
                pts == xys@,
                ends != VertexStatus::Deleted,
                inner != VertexStatus::Deleted,
                forall|j: int| 0 <= j < n ==> (#[trigger] pts[j]).in_unit_square(),
                self.wf(),
                self@ == m0.with_points(pts, ends, inner, s, i as nat),
                self@.vertices.len() == v0 + i,
                self@.edges.len() == e0,
                self@.n_max == m0.n_max,
                self@.s_num == m0.s_num,
                v0 + n <= m0.n_max,
                forall|j: int|
                    #![trigger self@.degree(j)]
                    #![trigger self@.live(j)]
                    v0 <= j < v0 + i ==> self@.live(j) && self@.degree(j) == 0,
            decreases n - i,
        {
            let p = xys[i];
            let status = if i == 0 || i == n - 1 { ends } else { inner };
            let ghost before = self@;
            proof {
                assert(pts[i as int].in_unit_square());
                assert(p == Point { x: p.x, y: p.y });
            }
            match self.push_vertex(p.x, p.y, Some(s), status) {
                Ok(_) => {},
                Err(x) => {
                    return Err(x);
                },
            }
            proof {
                assert forall|j: int|
                    #![trigger self@.degree(j)]
                    #![trigger self@.live(j)]
                    v0 <= j < v0 + i + 1 implies self@.live(j) && self@.degree(j) == 0 by {
                    if j < v0 + i {
                        assert(before.live(j) && before.degree(j) == 0);
                        assert(self@.vertices[j] == before.vertices[j]);
                    }
                }
            }
            i += 1;
        }
        let ghost m1 = self@;
        let mut i: usize = 0;
        while i < path
            invariant
                i <= path,
                path == if n >= 1 { n - 1 } else { 0 },
                self.wf(),
                self@ == m1.with_path(v0, i as nat),
                self@.vertices.len() == v0 + n,
                self@.edges.len() == e0 + i,
                self@.n_max == m0.n_max,
                self@.s_num == m0.s_num,
                e0 + path <= m0.n_max,
                v0 + n <= usize::MAX,
                forall|j: int|
                    #![trigger self@.degree(v0 + j)]
                    #![trigger self@.live(v0 + j)]
                    0 <= j < n ==> self@.live(v0 + j) && self@.degree(v0 + j) == path_degree(
                        j,
                        i as int,
                    ),
            decreases path - i,
        {
            let ghost before = self@;
            proof {
                assert(before.degree(v0 + i) == path_degree(i as int, i as int));
                assert(before.degree(v0 + (i + 1)) == path_degree(i + 1, i as int));
                before.lemma_with_edge((v0 + i) as usize, (v0 + i + 1) as usize);
            }
            match self.add_edge(v0 + i, v0 + i + 1) {
                Ok(_) => {},
                Err(x) => {
                    return Err(x);
                },
            }
            proof {
                assert forall|j: int|
                    #![trigger self@.degree(v0 + j)]
                    #![trigger self@.live(v0 + j)]
                    0 <= j < n implies self@.live(v0 + j) && self@.degree(v0 + j) == path_degree(
                    j,
                    i + 1,
                ) by {
                    assert(before.live(v0 + j) && before.degree(v0 + j) == path_degree(j, i as int));
                    assert(before.vertex_ok(v0 + j)) by {
                        before.lemma_vertex_ok(v0 + j);
                    }
                }
            }
            i += 1;
        }
        if closed {
            proof {
                assert(self@.degree(v0 + (n - 1)) == path_degree(n - 1, path as int));
                assert(self@.degree(v0 + 0) == path_degree(0, path as int));
            }
            match self.add_edge(v0 + n - 1, v0) {
                Ok(_) => {},
                Err(x) => {
                    return Err(x);
                },
            }
        }
        let ghost m2 = self@;
        let ghost before = *self;
        self.s_num = s + 1;
        proof {
            assert(self@ == m2.with_segment());
            assert(self@.wf()) by {
                assert forall|v: int| 0 <= v < self@.vertices.len() implies #[trigger] self@.vertex_ok(
                    v,
                ) by {
                    assert(m2.vertex_ok(v));
                }
                assert forall|e: int| 0 <= e < self@.edges.len() implies #[trigger] self@.edge_ok(
                    e,
                ) by {
                    assert(m2.edge_ok(e));
                }
            }
            self.lemma_grid_kept(&before);
        }
        Ok(())
    }

    /// Creates an open chain: one vertex per point, in order, each joined to the next.
    /// With `lock_edges` the first and the last vertex are passive, the others active;
    /// without it all are active.
    pub fn init_line_segment(&mut self, xys: &[Point], lock_edges: bool) -> (r: Result<(), MeshError>)
        requires
            old(self).wf(),
        ensures
            final(self).wf(),
            match r {
                Ok(()) => old(self)@.shape_error(xys@, false) is None && final(self)@ == old(
                    self,
                )@.with_shape(
                    xys@,
                    if lock_edges {
                        VertexStatus::Passive
                    } else {
                        VertexStatus::Active
                    },
                    VertexStatus::Active,
                    false,
                ),
                Err(x) => old(self)@.shape_error(xys@, false) == Some(x) && final(self)@ == old(
                    self,
                )@,
            },
    {
        let ends = if lock_edges { VertexStatus::Passive } else { VertexStatus::Active };
        self.init_shape(xys, ends, VertexStatus::Active, false)
    }

    /// Creates an open chain of passive vertices.
    pub fn init_passive_line_segment(&mut self, xys: &[Point]) -> (r: Result<(), MeshError>)
        requires
            old(self).wf(),
        ensures
            final(self).wf(),
            match r {
                Ok(()) => old(self)@.shape_error(xys@, false) is None && final(self)@ == old(
                    self,
                )@.with_shape(xys@, VertexStatus::Passive, VertexStatus::Passive, false),
                Err(x) => old(self)@.shape_error(xys@, false) == Some(x) && final(self)@ == old(
                    self,
                )@,
            },
    {
        self.init_shape(xys, VertexStatus::Passive, VertexStatus::Passive, false)
    }

    /// Creates a closed loop of active vertices through the points, which the caller
    /// has placed on a circle: each vertex joined to the next, and the last to the
    /// first.
    pub fn init_circle_segment(&mut self, xys: &[Point]) -> (r: Result<(), MeshError>)
        requires
            old(self).wf(),
        ensures
            final(self).wf(),
            match r {
                Ok(()) => old(self)@.shape_error(xys@, true) is None && final(self)@ == old(
                    self,
                )@.with_shape(xys@, VertexStatus::Active, VertexStatus::Active, true),
                Err(x) => old(self)@.shape_error(xys@, true) == Some(x) && final(self)@ == old(
                    self,
                )@,
            },
    {
        self.init_shape(xys, VertexStatus::Active, VertexStatus::Active, true)
    }

    /// Creates a closed loop of passive vertices through the points.
    pub fn init_passive_circle_segment(&mut self, xys: &[Point]) -> (r: Result<(), MeshError>)
        requires
            old(self).wf(),
        ensures
            final(self).wf(),
            match r {
                Ok(()) => old(self)@.shape_error(xys@, true) is None && final(self)@ == old(
                    self,
                )@.with_shape(xys@, VertexStatus::Passive, VertexStatus::Passive, true),
                Err(x) => old(self)@.shape_error(xys@, true) == Some(x) && final(self)@ == old(
                    self,
                )@,
            },
    {
        self.init_shape(xys, VertexStatus::Passive, VertexStatus::Passive, true)
    }

    /// Visits the edges that exist at the time of the call, in increasing order, and
    /// splits each one that has an active endpoint and is longer than `limit`. An edge
    /// for which the mesh has no room left stays as it is, the visit goes on, and the
    /// call reports in the end that the mesh was full.
    pub fn split_long_edges(&mut self, limit: u32) -> (r: Result<(), MeshError>)
        requires
            old(self).wf(),
        ensures
            final(self).wf(),
            final(self)@ == old(self)@.split_long(limit, old(self)@.edges.len()),
            r == if old(self)@.split_long_starved(limit, old(self)@.edges.len()) {
                Err::<(), MeshError>(MeshError::CapacityExceeded)
            } else {
                Ok::<(), MeshError>(())
            },
    {
        let e_num = self.ev.len();
        let ghost m0 = old(self)@;
        let mut starved = false;
        let mut e: usize = 0;
        while e < e_num
            invariant
                self.wf(),
                e <= e_num,
                e_num <= self@.edges.len(),
                self@ == m0.split_long(limit, e as nat),
                starved == m0.split_long_starved(limit, e as nat),
            decreases e_num - e,
        {
            let ghost before = self@;
            if let Some((v1, v2)) = self.ev[e] {
                proof {
                    assert(self@.edge_ok(e as int));
                    assert(self@.vertex_ok(v1 as int));
                    assert(self@.vertex_ok(v2 as int));
                }
                if matches!(self.va[v1], VertexStatus::Active) || matches!(
                    self.va[v2],
                    VertexStatus::Active
                ) {
                    let d2 = crate::geometry::squared_distance(self.pos[v1], self.pos[v2]);
                    assert(limit * limit <= 0xffff_ffff * 0xffff_ffff) by (nonlinear_arith)
                        requires
                            limit <= 0xffff_ffff,
                    ;
                    if d2 > limit as u64 * limit as u64 {
                        proof {
                            if before.split_error(e as int) is None {
                                before.lemma_split(e as int);
                            }
                        }
                        match self.split_edge_no_min(e) {
                            Err(MeshError::CapacityExceeded) => {
                                starved = true;
                            },
                            _ => {},
                        }
                    }
                }
            }
            e += 1;
        }
        if starved {
            Err(MeshError::CapacityExceeded)
        } else {
            Ok(())
        }
    }
}

} // verus!
