//! Uniform grid over the unit square that records which vertices sit in which cell.
//!
//! The grid has `nz` cells per axis. A vertex is filed under the cell that holds its
//! position, so that the vertices near a point are found in the cell of the point and
//! the eight cells around it.

use vstd::prelude::*;
use crate::geometry::Point;
use crate::geometry::SCALE;
use crate::geometry::cell_coord;
use crate::geometry::cell_index;
use crate::geometry::dist2;
use crate::geometry::gap;
use crate::geometry::squared_distance;
use crate::geometry::zone_coordinate;

verus! {

/// `k` is the first position of `v` in `s`.
pub open spec fn is_first_index(s: Seq<usize>, v: usize, k: int) -> bool {
    &&& 0 <= k < s.len()
    &&& s[k] == v
    &&& forall|j: int| 0 <= j < k ==> s[j] != v
}

/// The first position of `v` in `s`, where `s` holds `v`.
pub open spec fn first_index(s: Seq<usize>, v: usize) -> int {
    choose|k: int| is_first_index(s, v, k)
}

/// `s` after its first `v` has been overwritten by the last element and the last
/// element dropped; `s` itself where it does not hold `v`.
pub open spec fn swap_removed(s: Seq<usize>, v: usize) -> Seq<usize> {
    if s.contains(v) {
        s.update(first_index(s, v), s.last()).drop_last()
    } else {
        s
    }
}

/// The first position of an element is unique.
pub proof fn lemma_first_index(s: Seq<usize>, v: usize, k: int)
    requires
        is_first_index(s, v, k),
    ensures
        first_index(s, v) == k,
        s.contains(v),
{
    let c = first_index(s, v);
    assert(is_first_index(s, v, c));
    if c < k {
        assert(s[c] != v);
    } else if k < c {
        assert(s[k] != v);
    }
}

/// A list that holds `v` at position `k` has a first position of `v`.
pub proof fn lemma_first_index_exists(s: Seq<usize>, v: usize, k: int)
    requires
        0 <= k < s.len(),
        s[k] == v,
    ensures
        is_first_index(s, v, first_index(s, v)),
    decreases k,
{
    if exists|j: int| 0 <= j < k && s[j] == v {
        let j = choose|j: int| 0 <= j < k && s[j] == v;
        lemma_first_index_exists(s, v, j);
    } else {
        assert(is_first_index(s, v, k));
    }
}

/// Removing an element never lengthens a list, and shortens it by one where the
/// element is there.
pub proof fn lemma_swap_removed_len(s: Seq<usize>, v: usize)
    ensures
        swap_removed(s, v).len() == if s.contains(v) { s.len() - 1 } else { s.len() as int },
        s.contains(v) ==> s.len() > 0,
{
    if s.contains(v) {
        let k = choose|k: int| 0 <= k < s.len() && s[k] == v;
        lemma_first_index_exists(s, v, k);
    }
}

/// Removing an element from a list without repetitions leaves the others, once each.
pub proof fn lemma_swap_removed(s: Seq<usize>, v: usize)
    requires
        s.no_duplicates(),
    ensures
        swap_removed(s, v).no_duplicates(),
        forall|u: usize| swap_removed(s, v).contains(u) <==> (s.contains(u) && u != v),
        swap_removed(s, v).len() <= s.len(),
{
    let r = swap_removed(s, v);
    if s.contains(v) {
        let k = choose|k: int| 0 <= k < s.len() && s[k] == v;
        assert(is_first_index(s, v, k)) by {
            assert forall|j: int| 0 <= j < k implies s[j] != v by {
                if s[j] == v {
                    assert(s[j] == s[k]);
                }
            }
        }
        lemma_first_index(s, v, k);
        let last = s.len() - 1;
        assert forall|i: int, j: int| 0 <= i < r.len() && 0 <= j < r.len() && i != j implies r[i]
            != r[j] by {
            let si = if i == k { last } else { i };
            let sj = if j == k { last } else { j };
            assert(r[i] == s[si] && r[j] == s[sj]);
        }
        assert forall|u: usize| r.contains(u) <==> (s.contains(u) && u != v) by {
            if r.contains(u) {
                let i = choose|i: int| 0 <= i < r.len() && r[i] == u;
                let si = if i == k { last } else { i };
                assert(s[si] == u);
                assert(si != k);
            }
            if s.contains(u) && u != v {
                let i = choose|i: int| 0 <= i < s.len() && s[i] == u;
                if i == last {
                    assert(k != last);
                    assert(r[k] == u);
                } else {
                    assert(r[i] == u);
                }
            }
        }
    } else {
        assert forall|u: usize| r.contains(u) <==> (s.contains(u) && u != v) by {}
    }
}

/// What a list holds after one more element has been appended.
pub proof fn lemma_push_contains(s: Seq<usize>, l: usize, u: usize)
    ensures
        s.push(l).contains(u) <==> (s.contains(u) || u == l),
{
    let t = s.push(l);
    if s.contains(u) {
        let i = choose|i: int| 0 <= i < s.len() && s[i] == u;
        assert(t[i] == u);
    }
    if u == l {
        assert(t[s.len() as int] == u);
    }
    if t.contains(u) {
        let i = choose|i: int| 0 <= i < t.len() && t[i] == u;
        if i < s.len() {
            assert(s[i] == u);
        }
    }
}

/// Appending an element that a list does not hold keeps it free of repetitions.
pub proof fn lemma_push_no_duplicates(s: Seq<usize>, l: usize)
    requires
        s.no_duplicates(),
        !s.contains(l),
    ensures
        s.push(l).no_duplicates(),
{
    let t = s.push(l);
    assert forall|i: int, j: int| 0 <= i < t.len() && 0 <= j < t.len() && i != j implies t[i] != t[j] by {
        if i < s.len() && j < s.len() {
        } else if i < s.len() {
            assert(s[i] != l);
        } else {
            assert(s[j] != l);
        }
    }
}

/// The vertex list of one grid cell.
pub struct Sz {
    /// The vertices in the cell.
    zv: Vec<usize>,
}

impl View for Sz {
    type V = Seq<usize>;

    closed spec fn view(&self) -> Seq<usize> {
        self.zv@
    }
}

impl Sz {
    /// A cell without vertices.
    pub fn new() -> (sz: Sz)
        ensures
            sz@ == Seq::<usize>::empty(),
    {
        Sz { zv: Vec::new() }
    }

    /// Number of vertices in the cell.
    pub fn count(&self) -> (n: usize)
        ensures
            n == self@.len(),
    {
        self.zv.len()
    }

    /// The vertex at position `k` of the list.
    pub fn vertex(&self, k: usize) -> (v: usize)
        requires
            k < self@.len(),
        ensures
            v == self@[k as int],
    {
        self.zv[k]
    }

    /// Appends `v1` to the cell's list.
    pub fn add_vertex(&mut self, v1: usize)
        ensures
            final(self)@ == old(self)@.push(v1),
    {
        self.zv.push(v1);
    }

    /// Takes the first `v1` out of the list by moving the last vertex into its place.
    /// Says whether the list held `v1`.
    pub fn remove_vertex(&mut self, v1: usize) -> (found: bool)
        ensures
            found == old(self)@.contains(v1),
            final(self)@ == swap_removed(old(self)@, v1),
    {
        let n = self.zv.len();
        let mut i: usize = 0;
        while i < n
            invariant
                i <= n,
                n == self.zv@.len(),
                self.zv@ == old(self).zv@,
                forall|j: int| 0 <= j < i ==> self.zv@[j] != v1,
            decreases n - i,
        {
            if self.zv[i] == v1 {
                proof {
                    lemma_first_index(self.zv@, v1, i as int);
                }
                self.zv.swap_remove(i);
                return true;
            }
            i += 1;
        }
        false
    }
}

/// What a zone map records.
pub struct ZoneMapView {
    /// Cells per axis.
    pub nz: nat,
    /// Greatest length that any cell list has had.
    pub greatest: nat,
    /// The vertex list of each cell, by cell index.
    pub cells: Seq<Seq<usize>>,
    /// The recorded cell of each recorded vertex.
    pub zone_of: Map<usize, usize>,
}

impl ZoneMapView {
    /// The grid has its `nz * nz` cells, and no list is longer than `greatest`.
    pub open spec fn wf_cells(self) -> bool {
        &&& 1 <= self.nz <= 0xffff_ffff
        &&& self.cells.len() == self.nz * self.nz
        &&& self.cells.len() <= usize::MAX
        &&& forall|c: int| 0 <= c < self.cells.len() ==> (#[trigger] self.cells[c]).len() <= self.greatest
    }

    /// The lists and the recorded cells agree: a vertex stands in the list of the cell
    /// recorded for it, once, and in no other list.
    pub open spec fn wf(self) -> bool {
        &&& self.wf_cells()
        &&& forall|v: usize| #[trigger]
            self.zone_of.dom().contains(v) ==> self.zone_of[v] < self.cells.len()
                && self.cells[self.zone_of[v] as int].contains(v)
        &&& forall|c: int, k: int|
            0 <= c < self.cells.len() && 0 <= k < self.cells[c].len() ==> self.zone_of.dom().contains(
                #[trigger] self.cells[c][k],
            ) && self.zone_of[self.cells[c][k]] == c
        &&& forall|c: int| 0 <= c < self.cells.len() ==> (#[trigger] self.cells[c]).no_duplicates()
    }

    /// The view after `v1` has been appended to the list of cell `z1`.
    pub open spec fn with_added(self, z1: int, v1: usize) -> ZoneMapView {
        ZoneMapView {
            cells: self.cells.update(z1, self.cells[z1].push(v1)),
            greatest: if self.cells[z1].len() + 1 > self.greatest {
                self.cells[z1].len() + 1
            } else {
                self.greatest
            },
            ..self
        }
    }

    /// The view after `v1` has been taken out of the list of cell `z1`.
    pub open spec fn with_removed(self, z1: int, v1: usize) -> ZoneMapView {
        ZoneMapView { cells: self.cells.update(z1, swap_removed(self.cells[z1], v1)), ..self }
    }

    /// The view after `v1` has been recorded under cell `z1` and appended to its list.
    pub open spec fn inserted(self, v1: usize, z1: usize) -> ZoneMapView {
        ZoneMapView { zone_of: self.zone_of.insert(v1, z1), ..self.with_added(z1 as int, v1) }
    }

    /// The view after `v1` has been taken out of its list and is no longer recorded.
    pub open spec fn deleted(self, v1: usize) -> ZoneMapView {
        if self.zone_of.dom().contains(v1) {
            ZoneMapView {
                zone_of: self.zone_of.remove(v1),
                ..self.with_removed(self.zone_of[v1] as int, v1)
            }
        } else {
            self
        }
    }

    /// The view after `v1`, where it is recorded under another cell than `z1`, has
    /// been moved to the list of `z1`.
    pub open spec fn relocated(self, v1: usize, z1: usize) -> ZoneMapView {
        if self.zone_of.dom().contains(v1) && self.zone_of[v1] != z1 {
            self.deleted(v1).inserted(v1, z1)
        } else {
            self
        }
    }

    /// Every recorded vertex has a position in the unit square.
    pub open spec fn covered_by(self, positions: Seq<Point>) -> bool {
        forall|u: usize| #[trigger]
            self.zone_of.dom().contains(u) ==> u < positions.len()
                && positions[u as int].in_unit_square()
    }

    /// Every recorded vertex has a position in the unit square, and its recorded cell is
    /// the cell of that position.
    pub open spec fn consistent_with(self, positions: Seq<Point>) -> bool {
        forall|u: usize| #[trigger]
            self.zone_of.dom().contains(u) ==> u < positions.len()
                && positions[u as int].in_unit_square() && self.zone_of[u] == cell_index(
                positions[u as int],
                self.nz,
            )
    }

    /// Cells `c1` and `c2` are the same cell or touch, corners included.
    pub open spec fn adjacent(self, c1: int, c2: int) -> bool {
        let n = self.nz as int;
        gap(c1 / n, c2 / n) <= 1 && gap(c1 % n, c2 % n) <= 1
    }

    /// Vertex `u` is what a query round `centre` with radius `rad` reports: it is
    /// recorded in the cell of `centre` or one next to it, and lies within `rad`.
    pub open spec fn in_sphere(self, positions: Seq<Point>, centre: Point, u: usize, rad: u32) -> bool {
        &&& self.zone_of.dom().contains(u)
        &&& self.adjacent(cell_index(centre, self.nz) as int, self.zone_of[u] as int)
        &&& dist2(centre, positions[u as int]) <= rad * rad
    }
}

impl ZoneMapView {
    /// Recording a vertex that was not recorded keeps the lists and the recorded cells
    /// in agreement.
    pub proof fn lemma_inserted_wf(self, v1: usize, z1: usize)
        requires
            self.wf(),
            !self.zone_of.dom().contains(v1),
            z1 < self.cells.len(),
        ensures
            self.inserted(v1, z1).wf(),
    {
        let n = self.inserted(v1, z1);
        let z1 = z1 as int;
        let s = self.cells[z1];
        assert(!s.contains(v1)) by {
            if s.contains(v1) {
                let k = choose|k: int| 0 <= k < s.len() && s[k] == v1;
                assert(self.zone_of.dom().contains(self.cells[z1][k]));
            }
        }
        lemma_push_no_duplicates(s, v1);
        assert forall|c: int| 0 <= c < n.cells.len() implies (#[trigger] n.cells[c]).len()
            <= n.greatest by {
            assert(self.cells[c].len() <= self.greatest);
        }
        assert forall|v: usize| #[trigger] n.zone_of.dom().contains(v) implies n.zone_of[v]
            < n.cells.len() && n.cells[n.zone_of[v] as int].contains(v) by {
            if v == v1 {
                lemma_push_contains(s, v1, v);
            } else {
                assert(self.zone_of.dom().contains(v));
                let c = self.zone_of[v] as int;
                if c == z1 {
                    lemma_push_contains(s, v1, v);
                }
            }
        }
        assert forall|c: int, k: int| 0 <= c < n.cells.len() && 0 <= k < n.cells[c].len() implies
            n.zone_of.dom().contains(#[trigger] n.cells[c][k]) && n.zone_of[n.cells[c][k]] == c by {
            if c == z1 && k == s.len() {
            } else {
                let u = self.cells[c][k];
                assert(self.zone_of.dom().contains(u));
                assert(n.cells[c][k] == u);
            }
        }
        assert forall|c: int| 0 <= c < n.cells.len() implies (#[trigger] n.cells[c]).no_duplicates() by {
            assert(self.cells[c].no_duplicates());
        }
    }

    /// Taking a vertex out keeps the lists and the recorded cells in agreement.
    pub proof fn lemma_deleted_wf(self, v1: usize)
        requires
            self.wf(),
        ensures
            self.deleted(v1).wf(),
            !self.deleted(v1).zone_of.dom().contains(v1),
            self.deleted(v1).zone_of == self.zone_of.remove(v1),
            self.deleted(v1).cells.len() == self.cells.len(),
            self.deleted(v1).nz == self.nz,
            self.deleted(v1).greatest == self.greatest,
            forall|c: int|
                0 <= c < self.cells.len() ==> (#[trigger] self.deleted(v1).cells[c]).len()
                    <= self.cells[c].len(),
    {
        let n = self.deleted(v1);
        if self.zone_of.dom().contains(v1) {
            let c0 = self.zone_of[v1] as int;
            let s = self.cells[c0];
            assert(s.no_duplicates());
            lemma_swap_removed(s, v1);
            let r = swap_removed(s, v1);
            assert forall|c: int| 0 <= c < n.cells.len() implies (#[trigger] n.cells[c]).len()
                <= self.cells[c].len() && n.cells[c].len() <= n.greatest by {
                assert(self.cells[c].len() <= self.greatest);
            }
            assert forall|v: usize| #[trigger] n.zone_of.dom().contains(v) implies n.zone_of[v]
                < n.cells.len() && n.cells[n.zone_of[v] as int].contains(v) by {
                assert(self.zone_of.dom().contains(v));
                assert(v != v1);
            }
            assert forall|c: int, k: int| 0 <= c < n.cells.len() && 0 <= k < n.cells[c].len() implies
                n.zone_of.dom().contains(#[trigger] n.cells[c][k]) && n.zone_of[n.cells[c][k]] == c by {
                let u = n.cells[c][k];
                if c == c0 {
                    assert(r.contains(u));
                    assert(s.contains(u) && u != v1);
                    let k0 = choose|k0: int| 0 <= k0 < s.len() && s[k0] == u;
                    assert(self.zone_of.dom().contains(self.cells[c][k0]));
                } else {
                    assert(self.zone_of.dom().contains(self.cells[c][k]));
                }
            }
            assert forall|c: int| 0 <= c < n.cells.len() implies (#[trigger] n.cells[c]).no_duplicates() by {
                assert(self.cells[c].no_duplicates());
            }
        } else {
            assert(self.zone_of.remove(v1) =~= self.zone_of);
        }
    }

    /// Moving a recorded vertex to another cell keeps the lists and the recorded cells
    /// in agreement, and changes the recorded cell of that vertex alone.
    pub proof fn lemma_relocated_wf(self, v1: usize, z1: usize)
        requires
            self.wf(),
            z1 < self.cells.len(),
        ensures
            self.relocated(v1, z1).wf(),
            self.relocated(v1, z1).nz == self.nz,
            self.relocated(v1, z1).greatest >= self.greatest,
            self.relocated(v1, z1).zone_of == if self.zone_of.dom().contains(v1) {
                self.zone_of.insert(v1, z1)
            } else {
                self.zone_of
            },
    {
        if self.zone_of.dom().contains(v1) {
            if self.zone_of[v1] != z1 {
                self.lemma_deleted_wf(v1);
                let d = self.deleted(v1);
                d.lemma_inserted_wf(v1, z1);
                assert(self.relocated(v1, z1).zone_of =~= self.zone_of.insert(v1, z1));
            } else {
                assert(self.zone_of.insert(v1, z1) =~= self.zone_of);
            }
        }
    }

    /// Recording a vertex under the cell of its position keeps the recorded cells in
    /// line with the positions.
    pub proof fn lemma_inserted_consistent(self, positions: Seq<Point>, v1: usize)
        requires
            self.wf(),
            self.consistent_with(positions),
            v1 < positions.len(),
            positions[v1 as int].in_unit_square(),
        ensures
            self.inserted(v1, cell_index(positions[v1 as int], self.nz) as usize).consistent_with(
                positions,
            ),
    {
        lemma_cell_index_parts(positions[v1 as int], self.nz);
        let n = self.inserted(v1, cell_index(positions[v1 as int], self.nz) as usize);
        assert forall|u: usize| #[trigger] n.zone_of.dom().contains(u) implies u < positions.len()
            && positions[u as int].in_unit_square() && n.zone_of[u] == cell_index(
            positions[u as int],
            n.nz,
        ) by {
            if u != v1 {
                assert(self.zone_of.dom().contains(u));
            }
        }
    }

    /// Taking a vertex out keeps the recorded cells in line with the positions.
    pub proof fn lemma_deleted_consistent(self, positions: Seq<Point>, v1: usize)
        requires
            self.consistent_with(positions),
        ensures
            self.deleted(v1).consistent_with(positions),
    {
        let n = self.deleted(v1);
        assert forall|u: usize| #[trigger] n.zone_of.dom().contains(u) implies u < positions.len()
            && positions[u as int].in_unit_square() && n.zone_of[u] == cell_index(
            positions[u as int],
            n.nz,
        ) by {
            assert(self.zone_of.dom().contains(u));
        }
    }

    /// Filing a moved vertex under the cell of its new position keeps the recorded
    /// cells in line with the positions.
    pub proof fn lemma_relocated_consistent(self, positions: Seq<Point>, v1: usize, p: Point)
        requires
            self.wf(),
            self.consistent_with(positions),
            p.in_unit_square(),
        ensures
            self.relocated(v1, cell_index(p, self.nz) as usize).consistent_with(
                if v1 < positions.len() {
                    positions.update(v1 as int, p)
                } else {
                    positions
                },
            ),
    {
        lemma_cell_index_parts(p, self.nz);
        let z1 = cell_index(p, self.nz) as usize;
        self.lemma_relocated_wf(v1, z1);
        let n = self.relocated(v1, z1);
        let ps = if v1 < positions.len() {
            positions.update(v1 as int, p)
        } else {
            positions
        };
        assert forall|u: usize| #[trigger] n.zone_of.dom().contains(u) implies u < ps.len()
            && ps[u as int].in_unit_square() && n.zone_of[u] == cell_index(ps[u as int], n.nz) by {
            assert(self.zone_of.dom().contains(u));
        }
    }

    /// A query misses no vertex within its radius, as long as the radius is at most
    /// one cell wide.
    pub proof fn lemma_sphere_complete(self, positions: Seq<Point>, centre: Point, u: usize, rad: u32)
        requires
            self.wf(),
            self.consistent_with(positions),
            centre.in_unit_square(),
            rad * self.nz <= SCALE,
            self.zone_of.dom().contains(u),
            dist2(centre, positions[u as int]) <= rad * rad,
        ensures
            self.in_sphere(positions, centre, u, rad),
    {
        let q = positions[u as int];
        let dx = gap(centre.x as int, q.x as int);
        let dy = gap(centre.y as int, q.y as int);
        assert(dx * dx == (centre.x - q.x) * (centre.x - q.x)) by (nonlinear_arith)
            requires
                dx == centre.x - q.x || dx == q.x - centre.x,
        ;
        assert(dy * dy == (centre.y - q.y) * (centre.y - q.y)) by (nonlinear_arith)
            requires
                dy == centre.y - q.y || dy == q.y - centre.y,
        ;
        assert(dx <= rad && dy <= rad) by (nonlinear_arith)
            requires
                dx >= 0,
                dy >= 0,
                dx * dx + dy * dy <= rad * rad,
        ;
        crate::geometry::lemma_cell_coord_near(centre.x, q.x, rad as nat, self.nz);
        crate::geometry::lemma_cell_coord_near(centre.y, q.y, rad as nat, self.nz);
        lemma_cell_index_parts(centre, self.nz);
        lemma_cell_index_parts(q, self.nz);
    }
}

impl ZoneMapView {
    /// Vertex `u` is reported by the query, and a scan of the cells row by row that
    /// stands at position `k` of the list of cell `(i, j)` has passed it.
    spec fn scanned(
        self,
        positions: Seq<Point>,
        centre: Point,
        rad: u32,
        u: usize,
        i: int,
        j: int,
        k: int,
    ) -> bool {
        let c = self.zone_of[u] as int;
        let r = c / (self.nz as int);
        let q = c % (self.nz as int);
        &&& self.in_sphere(positions, centre, u, rad)
        &&& (r < i || (r == i && q < j) || (r == i && q == j && exists|t: int|
            0 <= t < k && #[trigger] self.cells[c][t] == u))
    }

    /// Row and column of the cell of a reported vertex lie next to those of the centre.
    proof fn lemma_in_window(self, positions: Seq<Point>, centre: Point, rad: u32, u: usize)
        requires
            self.wf(),
            self.in_sphere(positions, centre, u, rad),
        ensures
            ({
                let n = self.nz as int;
                let c = self.zone_of[u] as int;
                let zx = cell_coord(centre.x, self.nz) as int;
                let zy = cell_coord(centre.y, self.nz) as int;
                &&& 0 <= c / n < n
                &&& 0 <= c % n < n
                &&& c == (c / n) * n + c % n
                &&& gap(zx, c / n) <= 1
                &&& gap(zy, c % n) <= 1
                &&& 0 <= c < self.cells.len()
                &&& self.cells[c].contains(u)
            }),
    {
        let n = self.nz as int;
        let c = self.zone_of[u] as int;
        lemma_cell_index_parts(centre, self.nz);
        vstd::arithmetic::div_mod::lemma_fundamental_div_mod(c, n);
        vstd::arithmetic::div_mod::lemma_mod_pos_bound(c, n);
        assert(n * (c / n) == (c / n) * n) by (nonlinear_arith);
        assert(0 <= c / n < n) by (nonlinear_arith)
            requires
                0 <= c < n * n,
                n >= 1,
                c == (c / n) * n + c % n,
                0 <= c % n < n,
        ;
    }

    /// Row and column of cell `i * nz + j`.
    proof fn lemma_cell_parts(self, i: int, j: int)
        requires
            self.nz >= 1,
            0 <= i < self.nz,
            0 <= j < self.nz,
        ensures
            (i * self.nz + j) / (self.nz as int) == i,
            (i * self.nz + j) % (self.nz as int) == j,
            0 <= i * self.nz + j < self.nz * self.nz,
    {
        let n = self.nz as int;
        vstd::arithmetic::div_mod::lemma_fundamental_div_mod_converse(i * n + j, n, i, j);
        assert(0 <= i * n + j < n * n) by (nonlinear_arith)
            requires
                0 <= i < n,
                0 <= j < n,
        ;
    }

    /// Passing position `k` of the list of cell `(i, j)` adds that vertex to what the
    /// scan has passed, if the query reports it, and nothing else.
    proof fn lemma_scan_step(
        self,
        positions: Seq<Point>,
        centre: Point,
        rad: u32,
        i: int,
        j: int,
        k: int,
    )
        requires
            self.wf(),
            0 <= i < self.nz,
            0 <= j < self.nz,
            gap(cell_coord(centre.x, self.nz) as int, i) <= 1,
            gap(cell_coord(centre.y, self.nz) as int, j) <= 1,
            0 <= k < self.cells[i * self.nz + j].len(),
        ensures
            ({
                let l = self.cells[i * self.nz + j][k];
                let hit = dist2(centre, positions[l as int]) <= rad * rad;
                &&& !self.scanned(positions, centre, rad, l, i, j, k)
                &&& hit == self.in_sphere(positions, centre, l, rad)
                &&& forall|u: usize|
                    self.scanned(positions, centre, rad, u, i, j, k + 1) <==> (#[trigger] self.scanned(
                        positions,
                        centre,
                        rad,
                        u,
                        i,
                        j,
                        k,
                    ) || (hit && u == l))
            }),
    {
        let n = self.nz as int;
        let c = i * n + j;
        let l = self.cells[c][k];
        let hit = dist2(centre, positions[l as int]) <= rad * rad;
        self.lemma_cell_parts(i, j);
        lemma_cell_index_parts(centre, self.nz);
        assert(self.zone_of.dom().contains(self.cells[c][k]) && self.zone_of[l] == c);
        assert(self.cells[c].no_duplicates());
        assert(!self.scanned(positions, centre, rad, l, i, j, k));
        assert forall|u: usize|
            self.scanned(positions, centre, rad, u, i, j, k + 1) <==> (#[trigger] self.scanned(
                positions,
                centre,
                rad,
                u,
                i,
                j,
                k,
            ) || (hit && u == l)) by {
            if self.in_sphere(positions, centre, u, rad) {
                self.lemma_in_window(positions, centre, rad, u);
                let cu = self.zone_of[u] as int;
                if cu / n == i && cu % n == j {
                    assert(cu == c);
                    if u == l {
                        assert(self.cells[c][k] == u);
                    }
                }
            }
        }
    }

    /// Once the whole list of cell `(i, j)` is passed, the scan stands at the head of
    /// the next cell of the row.
    proof fn lemma_scan_cell_done(
        self,
        positions: Seq<Point>,
        centre: Point,
        rad: u32,
        i: int,
        j: int,
    )
        requires
            self.wf(),
            0 <= i < self.nz,
            0 <= j < self.nz,
        ensures
            forall|u: usize|
                #[trigger] self.scanned(
                    positions,
                    centre,
                    rad,
                    u,
                    i,
                    j,
                    self.cells[i * self.nz + j].len() as int,
                ) <==> self.scanned(positions, centre, rad, u, i, j + 1, 0),
    {
        let n = self.nz as int;
        let c = i * n + j;
        let cnt = self.cells[c].len() as int;
        self.lemma_cell_parts(i, j);
        assert forall|u: usize|
            #[trigger] self.scanned(positions, centre, rad, u, i, j, cnt) <==> self.scanned(
                positions,
                centre,
                rad,
                u,
                i,
                j + 1,
                0,
            ) by {
            if self.in_sphere(positions, centre, u, rad) {
                self.lemma_in_window(positions, centre, rad, u);
                let cu = self.zone_of[u] as int;
                if cu / n == i && cu % n == j {
                    assert(cu == c);
                    let t = choose|t: int| 0 <= t < self.cells[c].len() && self.cells[c][t] == u;
                    assert(self.cells[cu][t] == u);
                }
            }
        }
    }

    /// Once the cells `j_lo .. j_hi` of row `i` are passed, the scan stands at the
    /// head of the next row, provided the columns next to the centre lie among them.
    proof fn lemma_scan_row_done(
        self,
        positions: Seq<Point>,
        centre: Point,
        rad: u32,
        i: int,
        j_lo: int,
        j_hi: int,
    )
        requires
            self.wf(),
            forall|q: int|
                0 <= q < self.nz && gap(cell_coord(centre.y, self.nz) as int, q) <= 1 ==> j_lo <= q
                    < j_hi,
        ensures
            forall|u: usize|
                #[trigger] self.scanned(positions, centre, rad, u, i, j_hi, 0) <==> self.scanned(
                    positions,
                    centre,
                    rad,
                    u,
                    i + 1,
                    j_lo,
                    0,
                ),
    {
        assert forall|u: usize|
            #[trigger] self.scanned(positions, centre, rad, u, i, j_hi, 0) <==> self.scanned(
                positions,
                centre,
                rad,
                u,
                i + 1,
                j_lo,
                0,
            ) by {
            if self.in_sphere(positions, centre, u, rad) {
                self.lemma_in_window(positions, centre, rad, u);
            }
        }
    }

    /// Before the rows `i_lo .. i_hi` the scan has passed nothing, and after them
    /// everything that the query reports, provided the rows next to the centre lie
    /// among them and the columns next to it begin at `j_lo`.
    proof fn lemma_scan_ends(
        self,
        positions: Seq<Point>,
        centre: Point,
        rad: u32,
        i_lo: int,
        i_hi: int,
        j_lo: int,
    )
        requires
            self.wf(),
            forall|r: int|
                0 <= r < self.nz && gap(cell_coord(centre.x, self.nz) as int, r) <= 1 ==> i_lo <= r
                    < i_hi,
            forall|q: int|
                0 <= q < self.nz && gap(cell_coord(centre.y, self.nz) as int, q) <= 1 ==> j_lo <= q,
        ensures
            forall|u: usize| !self.scanned(positions, centre, rad, u, i_lo, j_lo, 0),
            forall|u: usize|
                self.scanned(positions, centre, rad, u, i_hi, j_lo, 0) <==> self.in_sphere(
                    positions,
                    centre,
                    u,
                    rad,
                ),
    {
        assert forall|u: usize| !self.scanned(positions, centre, rad, u, i_lo, j_lo, 0) by {
            if self.in_sphere(positions, centre, u, rad) {
                self.lemma_in_window(positions, centre, rad, u);
            }
        }
        assert forall|u: usize|
            self.scanned(positions, centre, rad, u, i_hi, j_lo, 0) <==> self.in_sphere(
                positions,
                centre,
                u,
                rad,
            ) by {
            if self.in_sphere(positions, centre, u, rad) {
                self.lemma_in_window(positions, centre, rad, u);
            }
        }
    }
}

/// On a grid of `nz` cells per axis, the row and the column of a cell index.
pub proof fn lemma_cell_index_parts(p: Point, nz: nat)
    requires
        nz >= 1,
    ensures
        cell_index(p, nz) / nz == cell_coord(p.x, nz),
        cell_index(p, nz) % nz == cell_coord(p.y, nz),
        cell_index(p, nz) < nz * nz,
{
    let i = cell_coord(p.x, nz) as int;
    let j = cell_coord(p.y, nz) as int;
    let n = nz as int;
    assert(0 <= i < n && 0 <= j < n);
    vstd::arithmetic::div_mod::lemma_fundamental_div_mod_converse(i * n + j, n, i, j);
    assert(i * n + j < n * n) by (nonlinear_arith)
        requires
            0 <= i < n,
            0 <= j < n,
    ;
}

/// A grid that files vertex ids by the cell of their position.
pub struct ZoneMap {
    /// Cells per axis.
    nz: usize,
    /// Greatest length that any cell list has had.
    greatest_zone_size: usize,
    /// The cell of each vertex, by vertex id; `None` for a vertex that is not recorded.
    vz: Vec<Option<usize>>,
    /// The cells, by cell index.
    z: Vec<Sz>,
}

impl View for ZoneMap {
    type V = ZoneMapView;

    closed spec fn view(&self) -> ZoneMapView {
        ZoneMapView {
            nz: self.nz as nat,
            greatest: self.greatest_zone_size as nat,
            cells: Seq::new(self.z@.len(), |c: int| self.z@[c]@),
            zone_of: Map::new(
                |v: usize| v < self.vz@.len() && self.vz@[v as int].is_some(),
                |v: usize| self.vz@[v as int].unwrap(),
            ),
        }
    }
}

impl ZoneMap {
    /// An empty map on a grid of `nz` cells per axis. Fewer than three cells per axis
    /// leave no room for a neighbourhood, so the grid is then a single cell.
    pub fn new(nz: usize) -> (zm: ZoneMap)
        requires
            nz * nz <= usize::MAX,
        ensures
            zm@.wf(),
            zm@.nz == if nz < 3 { 1 } else { nz as nat },
            zm@.greatest == 0,
            zm@.zone_of == Map::<usize, usize>::empty(),
            forall|c: int| 0 <= c < zm@.cells.len() ==> #[trigger] zm@.cells[c] == Seq::<usize>::empty(),
    {
        let nz: usize = if nz < 3 { 1 } else { nz };
        assert(nz <= 0xffff_ffff) by (nonlinear_arith)
            requires
                nz * nz <= usize::MAX,
                usize::MAX <= 0xffff_ffff_ffff_ffff,
        ;
        let total_zones: usize = nz * nz;
        let mut z: Vec<Sz> = Vec::with_capacity(total_zones);
        let mut i: usize = 0;
        while i < total_zones
            invariant
                i <= total_zones,
                z@.len() == i,
                forall|c: int| 0 <= c < i ==> (#[trigger] z@[c])@ == Seq::<usize>::empty(),
            decreases total_zones - i,
        {
            z.push(Sz::new());
            i += 1;
        }
        let zm = ZoneMap { nz, greatest_zone_size: 0, vz: Vec::new(), z };
        assert(zm@.zone_of =~= Map::<usize, usize>::empty());
        zm
    }

    /// Appends `v1` to the list of cell `z1`. The recorded cells stay as they are.
    pub fn add_vertex_to_zone(&mut self, z1: usize, v1: usize)
        requires
            old(self)@.wf_cells(),
            z1 < old(self)@.cells.len(),
        ensures
            final(self)@ == old(self)@.with_added(z1 as int, v1),
            final(self)@.wf_cells(),
    {
        self.z[z1].add_vertex(v1);
        let n = self.z[z1].count();
        if n > self.greatest_zone_size {
            self.greatest_zone_size = n;
        }
        assert(self@.cells =~= old(self)@.with_added(z1 as int, v1).cells);
    }

    /// Takes `v1` out of the list of cell `z1`, if it is there, by moving the last
    /// vertex of the list into its place. The recorded cells stay as they are.
    pub fn remove_vertex_from_zone(&mut self, z1: usize, v1: usize)
        requires
            old(self)@.wf_cells(),
            z1 < old(self)@.cells.len(),
        ensures
            final(self)@ == old(self)@.with_removed(z1 as int, v1),
            final(self)@.wf_cells(),
    {
        self.z[z1].remove_vertex(v1);
        assert(self@.cells =~= old(self)@.with_removed(z1 as int, v1).cells);
        assert forall|c: int| 0 <= c < self@.cells.len() implies (#[trigger] self@.cells[c]).len()
            <= self@.greatest by {
            assert(old(self)@.cells[c].len() <= old(self)@.greatest);
            lemma_swap_removed_len(old(self)@.cells[c], v1);
        }
    }

    /// Index of the cell that holds `(x, y)`.
    pub fn get_z(&self, x: u32, y: u32) -> (z1: usize)
        requires
            self@.wf_cells(),
        ensures
            z1 == cell_index(Point { x, y }, self@.nz),
            z1 < self@.cells.len(),
    {
        let i = zone_coordinate(x, self.nz);
        let j = zone_coordinate(y, self.nz);
        proof {
            lemma_cell_index_parts(Point { x, y }, self.nz as nat);
            assert(self.nz * i == i * self.nz) by (nonlinear_arith);
            assert(self.nz * i <= self.nz * self.nz) by (nonlinear_arith)
                requires
                    i < self.nz,
            ;
            assert(self.z.len() == self.nz * self.nz);
        }
        self.nz * i + j
    }

    /// Records vertex `v1` under the cell of its position `positions[v1]` and appends
    /// it to the list of that cell. Returns the cell.
    pub fn add_vertex(&mut self, v1: usize, positions: &Vec<Point>) -> (z1: usize)
        requires
            old(self)@.wf(),
            v1 < positions@.len(),
            !old(self)@.zone_of.dom().contains(v1),
        ensures
            z1 == cell_index(positions@[v1 as int], old(self)@.nz),
            final(self)@ == old(self)@.inserted(v1, z1),
            final(self)@.wf(),
            old(self)@.consistent_with(positions@) && positions@[v1 as int].in_unit_square()
                ==> final(self)@.consistent_with(positions@),
    {
        let p = positions[v1];
        let z1 = self.get_z(p.x, p.y);
        proof {
            old(self)@.lemma_inserted_wf(v1, z1);
            if old(self)@.consistent_with(positions@) && positions@[v1 as int].in_unit_square() {
                old(self)@.lemma_inserted_consistent(positions@, v1);
            }
        }
        self.add_vertex_to_zone(z1, v1);
        let ghost mid = self@;
        while self.vz.len() <= v1
            invariant
                self@ == mid,
                v1 < positions@.len(),
            decreases v1 + 1 - self.vz@.len(),
        {
            self.vz.push(None);
            assert(self@.zone_of =~= mid.zone_of);
        }
        self.vz[v1] = Some(z1);
        assert(self@.zone_of =~= mid.zone_of.insert(v1, z1));
        z1
    }

    /// Takes vertex `v1` out of the list of its recorded cell and forgets that cell.
    /// A vertex that is not recorded is left alone.
    pub fn delete_vertex(&mut self, v1: usize)
        requires
            old(self)@.wf(),
        ensures
            final(self)@ == old(self)@.deleted(v1),
            final(self)@.wf(),
            forall|positions: Seq<Point>| #[trigger]
                old(self)@.consistent_with(positions) ==> final(self)@.consistent_with(positions),
    {
        proof {
            old(self)@.lemma_deleted_wf(v1);
            assert forall|positions: Seq<Point>| #[trigger]
                old(self)@.consistent_with(positions) implies old(self)@.deleted(v1).consistent_with(
                positions,
            ) by {
                old(self)@.lemma_deleted_consistent(positions, v1);
            }
        }
        if v1 < self.vz.len() {
            if let Some(z1) = self.vz[v1] {
                self.remove_vertex_from_zone(z1, v1);
                self.vz[v1] = None;
                assert(self@.zone_of =~= old(self)@.zone_of.remove(v1));
            }
        }
    }

    /// Files vertex `v1` under the cell of its new position `(x, y)`: where that is the
    /// recorded cell nothing changes, else the vertex moves from the old list to the
    /// new one. A vertex that is not recorded is left alone.
    pub fn update_vertex(&mut self, v1: usize, x: u32, y: u32)
        requires
            old(self)@.wf(),
        ensures
            final(self)@ == old(self)@.relocated(v1, cell_index(Point { x, y }, old(self)@.nz) as usize),
            final(self)@.wf(),
            forall|positions: Seq<Point>| #[trigger]
                old(self)@.consistent_with(positions) && v1 < positions.len() && (Point {
                    x,
                    y,
                }).in_unit_square() ==> final(self)@.consistent_with(
                    positions.update(v1 as int, Point { x, y }),
                ),
    {
        proof {
            assert forall|positions: Seq<Point>| #[trigger]
                old(self)@.consistent_with(positions) && v1 < positions.len() && (Point {
                    x,
                    y,
                }).in_unit_square() implies old(self)@.relocated(
                v1,
                cell_index(Point { x, y }, old(self)@.nz) as usize,
            ).consistent_with(positions.update(v1 as int, Point { x, y })) by {
                old(self)@.lemma_relocated_consistent(positions, v1, Point { x, y });
            }
        }
        if v1 >= self.vz.len() {
            return ;
        }
        let old_z = match self.vz[v1] {
            Some(z) => z,
            None => {
                return ;
            },
        };
        let new_z = self.get_z(x, y);
        proof {
            old(self)@.lemma_relocated_wf(v1, new_z);
            old(self)@.lemma_deleted_wf(v1);
        }
        if new_z != old_z {
            self.remove_vertex_from_zone(old_z, v1);
            self.add_vertex_to_zone(new_z, v1);
            self.vz[v1] = Some(new_z);
            assert(self@.zone_of =~= old(self)@.zone_of.remove(v1).insert(v1, new_z));
        }
    }

    /// Collects into `vertices` the recorded vertices within `rad` of vertex `v`, from
    /// the cell of `v` and the eight cells around it, and returns their number. What
    /// `vertices` held before is dropped. The vertex `v` itself is reported where it is
    /// recorded.
    pub fn sphere_vertices(
        &self,
        v: usize,
        positions: &Vec<Point>,
        rad: u32,
        vertices: &mut Vec<usize>,
    ) -> (num: usize)
        requires
            self@.wf(),
            self@.covered_by(positions@),
            v < positions@.len(),
            positions@[v as int].in_unit_square(),
        ensures
            num == final(vertices)@.len(),
            final(vertices)@.no_duplicates(),
            forall|u: usize|
                final(vertices)@.contains(u) <==> self@.in_sphere(
                    positions@,
                    positions@[v as int],
                    u,
                    rad,
                ),
            num <= 9 * self@.greatest,
            self@.consistent_with(positions@) && rad * self@.nz <= SCALE ==> forall|u: usize|
                #![trigger final(vertices)@.contains(u)]
                self@.zone_of.dom().contains(u) && dist2(
                    positions@[v as int],
                    positions@[u as int],
                ) <= rad * rad ==> final(vertices)@.contains(u),
    {
        vertices.clear();
        let p = positions[v];
        let nz = self.nz;
        let zx = zone_coordinate(p.x, nz);
        let zy = zone_coordinate(p.y, nz);
        assert(rad * rad <= 0xffff_ffff * 0xffff_ffff) by (nonlinear_arith)
            requires
                rad <= 0xffff_ffff,
        ;
        let rad2: u64 = rad as u64 * rad as u64;
        let i_lo: usize = if zx > 0 { zx - 1 } else { 0 };
        let i_hi: usize = if nz - zx > 2 { zx + 2 } else { nz };
        let j_lo: usize = if zy > 0 { zy - 1 } else { 0 };
        let j_hi: usize = if nz - zy > 2 { zy + 2 } else { nz };
        let ghost view = self@;
        let ghost ps = positions@;
        let ghost done: nat = 0;
        proof {
            view.lemma_scan_ends(ps, p, rad, i_lo as int, i_hi as int, j_lo as int);
        }
        let mut i: usize = i_lo;
        while i < i_hi
            invariant
                view == self@,
                ps == positions@,
                view.wf(),
                view.covered_by(ps),
                p.in_unit_square(),
                nz == view.nz,
                zx == cell_coord(p.x, view.nz),
                zy == cell_coord(p.y, view.nz),
                rad2 == rad * rad,
                i_lo <= i <= i_hi <= nz,
                i_hi - i_lo <= 3,
                j_lo <= zy < j_hi <= nz,
                j_hi - j_lo <= 3,
                forall|r: int| i_lo <= r < i_hi ==> gap(zx as int, r) <= 1,
                forall|q: int| j_lo <= q < j_hi ==> gap(zy as int, q) <= 1,
                forall|q: int| 0 <= q < nz && gap(zy as int, q) <= 1 ==> j_lo <= q < j_hi,
                done == (i - i_lo) * 3,
                vertices@.len() <= done * view.greatest,
                vertices@.no_duplicates(),
                forall|u: usize| #[trigger]
                    vertices@.contains(u) <==> view.scanned(ps, p, rad, u, i as int, j_lo as int, 0),
            decreases i_hi - i,
        {
            let ghost row_done = done;
            let mut j: usize = j_lo;
            while j < j_hi
                invariant
                    view == self@,
                    ps == positions@,
                    view.wf(),
                    view.covered_by(ps),
                    p.in_unit_square(),
                    nz == view.nz,
                    zx == cell_coord(p.x, view.nz),
                    zy == cell_coord(p.y, view.nz),
                    rad2 == rad * rad,
                    i < nz,
                    gap(zx as int, i as int) <= 1,
                    j_lo <= j <= j_hi <= nz,
                    j_hi - j_lo <= 3,
                    forall|q: int| j_lo <= q < j_hi ==> gap(zy as int, q) <= 1,
                    done == row_done + (j - j_lo),
                    vertices@.len() <= done * view.greatest,
                    vertices@.no_duplicates(),
                    forall|u: usize| #[trigger]
                        vertices@.contains(u) <==> view.scanned(ps, p, rad, u, i as int, j as int, 0),
                decreases j_hi - j,
            {
                proof {
                    view.lemma_cell_parts(i as int, j as int);
                    assert(self.z.len() == view.cells.len());
                }
                let c: usize = i * nz + j;
                let cnt = self.z[c].count();
                assert(view.cells[c as int].len() <= view.greatest);
                let mut k: usize = 0;
                while k < cnt
                    invariant
                        view == self@,
                        ps == positions@,
                        view.wf(),
                        view.covered_by(ps),
                        p.in_unit_square(),
                        nz == view.nz,
                        rad2 == rad * rad,
                        i < nz,
                        j < nz,
                        gap(cell_coord(p.x, view.nz) as int, i as int) <= 1,
                        gap(cell_coord(p.y, view.nz) as int, j as int) <= 1,
                        c == i * nz + j,
                        c < self.z@.len(),
                        c < view.cells.len(),
                        cnt == view.cells[c as int].len(),
                        cnt <= view.greatest,
                        k <= cnt,
                        vertices@.len() <= done * view.greatest + k,
                        vertices@.no_duplicates(),
                        forall|u: usize| #[trigger]
                            vertices@.contains(u) <==> view.scanned(
                                ps,
                                p,
                                rad,
                                u,
                                i as int,
                                j as int,
                                k as int,
                            ),
                    decreases cnt - k,
                {
                    let l = self.z[c].vertex(k);
                    proof {
                        assert(l == view.cells[c as int][k as int]);
                        assert(view.zone_of.dom().contains(view.cells[c as int][k as int]));
                        view.lemma_scan_step(ps, p, rad, i as int, j as int, k as int);
                    }
                    let q = positions[l];
                    if squared_distance(p, q) <= rad2 {
                        proof {
                            lemma_push_no_duplicates(vertices@, l);
                            assert forall|u: usize| #[trigger]
                                vertices@.push(l).contains(u) <==> view.scanned(
                                    ps,
                                    p,
                                    rad,
                                    u,
                                    i as int,
                                    j as int,
                                    k + 1,
                                ) by {
                                lemma_push_contains(vertices@, l, u);
                            }
                        }
                        vertices.push(l);
                    }
                    k += 1;
                }
                proof {
                    view.lemma_scan_cell_done(ps, p, rad, i as int, j as int);
                    assert((done + 1) * view.greatest == done * view.greatest + view.greatest)
                        by (nonlinear_arith);
                    done = done + 1;
                }
                j += 1;
            }
            proof {
                view.lemma_scan_row_done(ps, p, rad, i as int, j_lo as int, j_hi as int);
                assert((row_done + 3) * view.greatest >= done * view.greatest) by (nonlinear_arith)
                    requires
                        done <= row_done + 3,
                ;
                done = row_done + 3;
            }
            i += 1;
        }
        proof {
            assert(done * view.greatest <= 9 * view.greatest) by (nonlinear_arith)
                requires
                    done <= 9,
            ;
        }
        proof {
            if self@.consistent_with(positions@) && rad * self@.nz <= SCALE {
                assert forall|u: usize| #[trigger]
                    self@.zone_of.dom().contains(u) && dist2(
                        positions@[v as int],
                        positions@[u as int],
                    ) <= rad * rad implies self@.in_sphere(
                    positions@,
                    positions@[v as int],
                    u,
                    rad,
                ) by {
                    self@.lemma_sphere_complete(positions@, positions@[v as int], u, rad);
                }
            }
        }
        vertices.len()
    }

    /// Cells per axis.
    pub fn nz(&self) -> (n: usize)
        ensures
            n == self@.nz,
    {
        self.nz
    }

    /// The vertex list of cell `z1`.
    pub fn zone(&self, z1: usize) -> (sz: &Sz)
        requires
            z1 < self@.cells.len(),
        ensures
            sz@ == self@.cells[z1 as int],
    {
        &self.z[z1]
    }

    /// The cell that vertex `v1` is recorded under, if it is recorded.
    pub fn vertex_zone(&self, v1: usize) -> (z1: Option<usize>)
        ensures
            z1 == if self@.zone_of.dom().contains(v1) {
                Some(self@.zone_of[v1])
            } else {
                None
            },
    {
        if v1 < self.vz.len() {
            self.vz[v1]
        } else {
            None
        }
    }

    /// Nine times the greatest length that any cell list has had, or `usize::MAX` where
    /// that does not fit: no query result is longer.
    pub fn get_max_sphere_count(&self) -> (n: usize)
        ensures
            n == if 9 * self@.greatest <= usize::MAX { 9 * self@.greatest } else { usize::MAX as nat },
    {
        if self.greatest_zone_size > usize::MAX / 9 {
            usize::MAX
        } else {
            self.greatest_zone_size * 9
        }
    }
}

} // verus!
