//! What holds of the library as a whole, beyond the contract of any one function.

use vstd::prelude::*;
use crate::forces::displaced;
use crate::forces::pair_force;
use crate::forces::relaxed;
use crate::geometry::Point;
use crate::geometry::SCALE;
use crate::geometry::dist2;
use crate::geometry::gap;
use crate::geometry::isqrt;
use crate::geometry::lemma_cell_coord_near;
use crate::geometry::lemma_isqrt_unique;
use crate::mesh::MeshView;
use crate::mesh::VertexStatus;
use crate::segments::Segments;

verus! {

/// Every vertex of a well-formed mesh lies in the unit square. Every operation on the
/// mesh, a relaxation step and a tick of the simulation included, leaves it
/// well-formed, so this holds after any number of them.
pub proof fn vertices_stay_in_unit_square(s: Segments, v: int)
    requires
        s.wf(),
        0 <= v < s@.vertices.len(),
    ensures
        s@.vertices[v].pos.in_unit_square(),
{
    s.lemma_wf();
    assert(s@.vertex_ok(v));
}

/// A relaxation step leaves every vertex in the unit square, whatever the forces: a
/// displaced point is in the unit square.
pub proof fn relaxation_stays_in_unit_square(m: MeshView, near_l: u32, far_l: u32, step: u32, v: int)
    requires
        m.wf(),
        0 <= v < m.vertices.len(),
    ensures
        relaxed(m, near_l, far_l, step).vertices[v].pos.in_unit_square(),
{
    assert(m.vertex_ok(v));
}

/// A relaxation step moves vertices and does nothing else: the edges, and the status,
/// the segment and the recorded edges of every vertex, are as before, and the mesh is
/// still well-formed.
pub proof fn relaxation_keeps_topology(m: MeshView, near_l: u32, far_l: u32, step: u32)
    requires
        m.wf(),
    ensures
        relaxed(m, near_l, far_l, step).wf(),
        relaxed(m, near_l, far_l, step).edges == m.edges,
        relaxed(m, near_l, far_l, step).vertices.len() == m.vertices.len(),
        forall|v: int|
            0 <= v < m.vertices.len() ==> (#[trigger] relaxed(m, near_l, far_l, step).vertices[v]).status
                == m.vertices[v].status && relaxed(m, near_l, far_l, step).vertices[v].segment
                == m.vertices[v].segment && relaxed(m, near_l, far_l, step).vertices[v].edges
                == m.vertices[v].edges,
        forall|v: int|
            0 <= v < m.vertices.len() && !m.active(v) ==> (#[trigger] relaxed(
                m,
                near_l,
                far_l,
                step,
            ).vertices[v]).pos == m.vertices[v].pos,
{
    let r = relaxed(m, near_l, far_l, step);
    assert forall|v: int| 0 <= v < r.vertices.len() implies #[trigger] r.vertex_ok(v) by {
        assert(m.vertex_ok(v));
    }
    assert forall|e: int| 0 <= e < r.edges.len() implies #[trigger] r.edge_ok(e) by {
        assert(m.edge_ok(e));
    }
    assert forall|v: int| 0 <= v < m.vertices.len() && !m.active(v) implies (#[trigger] r.vertices[v]).pos
        == m.vertices[v].pos by {
        assert(m.vertex_ok(v));
    }
}

/// A query with a radius of at most one cell width misses no live vertex within the
/// radius: whatever has been added, deleted and moved before, the vertices reported
/// round `v` include every live vertex `u` within `rad` of `v`.
pub proof fn sphere_query_misses_nothing(s: Segments, v: int, u: int, rad: u32)
    requires
        s.wf(),
        0 <= v < s@.vertices.len(),
        s@.live(u),
        rad * s@.nz <= SCALE,
        dist2(s@.vertices[v].pos, s@.vertices[u].pos) <= rad * rad,
    ensures
        s@.near(v, u, rad),
{
    s.lemma_wf();
    let p = s@.vertices[v].pos;
    let q = s@.vertices[u].pos;
    let dx = gap(p.x as int, q.x as int);
    let dy = gap(p.y as int, q.y as int);
    assert(dx * dx == (p.x - q.x) * (p.x - q.x)) by (nonlinear_arith)
        requires
            dx == p.x - q.x || dx == q.x - p.x,
    ;
    assert(dy * dy == (p.y - q.y) * (p.y - q.y)) by (nonlinear_arith)
        requires
            dy == p.y - q.y || dy == q.y - p.y,
    ;
    assert(dx <= rad && dy <= rad) by (nonlinear_arith)
        requires
            dx >= 0,
            dy >= 0,
            dx * dx + dy * dy <= rad * rad,
    ;
    lemma_cell_coord_near(p.x, q.x, rad as nat, s@.nz);
    lemma_cell_coord_near(p.y, q.y, rad as nat, s@.nz);
}

/// No vertex of a well-formed mesh has more than two incident edges. Every operation
/// on the mesh, splits and collapses included, leaves it well-formed, so this holds
/// after any number of them.
pub proof fn degree_at_most_two(s: Segments, v: int)
    requires
        s.wf(),
        0 <= v < s@.vertices.len(),
    ensures
        s@.incident_edges(v).finite(),
        s@.incident_edges(v).len() <= 2,
{
    s.lemma_wf();
    s@.lemma_incident_edges(v);
}

/// Splitting an edge `(a, b)` and then collapsing the half at `a` gives back a mesh of
/// the same shape, in which the new vertex has taken the place of `a`: the numbers of
/// existing edges and of live vertices are as before, `a` is gone, and the two edges
/// that ended in `a`, to `b` and to a vertex `c`, are replaced by edges from `b` and
/// from `c` to the new vertex. This needs `a` to be active and to have a second edge,
/// and room in the mesh for one vertex and three edges.
pub proof fn split_then_collapse(m: MeshView, e: int)
    requires
        m.wf(),
        m.split_error(e) is None,
        m.edges.len() + 3 <= m.n_max,
        m.active(m.edges[e].unwrap().0 as int),
        m.next_edge(e, m.edges[e].unwrap().0) is Some,
    ensures
        ({
            let (a, b) = m.edges[e].unwrap();
            let e2 = m.next_edge(e, a).unwrap() as int;
            let c = m.other_end(e2, a);
            let mid = m.vertices.len() as usize;
            let half = m.edges.len() as int;
            let s1 = m.split(e);
            let s2 = s1.collapse(half);
            &&& s1.wf()
            &&& s1.collapsible(half)
            &&& s2.wf()
            &&& s2.edge_count(s2.edges.len()) == m.edge_count(m.edges.len())
            &&& s2.vertex_count(s2.vertices.len()) == m.vertex_count(m.vertices.len())
            &&& !s2.live(a as int)
            &&& s2.active(mid as int)
            &&& s2.edges.len() == m.edges.len() + 3
            &&& s2.edges[half + 1] == Some((b, mid))
            &&& s2.edges[half + 2] == Some((c, mid))
            &&& !s2.edge_exists(e)
            &&& !s2.edge_exists(e2)
            &&& !s2.edge_exists(half)
            &&& forall|x: int|
                0 <= x < m.edges.len() && x != e && x != e2 ==> #[trigger] s2.edges[x] == m.edges[x]
            &&& forall|v: int|
                0 <= v < m.vertices.len() && v != a ==> #[trigger] s2.live(v) == m.live(v)
        }),
{
    let (a, b) = m.edges[e].unwrap();
    let e2 = m.next_edge(e, a).unwrap() as int;
    let c = m.other_end(e2, a);
    let mid = m.vertices.len() as usize;
    let half = m.edges.len() as int;
    let n = m.edges.len();
    assert(m.edge_ok(e));
    assert(m.vertex_ok(a as int));
    assert(m.vertex_ok(b as int));
    assert(m.touches(e2, a as int));
    assert(m.edge_ok(e2));
    assert(m.vertex_ok(c as int));
    // the split, step by step
    let p = m.edge_midpoint(e);
    let m1 = m.with_vertex(p, VertexStatus::Active, m.vertices[a as int].segment);
    m.lemma_with_vertex(p, VertexStatus::Active, m.vertices[a as int].segment);
    let m2 = m1.without_edge(e);
    m1.lemma_without_edge(e);
    assert(m1.vertex_ok(a as int));
    assert(m1.vertex_ok(b as int));
    let m3 = m2.with_edge(a, mid);
    m2.lemma_with_edge(a, mid);
    let s1 = m3.with_edge(b, mid);
    m3.lemma_with_edge(b, mid);
    assert(s1 == m.split(e));
    assert(s1.edges =~= m.edges.update(e, None).push(Some((a, mid))).push(Some((b, mid))));
    assert(s1.vertices[a as int].edges == (Some(e2 as usize), Some(half as usize)));
    assert(s1.collapsible(half));
    // the collapse, step by step
    let q = s1.edge_midpoint(half);
    assert(s1.vertex_ok(a as int));
    assert(s1.vertex_ok(mid as int));
    let n1 = s1.with_position(mid as int, q);
    s1.lemma_with_position(mid as int, q);
    let n2 = n1.without_edge(half);
    n1.lemma_without_edge(half);
    let n3 = n2.without_edge(e2);
    n2.lemma_without_edge(e2);
    let n4 = n3.with_status(a as int, VertexStatus::Deleted);
    assert(n3.degree(a as int) == 0);
    n3.lemma_without_vertex(a as int);
    assert(n4.degree(mid as int) < 2);
    assert(n4.degree(c as int) < 2);
    assert(n4.live(mid as int));
    assert(n4.live(c as int));
    let s2 = n4.with_edge(c, mid);
    n4.lemma_with_edge(c, mid);
    assert(s2 == s1.collapse(half));
    assert(s2.edges =~= s1.edges.update(half, None).update(e2, None).push(Some((c, mid))));
    // the counts
    m.lemma_edge_count_less(s1, n, e);
    s1.lemma_edge_count_less(s2, n, e2);
    assert(s2.edge_count((n + 1) as nat) == s2.edge_count(n));
    assert(s2.edge_count((n + 2) as nat) == s2.edge_count((n + 1) as nat) + 1);
    assert(s2.edge_count((n + 3) as nat) == s2.edge_count((n + 2) as nat) + 1);
    let k = m.vertices.len();
    assert forall|v: int| 0 <= v < k && v != a implies #[trigger] s2.live(v) == m.live(v) by {
        assert(s2.vertices[v].status == m.vertices[v].status);
    }
    m.lemma_vertex_count_less(s2, k, a as int);
    assert(s2.vertex_count((k + 1) as nat) == s2.vertex_count(k) + 1);
}

/// Two unlinked vertices exactly `far_l` apart exert no force on each other.
pub proof fn repulsion_vanishes_at_far(p: Point, q: Point, near_l: u32, far_l: u32, step: u32)
    requires
        dist2(p, q) == far_l * far_l,
    ensures
        pair_force(p, q, false, near_l, far_l, step) == (0int, 0int),
{
    let d2 = dist2(p, q);
    if d2 > 0 {
        assert(far_l * far_l < (far_l + 1) * (far_l + 1)) by (nonlinear_arith);
        lemma_isqrt_unique(d2 as nat, far_l as nat);
        let d = isqrt(d2 as nat);
        assert(d == far_l);
        assert(d > 0) by (nonlinear_arith)
            requires
                d * d == d2,
                d2 > 0,
                d >= 0,
        ;
        let den = d * SCALE;
        assert(den > 0 && 0int / den == 0) by (nonlinear_arith)
            requires
                den == d * SCALE,
                d > 0,
                SCALE > 0,
        ;
        lemma_no_room(step, p.x - q.x, far_l - d);
        lemma_no_room(step, q.x - p.x, far_l - d);
        lemma_no_room(step, p.y - q.y, far_l - d);
        lemma_no_room(step, q.y - p.y, far_l - d);
    }
}

/// A push without room left is no push.
proof fn lemma_no_room(step: u32, delta: int, room: int)
    requires
        room == 0,
    ensures
        step * delta * room == 0,
        step * (-delta) * room == 0,
{
    assert(step * delta * room == 0 && step * (-delta) * room == 0) by (nonlinear_arith)
        requires
            room == 0,
    ;
}

/// Two unlinked vertices exactly `far_l / 2` apart push each other with the force
/// `step / SCALE` times their offset, each component rounded toward zero: a force of
/// the size `step / SCALE * far_l / 2`.
pub proof fn repulsion_at_half_far(p: Point, q: Point, near_l: u32, far_l: u32, step: u32)
    requires
        4 * dist2(p, q) == far_l * far_l,
        dist2(p, q) > 0,
    ensures
        pair_force(p, q, false, near_l, far_l, step).0 == if p.x >= q.x {
            (step * (p.x - q.x)) / (SCALE as int)
        } else {
            -((step * (q.x - p.x)) / (SCALE as int))
        },
        pair_force(p, q, false, near_l, far_l, step).1 == if p.y >= q.y {
            (step * (p.y - q.y)) / (SCALE as int)
        } else {
            -((step * (q.y - p.y)) / (SCALE as int))
        },
{
    let d2 = dist2(p, q);
    let h = far_l / 2;
    let r = far_l % 2;
    let hh = h * h;
    assert(far_l * far_l == 4 * hh + 4 * h * r + r * r) by (nonlinear_arith)
        requires
            far_l == 2 * h + r,
            hh == h * h,
    ;
    if r == 1 {
        assert(4 * h * r == 4 * h);
        assert(r * r == 1);
        assert(4 * d2 == 4 * hh + 4 * h + 1);
        assert(false);
    }
    assert(r * r == 0 && 4 * h * r == 0) by (nonlinear_arith)
        requires
            r == 0,
    ;
    assert(far_l == 2 * h && h * h == d2);
    assert(h > 0) by (nonlinear_arith)
        requires
            h * h == d2,
            d2 > 0,
            h >= 0,
    ;
    assert(h * h < (h + 1) * (h + 1)) by (nonlinear_arith)
        requires
            h >= 0,
    ;
    lemma_isqrt_unique(d2 as nat, h as nat);
    let d = isqrt(d2 as nat);
    assert(d == h);
    assert(d2 <= far_l * far_l);
    let ax = gap(p.x as int, q.x as int);
    let ay = gap(p.y as int, q.y as int);
    lemma_half_push(step, ax, d as int);
    lemma_half_push(step, ay, d as int);
}

/// A push at half the far distance: the distance cancels.
proof fn lemma_half_push(step: u32, a: int, d: int)
    requires
        a >= 0,
        d > 0,
    ensures
        (step * a * d) / (d * SCALE) == (step * a) / (SCALE as int),
{
    let n = step * a;
    vstd::arithmetic::div_mod::lemma_div_multiples_vanish_quotient(d, n, SCALE as int);
    assert(n * d == d * n) by (nonlinear_arith);
}

/// A list of distinct numbers below `bound` is no longer than `bound`.
proof fn lemma_distinct_below(ids: Seq<usize>, bound: nat)
    requires
        ids.no_duplicates(),
        forall|k: int| 0 <= k < ids.len() ==> (#[trigger] ids[k]) < bound,
    ensures
        ids.len() <= bound,
    decreases bound,
{
    if bound == 0 {
        if ids.len() > 0 {
            assert(ids[0] < 0);
        }
    } else if exists|k: int| 0 <= k < ids.len() && ids[k] == bound - 1 {
        let k = choose|k: int| 0 <= k < ids.len() && ids[k] == bound - 1;
        let rest = ids.remove(k);
        assert forall|j: int| 0 <= j < rest.len() implies (#[trigger] rest[j]) < bound - 1 by {
            let i = if j < k { j } else { j + 1 };
            assert(rest[j] == ids[i]);
            assert(ids[i] < bound);
            assert(ids[i] != ids[k]);
        }
        assert forall|i: int, j: int| 0 <= i < rest.len() && 0 <= j < rest.len() && i != j implies rest[i]
            != rest[j] by {
            let si = if i < k { i } else { i + 1 };
            let sj = if j < k { j } else { j + 1 };
            assert(rest[i] == ids[si] && rest[j] == ids[sj]);
        }
        lemma_distinct_below(rest, (bound - 1) as nat);
    } else {
        assert forall|k: int| 0 <= k < ids.len() implies (#[trigger] ids[k]) < bound - 1 by {
            assert(ids[k] < bound);
        }
        lemma_distinct_below(ids, (bound - 1) as nat);
    }
}

/// The vertices `ring` form a closed loop in the mesh `m`, held together by the edges
/// `links`: the vertices are distinct, the edges are distinct, edge `i` joins vertex
/// `i` to the next one, and the last edge leads from the last vertex to the first.
pub open spec fn closed_loop(m: MeshView, ring: Seq<usize>, links: Seq<usize>) -> bool {
    &&& ring.len() >= 2
    &&& links.len() == ring.len()
    &&& ring.no_duplicates()
    &&& links.no_duplicates()
    &&& forall|i: int|
        #![trigger links[i]]
        0 <= i < ring.len() - 1 ==> m.touches(links[i] as int, ring[i] as int) && m.touches(
            links[i] as int,
            ring[i + 1] as int,
        )
    &&& links.last() < m.edges.len()
    &&& m.edges[links.last() as int] == Some((ring.last(), ring[0]))
}

/// On a closed loop, the walk that has arrived at vertex `k` of the loop by the edge
/// before it goes on through the rest of the loop, vertex by vertex, to the last one.
proof fn lemma_walk_along_loop(m: MeshView, ring: Seq<usize>, links: Seq<usize>, k: int, fuel: nat)
    requires
        m.wf(),
        closed_loop(m, ring, links),
        0 <= k < ring.len(),
        fuel >= ring.len() - 1 - k,
    ensures
        m.walk(
            ring.last(),
            ring[k],
            if k == 0 {
                links.last()
            } else {
                links[k - 1]
            },
            fuel,
        ) == ring.subrange(k + 1, ring.len() as int),
    decreases ring.len() - k,
{
    let n = ring.len() as int;
    let v_end = ring.last();
    let v = ring[k];
    let came_by = if k == 0 {
        links.last()
    } else {
        links[k - 1]
    };
    let found = m.walk(v_end, v, came_by, fuel);
    if k == n - 1 {
        assert(found =~= ring.subrange(k + 1, n));
    } else {
        assert(v != v_end);
        let leave_by = links[k];
        assert(m.touches(leave_by as int, v as int) && m.touches(leave_by as int, ring[k + 1] as int));
        assert(m.touches(came_by as int, v as int)) by {
            if k > 0 {
                assert(m.touches(links[k - 1] as int, ring[k - 1] as int) && m.touches(
                    links[k - 1] as int,
                    ring[k - 1 + 1] as int,
                ));
            }
        }
        assert(came_by != leave_by);
        assert(m.edge_ok(came_by as int));
        assert(m.edge_ok(leave_by as int));
        assert(m.vertex_ok(v as int));
        assert(m.next_edge(came_by as int, v) == Some(leave_by));
        assert(ring[k + 1] != v);
        assert(m.other_end(leave_by as int, v) == ring[k + 1]);
        lemma_walk_along_loop(m, ring, links, k + 1, (fuel - 1) as nat);
        assert(found =~= ring.subrange(k + 1, n));
    }
}

/// On a mesh that is one closed loop, the sorted vertices are the loop in its order,
/// every vertex once. Let the loop be given so that its last edge, from the last
/// vertex to the first, is the existing edge with the greatest id; then the sorted
/// vertices are the loop as given: each is joined to the next by an edge of the loop,
/// and the last to the first.
pub proof fn walk_round_closed_loop(m: MeshView, ring: Seq<usize>, links: Seq<usize>)
    requires
        m.wf(),
        closed_loop(m, ring, links),
        m.last_edge(m.edges.len()) == Some(links.last()),
    ensures
        m.sorted_vertices() == ring,
        m.sorted_vertices().len() == ring.len(),
        m.sorted_vertices().no_duplicates(),
        forall|i: int|
            #![trigger links[i]]
            0 <= i < ring.len() - 1 ==> m.touches(links[i] as int, m.sorted_vertices()[i] as int)
                && m.touches(links[i] as int, m.sorted_vertices()[i + 1] as int),
        m.touches(links.last() as int, m.sorted_vertices().last() as int),
        m.touches(links.last() as int, m.sorted_vertices()[0] as int),
{
    assert forall|k: int| 0 <= k < links.len() implies (#[trigger] links[k]) < m.edges.len() by {
        if k < ring.len() - 1 {
            assert(m.touches(links[k] as int, ring[k] as int));
        }
    }
    lemma_distinct_below(links, m.edges.len());
    lemma_walk_along_loop(m, ring, links, 0, m.edges.len());
    assert(seq![ring[0]] + ring.subrange(1, ring.len() as int) =~= ring);
}

/// A visit of the first `n` edges that splits the long ones looks at the mesh as it
/// was on entry. Every edge of the entry mesh is either as before or was long and is
/// deleted; the edges that the visit has not reached, and the position, status and
/// segment of every vertex of the entry mesh, are as before; the halves that the visit
/// has made exist, so none of them was split in the same visit. With `k` splits the
/// mesh has `k` more live vertices and `k` more existing edges. Where the mesh had
/// room throughout, every long edge whose first endpoint belongs to a segment is
/// split.
pub proof fn split_long_splits_what_is_long(m: MeshView, limit: u32, n: nat)
    requires
        m.wf(),
        n <= m.edges.len(),
    ensures
        ({
            let r = m.split_long(limit, n);
            let k = r.vertices.len() - m.vertices.len();
            &&& r.wf()
            &&& k >= 0
            &&& r.edges.len() == m.edges.len() + 2 * k
            &&& r.vertex_count(r.vertices.len()) == m.vertex_count(m.vertices.len()) + k
            &&& r.edge_count(r.edges.len()) == m.edge_count(m.edges.len()) + k
            &&& forall|v: int|
                0 <= v < m.vertices.len() ==> (#[trigger] r.vertices[v]).pos == m.vertices[v].pos
                    && r.vertices[v].status == m.vertices[v].status && r.vertices[v].segment
                    == m.vertices[v].segment
            &&& forall|e: int| n <= e < m.edges.len() ==> #[trigger] r.edges[e] == m.edges[e]
            &&& forall|e: int|
                0 <= e < n ==> (#[trigger] r.edges[e]) == m.edges[e] || (m.long_edge(e, limit)
                    && r.edges[e] is None)
            &&& forall|e: int| m.edges.len() <= e < r.edges.len() ==> #[trigger] r.edge_exists(e)
            &&& !m.split_long_starved(limit, n) ==> forall|e: int|
                0 <= e < n && m.long_edge(e, limit) && m.vertices[m.edges[e].unwrap().0 as int].segment is Some
                    ==> (#[trigger] r.edges[e]) is None
        }),
    decreases n,
{
    if n > 0 {
        let e = n - 1;
        let p = m.split_long(limit, e as nat);
        let r = m.split_long(limit, n);
        split_long_splits_what_is_long(m, limit, e as nat);
        assert(p.edges[e] == m.edges[e]);
        if m.edges[e] is Some {
            assert(m.edge_ok(e));
            let (a, b) = m.edges[e].unwrap();
            assert(p.vertices[a as int].pos == m.vertices[a as int].pos);
            assert(p.vertices[b as int].pos == m.vertices[b as int].pos);
            assert(p.vertices[a as int].status == m.vertices[a as int].status);
            assert(p.vertices[b as int].status == m.vertices[b as int].status);
            assert(p.vertices[a as int].segment == m.vertices[a as int].segment);
        }
        assert(p.long_edge(e, limit) == m.long_edge(e, limit));
        if p.long_edge(e, limit) && p.split_error(e) is None {
            p.lemma_split(e);
            assert(r == p.split(e));
            assert forall|x: int| m.edges.len() <= x < r.edges.len() implies #[trigger] r.edge_exists(
                x,
            ) by {
                if x < p.edges.len() {
                    assert(p.edge_exists(x));
                }
            }
            assert forall|x: int| 0 <= x < n implies (#[trigger] r.edges[x]) == m.edges[x] || (
            m.long_edge(x, limit) && r.edges[x] is None) by {
                if x < e {
                    assert(p.edges[x] == m.edges[x] || (m.long_edge(x, limit) && p.edges[x] is None));
                }
            }
            assert forall|v: int| 0 <= v < m.vertices.len() implies (#[trigger] r.vertices[v]).pos
                == m.vertices[v].pos && r.vertices[v].status == m.vertices[v].status
                && r.vertices[v].segment == m.vertices[v].segment by {
                assert(p.vertices[v].pos == m.vertices[v].pos);
            }
            assert forall|x: int| n <= x < m.edges.len() implies #[trigger] r.edges[x] == m.edges[x] by {
                assert(p.edges[x] == m.edges[x]);
            }
        } else {
            assert(r == p);
        }
        if !m.split_long_starved(limit, n) {
            assert forall|x: int|
                0 <= x < n && m.long_edge(x, limit) && m.vertices[m.edges[x].unwrap().0 as int].segment is Some implies (
            #[trigger] r.edges[x]) is None by {
                if x < e {
                    assert(p.edges[x] is None);
                }
            }
        }
    }
}

} // verus!
