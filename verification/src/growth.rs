//! The driver of the simulation: relax, grow, and see whether the mesh is still safely
//! inside the unit square.

use vstd::prelude::*;
use crate::differential_line::DifferentialLine;
use crate::differential_line::lcg_draw;
use crate::differential_line::lcg_next;
use crate::forces::relaxed;
use crate::geometry::SCALE;
use crate::mesh::MeshError;
use crate::mesh::MeshView;

verus! {

/// A thousandth of the side of the unit square.
pub const ONE: u32 = SCALE / 1000;

/// Room for vertices and for edges in a mesh of the usual size.
pub const N_MAX: usize = 1_000_000;

/// Closest comfortable distance between linked vertices, and the length from which an
/// edge may be split.
pub const NEAR_L: u32 = 2 * ONE;

/// Distance beyond which unlinked vertices ignore each other.
pub const FAR_L: u32 = 40 * ONE;

/// Length of the step of a pulled vertex, and factor of the pushes.
pub const STEP: u32 = 2 * ONE / 5;

/// Chance, in units of `1 / SCALE`, that an edge long enough is split in one step.
pub const SPAWN_LIMIT: u32 = SCALE / 1000;

/// The mesh and the state of the random number generator after the edges below `n`
/// have been visited in increasing order. For each edge a number is drawn; where the
/// number is below `limit` and the edge exists and is at least `near_l` long, the edge
/// is split, as far as the mesh has room.
pub open spec fn grown(m: MeshView, seed: u64, near_l: u32, limit: u32, n: nat) -> (MeshView, u64)
    decreases n,
{
    if n == 0 {
        (m, seed)
    } else {
        let (m1, s1) = grown(m, seed, near_l, limit, (n - 1) as nat);
        let s2 = lcg_next(s1);
        if lcg_draw(s2) < limit && m1.edge_exists(n - 1) && m1.edge_length2(n - 1) >= near_l * near_l
            && m1.split_error(n - 1) is None {
            (m1.split(n - 1), s2)
        } else {
            (m1, s2)
        }
    }
}

/// Whether, in that visit of the edges below `n`, some edge that was to be split stayed
/// unsplit because the mesh had no room for it.
pub open spec fn growth_starved(m: MeshView, seed: u64, near_l: u32, limit: u32, n: nat) -> bool
    decreases n,
{
    if n == 0 {
        false
    } else {
        let (m1, s1) = grown(m, seed, near_l, limit, (n - 1) as nat);
        growth_starved(m, seed, near_l, limit, (n - 1) as nat) || (lcg_draw(lcg_next(s1)) < limit
            && m1.edge_exists(n - 1) && m1.edge_length2(n - 1) >= near_l * near_l && m1.split_error(n - 1)
            == Some(MeshError::CapacityExceeded))
    }
}

/// The margin that a mesh must keep from the border after a relaxation step of
/// length `len`: three steps, or the greatest length there is.
pub open spec fn margin(len: u32) -> u32 {
    if 3 * len > u32::MAX {
        u32::MAX
    } else {
        (3 * len) as u32
    }
}

/// Grows the mesh: visits the edges that exist at the time of the call, in increasing
/// order, and splits each one that is at least `near_l` long with the chance `limit /
/// SCALE`. An edge that does not exist, or whose first endpoint has no segment, is
/// passed over. An edge for which the mesh has no room left stays as it is, the visit
/// goes on, and the call reports in the end that the mesh was full.
pub fn spawn(df: &mut DifferentialLine, near_l: u32, limit: u32) -> (r: Result<(), MeshError>)
    requires
        old(df).mesh().wf(),
    ensures
        final(df).mesh().wf(),
        (final(df).mesh()@, final(df).seed()) == grown(
            old(df).mesh()@,
            old(df).seed(),
            near_l,
            limit,
            old(df).mesh()@.edges.len(),
        ),
        r == if growth_starved(
            old(df).mesh()@,
            old(df).seed(),
            near_l,
            limit,
            old(df).mesh()@.edges.len(),
        ) {
            Err::<(), MeshError>(MeshError::CapacityExceeded)
        } else {
            Ok::<(), MeshError>(())
        },
        final(df).near() == old(df).near(),
        final(df).far() == old(df).far(),
{
    let e_num = df.segments().e_num();
    let ghost m0 = df.mesh()@;
    let ghost s0 = df.seed();
    let mut starved = false;
    let mut e: usize = 0;
    while e < e_num
        invariant
            df.mesh().wf(),
            e <= e_num,
            e_num <= df.mesh()@.edges.len(),
            (df.mesh()@, df.seed()) == grown(m0, s0, near_l, limit, e as nat),
            starved == growth_starved(m0, s0, near_l, limit, e as nat),
            df.near() == old(df).near(),
            df.far() == old(df).far(),
        decreases e_num - e,
    {
        let ghost before = df.mesh()@;
        let x = df.draw();
        if x < limit {
            if df.segments().edge_exists(e) {
                let l2 = df.segments().get_edge_length2(e);
                assert(near_l * near_l <= 0xffff_ffff * 0xffff_ffff) by (nonlinear_arith)
                    requires
                        near_l <= 0xffff_ffff,
                ;
                if l2 >= near_l as u64 * near_l as u64 {
                    proof {
                        df.mesh().lemma_wf();
                        if before.split_error(e as int) is None {
                            before.lemma_split(e as int);
                        }
                    }
                    match df.segments_mut().split_edge_no_min(e) {
                        Err(MeshError::CapacityExceeded) => {
                            starved = true;
                        },
                        _ => {},
                    }
                }
            }
        }
        e += 1;
    }
    if starved {
        Err(MeshError::CapacityExceeded)
    } else {
        Ok(())
    }
}

/// One tick of the simulation with a step of one's own: a relaxation step of length
/// `len`, then growth of the edges that are at least as long as the near distance of
/// the solver, then the safety check. Returns whether every live vertex still keeps
/// three steps away from the border of the unit square; if not, the simulation is to
/// stop. Where growth found the mesh full, the tick is carried out all the same and
/// the call reports the full mesh instead.
pub fn step(df: &mut DifferentialLine, len: u32) -> (r: Result<bool, MeshError>)
    requires
        old(df).mesh().wf(),
    ensures
        final(df).mesh().wf(),
        (final(df).mesh()@, final(df).seed()) == grown(
            relaxed(old(df).mesh()@, old(df).near(), old(df).far(), len),
            old(df).seed(),
            old(df).near(),
            SPAWN_LIMIT,
            old(df).mesh()@.edges.len(),
        ),
        r == if growth_starved(
            relaxed(old(df).mesh()@, old(df).near(), old(df).far(), len),
            old(df).seed(),
            old(df).near(),
            SPAWN_LIMIT,
            old(df).mesh()@.edges.len(),
        ) {
            Err::<bool, MeshError>(MeshError::CapacityExceeded)
        } else {
            Ok::<bool, MeshError>(final(df).mesh()@.safe(margin(len)))
        },
        final(df).near() == old(df).near(),
        final(df).far() == old(df).far(),
{
    df.optimize_position(len);
    let near_l = df.near_l();
    let grown = spawn(df, near_l, SPAWN_LIMIT);
    let limit: u32 = if len > u32::MAX / 3 { u32::MAX } else { 3 * len };
    let safe = df.segments().safe_vertex_positions(limit);
    match grown {
        Ok(()) => Ok(safe),
        Err(e) => Err(e),
    }
}

/// One tick of the simulation: a relaxation step of length `STEP`, then growth of the
/// edges that are at least `NEAR_L` long, then the safety check. Returns whether every
/// live vertex still keeps three steps away from the border of the unit square; if
/// not, the simulation is to stop. Where growth found the mesh full, the tick is
/// carried out all the same and the call reports the full mesh instead.
pub fn steps(df: &mut DifferentialLine) -> (r: Result<bool, MeshError>)
    requires
        old(df).mesh().wf(),
    ensures
        final(df).mesh().wf(),
        (final(df).mesh()@, final(df).seed()) == grown(
            relaxed(old(df).mesh()@, old(df).near(), old(df).far(), STEP),
            old(df).seed(),
            NEAR_L,
            SPAWN_LIMIT,
            old(df).mesh()@.edges.len(),
        ),
        r == if growth_starved(
            relaxed(old(df).mesh()@, old(df).near(), old(df).far(), STEP),
            old(df).seed(),
            NEAR_L,
            SPAWN_LIMIT,
            old(df).mesh()@.edges.len(),
        ) {
            Err::<bool, MeshError>(MeshError::CapacityExceeded)
        } else {
            Ok::<bool, MeshError>(final(df).mesh()@.safe((3 * STEP) as u32))
        },
        final(df).near() == old(df).near(),
        final(df).far() == old(df).far(),
{
    df.optimize_position(STEP);
    let grown = spawn(df, NEAR_L, SPAWN_LIMIT);
    let safe = df.segments().safe_vertex_positions(3 * STEP);
    match grown {
        Ok(()) => Ok(safe),
        Err(e) => Err(e),
    }
}

} // verus!
