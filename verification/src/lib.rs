//! Differential growth of planar curves in the unit square.
//!
//! A curve is a chain or a loop of vertices joined by edges. In every step each active
//! vertex is pulled toward its linked neighbours where they are too far, and pushed
//! away from the unlinked vertices nearby; edges that have grown long are split by a
//! new vertex. The curve folds and fills the plane.
//!
//! All coordinates and lengths are whole numbers of `1 / SCALE` of the side of the
//! unit square, so that every computation is exact and every function is proved
//! against its contract.
//!
//! - [`geometry`]: points, distances and the cells of the grid.
//! - [`zone_map`]: the grid that files vertices by cell and finds the vertices near a
//!   vertex.
//! - [`mesh`]: the mesh as a mathematical value, which the contracts speak of.
//! - [`segments`]: the mesh in storage of fixed capacity, with its edits and queries.
//! - [`forces`]: the forces between vertices and the displacement they add up to.
//! - [`differential_line`]: the solver, which relaxes the mesh step by step.
//! - [`growth`]: one tick of the simulation: relax, grow, check the border.
//! - [`laws`]: what holds across functions.

pub mod differential_line;
pub mod forces;
pub mod geometry;
pub mod growth;
pub mod laws;
pub mod mesh;
pub mod segments;
pub mod zone_map;
