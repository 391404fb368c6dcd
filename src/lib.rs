//! Bookkeeping core of a rigid and deformable body physics engine.
//!
//! - `body`: body status and the degrees of freedom the solver sees, the
//!   lazy-update flags, per-axis locks of rigid bodies, and the filters that
//!   decide which collider pairs and contact manifolds reach the solver.
//! - `fem_mesh`: connectivity of tetrahedral finite-element volumes: the
//!   subdivided box, kinematic nodes, boundary extraction, the boundary
//!   triangle mesh and node renumbering.
//! - `fem_helper`: element node lists and the masking of kinematic nodes in
//!   constraint Jacobians.
//! - `assembly`: layout of bodies in the global velocity vector and of
//!   constraint rows in the flat Jacobian buffer.
//! - `registry`: which bodies, colliders and joint constraints a world holds,
//!   and the cleanup and wake-ups that follow the removal of bodies.
//! - `slab_store`: the slab that holds joint constraints.

pub mod assembly;
pub mod body;
pub mod fem_helper;
pub mod fem_mesh;
pub mod registry;
pub mod slab_store;
