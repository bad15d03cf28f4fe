use vstd::prelude::*;

pub mod body;
pub mod collider;
pub mod depth;
pub mod device;
pub mod dirty;
pub mod edit;
pub mod epa;
pub mod geometry;
pub mod gpu_timer;
pub mod gizmo;
pub mod narrowphase;
pub mod pass;
pub mod persist;
pub mod raymarch;
pub mod shader;
pub mod shader_db;
pub mod solve;
pub mod triangle_raster;
pub mod world;

verus! {

} // verus!
