//! A voxel world stored in a sparse octree of leaves addressed by index,
//! together with the integer logic that builds and queries it.
use vstd::prelude::*;

pub mod controls;
pub mod light;
pub mod octree;
pub mod render;
pub mod scene;
pub mod vox;
pub mod world;

verus! {

} // verus!
