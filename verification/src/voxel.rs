//! Voxel containers and the coordinate arithmetic they share.

pub mod subdivmath;
pub mod subdivmodel;
pub mod subdivstorage;
pub mod subdivtraversal;
pub mod voxelarray;
pub mod voxelstorage;
