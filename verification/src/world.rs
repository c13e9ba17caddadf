//! The world as a grid of chunks, each stored in one octree.

pub mod generators;

use crate::voxel::subdivmath::Scale;
use vstd::prelude::*;

verus! {

/// The scale of the octree that holds one chunk.
pub const CHUNK_SCALE: Scale = 6;

/// The number of voxels along each edge of a chunk: `2^CHUNK_SCALE`.
pub const CHUNK_SIZE: u32 = 64;

} // verus!
