//! Sparse voxel octree storage with level-of-detail aware reads.
//!
//! A tree spans a cube of `2^scale` voxels per axis and stores it as leaves
//! of uniform value: a leaf may stand for a single voxel or for a whole
//! octant. Writes address a cube at any level, subdivide leaves on the way
//! down and merge uniform branches on the way back; reads stop at the first
//! leaf they meet.
//!
//! - [`voxel::subdivmath`]: positions at a level of detail and their paths
//!   of octant selectors.
//! - [`voxel::subdivmodel`]: the mathematical model of nodes and trees, and
//!   the laws of reads and writes.
//! - [`voxel::subdivstorage`]: the nodes and the tree.
//! - [`voxel::subdivtraversal`]: the listing of every leaf with its cube.
//! - [`voxel::voxelstorage`], [`voxel::voxelarray`]: the flat view that the
//!   tree shares with a dense grid.
//! - [`world`]: chunks and the generators that fill them.
//!
//! Every executable operation is specified against the model, and the laws
//! that tie the operations together are proof functions next to it.

pub mod voxel;
pub mod world;
