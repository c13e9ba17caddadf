//! Generators that fill the octree of a chunk by addressed writes at the
//! finest level.

use crate::voxel::subdivmath::opos;
use crate::voxel::subdivstorage::NaiveVoxelOctree;
use crate::world::{CHUNK_SCALE, CHUNK_SIZE};
use vstd::arithmetic::power2::lemma2_to64;
use vstd::prelude::*;

verus! {

/// Something that can produce the content of the chunk at a chunk
/// coordinate. The tree is handed over by value.
pub trait ChunkGenerator {
    /// Generates the chunk at `pos`: a valid tree of the chunk scale.
    fn generate(&self, pos: (i32, i32, i32)) -> (tree: NaiveVoxelOctree<u8>)
        ensures
            tree@.wf(),
            tree@.scale == CHUNK_SCALE,
    ;
}

/// The radius of the generated sphere, in voxels.
pub const SPHERE_RADIUS: u32 = 15;

/// The block that an empty voxel holds.
pub const AIR: u8 = 0;

/// The block that the sphere is made of.
pub const STONE: u8 = 1;

/// Whether the voxel `(x, y, z)` of a chunk lies strictly within
/// `SPHERE_RADIUS` of the chunk's far corner, the centre of the sphere.
pub open spec fn in_sphere(x: int, y: int, z: int) -> bool {
    let (dx, dy, dz) = (CHUNK_SIZE - x, CHUNK_SIZE - y, CHUNK_SIZE - z);
    dx * dx + dy * dy + dz * dz < SPHERE_RADIUS * SPHERE_RADIUS
}

/// Whether `(a, b, c)` comes before `(x, y, z)` in the order in which a
/// chunk is filled: by x, then y, then z.
pub open spec fn filled_before(a: int, b: int, c: int, x: int, y: int, z: int) -> bool {
    a < x || (a == x && (b < y || (b == y && c < z)))
}

/// Fills every chunk with the same solid sphere.
#[derive(Debug)]
pub struct SphereGenerator {
    seed: u32,
}

impl View for SphereGenerator {
    type V = u32;

    /// The seed the generator was made with.
    closed spec fn view(&self) -> u32 {
        self.seed
    }
}

impl SphereGenerator {
    /// A generator with the given seed.
    pub fn new(seed: u32) -> (generator: Self)
        ensures
            generator@ == seed,
    {
        Self { seed }
    }

    /// The seed the generator was made with.
    pub fn seed(&self) -> (seed: u32)
        ensures
            seed == self@,
    {
        self.seed
    }

    /// The distance along one axis between the coordinate `c` and the
    /// centre of the sphere.
    fn distance_to_centre(c: u32) -> (d: u32)
        ensures
            d == CHUNK_SIZE - c || d == c - CHUNK_SIZE,
            d >= 0,
    {
        if c <= CHUNK_SIZE {
            CHUNK_SIZE - c
        } else {
            c - CHUNK_SIZE
        }
    }

    /// Whether the voxel `(x, y, z)` belongs to the sphere.
    pub fn contains(x: u32, y: u32, z: u32) -> (inside: bool)
        ensures
            inside == in_sphere(x as int, y as int, z as int),
    {
        let dx: u32 = Self::distance_to_centre(x);
        let dy: u32 = Self::distance_to_centre(y);
        let dz: u32 = Self::distance_to_centre(z);
        proof {
            let (ex, ey, ez) = (CHUNK_SIZE - x, CHUNK_SIZE - y, CHUNK_SIZE - z);
            assert(ex * ex == dx * dx && ey * ey == dy * dy && ez * ez == dz * dz)
                by (nonlinear_arith)
                requires
                    ex == dx || ex == -dx,
                    ey == dy || ey == -dy,
                    ez == dz || ez == -dz,
            ;
            assert(0 <= dx * dx && 0 <= dy * dy && 0 <= dz * dz) by (nonlinear_arith);
        }
        if dx >= SPHERE_RADIUS || dy >= SPHERE_RADIUS || dz >= SPHERE_RADIUS {
            proof {
                assert(dx >= 15 ==> dx * dx >= 225) by (nonlinear_arith);
                assert(dy >= 15 ==> dy * dy >= 225) by (nonlinear_arith);
                assert(dz >= 15 ==> dz * dz >= 225) by (nonlinear_arith);
            }
            false
        } else {
            assert(dx * dx <= 196 && dy * dy <= 196 && dz * dz <= 196) by (nonlinear_arith)
                requires
                    dx < 15,
                    dy < 15,
                    dz < 15,
            ;
            dx * dx + dy * dy + dz * dz < SPHERE_RADIUS * SPHERE_RADIUS
        }
    }
}

impl ChunkGenerator for SphereGenerator {
    /// Generates the sphere: every voxel inside it is `STONE`, every other
    /// voxel of the chunk is `AIR`, whatever the chunk coordinate.
    fn generate(&self, pos: (i32, i32, i32)) -> (tree: NaiveVoxelOctree<u8>)
        ensures
            forall|x: int, y: int, z: int|
                tree@.contains(x, y, z) ==> #[trigger] tree@.voxel(x, y, z) == if in_sphere(
                    x,
                    y,
                    z,
                ) {
                    STONE
                } else {
                    AIR
                },
    {
        let mut tree = NaiveVoxelOctree::new(AIR, CHUNK_SCALE);
        let mut x: u32 = 0;
        while x < CHUNK_SIZE
            invariant
                x <= CHUNK_SIZE,
                tree@.wf(),
                tree@.scale == CHUNK_SCALE,
                forall|a: int, b: int, c: int|
                    tree@.contains(a, b, c) ==> #[trigger] tree@.voxel(a, b, c) == if filled_before(
                        a,
                        b,
                        c,
                        x as int,
                        0,
                        0,
                    ) && in_sphere(a, b, c) {
                        STONE
                    } else {
                        AIR
                    },
            decreases CHUNK_SIZE - x,
        {
            let mut y: u32 = 0;
            while y < CHUNK_SIZE
                invariant
                    x < CHUNK_SIZE,
                    y <= CHUNK_SIZE,
                    tree@.wf(),
                    tree@.scale == CHUNK_SCALE,
                    forall|a: int, b: int, c: int|
                        tree@.contains(a, b, c) ==> #[trigger] tree@.voxel(a, b, c)
                            == if filled_before(a, b, c, x as int, y as int, 0) && in_sphere(
                            a,
                            b,
                            c,
                        ) {
                            STONE
                        } else {
                            AIR
                        },
                decreases CHUNK_SIZE - y,
            {
                let mut z: u32 = 0;
                while z < CHUNK_SIZE
                    invariant
                        x < CHUNK_SIZE,
                        y < CHUNK_SIZE,
                        z <= CHUNK_SIZE,
                        tree@.wf(),
                        tree@.scale == CHUNK_SCALE,
                        forall|a: int, b: int, c: int|
                            tree@.contains(a, b, c) ==> #[trigger] tree@.voxel(a, b, c)
                                == if filled_before(a, b, c, x as int, y as int, z as int)
                                && in_sphere(a, b, c) {
                                STONE
                            } else {
                                AIR
                            },
                    decreases CHUNK_SIZE - z,
                {
                    if Self::contains(x, y, z) {
                        let target = opos(x, y, z, 0);
                        proof {
                            lemma2_to64();
                            target.lemma_finest_level();
                        }
                        tree.set(target, STONE).unwrap();
                    }
                    z = z + 1;
                }
                proof {
                    lemma2_to64();
                }
                y = y + 1;
            }
            proof {
                lemma2_to64();
            }
            x = x + 1;
        }
        proof {
            lemma2_to64();
        }
        tree
    }
}

} // verus!
