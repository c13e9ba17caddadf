//! A flat, position-addressed view of a voxel container, at the finest
//! level of detail, that sparse and dense storages share.

use crate::voxel::subdivmath::{opos, Scale};
use crate::voxel::subdivmodel::OctreeView;
use crate::voxel::subdivstorage::NaiveVoxelOctree;
use vstd::arithmetic::power2::{lemma2_to64, lemma_pow2_unfold, pow2};
use vstd::laws_eq::obeys_concrete_eq;
use vstd::prelude::*;

verus! {

/// A position or a size with one component per axis.
#[derive(Debug, PartialEq, Eq)]
pub struct Coord3<P> {
    pub x: P,
    pub y: P,
    pub z: P,
}

/// A three-dimensional grid of cells of type `T`, addressed by positions of
/// type `P`.
pub trait VoxelStorage<T, P> {
    /// The integer that a position component stands for.
    spec fn coordinate(p: P) -> int;

    /// Validity of the storage.
    spec fn valid(&self) -> bool;

    /// Whether the storage has a cell at `(x, y, z)`.
    spec fn has_cell(&self, x: P, y: P, z: P) -> bool;

    /// The content of the cell at `(x, y, z)`.
    spec fn cell(&self, x: P, y: P, z: P) -> T;

    /// Whether the storage can be initialised to the given size.
    spec fn admits(size_x: P, size_y: P, size_z: P) -> bool;

    /// Reads the cell at `(x, y, z)`.
    fn get(&self, x: P, y: P, z: P) -> (value: T)
        requires
            self.valid(),
            self.has_cell(x, y, z),
        ensures
            value == self.cell(x, y, z),
    ;

    /// Writes `value` to the cell at `(x, y, z)` and leaves every other
    /// cell as it was.
    fn set(&mut self, x: P, y: P, z: P, value: T)
        requires
            old(self).valid(),
            old(self).has_cell(x, y, z),
        ensures
            final(self).valid(),
            forall|a: P, b: P, c: P| #[trigger]
                final(self).has_cell(a, b, c) == old(self).has_cell(a, b, c),
            forall|a: P, b: P, c: P|
                old(self).has_cell(a, b, c) ==> #[trigger] final(self).cell(a, b, c) == if a == x
                    && b == y && c == z {
                    value
                } else {
                    old(self).cell(a, b, c)
                },
    ;

    /// Initialises the storage to hold at least the cells below the given
    /// size on each axis, every cell set to `default`.
    fn init(&mut self, size_x: P, size_y: P, size_z: P, default: T)
        requires
            Self::admits(size_x, size_y, size_z),
        ensures
            final(self).valid(),
            forall|a: P, b: P, c: P|
                0 <= Self::coordinate(a) < Self::coordinate(size_x) && 0 <= Self::coordinate(b)
                    < Self::coordinate(size_y) && 0 <= Self::coordinate(c) < Self::coordinate(
                    size_z,
                ) ==> #[trigger] final(self).has_cell(a, b, c),
            forall|a: P, b: P, c: P|
                final(self).has_cell(a, b, c) ==> #[trigger] final(self).cell(a, b, c) == default,
    ;

    /// Initialises the storage to hold at least the cells below the given
    /// size on each axis. What the cells hold is up to the storage.
    fn init_default(&mut self, size_x: P, size_y: P, size_z: P)
        requires
            Self::admits(size_x, size_y, size_z),
        ensures
            final(self).valid(),
            forall|a: P, b: P, c: P|
                0 <= Self::coordinate(a) < Self::coordinate(size_x) && 0 <= Self::coordinate(b)
                    < Self::coordinate(size_y) && 0 <= Self::coordinate(c) < Self::coordinate(
                    size_z,
                ) ==> #[trigger] final(self).has_cell(a, b, c),
    ;

    /// Reads the cell at `coord`.
    fn get_coord(&self, coord: Coord3<P>) -> (value: T)
        requires
            self.valid(),
            self.has_cell(coord.x, coord.y, coord.z),
        ensures
            value == self.cell(coord.x, coord.y, coord.z),
    {
        self.get(coord.x, coord.y, coord.z)
    }

    /// Writes `value` to the cell at `coord` and leaves every other cell as
    /// it was.
    fn set_coord(&mut self, coord: Coord3<P>, value: T)
        requires
            old(self).valid(),
            old(self).has_cell(coord.x, coord.y, coord.z),
        ensures
            final(self).valid(),
            forall|a: P, b: P, c: P| #[trigger]
                final(self).has_cell(a, b, c) == old(self).has_cell(a, b, c),
            forall|a: P, b: P, c: P|
                old(self).has_cell(a, b, c) ==> #[trigger] final(self).cell(a, b, c) == if a
                    == coord.x && b == coord.y && c == coord.z {
                    value
                } else {
                    old(self).cell(a, b, c)
                },
    {
        self.set(coord.x, coord.y, coord.z, value)
    }

    /// Initialises the storage to hold at least the cells below `size`,
    /// every cell set to `default`.
    fn init_coord(&mut self, size: Coord3<P>, default: T)
        requires
            Self::admits(size.x, size.y, size.z),
        ensures
            final(self).valid(),
            forall|a: P, b: P, c: P|
                0 <= Self::coordinate(a) < Self::coordinate(size.x) && 0 <= Self::coordinate(b)
                    < Self::coordinate(size.y) && 0 <= Self::coordinate(c) < Self::coordinate(
                    size.z,
                ) ==> #[trigger] final(self).has_cell(a, b, c),
            forall|a: P, b: P, c: P|
                final(self).has_cell(a, b, c) ==> #[trigger] final(self).cell(a, b, c) == default,
    {
        self.init(size.x, size.y, size.z, default)
    }

    /// Initialises the storage to hold at least the cells below `size`.
    /// What the cells hold is up to the storage.
    fn init_default_coord(&mut self, size: Coord3<P>)
        requires
            Self::admits(size.x, size.y, size.z),
        ensures
            final(self).valid(),
            forall|a: P, b: P, c: P|
                0 <= Self::coordinate(a) < Self::coordinate(size.x) && 0 <= Self::coordinate(b)
                    < Self::coordinate(size.y) && 0 <= Self::coordinate(c) < Self::coordinate(
                    size.z,
                ) ==> #[trigger] final(self).has_cell(a, b, c),
    {
        self.init_default(size.x, size.y, size.z)
    }
}

/// Whether `scale` is the smallest scale whose cube holds `size` cells
/// along an axis.
pub open spec fn is_covering_scale(scale: int, size: int) -> bool {
    &&& 0 <= scale
    &&& size <= pow2(scale as nat)
    &&& scale > 0 ==> pow2((scale - 1) as nat) < size
}

/// The largest of three sizes.
pub open spec fn largest_of(a: u32, b: u32, c: u32) -> u32 {
    if a >= b && a >= c {
        a
    } else if b >= c {
        b
    } else {
        c
    }
}

/// The smallest scale whose cube holds `size` cells along an axis.
fn covering_scale(size: u32) -> (scale: Scale)
    ensures
        scale <= 32,
        is_covering_scale(scale as int, size as int),
{
    proof {
        lemma2_to64();
    }
    let mut scale: Scale = 0;
    let mut edge: u64 = 1;
    while edge < size as u64
        invariant
            0 <= scale <= 32,
            edge == pow2(scale as nat),
            scale > 0 ==> pow2((scale - 1) as nat) < size,
        decreases 32 - scale,
    {
        proof {
            lemma2_to64();
            lemma_pow2_unfold((scale + 1) as nat);
        }
        edge = edge * 2;
        scale = scale + 1;
    }
    scale
}

impl<T: Copy + PartialEq + Default> VoxelStorage<T, u32> for NaiveVoxelOctree<T> {
    open spec fn coordinate(p: u32) -> int {
        p as int
    }

    open spec fn valid(&self) -> bool {
        obeys_concrete_eq::<T>() && self@.wf()
    }

    open spec fn has_cell(&self, x: u32, y: u32, z: u32) -> bool {
        self@.contains(x as int, y as int, z as int)
    }

    open spec fn cell(&self, x: u32, y: u32, z: u32) -> T {
        self@.voxel(x as int, y as int, z as int)
    }

    open spec fn admits(size_x: u32, size_y: u32, size_z: u32) -> bool {
        obeys_concrete_eq::<T>()
    }

    fn get(&self, x: u32, y: u32, z: u32) -> (value: T) {
        let pos = opos(x, y, z, 0);
        proof {
            pos.lemma_finest_level();
        }
        NaiveVoxelOctree::get(self, pos).unwrap()
    }

    fn set(&mut self, x: u32, y: u32, z: u32, value: T) {
        let pos = opos(x, y, z, 0);
        proof {
            pos.lemma_finest_level();
        }
        let _ = NaiveVoxelOctree::set(self, pos, value);
    }

    /// The tree becomes a single leaf of `default`, at the smallest scale
    /// whose cube holds the largest of the three sizes.
    fn init(&mut self, size_x: u32, size_y: u32, size_z: u32, default: T)
        ensures
            final(self)@ == OctreeView::filled(default, final(self)@.scale),
            is_covering_scale(final(self)@.scale, largest_of(size_x, size_y, size_z) as int),
    {
        let largest: u32 = if size_x >= size_y && size_x >= size_z {
            size_x
        } else if size_y >= size_z {
            size_y
        } else {
            size_z
        };
        *self = NaiveVoxelOctree::new(default, covering_scale(largest));
    }

    /// The tree becomes a single leaf of the default value of `T`, at the
    /// smallest scale whose cube holds the largest of the three sizes.
    fn init_default(&mut self, size_x: u32, size_y: u32, size_z: u32)
        ensures
            final(self)@.root is Leaf,
            is_covering_scale(final(self)@.scale, largest_of(size_x, size_y, size_z) as int),
    {
        self.init(size_x, size_y, size_z, T::default());
    }
}

} // verus!
