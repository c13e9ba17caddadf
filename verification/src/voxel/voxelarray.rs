//! A dense voxel container: one cell per position, stored in x-major
//! order.

use crate::voxel::voxelstorage::VoxelStorage;
use vstd::arithmetic::div_mod::lemma_fundamental_div_mod_converse;
use vstd::prelude::*;

verus! {

/// The model of a dense grid: its size along each axis and its cells in
/// storage order.
pub struct ArrayView<T> {
    pub size_x: int,
    pub size_y: int,
    pub size_z: int,
    pub cells: Seq<T>,
}

impl<T> ArrayView<T> {
    /// Validity: the sizes are not negative and there is one cell per
    /// position.
    pub open spec fn wf(self) -> bool {
        &&& 0 <= self.size_x
        &&& 0 <= self.size_y
        &&& 0 <= self.size_z
        &&& self.cells.len() == self.size_x * self.size_y * self.size_z
    }

    /// Whether `(x, y, z)` is a position of the grid.
    pub open spec fn contains(self, x: int, y: int, z: int) -> bool {
        0 <= x < self.size_x && 0 <= y < self.size_y && 0 <= z < self.size_z
    }

    /// Where the cell at `(x, y, z)` is stored.
    pub open spec fn offset(self, x: int, y: int, z: int) -> int {
        x + self.size_x * (y + self.size_y * z)
    }

    /// The content of the cell at `(x, y, z)`.
    pub open spec fn cell(self, x: int, y: int, z: int) -> T {
        self.cells[self.offset(x, y, z)]
    }

    /// The offset of a position of the grid is the index of a cell, and no
    /// intermediate of its computation exceeds the number of cells.
    pub proof fn lemma_offset_in_range(self, x: int, y: int, z: int)
        requires
            self.wf(),
            self.contains(x, y, z),
        ensures
            0 <= self.size_y * z <= self.cells.len(),
            0 <= y + self.size_y * z < self.size_y * self.size_z <= self.cells.len(),
            0 <= self.size_x * (y + self.size_y * z) <= self.cells.len(),
            0 <= self.offset(x, y, z) < self.cells.len(),
    {
        let (sx, sy, sz) = (self.size_x, self.size_y, self.size_z);
        let row = y + sy * z;
        assert(0 <= sy * z && sy * z + sy <= sy * sz) by (nonlinear_arith)
            requires
                0 <= z < sz,
                0 <= sy,
        ;
        assert(0 <= sx * row && sx * row + sx <= sx * (sy * sz)) by (nonlinear_arith)
            requires
                0 <= row < sy * sz,
                0 <= sx,
        ;
        assert(sx * (sy * sz) == sx * sy * sz) by (nonlinear_arith);
        assert(sy * sz <= sx * sy * sz) by (nonlinear_arith)
            requires
                0 <= sy * sz,
                1 <= sx,
        ;
    }

    /// Two positions of the grid with one offset are the same position.
    pub proof fn lemma_offset_injective(self, x: int, y: int, z: int, a: int, b: int, c: int)
        requires
            self.wf(),
            self.contains(x, y, z),
            self.contains(a, b, c),
            self.offset(x, y, z) == self.offset(a, b, c),
        ensures
            x == a && y == b && z == c,
    {
        let (sx, sy) = (self.size_x, self.size_y);
        let (row1, row2) = (y + sy * z, b + sy * c);
        assert(self.offset(x, y, z) == row1 * sx + x) by (nonlinear_arith)
            requires
                self.offset(x, y, z) == x + sx * row1,
        ;
        assert(self.offset(a, b, c) == row2 * sx + a) by (nonlinear_arith)
            requires
                self.offset(a, b, c) == a + sx * row2,
        ;
        lemma_fundamental_div_mod_converse(self.offset(x, y, z), sx, row1, x);
        lemma_fundamental_div_mod_converse(self.offset(a, b, c), sx, row2, a);
        assert(row1 == z * sy + y && row2 == c * sy + b) by (nonlinear_arith)
            requires
                row1 == y + sy * z,
                row2 == b + sy * c,
        ;
        lemma_fundamental_div_mod_converse(row1, sy, z, y);
        lemma_fundamental_div_mod_converse(row2, sy, c, b);
    }
}

/// A dense grid of voxels.
#[derive(Debug, PartialEq, Eq)]
pub struct VoxelArray<T> {
    size_x: usize,
    size_y: usize,
    size_z: usize,
    cells: Vec<T>,
}

impl<T> View for VoxelArray<T> {
    type V = ArrayView<T>;

    closed spec fn view(&self) -> ArrayView<T> {
        ArrayView {
            size_x: self.size_x as int,
            size_y: self.size_y as int,
            size_z: self.size_z as int,
            cells: self.cells@,
        }
    }
}

impl<T> VoxelArray<T> {
    #[verifier::type_invariant]
    spec fn valid_array(self) -> bool {
        self@.wf()
    }
}

impl<T: Copy> VoxelArray<T> {
    /// A grid without cells.
    pub fn empty() -> (grid: Self)
        ensures
            grid@.wf(),
            grid@.size_x == 0 && grid@.size_y == 0 && grid@.size_z == 0,
    {
        VoxelArray { size_x: 0, size_y: 0, size_z: 0, cells: Vec::new() }
    }

    /// A grid of the given size with every cell set to `default`, or `None`
    /// where the number of cells does not fit in `usize`.
    pub fn filled(size_x: usize, size_y: usize, size_z: usize, default: T) -> (grid: Option<Self>)
        ensures
            grid is Some <==> size_x * size_y * size_z <= usize::MAX,
            grid matches Some(g) ==> g@.wf() && g@.size_x == size_x && g@.size_y == size_y
                && g@.size_z == size_z && forall|i: int|
                0 <= i < g@.cells.len() ==> g@.cells[i] == default,
    {
        let total: usize = match size_x.checked_mul(size_y) {
            Some(area) => match area.checked_mul(size_z) {
                Some(total) => total,
                None => {
                    return None;
                },
            },
            None => {
                if size_z == 0 {
                    assert(size_x * size_y * size_z == 0) by (nonlinear_arith)
                        requires
                            size_z == 0,
                    ;
                    0
                } else {
                    assert(size_x * size_y * size_z > usize::MAX) by (nonlinear_arith)
                        requires
                            size_x * size_y > usize::MAX,
                            size_z >= 1,
                    ;
                    return None;
                }
            },
        };
        let mut cells: Vec<T> = Vec::new();
        let mut i: usize = 0;
        while i < total
            invariant
                i <= total,
                cells.len() == i,
                forall|j: int| 0 <= j < i ==> cells[j] == default,
            decreases total - i,
        {
            cells.push(default);
            i = i + 1;
        }
        Some(VoxelArray { size_x, size_y, size_z, cells })
    }

    /// The size of the grid along each axis.
    pub fn size(&self) -> (size: (usize, usize, usize))
        ensures
            size.0 == self@.size_x && size.1 == self@.size_y && size.2 == self@.size_z,
            self@.wf(),
    {
        proof {
            use_type_invariant(self);
        }
        (self.size_x, self.size_y, self.size_z)
    }

    /// The index of the cell at `(x, y, z)`.
    fn offset(&self, x: usize, y: usize, z: usize) -> (at: usize)
        requires
            self@.contains(x as int, y as int, z as int),
        ensures
            at == self@.offset(x as int, y as int, z as int),
            at < self.cells.len(),
    {
        proof {
            use_type_invariant(self);
            self@.lemma_offset_in_range(x as int, y as int, z as int);
            assert(self@.size_x == self.size_x && self@.size_y == self.size_y);
            assert(self@.cells.len() == self.cells.len());
        }
        x + self.size_x * (y + self.size_y * z)
    }
}

impl<T: Copy + Default> VoxelStorage<T, usize> for VoxelArray<T> {
    open spec fn coordinate(p: usize) -> int {
        p as int
    }

    open spec fn valid(&self) -> bool {
        self@.wf()
    }

    open spec fn has_cell(&self, x: usize, y: usize, z: usize) -> bool {
        self@.contains(x as int, y as int, z as int)
    }

    open spec fn cell(&self, x: usize, y: usize, z: usize) -> T {
        self@.cell(x as int, y as int, z as int)
    }

    open spec fn admits(size_x: usize, size_y: usize, size_z: usize) -> bool {
        size_x * size_y * size_z <= usize::MAX
    }

    fn get(&self, x: usize, y: usize, z: usize) -> (value: T) {
        let at = self.offset(x, y, z);
        self.cells[at]
    }

    fn set(&mut self, x: usize, y: usize, z: usize, value: T) {
        let at = self.offset(x, y, z);
        proof {
            let before = self@;
            assert forall|a: usize, b: usize, c: usize|
                before.contains(a as int, b as int, c as int) && !(a == x && b == y && c == z)
                implies #[trigger] before.offset(a as int, b as int, c as int) != at by {
                if before.offset(a as int, b as int, c as int) == at {
                    before.lemma_offset_injective(
                        x as int,
                        y as int,
                        z as int,
                        a as int,
                        b as int,
                        c as int,
                    );
                }
            }
            assert forall|a: usize, b: usize, c: usize|
                before.contains(a as int, b as int, c as int) implies 0 <= #[trigger] before.offset(
                    a as int,
                    b as int,
                    c as int,
                ) < before.cells.len() by {
                before.lemma_offset_in_range(a as int, b as int, c as int);
            }
        }
        self.cells[at] = value;
    }

    /// The grid takes exactly the given size.
    fn init(&mut self, size_x: usize, size_y: usize, size_z: usize, default: T)
        ensures
            final(self)@.size_x == size_x && final(self)@.size_y == size_y && final(self)@.size_z
                == size_z,
    {
        let grid = Self::filled(size_x, size_y, size_z, default).unwrap();
        proof {
            assert forall|a: usize, b: usize, c: usize|
                grid@.contains(a as int, b as int, c as int) implies 0 <= #[trigger] grid@.offset(
                    a as int,
                    b as int,
                    c as int,
                ) < grid@.cells.len() by {
                grid@.lemma_offset_in_range(a as int, b as int, c as int);
            }
        }
        *self = grid;
    }

    /// The grid takes exactly the given size.
    fn init_default(&mut self, size_x: usize, size_y: usize, size_z: usize)
        ensures
            final(self)@.size_x == size_x && final(self)@.size_y == size_y && final(self)@.size_z
                == size_z,
    {
        self.init(size_x, size_y, size_z, T::default());
    }
}

} // verus!
