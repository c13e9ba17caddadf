//! The full traversal of an octree: every leaf with the cube it covers.

use crate::voxel::subdivmath::{
    aligned, axis_bit, in_cube, lemma_octant_corner, octant_corner, octant_index, Scale,
};
use crate::voxel::subdivmodel::{NodeView, OctreeView};
use crate::voxel::subdivstorage::{NaiveOctreeNode, NaiveVoxelOctree};
use vstd::arithmetic::power2::{
    lemma2_to64, lemma_pow2_adds, lemma_pow2_pos, lemma_pow2_strictly_increases,
    lemma_pow2_unfold, pow2,
};
use vstd::prelude::*;

verus! {

/// The model of a leaf's cube: its low corner in finest-level voxels, the
/// scale of its edge, and the value that it holds throughout.
pub struct CubeView<T> {
    pub x: int,
    pub y: int,
    pub z: int,
    pub scale: int,
    pub value: T,
}

impl<T> CubeView<T> {
    /// The number of voxels along an edge of the cube.
    pub open spec fn edge(self) -> int {
        pow2(self.scale as nat) as int
    }

    /// Whether the voxel `(a, b, c)` lies in the cube.
    pub open spec fn covers(self, a: int, b: int, c: int) -> bool {
        &&& 0 <= self.scale
        &&& self.x <= a < self.x + self.edge()
        &&& self.y <= b < self.y + self.edge()
        &&& self.z <= c < self.z + self.edge()
    }

    /// Whether the cube lies inside the cube of scale `scale` at
    /// `(x, y, z)`, on the grid of its own edge length.
    pub open spec fn within(self, x: int, y: int, z: int, scale: nat) -> bool {
        &&& 0 <= self.scale <= scale
        &&& x <= self.x && self.x + self.edge() <= x + pow2(scale)
        &&& y <= self.y && self.y + self.edge() <= y + pow2(scale)
        &&& z <= self.z && self.z + self.edge() <= z + pow2(scale)
        &&& self.x % self.edge() == 0
        &&& self.y % self.edge() == 0
        &&& self.z % self.edge() == 0
    }
}

impl<T> NodeView<T> {
    /// The leaves of a node that covers the cube of scale `scale` at
    /// `(x, y, z)`, depth first in octant order.
    pub open spec fn leaves(self, x: int, y: int, z: int, scale: int) -> Seq<CubeView<T>>
        decreases self, 0nat,
    {
        match self {
            NodeView::Leaf(value) => seq![CubeView { x, y, z, scale, value }],
            NodeView::Branch(c) => Self::leaves_of(c, c.len(), x, y, z, scale),
        }
    }

    /// The leaves under the first `n` of the children `c` of a node that
    /// covers the cube of scale `scale` at `(x, y, z)`.
    pub open spec fn leaves_of(c: Seq<Self>, n: nat, x: int, y: int, z: int, scale: int) -> Seq<
        CubeView<T>,
    >
        decreases c, n,
    {
        if n == 0 || n > c.len() {
            Seq::empty()
        } else {
            let corner = octant_corner(x, y, z, scale, n - 1);
            Self::leaves_of(c, (n - 1) as nat, x, y, z, scale) + c[n - 1].leaves(
                corner.0,
                corner.1,
                corner.2,
                scale - 1,
            )
        }
    }

    /// A cube among the leaves under the first `n` children is a leaf of
    /// one of them.
    pub proof fn lemma_leaves_of_origin(
        c: Seq<Self>,
        n: nat,
        x: int,
        y: int,
        z: int,
        scale: int,
        cube: CubeView<T>,
    ) -> (i: int)
        requires
            n <= c.len(),
            Self::leaves_of(c, n, x, y, z, scale).contains(cube),
        ensures
            0 <= i < n,
            c[i].leaves(
                octant_corner(x, y, z, scale, i).0,
                octant_corner(x, y, z, scale, i).1,
                octant_corner(x, y, z, scale, i).2,
                scale - 1,
            ).contains(cube),
        decreases n,
    {
        let corner = octant_corner(x, y, z, scale, n - 1);
        let before = Self::leaves_of(c, (n - 1) as nat, x, y, z, scale);
        let last = c[n - 1].leaves(corner.0, corner.1, corner.2, scale - 1);
        let all = Self::leaves_of(c, n, x, y, z, scale);
        let k = choose|k: int| 0 <= k < all.len() && all[k] == cube;
        if k < before.len() {
            assert(before[k] == cube);
            Self::lemma_leaves_of_origin(c, (n - 1) as nat, x, y, z, scale, cube)
        } else {
            assert(last[k - before.len()] == cube);
            n - 1
        }
    }

    /// A leaf of one of the first `n` children is among the leaves under
    /// them.
    pub proof fn lemma_leaves_of_member(
        c: Seq<Self>,
        n: nat,
        x: int,
        y: int,
        z: int,
        scale: int,
        i: int,
        cube: CubeView<T>,
    )
        requires
            0 <= i < n <= c.len(),
            c[i].leaves(
                octant_corner(x, y, z, scale, i).0,
                octant_corner(x, y, z, scale, i).1,
                octant_corner(x, y, z, scale, i).2,
                scale - 1,
            ).contains(cube),
        ensures
            Self::leaves_of(c, n, x, y, z, scale).contains(cube),
        decreases n,
    {
        let corner = octant_corner(x, y, z, scale, n - 1);
        let before = Self::leaves_of(c, (n - 1) as nat, x, y, z, scale);
        let last = c[n - 1].leaves(corner.0, corner.1, corner.2, scale - 1);
        let all = Self::leaves_of(c, n, x, y, z, scale);
        if i == n - 1 {
            let k = choose|k: int| 0 <= k < last.len() && last[k] == cube;
            assert(all[before.len() + k] == cube);
        } else {
            Self::lemma_leaves_of_member(c, (n - 1) as nat, x, y, z, scale, i, cube);
            let k = choose|k: int| 0 <= k < before.len() && before[k] == cube;
            assert(all[k] == cube);
        }
    }
}

impl<T> NodeView<T> {
    /// Every listed leaf is a cube on the grid of its own edge inside the
    /// node's cube, and the node holds the leaf's value at every voxel of
    /// it.
    pub proof fn lemma_leaves_sound(self, x: int, y: int, z: int, scale: nat, cube: CubeView<T>)
        requires
            self.shaped(),
            self.fits(scale),
            aligned(x, y, z, scale),
            self.leaves(x, y, z, scale as int).contains(cube),
        ensures
            cube.within(x, y, z, scale),
            forall|a: int, b: int, c: int| #[trigger]
                cube.covers(a, b, c) ==> self.value_at(scale, a, b, c) == cube.value,
        decreases self,
    {
        match self {
            NodeView::Leaf(value) => {
                let all = self.leaves(x, y, z, scale as int);
                let k = choose|k: int| 0 <= k < all.len() && all[k] == cube;
                assert(all[0] == cube);
            },
            NodeView::Branch(children) => {
                let below = (scale - 1) as nat;
                let i = Self::lemma_leaves_of_origin(children, 8, x, y, z, scale as int, cube);
                let corner = octant_corner(x, y, z, scale as int, i);
                lemma_octant_corner(x, y, z, scale, i);
                children[i].lemma_leaves_sound(corner.0, corner.1, corner.2, below, cube);
                lemma_pow2_pos(cube.scale as nat);
                let far = (
                    cube.x + cube.edge() - 1,
                    cube.y + cube.edge() - 1,
                    cube.z + cube.edge() - 1,
                );
                assert(in_cube(corner.0, corner.1, corner.2, below, cube.x, cube.y, cube.z));
                assert(in_cube(corner.0, corner.1, corner.2, below, far.0, far.1, far.2));
                assert forall|a: int, b: int, c: int| #[trigger]
                    cube.covers(a, b, c) implies self.value_at(scale, a, b, c) == cube.value by {
                    assert(in_cube(corner.0, corner.1, corner.2, below, a, b, c));
                    assert(octant_index(a, b, c, below) == i);
                }
            },
        }
    }

    /// Every voxel of the node's cube lies in one of the listed leaves.
    pub proof fn lemma_leaves_complete(
        self,
        x: int,
        y: int,
        z: int,
        scale: nat,
        a: int,
        b: int,
        c: int,
    ) -> (cube: CubeView<T>)
        requires
            self.shaped(),
            self.fits(scale),
            aligned(x, y, z, scale),
            in_cube(x, y, z, scale, a, b, c),
        ensures
            self.leaves(x, y, z, scale as int).contains(cube),
            cube.covers(a, b, c),
        decreases self,
    {
        match self {
            NodeView::Leaf(value) => {
                let cube = CubeView { x, y, z, scale: scale as int, value };
                assert(self.leaves(x, y, z, scale as int)[0] == cube);
                cube
            },
            NodeView::Branch(children) => {
                let below = (scale - 1) as nat;
                let i = octant_index(a, b, c, below);
                let corner = octant_corner(x, y, z, scale as int, i);
                lemma_octant_corner(x, y, z, scale, i);
                assert(in_cube(corner.0, corner.1, corner.2, below, a, b, c));
                let cube = children[i].lemma_leaves_complete(
                    corner.0,
                    corner.1,
                    corner.2,
                    below,
                    a,
                    b,
                    c,
                );
                Self::lemma_leaves_of_member(children, 8, x, y, z, scale as int, i, cube);
                cube
            },
        }
    }

    /// No voxel lies in two different listed leaves.
    pub proof fn lemma_leaves_disjoint(
        self,
        x: int,
        y: int,
        z: int,
        scale: nat,
        first: CubeView<T>,
        second: CubeView<T>,
        a: int,
        b: int,
        c: int,
    )
        requires
            self.shaped(),
            self.fits(scale),
            aligned(x, y, z, scale),
            self.leaves(x, y, z, scale as int).contains(first),
            self.leaves(x, y, z, scale as int).contains(second),
            first.covers(a, b, c),
            second.covers(a, b, c),
        ensures
            first == second,
        decreases self,
    {
        match self {
            NodeView::Leaf(value) => {
                let all = self.leaves(x, y, z, scale as int);
                let k1 = choose|k: int| 0 <= k < all.len() && all[k] == first;
                let k2 = choose|k: int| 0 <= k < all.len() && all[k] == second;
                assert(all[0] == first && all[0] == second);
            },
            NodeView::Branch(children) => {
                let below = (scale - 1) as nat;
                let i = Self::lemma_leaves_of_origin(children, 8, x, y, z, scale as int, first);
                let j = Self::lemma_leaves_of_origin(children, 8, x, y, z, scale as int, second);
                let ci = octant_corner(x, y, z, scale as int, i);
                let cj = octant_corner(x, y, z, scale as int, j);
                lemma_octant_corner(x, y, z, scale, i);
                lemma_octant_corner(x, y, z, scale, j);
                children[i].lemma_leaves_sound(ci.0, ci.1, ci.2, below, first);
                children[j].lemma_leaves_sound(cj.0, cj.1, cj.2, below, second);
                assert(in_cube(ci.0, ci.1, ci.2, below, a, b, c));
                assert(in_cube(cj.0, cj.1, cj.2, below, a, b, c));
                assert(i == j);
                children[i].lemma_leaves_disjoint(ci.0, ci.1, ci.2, below, first, second, a, b, c);
            },
        }
    }
}

impl<T> OctreeView<T> {
    /// The leaves of the tree with the cubes they cover, depth first in
    /// octant order.
    pub open spec fn leaves(self) -> Seq<CubeView<T>> {
        self.root.leaves(0, 0, 0, self.scale)
    }

    /// Every listed leaf is a cube of the tree on the grid of its own edge,
    /// and every voxel of it holds the leaf's value.
    pub proof fn lemma_leaves_sound(self, cube: CubeView<T>)
        requires
            self.wf(),
            0 <= self.scale,
            self.leaves().contains(cube),
        ensures
            cube.within(0, 0, 0, self.scale as nat),
            forall|a: int, b: int, c: int| #[trigger]
                cube.covers(a, b, c) ==> self.contains(a, b, c) && self.voxel(a, b, c)
                    == cube.value,
    {
        lemma_pow2_pos(self.scale as nat);
        self.root.lemma_leaves_sound(0, 0, 0, self.scale as nat, cube);
    }

    /// Every voxel of the tree lies in one of the listed leaves.
    pub proof fn lemma_leaves_complete(self, a: int, b: int, c: int) -> (cube: CubeView<T>)
        requires
            self.wf(),
            self.contains(a, b, c),
        ensures
            self.leaves().contains(cube),
            cube.covers(a, b, c),
            cube.value == self.voxel(a, b, c),
    {
        lemma_pow2_pos(self.scale as nat);
        let cube = self.root.lemma_leaves_complete(0, 0, 0, self.scale as nat, a, b, c);
        self.lemma_leaves_sound(cube);
        cube
    }

    /// No voxel lies in two different listed leaves.
    pub proof fn lemma_leaves_disjoint(
        self,
        first: CubeView<T>,
        second: CubeView<T>,
        a: int,
        b: int,
        c: int,
    )
        requires
            self.wf(),
            self.leaves().contains(first),
            self.leaves().contains(second),
            first.covers(a, b, c),
            second.covers(a, b, c),
        ensures
            first == second,
    {
        if self.scale >= 0 {
            lemma_pow2_pos(self.scale as nat);
            self.root.lemma_leaves_disjoint(0, 0, 0, self.scale as nat, first, second, a, b, c);
        } else {
            let all = self.leaves();
            let k1 = choose|k: int| 0 <= k < all.len() && all[k] == first;
            let k2 = choose|k: int| 0 <= k < all.len() && all[k] == second;
            assert(all[0] == first && all[0] == second);
        }
    }
}

/// A leaf of an octree with the cube it covers: the low corner in
/// finest-level voxels, the scale of the edge, and the value held.
#[derive(Debug, PartialEq, Eq)]
pub struct LeafCube<T> {
    pub x: u128,
    pub y: u128,
    pub z: u128,
    pub scale: Scale,
    pub value: T,
}

impl<T> View for LeafCube<T> {
    type V = CubeView<T>;

    open spec fn view(&self) -> CubeView<T> {
        CubeView {
            x: self.x as int,
            y: self.y as int,
            z: self.z as int,
            scale: self.scale as int,
            value: self.value,
        }
    }
}

/// The models of the cubes of a list, in order.
pub open spec fn cube_views<T>(cubes: Seq<LeafCube<T>>) -> Seq<CubeView<T>> {
    Seq::new(cubes.len(), |i: int| cubes[i]@)
}

/// The largest edge, `2^127`, as a number.
proof fn lemma_pow2_127()
    ensures
        pow2(127) == 0x8000_0000_0000_0000_0000_0000_0000_0000,
{
    lemma2_to64();
    vstd::arithmetic::power2::lemma2_to64_rest();
    lemma_pow2_adds(64, 63);
    assert(0x1_0000_0000_0000_0000 * 0x8000_0000_0000_0000
        == 0x8000_0000_0000_0000_0000_0000_0000_0000int) by (nonlinear_arith);
}

/// The edge length of a cube of scale `scale`.
fn edge_of(scale: Scale) -> (edge: u128)
    requires
        0 <= scale,
    ensures
        edge == pow2(scale as nat),
{
    let mut edge: u128 = 1;
    let mut done: Scale = 0;
    proof {
        lemma2_to64();
    }
    while done < scale
        invariant
            0 <= done <= scale,
            edge == pow2(done as nat),
        decreases scale - done,
    {
        proof {
            lemma_pow2_unfold((done + 1) as nat);
            lemma_pow2_127();
            if done + 1 < 127 {
                lemma_pow2_strictly_increases((done + 1) as nat, 127);
            }
        }
        edge = edge * 2;
        done = done + 1;
    }
    edge
}

impl<T: Copy> LeafCube<T> {
    /// The number of voxels along an edge of the cube; `None` for the one
    /// cube that has no whole voxel, the root of a tree of negative scale.
    pub fn edge_length(&self) -> (edge: Option<u128>)
        ensures
            edge == if self.scale >= 0 {
                Some(self@.edge() as u128)
            } else {
                None
            },
            self.scale >= 0 ==> self@.edge() <= u128::MAX,
    {
        if self.scale >= 0 {
            Some(edge_of(self.scale))
        } else {
            None
        }
    }
}

impl<T: Copy> NaiveOctreeNode<T> {
    /// Appends to `out` the leaves of a node that covers the cube of edge
    /// `edge` at `(x, y, z)`, depth first in octant order.
    fn collect_leaves(
        &self,
        x: u128,
        y: u128,
        z: u128,
        scale: Scale,
        edge: u128,
        out: &mut Vec<LeafCube<T>>,
    )
        requires
            self@.shaped(),
            self@ is Branch ==> 0 < scale && self@.fits(scale as nat) && edge == pow2(scale as nat),
            x + edge <= u128::MAX,
            y + edge <= u128::MAX,
            z + edge <= u128::MAX,
        ensures
            cube_views(final(out)@) == cube_views(old(out)@) + self@.leaves(
                x as int,
                y as int,
                z as int,
                scale as int,
            ),
        decreases self,
    {
        match self {
            NaiveOctreeNode::Leaf(value) => {
                out.push(LeafCube { x, y, z, scale, value: *value });
                proof {
                    assert(cube_views(out@) =~= cube_views(old(out)@) + self@.leaves(
                        x as int,
                        y as int,
                        z as int,
                        scale as int,
                    ));
                }
            },
            NaiveOctreeNode::Branch(children) => {
                proof {
                    Self::lemma_branch_view(*children);
                    lemma2_to64();
                    lemma_pow2_unfold(scale as nat);
                }
                let ghost views = Self::children_view(children@);
                let half: u128 = edge / 2;
                let mut i: usize = 0;
                while i < 8
                    invariant
                        i <= 8,
                        children.len() == 8,
                        0 < scale,
                        half == pow2((scale - 1) as nat),
                        edge == 2 * half,
                        x + edge <= u128::MAX,
                        y + edge <= u128::MAX,
                        z + edge <= u128::MAX,
                        views == Self::children_view(children@),
                        forall|j: int| 0 <= j < 8 ==> (#[trigger] views[j]).shaped(),
                        forall|j: int| 0 <= j < 8 ==> (#[trigger] views[j]).fits((scale - 1) as nat),
                        forall|j: int|
                            0 <= j < 8 ==> decreases_to!(self => #[trigger] children@[j]),
                        cube_views(out@) == cube_views(old(out)@) + NodeView::leaves_of(
                            views,
                            i as nat,
                            x as int,
                            y as int,
                            z as int,
                            scale as int,
                        ),
                    decreases 8 - i,
                {
                    proof {
                        lemma2_to64();
                    }
                    let cx: u128 = if i % 2 == 1 { x + half } else { x };
                    let cy: u128 = if (i / 2) % 2 == 1 { y + half } else { y };
                    let cz: u128 = if (i / 4) % 2 == 1 { z + half } else { z };
                    let ghost before = out@;
                    proof {
                        let corner = octant_corner(x as int, y as int, z as int, scale as int, i as int);
                        let (bx, by, bz) = (axis_bit(i as int, 0), axis_bit(i as int, 1), axis_bit(i as int, 2));
                        assert(bx * half == if bx == 0 { 0 } else { half as int }) by (nonlinear_arith)
                            requires 0 <= bx <= 1;
                        assert(by * half == if by == 0 { 0 } else { half as int }) by (nonlinear_arith)
                            requires 0 <= by <= 1;
                        assert(bz * half == if bz == 0 { 0 } else { half as int }) by (nonlinear_arith)
                            requires 0 <= bz <= 1;
                        assert(corner == (cx as int, cy as int, cz as int));
                        assert(views[i as int].shaped() && views[i as int].fits((scale - 1) as nat));
                    }
                    children[i].collect_leaves(cx, cy, cz, scale - 1, half, out);
                    proof {
                        assert(cube_views(out@) =~= cube_views(before) + views[i as int].leaves(
                            cx as int,
                            cy as int,
                            cz as int,
                            scale - 1,
                        ));
                        assert(cube_views(out@) =~= cube_views(old(out)@) + NodeView::leaves_of(
                            views,
                            (i + 1) as nat,
                            x as int,
                            y as int,
                            z as int,
                            scale as int,
                        ));
                    }
                    i = i + 1;
                }
            },
        }
    }
}

impl<T: Copy> NaiveVoxelOctree<T> {
    /// The full traversal: every leaf of the tree with the cube it covers,
    /// depth first in octant order.
    pub fn leaves(&self) -> (cubes: Vec<LeafCube<T>>)
        ensures
            cube_views(cubes@) == self@.leaves(),
            self@.wf(),
    {
        let root = self.root();
        let scale = self.scale();
        let edge: u128 = if scale > 0 {
            edge_of(scale)
        } else {
            0
        };
        proof {
            lemma_pow2_127();
            if 0 < scale < 127 {
                lemma_pow2_strictly_increases(scale as nat, 127);
            }
        }
        let mut cubes: Vec<LeafCube<T>> = Vec::new();
        root.collect_leaves(0, 0, 0, scale, edge, &mut cubes);
        proof {
            assert(cube_views(cubes@) =~= self@.leaves());
        }
        cubes
    }
}

} // verus!
