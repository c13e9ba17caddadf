//! The mathematical model of the octree: the shape of a node, the tree
//! over it, what reads and writes mean, and the laws that hold of them.

use crate::voxel::subdivmath::{
    aligned, in_cube, lemma_octant_corner, lemma_octant_index_range, lemma_path_leads_to_tail,
    lemma_valid_path_tail, octant_corner, octant_index, path_leads_to, valid_path, OctPos,
};
use vstd::arithmetic::power2::{lemma_pow2_pos, lemma_pow2_strictly_increases, pow2};
use vstd::prelude::*;

verus! {

/// The shape of an octree node: a uniform leaf, or a branch over its
/// children in octant order.
pub enum NodeView<T> {
    Leaf(T),
    Branch(Seq<NodeView<T>>),
}

impl<T> NodeView<T> {
    /// Every branch has exactly eight children.
    pub open spec fn shaped(self) -> bool
        decreases self,
    {
        match self {
            NodeView::Leaf(_) => true,
            NodeView::Branch(c) => c.len() == 8 && forall|i: int|
                0 <= i < c.len() ==> (#[trigger] c[i]).shaped(),
        }
    }

    /// Eight leaves that all hold one value.
    pub open spec fn uniform(c: Seq<Self>) -> bool {
        &&& c.len() == 8
        &&& c[0] is Leaf
        &&& forall|i: int| 0 <= i < 8 ==> #[trigger] c[i] == c[0]
    }

    /// No branch anywhere in the subtree has eight leaf children of equal
    /// value.
    pub open spec fn compact(self) -> bool
        decreases self,
    {
        match self {
            NodeView::Leaf(_) => true,
            NodeView::Branch(c) => !Self::uniform(c) && forall|i: int|
                0 <= i < c.len() ==> (#[trigger] c[i]).compact(),
        }
    }

    /// The subtree is at most `depth` levels deep.
    pub open spec fn fits(self, depth: nat) -> bool
        decreases self,
    {
        match self {
            NodeView::Leaf(_) => true,
            NodeView::Branch(c) => depth > 0 && forall|i: int|
                0 <= i < c.len() ==> (#[trigger] c[i]).fits((depth - 1) as nat),
        }
    }

    /// Validity of a node that covers a cube of edge `2^depth`.
    pub open spec fn wf(self, depth: nat) -> bool {
        self.shaped() && self.compact() && self.fits(depth)
    }

    /// The value of the voxel `(x, y, z)` in a node that covers a cube of
    /// edge `2^depth`. Only the low `depth` bits of each coordinate matter.
    pub open spec fn value_at(self, depth: nat, x: int, y: int, z: int) -> T
        decreases depth,
    {
        match self {
            NodeView::Leaf(v) => v,
            NodeView::Branch(c) => if depth > 0 {
                c[octant_index(x, y, z, (depth - 1) as nat)].value_at((depth - 1) as nat, x, y, z)
            } else {
                arbitrary()
            },
        }
    }

    /// The level-of-detail read: follow `path` and stop at the first leaf.
    /// Where the path ends inside a branch, the walk goes on through the
    /// low-corner octant until it meets a leaf.
    pub open spec fn get(self, path: Seq<u8>) -> T
        decreases self,
    {
        match self {
            NodeView::Leaf(v) => v,
            NodeView::Branch(c) => if path.len() == 0 {
                if c.len() > 0 {
                    c[0].get(path)
                } else {
                    arbitrary()
                }
            } else if path[0] < c.len() {
                c[path[0] as int].get(path.drop_first())
            } else {
                arbitrary()
            },
        }
    }

    /// Whether the walk along `path` meets a leaf: the addressed cube is not
    /// subdivided.
    pub open spec fn leaf_along(self, path: Seq<u8>) -> bool
        decreases self,
    {
        match self {
            NodeView::Leaf(_) => true,
            NodeView::Branch(c) => path.len() > 0 && path[0] < c.len() && c[path[0] as int].leaf_along(
                path.drop_first(),
            ),
        }
    }

    /// The number of nodes in the subtree, leaves and branches alike.
    pub open spec fn node_count(self) -> nat
        decreases self, 0nat,
    {
        match self {
            NodeView::Leaf(_) => 1,
            NodeView::Branch(c) => 1 + Self::node_count_of(c, c.len()),
        }
    }

    /// The number of nodes under the first `n` of the children `c`.
    pub open spec fn node_count_of(c: Seq<Self>, n: nat) -> nat
        decreases c, n,
    {
        if n == 0 || n > c.len() {
            0
        } else {
            Self::node_count_of(c, (n - 1) as nat) + c[n - 1].node_count()
        }
    }

    /// The children a node has once it is subdivided: a leaf splits into
    /// eight leaves of its value, a branch keeps its own.
    pub open spec fn split(self) -> Seq<Self> {
        match self {
            NodeView::Leaf(v) => Seq::new(8, |i: int| NodeView::Leaf(v)),
            NodeView::Branch(c) => c,
        }
    }

    /// The node that stands for the children `c`: a single leaf where they
    /// are uniform, a branch otherwise.
    pub open spec fn merge(c: Seq<Self>) -> Self {
        if Self::uniform(c) {
            c[0]
        } else {
            NodeView::Branch(c)
        }
    }

    /// The write: the node at the end of `path` becomes a leaf of `value`.
    /// Leaves on the way are subdivided, and every ancestor whose children
    /// end up uniform is merged back into one leaf.
    pub open spec fn set(self, path: Seq<u8>, value: T) -> Self
        decreases path.len(),
    {
        if path.len() == 0 {
            NodeView::Leaf(value)
        } else {
            let c = self.split();
            let i = path[0] as int;
            Self::merge(c.update(i, c[i].set(path.drop_first(), value)))
        }
    }

    /// A write keeps eight children under every branch.
    pub proof fn lemma_set_shaped(self, path: Seq<u8>, value: T)
        requires
            self.shaped(),
            valid_path(path),
        ensures
            self.set(path, value).shaped(),
        decreases path.len(),
    {
        if path.len() > 0 {
            let c = self.split();
            let i = path[0] as int;
            let rest = path.drop_first();
            lemma_valid_path_tail(path);
            assert(c[i].shaped());
            c[i].lemma_set_shaped(rest, value);
            let updated = c.update(i, c[i].set(rest, value));
            assert forall|k: int| 0 <= k < 8 implies (#[trigger] updated[k]).shaped() by {
                assert(c[k].shaped());
            }
        }
    }

    /// A written node is valid wherever the node before the write was.
    pub proof fn lemma_set_wf(self, depth: nat, path: Seq<u8>, value: T)
        requires
            self.wf(depth),
            path.len() <= depth,
            valid_path(path),
        ensures
            self.set(path, value).wf(depth),
        decreases path.len(),
    {
        if path.len() > 0 {
            let c = self.split();
            let i = path[0] as int;
            let rest = path.drop_first();
            lemma_valid_path_tail(path);
            assert(c[i].wf((depth - 1) as nat));
            c[i].lemma_set_wf((depth - 1) as nat, rest, value);
            let updated = c.update(i, c[i].set(rest, value));
            assert forall|k: int| 0 <= k < 8 implies (#[trigger] updated[k]).wf((depth - 1) as nat) by {
                assert(c[k].wf((depth - 1) as nat));
            }
        }
    }

    /// Reading back along the path that was written yields the written
    /// value.
    pub proof fn lemma_set_get(self, path: Seq<u8>, value: T)
        requires
            self.shaped(),
            valid_path(path),
        ensures
            self.set(path, value).get(path) == value,
        decreases path.len(),
    {
        if path.len() > 0 {
            let c = self.split();
            let i = path[0] as int;
            let rest = path.drop_first();
            lemma_valid_path_tail(path);
            assert(c[i].shaped());
            c[i].lemma_set_get(rest, value);
            let updated = c.update(i, c[i].set(rest, value));
            if Self::uniform(updated) {
                assert(updated[i] == updated[0]);
            }
        }
    }

    /// What a write does to the content: the voxels that the path leads to
    /// take the written value, all others keep theirs.
    pub proof fn lemma_set_value_at(
        self,
        depth: nat,
        path: Seq<u8>,
        value: T,
        x: int,
        y: int,
        z: int,
    )
        requires
            self.shaped(),
            self.fits(depth),
            path.len() <= depth,
            valid_path(path),
        ensures
            self.set(path, value).value_at(depth, x, y, z) == if path_leads_to(path, depth, x, y, z) {
                value
            } else {
                self.value_at(depth, x, y, z)
            },
        decreases path.len(),
    {
        if path.len() > 0 {
            let below = (depth - 1) as nat;
            let c = self.split();
            let i = path[0] as int;
            let rest = path.drop_first();
            let k = octant_index(x, y, z, below);
            lemma_octant_index_range(x, y, z, below);
            lemma_valid_path_tail(path);
            assert(c[i].shaped() && c[i].fits(below));
            c[i].lemma_set_value_at(below, rest, value, x, y, z);
            let updated = c.update(i, c[i].set(rest, value));
            let written = Self::merge(updated);
            assert(written.value_at(depth, x, y, z) == updated[k].value_at(below, x, y, z)) by {
                if Self::uniform(updated) {
                    assert(updated[k] == updated[0]);
                }
            }
            assert(c[k].value_at(below, x, y, z) == self.value_at(depth, x, y, z));
            lemma_path_leads_to_tail(path, depth, x, y, z);
        }
    }

    /// The level-of-detail read returns the content of the voxel at the low
    /// corner of the addressed cube: of a voxel that the path leads to and
    /// whose coordinate bits below the addressed level are all zero.
    pub proof fn lemma_get_value_at(self, depth: nat, path: Seq<u8>, x: int, y: int, z: int)
        requires
            self.shaped(),
            self.fits(depth),
            path.len() <= depth,
            path_leads_to(path, depth, x, y, z),
            forall|k: nat| k < depth - path.len() ==> #[trigger] octant_index(x, y, z, k) == 0,
        ensures
            self.get(path) == self.value_at(depth, x, y, z),
        decreases depth,
    {
        if let NodeView::Branch(c) = self {
            let below = (depth - 1) as nat;
            lemma_octant_index_range(x, y, z, below);
            if path.len() == 0 {
                assert(octant_index(x, y, z, below) == 0);
                assert(c[0].shaped() && c[0].fits(below));
                c[0].lemma_get_value_at(below, path, x, y, z);
            } else {
                let i = path[0] as int;
                let rest = path.drop_first();
                lemma_path_leads_to_tail(path, depth, x, y, z);
                assert(c[i].shaped() && c[i].fits(below));
                c[i].lemma_get_value_at(below, rest, x, y, z);
            }
        }
    }

    /// Where the walk along a path meets a leaf, every voxel that the path
    /// leads to holds the value that the walk returns.
    pub proof fn lemma_leaf_along_value_at(self, depth: nat, path: Seq<u8>, x: int, y: int, z: int)
        requires
            self.shaped(),
            self.fits(depth),
            path.len() <= depth,
            self.leaf_along(path),
            path_leads_to(path, depth, x, y, z),
        ensures
            self.value_at(depth, x, y, z) == self.get(path),
        decreases depth,
    {
        if let NodeView::Branch(c) = self {
            let below = (depth - 1) as nat;
            let i = path[0] as int;
            let rest = path.drop_first();
            lemma_path_leads_to_tail(path, depth, x, y, z);
            assert(c[i].shaped() && c[i].fits(below));
            c[i].lemma_leaf_along_value_at(below, rest, x, y, z);
        }
    }
}

impl<T> NodeView<T> {
    /// A valid node that holds one value at every voxel of its cube is a
    /// leaf of that value.
    pub proof fn lemma_uniform_content_is_leaf(self, value: T, x: int, y: int, z: int, scale: nat)
        requires
            self.wf(scale),
            aligned(x, y, z, scale),
            forall|a: int, b: int, c: int|
                in_cube(x, y, z, scale, a, b, c) ==> #[trigger] self.value_at(scale, a, b, c)
                    == value,
        ensures
            self == NodeView::Leaf(value),
        decreases scale,
    {
        lemma_pow2_pos(scale);
        assert(in_cube(x, y, z, scale, x, y, z));
        assert(self.value_at(scale, x, y, z) == value);
        if let NodeView::Branch(children) = self {
            let below = (scale - 1) as nat;
            assert forall|i: int| 0 <= i < 8 implies #[trigger] children[i] == NodeView::Leaf(
                value,
            ) by {
                let corner = octant_corner(x, y, z, scale as int, i);
                lemma_octant_corner(x, y, z, scale, i);
                assert(children[i].wf(below));
                assert forall|a: int, b: int, c: int|
                    in_cube(corner.0, corner.1, corner.2, below, a, b, c) implies #[trigger] children[i].value_at(
                        below,
                        a,
                        b,
                        c,
                    ) == value by {
                    assert(in_cube(x, y, z, scale, a, b, c) && octant_index(a, b, c, below) == i);
                    assert(self.value_at(scale, a, b, c) == value);
                }
                children[i].lemma_uniform_content_is_leaf(
                    value,
                    corner.0,
                    corner.1,
                    corner.2,
                    below,
                );
            }
            assert(Self::uniform(children));
        }
    }

    /// A valid node is determined by its content: two valid nodes over one
    /// cube that hold the same value at every voxel of it are the same.
    pub proof fn lemma_content_determines_shape(
        self,
        other: Self,
        x: int,
        y: int,
        z: int,
        scale: nat,
    )
        requires
            self.wf(scale),
            other.wf(scale),
            aligned(x, y, z, scale),
            forall|a: int, b: int, c: int|
                in_cube(x, y, z, scale, a, b, c) ==> #[trigger] self.value_at(scale, a, b, c)
                    == other.value_at(scale, a, b, c),
        ensures
            self == other,
        decreases scale,
    {
        match (self, other) {
            (NodeView::Leaf(value), _) => {
                assert forall|a: int, b: int, c: int|
                    in_cube(x, y, z, scale, a, b, c) implies #[trigger] other.value_at(
                        scale,
                        a,
                        b,
                        c,
                    ) == value by {
                    assert(self.value_at(scale, a, b, c) == value);
                }
                other.lemma_uniform_content_is_leaf(value, x, y, z, scale);
            },
            (NodeView::Branch(_), NodeView::Leaf(value)) => {
                assert forall|a: int, b: int, c: int|
                    in_cube(x, y, z, scale, a, b, c) implies #[trigger] self.value_at(
                        scale,
                        a,
                        b,
                        c,
                    ) == value by {
                    assert(other.value_at(scale, a, b, c) == value);
                }
                self.lemma_uniform_content_is_leaf(value, x, y, z, scale);
            },
            (NodeView::Branch(mine), NodeView::Branch(theirs)) => {
                let below = (scale - 1) as nat;
                assert forall|i: int| 0 <= i < 8 implies mine[i] == theirs[i] by {
                    let corner = octant_corner(x, y, z, scale as int, i);
                    lemma_octant_corner(x, y, z, scale, i);
                    assert(mine[i].wf(below) && theirs[i].wf(below));
                    assert forall|a: int, b: int, c: int|
                        in_cube(corner.0, corner.1, corner.2, below, a, b, c) implies #[trigger] mine[i].value_at(
                            below,
                            a,
                            b,
                            c,
                        ) == theirs[i].value_at(below, a, b, c) by {
                        assert(in_cube(x, y, z, scale, a, b, c) && octant_index(a, b, c, below)
                            == i);
                        assert(self.value_at(scale, a, b, c) == other.value_at(scale, a, b, c));
                    }
                    mine[i].lemma_content_determines_shape(
                        theirs[i],
                        corner.0,
                        corner.1,
                        corner.2,
                        below,
                    );
                }
                assert(mine =~= theirs);
            },
        }
    }
}

/// The mathematical model of an octree: the scale of the cube it spans
/// and the shape of its root.
pub struct OctreeView<T> {
    pub scale: int,
    pub root: NodeView<T>,
}

impl<T> OctreeView<T> {
    /// The tree of scale `scale` that holds `value` everywhere: one leaf.
    pub open spec fn filled(value: T, scale: int) -> Self {
        OctreeView { scale, root: NodeView::Leaf(value) }
    }

    /// The number of levels below the root that the scale leaves room for.
    pub open spec fn depth(self) -> nat {
        if self.scale > 0 {
            self.scale as nat
        } else {
            0
        }
    }

    /// Validity: every branch has eight children, none of them is eight
    /// equal leaves, and no node lies below the finest level.
    pub open spec fn wf(self) -> bool {
        self.root.wf(self.depth())
    }

    /// The number of nodes in the tree.
    pub open spec fn node_count(self) -> nat {
        self.root.node_count()
    }

    /// Whether `(x, y, z)` is a voxel of the tree.
    pub open spec fn contains(self, x: int, y: int, z: int) -> bool {
        &&& 0 <= self.scale
        &&& 0 <= x < pow2(self.scale as nat)
        &&& 0 <= y < pow2(self.scale as nat)
        &&& 0 <= z < pow2(self.scale as nat)
    }

    /// The value of the voxel `(x, y, z)`.
    pub open spec fn voxel(self, x: int, y: int, z: int) -> T {
        self.root.value_at(self.depth(), x, y, z)
    }

    /// Whether `pos` addresses a cube of the tree.
    pub open spec fn in_bounds(self, pos: OctPos) -> bool {
        pos.in_bounds(self.scale)
    }

    /// What a read at `pos` returns.
    pub open spec fn get(self, pos: OctPos) -> T {
        self.root.get(pos.spec_octant_path(self.scale))
    }

    /// Whether the cube at `pos` lies in a single leaf.
    pub open spec fn undivided(self, pos: OctPos) -> bool {
        self.root.leaf_along(pos.spec_octant_path(self.scale))
    }

    /// The tree after `value` is written at a position that is in bounds.
    pub open spec fn set(self, pos: OctPos, value: T) -> Self {
        OctreeView {
            scale: self.scale,
            root: self.root.set(pos.spec_octant_path(self.scale), value),
        }
    }

    /// The tree after a write is attempted at `pos`: written where the
    /// position is in bounds, unchanged where it is not.
    pub open spec fn write(self, pos: OctPos, value: T) -> Self {
        if self.in_bounds(pos) {
            self.set(pos, value)
        } else {
            self
        }
    }

    /// The tree after the writes of `writes` are attempted in order.
    pub open spec fn write_all(self, writes: Seq<(OctPos, T)>) -> Self
        decreases writes.len(),
    {
        if writes.len() == 0 {
            self
        } else {
            self.write_all(writes.drop_last()).write(writes.last().0, writes.last().1)
        }
    }

    /// A write keeps the tree valid and its scale.
    pub proof fn lemma_write_wf(self, pos: OctPos, value: T)
        requires
            self.wf(),
        ensures
            self.write(pos, value).wf(),
            self.write(pos, value).scale == self.scale,
    {
        if self.in_bounds(pos) {
            pos.lemma_octant_path_valid(self.scale);
            self.root.lemma_set_wf(self.depth(), pos.spec_octant_path(self.scale), value);
        }
    }

    /// Round trip: a read at the position that was just written returns the
    /// written value.
    pub proof fn lemma_set_then_get(self, pos: OctPos, value: T)
        requires
            self.wf(),
            self.in_bounds(pos),
        ensures
            self.set(pos, value).get(pos) == value,
    {
        pos.lemma_octant_path_valid(self.scale);
        self.root.lemma_set_get(pos.spec_octant_path(self.scale), value);
    }

    /// The content after a write: the voxels of the addressed cube hold the
    /// written value, every other voxel of the tree is as before.
    pub proof fn lemma_set_voxel(self, pos: OctPos, value: T, x: int, y: int, z: int)
        requires
            self.wf(),
            self.in_bounds(pos),
            self.contains(x, y, z),
        ensures
            self.set(pos, value).voxel(x, y, z) == if pos.covers(x, y, z) {
                value
            } else {
                self.voxel(x, y, z)
            },
    {
        pos.lemma_octant_path_valid(self.scale);
        pos.lemma_octant_path_covers(self.scale, x, y, z);
        self.root.lemma_set_value_at(
            self.depth(),
            pos.spec_octant_path(self.scale),
            value,
            x,
            y,
            z,
        );
    }

    /// A read returns the content of the voxel at the low corner of the
    /// addressed cube, whatever the level it is asked at.
    pub proof fn lemma_get_voxel(self, pos: OctPos)
        requires
            self.wf(),
            self.in_bounds(pos),
        ensures
            self.contains(pos.origin().0, pos.origin().1, pos.origin().2),
            self.get(pos) == self.voxel(pos.origin().0, pos.origin().1, pos.origin().2),
    {
        let (x, y, z) = pos.origin();
        pos.lemma_octant_path_valid(self.scale);
        pos.lemma_origin(self.scale);
        pos.lemma_octant_path_covers(self.scale, x, y, z);
        self.root.lemma_get_value_at(self.depth(), pos.spec_octant_path(self.scale), x, y, z);
    }

    /// Level-of-detail containment: where the cube at `pos` is not
    /// subdivided, the finest-level reads at any two voxels inside it agree.
    pub proof fn lemma_lod_containment(self, pos: OctPos, first: OctPos, second: OctPos)
        requires
            self.wf(),
            self.in_bounds(pos),
            self.undivided(pos),
            first.scale == 0 && self.in_bounds(first),
            second.scale == 0 && self.in_bounds(second),
            pos.covers(first.x as int, first.y as int, first.z as int),
            pos.covers(second.x as int, second.y as int, second.z as int),
        ensures
            self.get(first) == self.get(second),
            self.get(first) == self.get(pos),
    {
        self.lemma_undivided_voxel(pos, first.x as int, first.y as int, first.z as int);
        self.lemma_undivided_voxel(pos, second.x as int, second.y as int, second.z as int);
        self.lemma_get_voxel(first);
        self.lemma_get_voxel(second);
        first.lemma_finest_level();
        second.lemma_finest_level();
    }

    /// Where the cube at `pos` is not subdivided, every voxel inside it
    /// holds the value that a read at `pos` returns.
    pub proof fn lemma_undivided_voxel(self, pos: OctPos, x: int, y: int, z: int)
        requires
            self.wf(),
            self.in_bounds(pos),
            self.undivided(pos),
            self.contains(x, y, z),
            pos.covers(x, y, z),
        ensures
            self.voxel(x, y, z) == self.get(pos),
    {
        pos.lemma_octant_path_valid(self.scale);
        pos.lemma_octant_path_covers(self.scale, x, y, z);
        self.root.lemma_leaf_along_value_at(
            self.depth(),
            pos.spec_octant_path(self.scale),
            x,
            y,
            z,
        );
    }

    /// A coordinate at or beyond the edge of the tree is out of bounds at
    /// every level.
    pub proof fn lemma_beyond_edge_out_of_bounds(self, pos: OctPos)
        requires
            pos.x >= pow2(self.depth()) || pos.y >= pow2(self.depth()) || pos.z >= pow2(
                self.depth(),
            ),
        ensures
            !self.in_bounds(pos),
    {
        if 0 <= pos.scale <= self.scale {
            let below = (self.scale - pos.scale) as nat;
            if below < self.depth() {
                lemma_pow2_strictly_increases(below, self.depth());
            }
        }
    }

    /// Compaction holds after any sequence of writes to a fresh tree: the
    /// tree is valid, and so no branch in it has eight leaf children of
    /// equal value.
    pub proof fn lemma_writes_keep_compact(value: T, scale: int, writes: Seq<(OctPos, T)>)
        ensures
            Self::filled(value, scale).write_all(writes).wf(),
            Self::filled(value, scale).write_all(writes).root.compact(),
            Self::filled(value, scale).write_all(writes).scale == scale,
        decreases writes.len(),
    {
        if writes.len() > 0 {
            Self::lemma_writes_keep_compact(value, scale, writes.drop_last());
            Self::filled(value, scale).write_all(writes.drop_last()).lemma_write_wf(
                writes.last().0,
                writes.last().1,
            );
        }
    }
}

impl<T> OctreeView<T> {
    /// A valid tree that has voxels is determined by its scale and its
    /// content.
    pub proof fn lemma_content_determines_tree(self, other: Self)
        requires
            self.wf(),
            other.wf(),
            0 <= self.scale == other.scale,
            forall|x: int, y: int, z: int|
                self.contains(x, y, z) ==> #[trigger] self.voxel(x, y, z) == other.voxel(x, y, z),
        ensures
            self == other,
    {
        let depth = self.depth();
        lemma_pow2_pos(depth);
        assert forall|a: int, b: int, c: int|
            in_cube(0, 0, 0, depth, a, b, c) implies #[trigger] self.root.value_at(depth, a, b, c)
            == other.root.value_at(depth, a, b, c) by {
            assert(self.contains(a, b, c));
            assert(self.voxel(a, b, c) == other.voxel(a, b, c));
        }
        self.root.lemma_content_determines_shape(other.root, 0, 0, 0, depth);
    }

    /// Writes commute where they do not compete: two writes whose cubes
    /// share no voxel, or that write one value, give the same tree in
    /// either order.
    pub proof fn lemma_writes_commute(self, first: OctPos, a: T, second: OctPos, b: T)
        requires
            self.wf(),
            a == b || forall|x: int, y: int, z: int|
                self.contains(x, y, z) ==> !(#[trigger] first.covers(x, y, z) && second.covers(
                    x,
                    y,
                    z,
                )),
        ensures
            self.write(first, a).write(second, b) == self.write(second, b).write(first, a),
    {
        let one = self.write(first, a);
        let two = self.write(second, b);
        self.lemma_write_wf(first, a);
        self.lemma_write_wf(second, b);
        one.lemma_write_wf(second, b);
        two.lemma_write_wf(first, a);
        if self.scale >= 0 {
            assert forall|x: int, y: int, z: int|
                self.contains(x, y, z) implies #[trigger] one.write(second, b).voxel(x, y, z)
                == two.write(first, a).voxel(x, y, z) by {
                if self.in_bounds(first) {
                    self.lemma_set_voxel(first, a, x, y, z);
                    two.lemma_set_voxel(first, a, x, y, z);
                }
                if self.in_bounds(second) {
                    self.lemma_set_voxel(second, b, x, y, z);
                    one.lemma_set_voxel(second, b, x, y, z);
                }
            }
            one.write(second, b).lemma_content_determines_tree(two.write(first, a));
        }
    }

    /// Writing twice what was written once changes nothing.
    pub proof fn lemma_write_idempotent(self, pos: OctPos, value: T)
        requires
            self.wf(),
        ensures
            self.write(pos, value).write(pos, value) == self.write(pos, value),
    {
        let once = self.write(pos, value);
        self.lemma_write_wf(pos, value);
        once.lemma_write_wf(pos, value);
        if self.scale >= 0 {
            assert forall|x: int, y: int, z: int|
                once.contains(x, y, z) implies #[trigger] once.write(pos, value).voxel(x, y, z)
                == once.voxel(x, y, z) by {
                if self.in_bounds(pos) {
                    self.lemma_set_voxel(pos, value, x, y, z);
                    once.lemma_set_voxel(pos, value, x, y, z);
                }
            }
            once.write(pos, value).lemma_content_determines_tree(once);
        }
    }
}

} // verus!
