//! The sparse voxel octree: the nodes and the tree that owns them.

use crate::voxel::subdivmath::{
    lemma_valid_path_tail, valid_path, OctPos, Scale, SubdivError,
};
use crate::voxel::subdivmodel::{NodeView, OctreeView};
use vstd::laws_eq::obeys_concrete_eq;
use vstd::prelude::*;
use vstd::slice::slice_subrange;

verus! {

/// An octree node: a leaf that stands for every voxel of its cube, or a
/// branch that owns one child per octant.
#[derive(Debug, PartialEq, Eq)]
pub enum NaiveOctreeNode<T> {
    Leaf(T),
    Branch(Vec<NaiveOctreeNode<T>>),
}

impl<T> NaiveOctreeNode<T> {
    /// The shape of the node.
    pub open spec fn shape(self) -> NodeView<T>
        decreases self,
    {
        match self {
            NaiveOctreeNode::Leaf(v) => NodeView::Leaf(v),
            NaiveOctreeNode::Branch(c) => NodeView::Branch(
                Seq::new(
                    c@.len(),
                    |i: int|
                        if 0 <= i < c@.len() {
                            c@[i].shape()
                        } else {
                            arbitrary()
                        },
                ),
            ),
        }
    }

    /// The views of the children of a branch, in octant order.
    pub open spec fn children_view(children: Seq<Self>) -> Seq<NodeView<T>> {
        Seq::new(children.len(), |i: int| children[i]@)
    }

    /// The view of a branch is the branch over its children's views.
    pub proof fn lemma_branch_view(children: Vec<Self>)
        ensures
            (NaiveOctreeNode::Branch(children))@ == NodeView::Branch(
                Self::children_view(children@),
            ),
    {
        let node = NaiveOctreeNode::Branch(children);
        assert(node@->Branch_0 =~= Self::children_view(children@));
    }
}

impl<T> View for NaiveOctreeNode<T> {
    type V = NodeView<T>;

    open spec fn view(&self) -> NodeView<T> {
        self.shape()
    }
}

/// The count `n` as a `usize`, held at `usize::MAX` where it is larger.
pub open spec fn saturated(n: nat) -> usize {
    if n > usize::MAX {
        usize::MAX
    } else {
        n as usize
    }
}

impl<T> NaiveOctreeNode<T> {
    /// Counts the nodes of the subtree. The count saturates at
    /// `usize::MAX`.
    pub fn node_count(&self) -> (n: usize)
        ensures
            n == saturated(self@.node_count()),
        decreases self,
    {
        match self {
            NaiveOctreeNode::Leaf(_) => 1,
            NaiveOctreeNode::Branch(children) => {
                proof {
                    Self::lemma_branch_view(*children);
                }
                let ghost views = Self::children_view(children@);
                let mut total: usize = 0;
                let mut i: usize = 0;
                while i < children.len()
                    invariant
                        i <= children.len(),
                        forall|j: int|
                            0 <= j < children.len() ==> decreases_to!(self => #[trigger] children@[j]),
                        views == Self::children_view(children@),
                        total == saturated(NodeView::node_count_of(views, i as nat)),
                    decreases children.len() - i,
                {
                    let below = children[i].node_count();
                    total = total.saturating_add(below);
                    i = i + 1;
                }
                total.saturating_add(1)
            },
        }
    }
}

impl<T: Copy> NaiveOctreeNode<T> {
    /// A leaf that holds `value`.
    pub fn new_leaf(value: T) -> (node: Self)
        ensures
            node@ == NodeView::Leaf(value),
    {
        NaiveOctreeNode::Leaf(value)
    }

    /// Reads the value that `path` addresses, stopping at the first leaf on
    /// the way.
    pub fn get(&self, path: &[u8]) -> (value: T)
        requires
            self@.shaped(),
            valid_path(path@),
        ensures
            value == self@.get(path@),
        decreases self,
    {
        match self {
            NaiveOctreeNode::Leaf(v) => *v,
            NaiveOctreeNode::Branch(children) => {
                proof {
                    Self::lemma_branch_view(*children);
                    let views = Self::children_view(children@);
                    assert(views[0].shaped());
                    if path.len() > 0 {
                        assert(views[path[0] as int].shaped());
                    }
                }
                if path.len() == 0 {
                    children[0].get(path)
                } else {
                    let rest = slice_subrange(path, 1, path.len());
                    proof {
                        lemma_valid_path_tail(path@);
                    }
                    children[path[0] as usize].get(rest)
                }
            },
        }
    }
}

impl<T: Copy + PartialEq> NaiveOctreeNode<T> {
    /// The children of a leaf of `value` once it is subdivided: eight leaves
    /// of that value.
    fn subdivided(value: T) -> (children: Vec<Self>)
        ensures
            Self::children_view(children@) == NodeView::Leaf(value).split(),
    {
        let mut children: Vec<Self> = Vec::with_capacity(8);
        let mut i: usize = 0;
        while i < 8
            invariant
                i <= 8,
                children.len() == i,
                forall|j: int| 0 <= j < i ==> (#[trigger] children@[j])@ == NodeView::Leaf(value),
            decreases 8 - i,
        {
            children.push(NaiveOctreeNode::Leaf(value));
            i = i + 1;
        }
        proof {
            assert(Self::children_view(children@) =~= NodeView::Leaf(value).split());
        }
        children
    }

    /// The value that eight equal leaves share, or `None` where `children`
    /// are anything else.
    fn uniform_value(children: &Vec<Self>) -> (merged: Option<T>)
        requires
            children.len() == 8,
            obeys_concrete_eq::<T>(),
        ensures
            merged is Some <==> NodeView::uniform(Self::children_view(children@)),
            merged matches Some(v) ==> Self::children_view(children@)[0] == NodeView::Leaf(v),
    {
        let ghost views = Self::children_view(children@);
        match &children[0] {
            NaiveOctreeNode::Branch(_) => None,
            NaiveOctreeNode::Leaf(first) => {
                let first: T = *first;
                let mut i: usize = 1;
                while i < 8
                    invariant
                        1 <= i <= 8,
                        children.len() == 8,
                        views == Self::children_view(children@),
                        views[0] == NodeView::Leaf(first),
                        forall|j: int| 0 <= j < i ==> #[trigger] views[j] == views[0],
                        obeys_concrete_eq::<T>(),
                    decreases 8 - i,
                {
                    proof {
                        reveal(obeys_concrete_eq);
                    }
                    match &children[i] {
                        NaiveOctreeNode::Leaf(v) => {
                            if !(*v == first) {
                                assert(views[i as int] != views[0]);
                                return None;
                            }
                        },
                        NaiveOctreeNode::Branch(_) => {
                            assert(views[i as int] != views[0]);
                            return None;
                        },
                    }
                    i = i + 1;
                }
                Some(first)
            },
        }
    }

    /// Writes `value` at the end of `path`. Leaves on the way are subdivided
    /// one level at a time, the addressed node becomes a leaf of `value`,
    /// and on the way back every branch whose eight children have become
    /// equal leaves collapses into one leaf.
    pub fn set(&mut self, path: &[u8], value: T)
        requires
            old(self)@.shaped(),
            valid_path(path@),
            obeys_concrete_eq::<T>(),
        ensures
            final(self)@ == old(self)@.set(path@, value),
            final(self)@.shaped(),
        decreases path@.len(),
    {
        proof {
            old(self)@.lemma_set_shaped(path@, value);
        }
        if path.len() == 0 {
            *self = NaiveOctreeNode::Leaf(value);
            return ;
        }
        let rest = slice_subrange(path, 1, path.len());
        let at: usize = path[0] as usize;
        proof {
            lemma_valid_path_tail(path@);
        }
        if let NaiveOctreeNode::Leaf(fill) = self {
            let fill: T = *fill;
            let children = Self::subdivided(fill);
            proof {
                Self::lemma_branch_view(children);
            }
            *self = NaiveOctreeNode::Branch(children);
        }
        let ghost before = old(self)@.split();
        let ghost updated = before.update(at as int, before[at as int].set(rest@, value));
        assert(self@ == NodeView::Branch(before));
        assert(rest@ == path@.drop_first());
        let merged: Option<T> = match self {
            NaiveOctreeNode::Branch(children) => {
                proof {
                    Self::lemma_branch_view(*children);
                    assert(before[at as int].shaped());
                }
                children[at].set(rest, value);
                proof {
                    assert(Self::children_view(children@) =~= updated);
                    Self::lemma_branch_view(*children);
                }
                match &children[at] {
                    NaiveOctreeNode::Leaf(_) => Self::uniform_value(children),
                    NaiveOctreeNode::Branch(_) => {
                        assert(updated[at as int] != updated[0] || !(updated[0] is Leaf));
                        None
                    },
                }
            },
            NaiveOctreeNode::Leaf(_) => None,
        };
        assert(self@ == NodeView::Branch(updated));
        assert(merged is Some <==> NodeView::uniform(updated));
        if let Some(v) = merged {
            *self = NaiveOctreeNode::Leaf(v);
        }
    }
}

/// A sparse voxel octree over a cube of `2^scale` voxels per axis. It owns
/// its root, and it is valid at all times: writes restore compaction
/// before they return.
#[derive(Debug, PartialEq, Eq)]
pub struct NaiveVoxelOctree<T> {
    scale: Scale,
    root: NaiveOctreeNode<T>,
}

impl<T> View for NaiveVoxelOctree<T> {
    type V = OctreeView<T>;

    closed spec fn view(&self) -> OctreeView<T> {
        OctreeView { scale: self.scale as int, root: self.root@ }
    }
}

impl<T> NaiveVoxelOctree<T> {
    #[verifier::type_invariant]
    spec fn valid(self) -> bool {
        self@.wf()
    }
}

impl<T: Copy> NaiveVoxelOctree<T> {
    /// A tree of the given scale in which every voxel holds `default`: a
    /// single leaf, whatever the scale.
    pub fn new(default: T, scale: Scale) -> (tree: Self)
        ensures
            tree@ == OctreeView::filled(default, scale as int),
            tree@.node_count() == 1,
            tree@.wf(),
    {
        NaiveVoxelOctree { scale, root: NaiveOctreeNode::new_leaf(default) }
    }

    /// The scale of the tree.
    pub fn scale(&self) -> (scale: Scale)
        ensures
            scale == self@.scale,
    {
        self.scale
    }

    /// Counts the nodes of the tree. The count saturates at `usize::MAX`.
    pub fn node_count(&self) -> (n: usize)
        ensures
            n == saturated(self@.node_count()),
    {
        self.root.node_count()
    }

    /// The root node, for inspection.
    pub fn root(&self) -> (root: &NaiveOctreeNode<T>)
        ensures
            root@ == self@.root,
            self@.wf(),
    {
        proof {
            use_type_invariant(self);
        }
        &self.root
    }

    /// Reads the value at `pos`. The walk stops at the first leaf it meets,
    /// so a coarse leaf answers for every finer position inside it. A
    /// position that does not fit in the tree is refused.
    pub fn get(&self, pos: OctPos) -> (r: Result<T, SubdivError>)
        ensures
            self@.wf(),
            self@.in_bounds(pos) ==> r == Ok::<T, SubdivError>(self@.get(pos)),
            self@.in_bounds(pos) ==> self@.get(pos) == self@.voxel(
                pos.origin().0,
                pos.origin().1,
                pos.origin().2,
            ),
            !self@.in_bounds(pos) ==> r == Err::<T, SubdivError>(SubdivError::OutOfBounds),
    {
        proof {
            use_type_invariant(self);
        }
        match pos.octant_path(self.scale) {
            Err(e) => Err(e),
            Ok(path) => {
                proof {
                    pos.lemma_octant_path_valid(self.scale as int);
                    self@.lemma_get_voxel(pos);
                }
                Ok(self.root.get(path.as_slice()))
            },
        }
    }
}

impl<T: Copy + PartialEq> NaiveVoxelOctree<T> {
    /// Writes `value` to the whole cube at `pos`. A position that does not
    /// fit in the tree is refused, and the tree is then left as it was.
    pub fn set(&mut self, pos: OctPos, value: T) -> (r: Result<(), SubdivError>)
        requires
            obeys_concrete_eq::<T>(),
        ensures
            r is Ok <==> old(self)@.in_bounds(pos),
            r is Err ==> r == Err::<(), SubdivError>(SubdivError::OutOfBounds) && *final(self)
                == *old(self),
            final(self)@ == old(self)@.write(pos, value),
            final(self)@.wf(),
            forall|x: int, y: int, z: int|
                old(self)@.contains(x, y, z) ==> #[trigger] final(self)@.voxel(x, y, z) == if r is Ok
                    && pos.covers(x, y, z) {
                    value
                } else {
                    old(self)@.voxel(x, y, z)
                },
    {
        proof {
            use_type_invariant(&*self);
        }
        match pos.octant_path(self.scale) {
            Err(e) => Err(e),
            Ok(path) => {
                proof {
                    pos.lemma_octant_path_valid(self.scale as int);
                    self@.lemma_write_wf(pos, value);
                    assert forall|x: int, y: int, z: int| self@.contains(x, y, z) implies #[trigger] self@.set(
                        pos,
                        value,
                    ).voxel(x, y, z) == if pos.covers(x, y, z) {
                        value
                    } else {
                        self@.voxel(x, y, z)
                    } by {
                        self@.lemma_set_voxel(pos, value, x, y, z);
                    }
                }
                let mut root = NaiveOctreeNode::Leaf(value);
                std::mem::swap(&mut root, &mut self.root);
                root.set(path.as_slice(), value);
                self.root = root;
                Ok(())
            },
        }
    }
}

} // verus!
