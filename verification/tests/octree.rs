use gestalt::voxel::subdivmath::{opos, SubdivError};
use gestalt::voxel::subdivstorage::{NaiveOctreeNode, NaiveVoxelOctree};

fn compact(node: &NaiveOctreeNode<u8>) -> bool {
    match node {
        NaiveOctreeNode::Leaf(_) => true,
        NaiveOctreeNode::Branch(children) => {
            if children.len() != 8 {
                return false;
            }
            let uniform = match &children[0] {
                NaiveOctreeNode::Leaf(first) => children
                    .iter()
                    .all(|c| matches!(c, NaiveOctreeNode::Leaf(v) if v == first)),
                NaiveOctreeNode::Branch(_) => false,
            };
            !uniform && children.iter().all(compact)
        }
    }
}

fn height(node: &NaiveOctreeNode<u8>) -> usize {
    match node {
        NaiveOctreeNode::Leaf(_) => 0,
        NaiveOctreeNode::Branch(children) => 1 + children.iter().map(height).max().unwrap_or(0),
    }
}

fn child<'a>(node: &'a NaiveOctreeNode<u8>, octant: usize) -> &'a NaiveOctreeNode<u8> {
    match node {
        NaiveOctreeNode::Branch(children) => &children[octant],
        NaiveOctreeNode::Leaf(_) => panic!("a leaf has no children"),
    }
}

fn is_leaf_of(node: &NaiveOctreeNode<u8>, value: u8) -> bool {
    matches!(node, NaiveOctreeNode::Leaf(v) if *v == value)
}

struct Lcg(u64);

impl Lcg {
    fn next(&mut self, bound: u32) -> u32 {
        self.0 = self.0.wrapping_mul(6364136223846793005).wrapping_add(1442695040888963407);
        ((self.0 >> 33) as u32) % bound
    }
}

#[test]
fn new_tree_is_one_leaf_whatever_the_scale() {
    for scale in [-3i8, 0, 1, 6, 32, 127] {
        let tree = NaiveVoxelOctree::new(7u8, scale);
        assert_eq!(tree.node_count(), 1);
        assert_eq!(tree.scale(), scale);
        assert!(is_leaf_of(tree.root(), 7));
    }
}

#[test]
fn new_tree_reads_the_default_everywhere() {
    let tree = NaiveVoxelOctree::new(5u8, 3);
    for x in 0..8 {
        for y in 0..8 {
            for z in 0..8 {
                assert_eq!(tree.get(opos(x, y, z, 0)), Ok(5));
            }
        }
    }
    assert_eq!(tree.get(opos(0, 0, 0, 3)), Ok(5));
    assert_eq!(tree.get(opos(1, 1, 1, 2)), Ok(5));
}

#[test]
fn set_then_get_returns_the_value() {
    for level in 0..=4i8 {
        let side = 1u32 << (4 - level);
        for x in 0..side {
            for y in 0..side {
                for z in 0..side {
                    let mut tree = NaiveVoxelOctree::new(0u8, 4);
                    let pos = opos(x, y, z, level);
                    assert_eq!(tree.set(pos, 9), Ok(()));
                    assert_eq!(tree.get(pos), Ok(9));
                }
            }
        }
    }
}

#[test]
fn set_writes_the_cube_and_nothing_else() {
    let mut tree = NaiveVoxelOctree::new(0u8, 3);
    assert_eq!(tree.set(opos(1, 0, 1, 1), 4), Ok(()));
    for x in 0..8u32 {
        for y in 0..8u32 {
            for z in 0..8u32 {
                let inside = x / 2 == 1 && y / 2 == 0 && z / 2 == 1;
                assert_eq!(tree.get(opos(x, y, z, 0)), Ok(if inside { 4 } else { 0 }));
            }
        }
    }
}

#[test]
fn set_subdivides_one_level_at_a_time() {
    let mut tree = NaiveVoxelOctree::new(0u8, 3);
    tree.set(opos(0, 0, 0, 0), 1).unwrap();
    // One branch per level on the way down, seven leaf siblings each, and
    // the written leaf: 3 branches + 3 * 7 + 1 leaves.
    assert_eq!(tree.node_count(), 25);
    assert_eq!(height(tree.root()), 3);
}

#[test]
fn set_at_the_root_replaces_the_tree() {
    let mut tree = NaiveVoxelOctree::new(0u8, 3);
    tree.set(opos(5, 1, 2, 0), 1).unwrap();
    assert!(tree.node_count() > 1);
    tree.set(opos(0, 0, 0, 3), 8).unwrap();
    assert_eq!(tree.node_count(), 1);
    assert!(is_leaf_of(tree.root(), 8));
}

#[test]
fn writing_the_value_already_there_changes_nothing() {
    let mut tree = NaiveVoxelOctree::new(3u8, 5);
    tree.set(opos(17, 4, 30, 0), 3).unwrap();
    assert_eq!(tree.node_count(), 1);
    assert!(is_leaf_of(tree.root(), 3));
}

#[test]
fn coarse_write_over_a_subdivided_cube_merges_it() {
    let mut tree = NaiveVoxelOctree::new(0u8, 3);
    tree.set(opos(4, 4, 4, 0), 1).unwrap();
    tree.set(opos(7, 7, 7, 0), 2).unwrap();
    tree.set(opos(1, 1, 1, 2), 0).unwrap();
    assert_eq!(tree.node_count(), 1);
    assert!(is_leaf_of(tree.root(), 0));
}

#[test]
fn read_at_a_coarse_level_of_a_subdivided_cube_goes_to_the_low_corner() {
    let mut tree = NaiveVoxelOctree::new(0u8, 3);
    tree.set(opos(4, 4, 4, 0), 1).unwrap();
    tree.set(opos(5, 4, 4, 0), 2).unwrap();
    assert_eq!(tree.get(opos(1, 1, 1, 2)), Ok(1));
    assert_eq!(tree.get(opos(2, 2, 2, 1)), Ok(1));
    assert_eq!(tree.get(opos(0, 0, 0, 3)), Ok(0));
}

#[test]
fn reads_inside_an_undivided_cube_agree() {
    let mut tree = NaiveVoxelOctree::new(0u8, 4);
    tree.set(opos(1, 0, 1, 2), 6).unwrap();
    tree.set(opos(0, 0, 0, 0), 2).unwrap();
    let expected = tree.get(opos(1, 0, 1, 2)).unwrap();
    assert_eq!(expected, 6);
    for x in 4..8 {
        for y in 0..4 {
            for z in 4..8 {
                assert_eq!(tree.get(opos(x, y, z, 0)), Ok(expected));
                assert_eq!(tree.get(opos(x / 2, y / 2, z / 2, 1)), Ok(expected));
            }
        }
    }
}

#[test]
fn out_of_bounds_is_refused_and_changes_nothing() {
    let mut tree = NaiveVoxelOctree::new(0u8, 2);
    tree.set(opos(1, 2, 3, 0), 5).unwrap();
    let count = tree.node_count();
    for level in [-1i8, 0, 1, 2, 3, 100] {
        for pos in [opos(4, 0, 0, level), opos(0, 4, 0, level), opos(0, 0, 4, level), opos(u32::MAX, 9, 4, level)] {
            assert_eq!(tree.get(pos), Err(SubdivError::OutOfBounds));
            assert_eq!(tree.set(pos, 1), Err(SubdivError::OutOfBounds));
        }
    }
    assert_eq!(tree.set(opos(2, 0, 0, 1), 1), Err(SubdivError::OutOfBounds));
    assert_eq!(tree.set(opos(0, 0, 0, 3), 1), Err(SubdivError::OutOfBounds));
    assert_eq!(tree.set(opos(0, 0, 0, -1), 1), Err(SubdivError::OutOfBounds));
    assert_eq!(tree.node_count(), count);
    for x in 0..4 {
        for y in 0..4 {
            for z in 0..4 {
                let expected = if (x, y, z) == (1, 2, 3) { 5 } else { 0 };
                assert_eq!(tree.get(opos(x, y, z, 0)), Ok(expected));
            }
        }
    }
}

#[test]
fn tree_of_negative_scale_has_no_addressable_cube() {
    let mut tree = NaiveVoxelOctree::new(1u8, -1);
    assert_eq!(tree.get(opos(0, 0, 0, 0)), Err(SubdivError::OutOfBounds));
    assert_eq!(tree.get(opos(0, 0, 0, -1)), Err(SubdivError::OutOfBounds));
    assert_eq!(tree.set(opos(0, 0, 0, 0), 2), Err(SubdivError::OutOfBounds));
    assert_eq!(tree.node_count(), 1);
}

#[test]
fn tree_of_scale_zero_is_one_voxel() {
    let mut tree = NaiveVoxelOctree::new(1u8, 0);
    assert_eq!(tree.get(opos(0, 0, 0, 0)), Ok(1));
    assert_eq!(tree.set(opos(0, 0, 0, 0), 2), Ok(()));
    assert_eq!(tree.get(opos(0, 0, 0, 0)), Ok(2));
    assert_eq!(tree.set(opos(1, 0, 0, 0), 3), Err(SubdivError::OutOfBounds));
    assert_eq!(tree.node_count(), 1);
}

#[test]
fn tree_stays_compact_under_any_writes() {
    let mut rng = Lcg(42);
    let mut tree = NaiveVoxelOctree::new(0u8, 4);
    let mut dense = vec![0u8; 16 * 16 * 16];
    for _ in 0..4000 {
        let level = rng.next(5) as i8;
        let side = 16 >> level;
        let (x, y, z) = (rng.next(side + 1), rng.next(side + 1), rng.next(side + 1));
        let value = rng.next(3) as u8;
        let result = tree.set(opos(x, y, z, level), value);
        if x < side && y < side && z < side {
            assert_eq!(result, Ok(()));
            let edge = 1u32 << level;
            for a in x * edge..(x + 1) * edge {
                for b in y * edge..(y + 1) * edge {
                    for c in z * edge..(z + 1) * edge {
                        dense[(a + 16 * (b + 16 * c)) as usize] = value;
                    }
                }
            }
        } else {
            assert_eq!(result, Err(SubdivError::OutOfBounds));
        }
        assert!(compact(tree.root()));
        assert!(height(tree.root()) <= 4);
    }
    for a in 0..16u32 {
        for b in 0..16u32 {
            for c in 0..16u32 {
                assert_eq!(tree.get(opos(a, b, c, 0)), Ok(dense[(a + 16 * (b + 16 * c)) as usize]));
            }
        }
    }
}

#[test]
fn write_order_does_not_matter_for_the_shape() {
    let cells = [(0u32, 0u32, 0u32), (1, 0, 0), (0, 1, 0), (1, 1, 0), (0, 0, 1), (1, 0, 1), (0, 1, 1), (1, 1, 1)];
    let mut forward = NaiveVoxelOctree::new(0u8, 2);
    for (x, y, z) in cells {
        forward.set(opos(x, y, z, 0), 3).unwrap();
    }
    let mut backward = NaiveVoxelOctree::new(0u8, 2);
    for (x, y, z) in cells.iter().rev() {
        backward.set(opos(*x, *y, *z, 0), 3).unwrap();
    }
    assert_eq!(forward.node_count(), 9);
    assert_eq!(backward.node_count(), 9);
    assert!(is_leaf_of(child(forward.root(), 0), 3));
    assert!(is_leaf_of(child(backward.root(), 0), 3));
}

#[test]
fn scenario_two_writes_then_fill_an_octant() {
    let mut tree = NaiveVoxelOctree::new(0u8, 2);
    assert_eq!(tree.set(opos(3, 3, 3, 0), 9), Ok(()));
    // A tree of scale 2 spans 4 voxels per axis, so this write is refused
    // and leaves the tree as it is.
    assert_eq!(tree.set(opos(4, 4, 4, 0), 9), Err(SubdivError::OutOfBounds));
    assert_eq!(tree.get(opos(3, 3, 3, 0)), Ok(9));
    assert_eq!(tree.get(opos(0, 0, 0, 0)), Ok(0));
    assert!(tree.node_count() > 1);
    assert_eq!(tree.node_count(), 17);
    let octant = [(2u32, 2u32, 2u32), (3, 2, 2), (2, 3, 2), (3, 3, 2), (2, 2, 3), (3, 2, 3), (2, 3, 3), (3, 3, 3)];
    for (i, (x, y, z)) in octant.iter().enumerate() {
        // The cell (3, 3, 3) holds 9 already: the octant is uniform once
        // the seven others are written.
        assert_eq!(is_leaf_of(child(tree.root(), 7), 9), i == 7);
        assert_eq!(tree.set(opos(*x, *y, *z, 0), 9), Ok(()));
    }
    assert!(is_leaf_of(child(tree.root(), 7), 9));
    assert_eq!(tree.node_count(), 9);
    assert_eq!(tree.get(opos(1, 1, 1, 1)), Ok(9));
    assert_eq!(tree.get(opos(0, 0, 0, 0)), Ok(0));
}

#[test]
fn scenario_on_a_tree_of_eight_voxels_per_axis() {
    let mut tree = NaiveVoxelOctree::new(0u8, 3);
    assert_eq!(tree.set(opos(3, 3, 3, 0), 9), Ok(()));
    assert_eq!(tree.set(opos(4, 4, 4, 0), 9), Ok(()));
    assert_eq!(tree.get(opos(3, 3, 3, 0)), Ok(9));
    assert_eq!(tree.get(opos(0, 0, 0, 0)), Ok(0));
    assert!(tree.node_count() > 1);
    let octant = [(2u32, 2u32, 2u32), (3, 2, 2), (2, 3, 2), (3, 3, 2), (2, 2, 3), (3, 2, 3), (2, 3, 3), (3, 3, 3)];
    for (i, (x, y, z)) in octant.iter().enumerate() {
        assert_eq!(is_leaf_of(child(child(tree.root(), 0), 7), 9), i == 7);
        assert_eq!(tree.set(opos(*x, *y, *z, 0), 9), Ok(()));
    }
    assert!(is_leaf_of(child(child(tree.root(), 0), 7), 9));
    assert_eq!(tree.get(opos(1, 1, 1, 1)), Ok(9));
    assert_eq!(tree.get(opos(4, 4, 4, 0)), Ok(9));
    assert_eq!(tree.get(opos(5, 4, 4, 0)), Ok(0));
    assert!(compact(tree.root()));
}

#[test]
fn node_set_and_get_walk_a_path() {
    let mut node = NaiveOctreeNode::new_leaf(0u8);
    node.set(&[7, 0], 4);
    assert_eq!(node.get(&[7, 0]), 4);
    assert_eq!(node.get(&[7, 1]), 0);
    assert_eq!(node.get(&[7]), 4);
    assert_eq!(node.get(&[]), 0);
    assert_eq!(node.get(&[3, 5, 1]), 0);
    assert_eq!(node.node_count(), 17);
    node.set(&[], 2);
    assert_eq!(node.node_count(), 1);
    assert_eq!(node.get(&[1, 2, 3]), 2);
}

#[test]
fn deep_tree_is_written_and_read() {
    let mut tree = NaiveVoxelOctree::new(0u8, 127);
    assert_eq!(tree.set(opos(u32::MAX, 0, 77, 0), 1), Ok(()));
    assert_eq!(tree.get(opos(u32::MAX, 0, 77, 0)), Ok(1));
    assert_eq!(tree.get(opos(u32::MAX - 1, 0, 77, 0)), Ok(0));
    assert_eq!(tree.node_count(), 127 * 8 + 1);
    assert_eq!(tree.set(opos(0, 0, 0, 127), 0), Ok(()));
    assert_eq!(tree.node_count(), 1);
}

#[test]
fn writes_to_disjoint_cubes_commute() {
    let writes = [(opos(1, 0, 0, 1), 4u8), (opos(0, 0, 0, 0), 2), (opos(3, 3, 3, 0), 2), (opos(0, 1, 1, 1), 7)];
    let mut forward = NaiveVoxelOctree::new(0u8, 2);
    for (pos, value) in writes {
        forward.set(pos, value).unwrap();
    }
    let mut backward = NaiveVoxelOctree::new(0u8, 2);
    for (pos, value) in writes.iter().rev() {
        backward.set(*pos, *value).unwrap();
    }
    assert_eq!(forward, backward);
}

#[test]
fn writing_twice_is_writing_once() {
    let mut once = NaiveVoxelOctree::new(0u8, 3);
    once.set(opos(5, 2, 7, 0), 1).unwrap();
    once.set(opos(1, 1, 0, 1), 2).unwrap();
    let mut twice = NaiveVoxelOctree::new(0u8, 3);
    twice.set(opos(5, 2, 7, 0), 1).unwrap();
    twice.set(opos(1, 1, 0, 1), 2).unwrap();
    twice.set(opos(1, 1, 0, 1), 2).unwrap();
    assert_eq!(once, twice);
}

#[test]
fn trees_with_one_content_have_one_shape() {
    // Painted cell by cell, and painted as one coarse cube.
    let mut fine = NaiveVoxelOctree::new(0u8, 3);
    for x in 4..8 {
        for y in 0..4 {
            for z in 0..4 {
                fine.set(opos(x, y, z, 0), 6).unwrap();
            }
        }
    }
    let mut coarse = NaiveVoxelOctree::new(0u8, 3);
    coarse.set(opos(1, 0, 0, 2), 6).unwrap();
    assert_eq!(fine, coarse);
    assert_eq!(fine.node_count(), 9);
}
