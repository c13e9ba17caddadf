use gestalt::voxel::subdivmath::opos;
use gestalt::voxel::subdivstorage::NaiveVoxelOctree;
use gestalt::voxel::subdivtraversal::LeafCube;

#[test]
fn fresh_tree_has_one_leaf_over_the_whole_cube() {
    let tree = NaiveVoxelOctree::new(3u8, 6);
    let leaves = tree.leaves();
    assert_eq!(leaves, vec![LeafCube { x: 0, y: 0, z: 0, scale: 6, value: 3u8 }]);
    assert_eq!(leaves[0].edge_length(), Some(64));
}

#[test]
fn edge_length_is_two_to_the_scale() {
    for scale in 0..=127i8 {
        let cube = LeafCube { x: 0, y: 0, z: 0, scale, value: 0u8 };
        assert_eq!(cube.edge_length(), Some(1u128 << scale));
    }
    let cube = LeafCube { x: 0, y: 0, z: 0, scale: -1, value: 0u8 };
    assert_eq!(cube.edge_length(), None);
}

#[test]
fn tree_of_negative_scale_lists_its_root() {
    let tree = NaiveVoxelOctree::new(3u8, -4);
    let leaves = tree.leaves();
    assert_eq!(leaves, vec![LeafCube { x: 0, y: 0, z: 0, scale: -4, value: 3u8 }]);
    assert_eq!(leaves[0].edge_length(), None);
}

#[test]
fn leaves_come_depth_first_in_octant_order() {
    let mut tree = NaiveVoxelOctree::new(0u8, 2);
    tree.set(opos(3, 0, 0, 0), 5).unwrap();
    let leaves = tree.leaves();
    let mut expected = vec![LeafCube { x: 0, y: 0, z: 0, scale: 1, value: 0u8 }];
    // Octant 1 of the root is subdivided; its octant 1 holds the write.
    for (i, (dx, dy, dz)) in
        [(0, 0, 0), (1, 0, 0), (0, 1, 0), (1, 1, 0), (0, 0, 1), (1, 0, 1), (0, 1, 1), (1, 1, 1)].iter().enumerate()
    {
        expected.push(LeafCube { x: 2 + dx, y: *dy, z: *dz, scale: 0, value: if i == 1 { 5 } else { 0 } });
    }
    for (dx, dy, dz) in [(0, 1, 0), (1, 1, 0), (0, 0, 1), (1, 0, 1), (0, 1, 1), (1, 1, 1)] {
        expected.push(LeafCube { x: 2 * dx, y: 2 * dy, z: 2 * dz, scale: 1, value: 0 });
    }
    assert_eq!(leaves, expected);
}

#[test]
fn leaves_partition_the_tree_and_hold_its_content() {
    let mut tree = NaiveVoxelOctree::new(0u8, 4);
    let mut state = 7u64;
    for _ in 0..300 {
        state = state.wrapping_mul(6364136223846793005).wrapping_add(1442695040888963407);
        let level = ((state >> 60) % 3) as i8;
        let side = 16u32 >> level;
        let x = ((state >> 20) as u32) % side;
        let y = ((state >> 30) as u32) % side;
        let z = ((state >> 40) as u32) % side;
        tree.set(opos(x, y, z, level), ((state >> 50) % 4) as u8).unwrap();
    }
    let leaves = tree.leaves();
    let mut seen = vec![false; 16 * 16 * 16];
    let mut branches = 0;
    for cube in &leaves {
        let edge = cube.edge_length().unwrap();
        assert!(cube.x % edge == 0 && cube.y % edge == 0 && cube.z % edge == 0);
        assert!(cube.x + edge <= 16 && cube.y + edge <= 16 && cube.z + edge <= 16);
        for a in cube.x..cube.x + edge {
            for b in cube.y..cube.y + edge {
                for c in cube.z..cube.z + edge {
                    let at = (a + 16 * (b + 16 * c)) as usize;
                    assert!(!seen[at]);
                    seen[at] = true;
                    assert_eq!(tree.get(opos(a as u32, b as u32, c as u32, 0)), Ok(cube.value));
                }
            }
        }
        branches += 1;
    }
    assert!(seen.iter().all(|s| *s));
    // Each branch has eight children: leaves = 7 * branches + 1.
    assert_eq!((tree.node_count() - leaves.len()) * 7 + 1, leaves.len());
    assert_eq!(branches, leaves.len());
}

#[test]
fn leaves_of_the_widest_tree_fit() {
    let mut tree = NaiveVoxelOctree::new(0u8, 127);
    tree.set(opos(1, 1, 1, 126), 4).unwrap();
    let leaves = tree.leaves();
    assert_eq!(leaves.len(), 8);
    assert_eq!(leaves[7], LeafCube { x: 1 << 126, y: 1 << 126, z: 1 << 126, scale: 126, value: 4u8 });
    assert_eq!(leaves[7].edge_length(), Some(1 << 126));
}
