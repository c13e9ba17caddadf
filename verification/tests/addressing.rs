use gestalt::voxel::subdivmath::{opos, OctPos, SubdivError};

#[test]
fn opos_builds_the_position() {
    let pos = opos(1, 2, 3, 4);
    assert_eq!(pos, OctPos { scale: 4, x: 1, y: 2, z: 3 });
}

#[test]
fn path_to_the_root_is_empty() {
    assert_eq!(opos(0, 0, 0, 6).octant_path(6), Ok(vec![]));
    assert_eq!(opos(0, 0, 0, 0).octant_path(0), Ok(vec![]));
}

#[test]
fn path_reads_the_bits_high_to_low() {
    // x = 0b101, y = 0b011, z = 0b110 in a tree of scale 3.
    // level 2: x=1 y=0 z=1 -> 1 + 0 + 4 = 5
    // level 1: x=0 y=1 z=1 -> 0 + 2 + 4 = 6
    // level 0: x=1 y=1 z=0 -> 1 + 2 + 0 = 3
    assert_eq!(opos(5, 3, 6, 0).octant_path(3), Ok(vec![5, 6, 3]));
}

#[test]
fn each_axis_has_its_own_bit() {
    assert_eq!(opos(1, 0, 0, 0).octant_path(1), Ok(vec![1]));
    assert_eq!(opos(0, 1, 0, 0).octant_path(1), Ok(vec![2]));
    assert_eq!(opos(0, 0, 1, 0).octant_path(1), Ok(vec![4]));
    assert_eq!(opos(1, 1, 1, 0).octant_path(1), Ok(vec![7]));
}

#[test]
fn path_at_a_coarser_level_is_shorter() {
    // The cube (1, 0, 1) at level 2 of a tree of scale 4.
    assert_eq!(opos(1, 0, 1, 2).octant_path(4), Ok(vec![0, 5]));
    // The same corner at the finest level goes on through octant 0.
    assert_eq!(opos(4, 0, 4, 0).octant_path(4), Ok(vec![0, 5, 0, 0]));
}

#[test]
fn path_in_a_tree_wider_than_the_coordinates() {
    let path = opos(u32::MAX, 0, 1, 0).octant_path(40).unwrap();
    assert_eq!(path.len(), 40);
    assert!(path[..8].iter().all(|s| *s == 0));
    assert!(path[8..39].iter().all(|s| *s == 1));
    assert_eq!(path[39], 5);
}

#[test]
fn coordinate_at_the_edge_is_out_of_bounds() {
    assert_eq!(opos(4, 0, 0, 0).octant_path(2), Err(SubdivError::OutOfBounds));
    assert_eq!(opos(0, 4, 0, 0).octant_path(2), Err(SubdivError::OutOfBounds));
    assert_eq!(opos(0, 0, 4, 0).octant_path(2), Err(SubdivError::OutOfBounds));
    assert_eq!(opos(3, 3, 3, 0).octant_path(2), Ok(vec![7, 7]));
}

#[test]
fn bound_shrinks_with_the_level() {
    assert_eq!(opos(1, 1, 1, 1).octant_path(2), Ok(vec![7]));
    assert_eq!(opos(2, 0, 0, 1).octant_path(2), Err(SubdivError::OutOfBounds));
    assert_eq!(opos(1, 0, 0, 2).octant_path(2), Err(SubdivError::OutOfBounds));
}

#[test]
fn level_outside_the_tree_is_out_of_bounds() {
    assert_eq!(opos(0, 0, 0, 3).octant_path(2), Err(SubdivError::OutOfBounds));
    assert_eq!(opos(0, 0, 0, -1).octant_path(2), Err(SubdivError::OutOfBounds));
    assert_eq!(opos(0, 0, 0, 0).octant_path(-1), Err(SubdivError::OutOfBounds));
}

#[test]
fn largest_scale_is_addressable() {
    let path = opos(1, 2, 4, 0).octant_path(127).unwrap();
    assert_eq!(path.len(), 127);
    assert_eq!(&path[124..], &[4, 2, 1]);
    assert!(path[..124].iter().all(|s| *s == 0));
}
