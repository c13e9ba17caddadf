use gestalt::voxel::subdivmath::opos;
use gestalt::world::generators::{ChunkGenerator, SphereGenerator, AIR, SPHERE_RADIUS, STONE};
use gestalt::world::{CHUNK_SCALE, CHUNK_SIZE};

#[test]
fn sphere_generator_keeps_its_seed() {
    assert_eq!(SphereGenerator::new(17).seed(), 17);
    assert_eq!(SphereGenerator::new(0).seed(), 0);
}

#[test]
fn chunk_size_is_two_to_the_chunk_scale() {
    assert_eq!(CHUNK_SIZE, 1 << CHUNK_SCALE);
}

#[test]
fn sphere_membership_is_strict() {
    assert_eq!(SPHERE_RADIUS, 15);
    // (15, 0, 0) lies on the sphere, so outside; (14, 0, 0) lies inside.
    assert!(!SphereGenerator::contains(49, 64, 64));
    assert!(SphereGenerator::contains(50, 64, 64));
    assert!(!SphereGenerator::contains(49, 63, 63));
    // (14, 1, 1): 196 + 1 + 1 = 198 < 225.
    assert!(SphereGenerator::contains(50, 63, 63));
    // (9, 9, 8): 81 + 81 + 64 = 226.
    assert!(!SphereGenerator::contains(55, 55, 56));
    // (9, 8, 8): 81 + 64 + 64 = 209.
    assert!(SphereGenerator::contains(55, 56, 56));
    assert!(!SphereGenerator::contains(0, 0, 0));
}

#[test]
fn sphere_membership_is_defined_beyond_the_chunk() {
    assert!(SphereGenerator::contains(64, 64, 64));
    assert!(SphereGenerator::contains(70, 64, 64));
    assert!(SphereGenerator::contains(78, 64, 64));
    assert!(!SphereGenerator::contains(79, 64, 64));
    assert!(!SphereGenerator::contains(u32::MAX, 64, 64));
    assert!(!SphereGenerator::contains(64, u32::MAX, u32::MAX));
}

#[test]
fn sphere_generator_paints_the_sphere() {
    let tree = SphereGenerator::new(1).generate((0, 0, 0));
    assert_eq!(tree.scale(), CHUNK_SCALE);
    let mut stone = 0;
    for x in 0..CHUNK_SIZE {
        for y in 0..CHUNK_SIZE {
            for z in 0..CHUNK_SIZE {
                let (dx, dy, dz) = ((64 - x) as f64, (64 - y) as f64, (64 - z) as f64);
                let inside = (dx * dx + dy * dy + dz * dz).sqrt() < 15.0;
                let expected = if inside { STONE } else { AIR };
                assert_eq!(tree.get(opos(x, y, z, 0)), Ok(expected));
                if inside {
                    stone += 1;
                }
            }
        }
    }
    assert!(stone > 0);
    assert!(tree.node_count() > 1);
}

#[test]
fn sphere_generator_ignores_the_chunk_coordinate() {
    let near = SphereGenerator::new(1).generate((0, 0, 0));
    let far = SphereGenerator::new(2).generate((-5, 9, 1000));
    assert_eq!(near.node_count(), far.node_count());
    for x in 48..CHUNK_SIZE {
        for y in 48..CHUNK_SIZE {
            for z in 48..CHUNK_SIZE {
                assert_eq!(near.get(opos(x, y, z, 0)), far.get(opos(x, y, z, 0)));
            }
        }
    }
}
