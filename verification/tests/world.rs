//! Tests for the world facade: region lifecycle, voxel access, boundaries.

use voxel_world::ivec::{IVec2, IVec3};
use voxel_world::voxel::Voxel;
use voxel_world::world::{VoxelConfig, VoxelWorld};

pub struct TestRng(pub u64);

impl TestRng {
    pub fn new(seed: u64) -> Self {
        TestRng(seed)
    }

    pub fn next(&mut self) -> u64 {
        let r = u128::from(self.0).wrapping_mul(0x8373ABCDEF397838ABCDEF1);
        let h = ((r >> 64) ^ r) as u64;
        self.0 = self.0.wrapping_add(h);
        h
    }
}

#[test]
fn world_get_set_3x3() {
    let mut rng = TestRng::new(3998394589);
    let mut world = VoxelWorld::new(VoxelConfig { max_y: 320, min_y: -64 });

    for i in -1..2 {
        for j in -1..2 {
            world.init_and_insert_region(IVec2 { x: i * 512, y: j * 512 });
        }
    }

    for i in 0..16384 {
        let x = (rng.next() % 1536) as i32 - 512;
        let y = (rng.next() % 384) as i32 - 64;
        let z = (rng.next() % 1536) as i32 - 512;
        let v = IVec3 { x, y, z };

        world.set_voxel(v, Voxel(i));
        assert_eq!(world.get_voxel(v), Voxel(i));
    }
}

#[test]
fn world_construct_and_get() {
    let mut world = VoxelWorld::new(VoxelConfig { min_y: -64, max_y: 320 });
    // no region is inserted yet: reads are air, writes are refused
    assert_eq!(world.get_voxel(IVec3 { x: 0, y: 0, z: 0 }), Voxel(0));
    assert_eq!(world.set_voxel(IVec3 { x: 0, y: 0, z: 0 }, Voxel(1)), false);
}

#[test]
fn world_insert_round_trip() {
    let mut world = VoxelWorld::new(VoxelConfig { min_y: -64, max_y: 320 });
    assert!(world.init_and_insert_region(IVec2 { x: 0, y: 0 }));
    assert!(!world.init_and_insert_region(IVec2 { x: 0, y: 0 }));

    let mut rng = TestRng::new(0x376783987391);
    for _ in 0..4096 {
        let pt = IVec3 {
            x: (rng.next() & 511) as i32,
            y: (rng.next() % 384) as i32 - 64,
            z: (rng.next() & 511) as i32,
        };
        let v = Voxel((rng.next() & 127) as u16);
        assert!(world.set_voxel(pt, v));
        assert_eq!(world.get_voxel(pt), v);
    }
}

#[test]
fn world_boundaries() {
    let mut world = VoxelWorld::new(VoxelConfig { min_y: -64, max_y: 320 });
    world.init_and_insert_region(IVec2 { x: 0, y: 0 });

    // one below the world floor
    assert_eq!(world.get_voxel(IVec3 { x: 0, y: -65, z: 0 }), Voxel(0));
    assert_eq!(world.set_voxel(IVec3 { x: 0, y: -65, z: 0 }, Voxel(3)), false);

    // at the world ceiling
    assert_eq!(world.get_voxel(IVec3 { x: 0, y: 320, z: 0 }), Voxel(0));
    assert_eq!(world.set_voxel(IVec3 { x: 0, y: 320, z: 0 }, Voxel(3)), false);

    // x = -513 falls in the region at origin (-1024, 0), which is absent
    assert_eq!(world.get_voxel(IVec3 { x: -513, y: 5, z: 7 }), Voxel(0));
    assert_eq!(world.set_voxel(IVec3 { x: -513, y: 5, z: 7 }, Voxel(3)), false);
    assert!(!world.has_region(IVec2 { x: -513, y: 7 }));
}

#[test]
fn world_map_rebuild() {
    let mut world = VoxelWorld::new(VoxelConfig { min_y: -64, max_y: 320 });

    // a row of 17 regions forces bucket conflicts and rebuilds
    for k in 0..17 {
        assert!(world.init_and_insert_region(IVec2 { x: k * 512, y: 0 }));
    }
    for k in 0..17 {
        let r = world.get_region(IVec2 { x: k * 512, y: 0 }).unwrap();
        assert_eq!(r.origin(), IVec2 { x: k * 512, y: 0 });
    }

    // removal patches the moved region's bucket and never rebuilds
    let removed = world.remove(IVec2 { x: 8 * 512, y: 0 }).unwrap();
    assert_eq!(removed.origin(), IVec2 { x: 8 * 512, y: 0 });
    assert!(world.remove(IVec2 { x: 8 * 512, y: 0 }).is_none());
    for k in 0..17 {
        if k == 8 {
            assert!(world.get_region(IVec2 { x: k * 512, y: 0 }).is_none());
        } else {
            let r = world.get_region(IVec2 { x: k * 512, y: 0 }).unwrap();
            assert_eq!(r.origin(), IVec2 { x: k * 512, y: 0 });
        }
    }

    // fifty more, then everything still resolves
    for k in 17..67 {
        assert!(world.init_and_insert_region(IVec2 { x: k * 512, y: 0 }));
    }
    for k in 0..67 {
        if k == 8 {
            continue;
        }
        let r = world.get_region(IVec2 { x: k * 512, y: 0 }).unwrap();
        assert_eq!(r.origin(), IVec2 { x: k * 512, y: 0 });
    }
}

#[test]
fn world_multi_region_stitch() {
    let mut world = VoxelWorld::new(VoxelConfig { min_y: -64, max_y: 320 });
    for i in -1..2 {
        for j in -1..2 {
            world.init_and_insert_region(IVec2 { x: i * 512, y: j * 512 });
        }
    }

    let mut rng = TestRng::new(0x5A5A5A5A5A);
    let mut written: Vec<(IVec3, u16)> = Vec::new();
    for i in 0..16384u16 {
        let pt = IVec3 {
            x: (rng.next() % 1536) as i32 - 512,
            y: (rng.next() % 384) as i32 - 64,
            z: (rng.next() % 1536) as i32 - 512,
        };
        assert!(world.set_voxel(pt, Voxel(i)));
        written.push((pt, i));
    }
    // last write per position wins
    let mut expect = std::collections::HashMap::new();
    for (pt, v) in &written {
        expect.insert((pt.x, pt.y, pt.z), *v);
    }
    for ((x, y, z), v) in expect {
        assert_eq!(world.get_voxel(IVec3 { x, y, z }), Voxel(v));
    }
}

#[test]
fn world_replace_voxel_reports_previous() {
    let mut world = VoxelWorld::new(VoxelConfig { min_y: -64, max_y: 320 });
    world.init_and_insert_region(IVec2 { x: 0, y: 0 });
    let pt = IVec3 { x: 3, y: 10, z: 200 };
    assert_eq!(world.replace_voxel(pt, Voxel(9)), Some(Voxel(0)));
    assert_eq!(world.replace_voxel(pt, Voxel(4)), Some(Voxel(9)));
    assert_eq!(world.replace_voxel(IVec3 { x: 3, y: 320, z: 200 }, Voxel(4)), None);
    assert_eq!(world.get_voxel(pt), Voxel(4));
}

#[test]
fn world_insert_returns_displaced_region() {
    let mut world = VoxelWorld::new(VoxelConfig { min_y: -64, max_y: 320 });
    let a = world.init_region(IVec2 { x: 100, y: 100 });
    assert!(world.insert(a).is_none());
    let mut b = world.init_region(IVec2 { x: 100, y: 100 });
    b.set_voxel(IVec3 { x: 1, y: 2, z: 3 }, Voxel(77));
    let displaced = world.insert(b).unwrap();
    assert_eq!(displaced.origin(), IVec2 { x: 0, y: 0 });
    assert_eq!(displaced.get_voxel(IVec3 { x: 1, y: 2, z: 3 }), Some(Voxel(0)));
    assert_eq!(world.get_voxel(IVec3 { x: 1, y: 2, z: 3 }), Voxel(77));
}
