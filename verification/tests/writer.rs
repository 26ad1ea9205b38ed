//! Tests for the read and write handles.

use voxel_world::ivec::{IVec2, IVec3};
use voxel_world::voxel::Voxel;
use voxel_world::world::{VoxelConfig, VoxelWorld};

pub struct TestRng(pub u64);

impl TestRng {
    pub fn new(seed: u64) -> Self {
        TestRng(seed)
    }

    pub fn next(&mut self) -> u64 {
        let r = u128::from(self.0).wrapping_mul(0x8373ABCDEF397838ABCDEF1);
        let h = ((r >> 64) ^ r) as u64;
        self.0 = self.0.wrapping_add(h);
        h
    }
}

#[test]
fn writer_get_set() {
    let mut world = VoxelWorld::new(VoxelConfig { max_y: 320, min_y: -64 });

    world.init_and_insert_region(IVec2 { x: 0, y: 0 });
    world.init_and_insert_region(IVec2 { x: -1, y: -1 });
    world.init_and_insert_region(IVec2 { x: -1, y: 0 });
    world.init_and_insert_region(IVec2 { x: 0, y: -1 });

    let mut writer = world.writer();
    let mut rng = TestRng::new(0x376783987391);
    for _ in 0..4096 {
        let pt = IVec3 {
            x: (rng.next() & 1023) as i32 - 512,
            z: (rng.next() & 1023) as i32 - 512,
            y: (rng.next() % 384) as i32 - 64,
        };
        let v = Voxel((rng.next() & 127) as u16);

        writer.set_voxel(pt, v);
        assert_eq!(writer.get_voxel(pt), Some(v));
    }
}

#[test]
fn reader_sees_world() {
    let mut world = VoxelWorld::new(VoxelConfig { max_y: 320, min_y: -64 });
    world.init_and_insert_region(IVec2 { x: 0, y: 0 });
    world.set_voxel(IVec3 { x: 5, y: 6, z: 7 }, Voxel(42));

    let reader = world.reader();
    assert_eq!(reader.get_voxel(IVec3 { x: 5, y: 6, z: 7 }), Some(Voxel(42)));
    assert_eq!(reader.get_voxel(IVec3 { x: 5, y: 6, z: 8 }), Some(Voxel(0)));
    // outside every region
    assert_eq!(reader.get_voxel(IVec3 { x: -1, y: 6, z: 7 }), None);
    // outside the y range
    assert_eq!(reader.get_voxel(IVec3 { x: 5, y: 320, z: 7 }), None);
    let region = reader.get_region(IVec2 { x: 100, y: 100 }).unwrap();
    assert_eq!(region.origin(), IVec2 { x: 0, y: 0 });
}
