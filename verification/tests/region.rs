//! Tests for region indexing and region-level access.

use voxel_world::ivec::{IVec2, IVec3};
use voxel_world::lightmap::Light;
use voxel_world::region::{to_chunk_index, to_voxel_index_wrapping, Region};
use voxel_world::voxel::{Voxel, VoxelData};

pub struct TestRng(pub u64);

impl TestRng {
    pub fn new(seed: u64) -> Self {
        TestRng(seed)
    }

    pub fn next(&mut self) -> u64 {
        let r = u128::from(self.0).wrapping_mul(0x8373ABCDEF397838ABCDEF1);
        let h = ((r >> 64) ^ r) as u64;
        self.0 = self.0.wrapping_add(h);
        h
    }
}

#[test]
fn test_index_compute() {
    // to chunk index
    assert_eq!(to_chunk_index(IVec2 { x: 0, y: 0 }), 0);
    assert_eq!(to_chunk_index(IVec2 { x: 511, y: 511 }), 256 - 1);

    // to voxel index
    assert_eq!(to_voxel_index_wrapping(IVec3 { x: 0, y: 0, z: 0 }), 0);
    assert_eq!(to_voxel_index_wrapping(IVec3 { x: 31, y: 31, z: 31 }), 32768 - 1);
}

#[test]
fn region_get_set() {
    let mut region = Region::new(
        IVec3 { x: 0, y: -60, z: 0 },
        IVec3 { x: 512, y: 324, z: 512 },
    );
    let mut rng = TestRng::new(0x39567387819381);

    // assign voxels
    for _ in 0..4096 {
        let pt = IVec3 {
            x: (rng.next() & 511) as i32,
            y: (rng.next() % 384) as i32 - 60,
            z: (rng.next() & 511) as i32,
        };
        let val = Voxel((rng.next() & 127) as u16);
        region.set_voxel(pt, val);
        assert_eq!(Some(val), region.get_voxel(pt), "{:?}", pt);
    }

    // test light get/set
    for _ in 0..4096 {
        let pt = IVec3 {
            x: (rng.next() & 511) as i32,
            y: (rng.next() % 384) as i32 - 60,
            z: (rng.next() & 511) as i32,
        };
        let val = Light { intensity: (rng.next() & 255) as u8, hsl_color: 0 };
        region.set_light(pt, val);
        assert_eq!(Some(val), region.get_light(pt), "{:?}", pt);
    }

    // test data get/set
    for _ in 0..4096 {
        let pt = IVec3 {
            x: (rng.next() & 511) as i32,
            y: (rng.next() % 384) as i32 - 60,
            z: (rng.next() & 511) as i32,
        };

        let data = VoxelData {
            light: Light { intensity: (rng.next() & 255) as u8, hsl_color: 0 },
            state: Voxel((rng.next() & 127) as u16),
        };

        region.set_data(pt, data);
        assert_eq!(Some(data), region.get_data(pt), "{:?}", pt);
    }

    // y above bounds
    for i in 0..16 {
        let pt = IVec3 {
            x: (rng.next() & 511) as i32,
            y: (rng.next() % 384) as i32 + 324,
            z: (rng.next() & 511) as i32,
        };
        assert_eq!(region.get_voxel(pt), None);
        assert_eq!(region.set_voxel(pt, Voxel(i as u16)), None);
    }

    // x above bounds
    for i in 0..16 {
        let pt = IVec3 {
            x: (rng.next() & 511) as i32 + 512,
            y: (rng.next() % 384) as i32 - 60,
            z: (rng.next() & 511) as i32,
        };
        assert_eq!(region.get_voxel(pt), None);
        assert_eq!(region.set_voxel(pt, Voxel(i as u16)), None);
    }

    // z above bounds
    for i in 0..16 {
        let pt = IVec3 {
            x: (rng.next() & 511) as i32,
            y: (rng.next() % 384) as i32 - 60,
            z: (rng.next() & 511) as i32 + 512,
        };
        assert_eq!(region.get_voxel(pt), None);
        assert_eq!(region.set_voxel(pt, Voxel(i as u16)), None);
    }
}

#[test]
fn region_new_is_all_air_and_dark() {
    let region = Region::new(
        IVec3 { x: -512, y: 0, z: 512 },
        IVec3 { x: 0, y: 64, z: 1024 },
    );
    assert_eq!(region.min(), &IVec3 { x: -512, y: 0, z: 512 });
    assert_eq!(region.max(), &IVec3 { x: 0, y: 64, z: 1024 });
    assert_eq!(region.origin(), IVec2 { x: -512, y: 512 });
    for i in 0..32 {
        let pt = IVec3 { x: -512 + i * 16, y: (i % 64) as i32, z: 512 + i * 16 };
        assert_eq!(region.get_voxel(pt), Some(Voxel(0)));
        assert_eq!(
            region.get_light(pt),
            Some(Light { intensity: 0, hsl_color: 0 })
        );
    }
}

#[test]
fn chunk_and_subchunk_views() {
    let mut region = Region::new(
        IVec3 { x: 0, y: 0, z: 0 },
        IVec3 { x: 512, y: 64, z: 512 },
    );
    region.set_voxel(IVec3 { x: 40, y: 50, z: 100 }, Voxel(5));
    region.set_light(
        IVec3 { x: 40, y: 50, z: 100 },
        Light { intensity: 9, hsl_color: 1 },
    );

    let chunk = region.get_chunk(IVec2 { x: 40, y: 100 }).unwrap();
    assert_eq!(chunk.min(), &IVec3 { x: 32, y: 0, z: 96 });
    assert_eq!(chunk.max(), &IVec3 { x: 64, y: 64, z: 128 });
    assert_eq!(
        chunk.get_voxel(IVec3 { x: 40, y: 50, z: 100 }),
        Some(Voxel(5))
    );
    assert_eq!(
        chunk.get_light(IVec3 { x: 40, y: 50, z: 100 }),
        Some(Light { intensity: 9, hsl_color: 1 })
    );
    // a position in another column is not this chunk's to answer
    assert_eq!(chunk.get_voxel(IVec3 { x: 10, y: 50, z: 100 }), None);

    let sub = chunk.get_subchunk(50).unwrap();
    assert_eq!(sub.get_voxel(IVec3 { x: 40, y: 50, z: 100 }), Some(Voxel(5)));
    // below the subchunk's own 32-cube
    assert_eq!(sub.get_voxel(IVec3 { x: 40, y: 20, z: 100 }), None);
    assert!(chunk.get_subchunk(64).is_none());

    let sub2 = region.get_subchunk(IVec3 { x: 40, y: 50, z: 100 }).unwrap();
    assert_eq!(
        sub2.get_light(IVec3 { x: 40, y: 50, z: 100 }),
        Some(Light { intensity: 9, hsl_color: 1 })
    );
    assert!(region.get_subchunk(IVec3 { x: 40, y: 64, z: 100 }).is_none());
}
