//! Tests for the stepping cursor and the axis directions.

use voxel_world::ivec::{IVec2, IVec3};
use voxel_world::voxel::Voxel;
use voxel_world::world::{VoxelConfig, VoxelWorld};
use voxel_world::worm::{VoxelDir, Worm, WormMut};

#[test]
fn worm_walks_a_row() {
    let mut world = VoxelWorld::new(VoxelConfig { min_y: -64, max_y: 320 });
    world.init_and_insert_region(IVec2 { x: 0, y: 0 });
    for i in 0..64 {
        world.set_voxel(IVec3 { x: i, y: 0, z: 0 }, Voxel((i + 1) as u16));
    }

    let mut worm = Worm::new(&world, IVec3 { x: 0, y: 0, z: 0 }).unwrap();
    assert_eq!(worm.get_voxel(&world), Voxel(1));
    for k in 1..64 {
        worm = worm.next(&world, VoxelDir::East).unwrap();
        assert_eq!(worm.get_voxel(&world), Voxel((k + 1) as u16));
        assert_eq!(worm.pos(), IVec3 { x: k, y: 0, z: 0 });
    }

    // one step over the region's south face leaves the loaded world
    let back = Worm::new(&world, IVec3 { x: 63, y: 0, z: 0 }).unwrap();
    assert!(back.next(&world, VoxelDir::South).is_none());
    // while the north neighbour cell is inside the same region
    assert!(back.next(&world, VoxelDir::North).is_some());
}

#[test]
fn worm_crosses_subchunk_and_region_seams() {
    let mut world = VoxelWorld::new(VoxelConfig { min_y: -64, max_y: 320 });
    world.init_and_insert_region(IVec2 { x: 0, y: 0 });
    world.init_and_insert_region(IVec2 { x: 512, y: 0 });

    // across a subchunk seam in y
    world.set_voxel(IVec3 { x: 10, y: 31, z: 10 }, Voxel(7));
    world.set_voxel(IVec3 { x: 10, y: 32, z: 10 }, Voxel(8));
    let w = Worm::new(&world, IVec3 { x: 10, y: 31, z: 10 }).unwrap();
    let up = w.next(&world, VoxelDir::Up).unwrap();
    assert_eq!(up.get_voxel(&world), Voxel(8));
    let down = up.next(&world, VoxelDir::Down).unwrap();
    assert_eq!(down.get_voxel(&world), Voxel(7));

    // across the region seam at x = 511 / 512
    world.set_voxel(IVec3 { x: 511, y: 0, z: 0 }, Voxel(21));
    world.set_voxel(IVec3 { x: 512, y: 0, z: 0 }, Voxel(22));
    let w = Worm::new(&world, IVec3 { x: 511, y: 0, z: 0 }).unwrap();
    let east = w.next(&world, VoxelDir::East).unwrap();
    assert_eq!(east.get_voxel(&world), Voxel(22));
    let west = east.next(&world, VoxelDir::West).unwrap();
    assert_eq!(west.get_voxel(&world), Voxel(21));

    // the world's vertical limits stop the cursor
    let top = Worm::new(&world, IVec3 { x: 0, y: 319, z: 0 }).unwrap();
    assert!(top.next(&world, VoxelDir::Up).is_none());
    let bottom = Worm::new(&world, IVec3 { x: 0, y: -64, z: 0 }).unwrap();
    assert!(bottom.next(&world, VoxelDir::Down).is_none());
}

#[test]
fn worm_mut_writes_through() {
    let mut world = VoxelWorld::new(VoxelConfig { min_y: -64, max_y: 320 });
    world.init_and_insert_region(IVec2 { x: 0, y: 0 });

    let w = WormMut::new(&world, IVec3 { x: 1, y: 2, z: 3 }).unwrap();
    w.set_voxel(&mut world, Voxel(9));
    assert_eq!(w.get_voxel(&world), Voxel(9));
    assert_eq!(world.get_voxel(IVec3 { x: 1, y: 2, z: 3 }), Voxel(9));
    let stepped = w.next(&world, VoxelDir::North).unwrap();
    assert_eq!(stepped.get_voxel(&world), Voxel(0));
}

#[test]
fn worm_outside_world_is_refused() {
    let mut world = VoxelWorld::new(VoxelConfig { min_y: -64, max_y: 320 });
    world.init_and_insert_region(IVec2 { x: 0, y: 0 });
    assert!(Worm::new(&world, IVec3 { x: 0, y: 320, z: 0 }).is_none());
    assert!(Worm::new(&world, IVec3 { x: -1, y: 0, z: 0 }).is_none());
}

#[test]
fn dir_invert_is_involutive() {
    let all = [
        VoxelDir::Up,
        VoxelDir::Down,
        VoxelDir::East,
        VoxelDir::West,
        VoxelDir::North,
        VoxelDir::South,
    ];
    for d in all {
        assert_eq!(d.invert().invert(), d);
        assert_ne!(d.invert(), d);
    }
}

#[test]
fn dir_axis_views() {
    assert_eq!(VoxelDir::Up.as_ivec3(), IVec3 { x: 0, y: 1, z: 0 });
    assert_eq!(VoxelDir::South.as_ivec3(), IVec3 { x: 0, y: 0, z: -1 });
    assert_eq!(VoxelDir::West.sign(), -1);
    assert_eq!(VoxelDir::North.sign(), 1);
    assert_eq!(VoxelDir::Down.abs(), VoxelDir::Up);
    assert_eq!(VoxelDir::West.abs(), VoxelDir::East);
    let v = IVec3 { x: 10, y: 20, z: 30 };
    assert_eq!(VoxelDir::East.extract_axis(v), 10);
    assert_eq!(VoxelDir::Down.extract_axis(v), 20);
    assert_eq!(VoxelDir::South.extract_axis(v), 30);
    assert_eq!(VoxelDir::Up.next(v), IVec3 { x: 10, y: 21, z: 30 });
}
