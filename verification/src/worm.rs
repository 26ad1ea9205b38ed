//! The stepping cursor ("worm"): it caches a position's decomposition into
//! (region origin, subchunk index, voxel index) and advances it in constant
//! time per axis step, consulting the world map only when a step crosses a
//! region boundary. Y steps never consult the map: the world's height is
//! known.

use vstd::prelude::*;
use crate::ivec::{IVec2, IVec3};
use crate::region::{spec_subchunk_index, spec_voxel_index};
use crate::voxel::Voxel;
use crate::world::{spec_origin, lemma_origin, VoxelWorld};

verus! {

/// One of the six axis directions: Up is +y, East is +x, North is +z.
#[derive(Copy, Clone, Eq, PartialEq, Structural, Ord, PartialOrd, Hash, Debug)]
pub enum VoxelDir {
    Up,
    Down,
    East,
    West,
    North,
    South,
}

impl VoxelDir {
    /// The direction opposite this one.
    pub open spec fn spec_invert(self) -> VoxelDir {
        match self {
            VoxelDir::Up => VoxelDir::Down,
            VoxelDir::Down => VoxelDir::Up,
            VoxelDir::East => VoxelDir::West,
            VoxelDir::West => VoxelDir::East,
            VoxelDir::North => VoxelDir::South,
            VoxelDir::South => VoxelDir::North,
        }
    }

    /// The direction opposite this one.
    pub fn invert(self) -> (r: VoxelDir)
        ensures
            r == self.spec_invert(),
    {
        match self {
            VoxelDir::Up => VoxelDir::Down,
            VoxelDir::Down => VoxelDir::Up,
            VoxelDir::East => VoxelDir::West,
            VoxelDir::West => VoxelDir::East,
            VoxelDir::North => VoxelDir::South,
            VoxelDir::South => VoxelDir::North,
        }
    }

    /// This direction, made positive along its axis.
    pub fn abs(self) -> (r: VoxelDir)
        ensures
            (self == VoxelDir::Up || self == VoxelDir::Down) ==> r == VoxelDir::Up,
            (self == VoxelDir::East || self == VoxelDir::West) ==> r == VoxelDir::East,
            (self == VoxelDir::North || self == VoxelDir::South) ==> r == VoxelDir::North,
    {
        match self {
            VoxelDir::Up | VoxelDir::Down => VoxelDir::Up,
            VoxelDir::East | VoxelDir::West => VoxelDir::East,
            VoxelDir::North | VoxelDir::South => VoxelDir::North,
        }
    }

    /// Whether this direction is positive (1) or negative (-1) on its axis.
    pub fn sign(self) -> (r: i8)
        ensures
            (self == VoxelDir::Up || self == VoxelDir::East || self == VoxelDir::North) ==> r == 1,
            (self == VoxelDir::Down || self == VoxelDir::West || self == VoxelDir::South) ==> r
                == -1,
    {
        match self {
            VoxelDir::Up | VoxelDir::East | VoxelDir::North => 1,
            VoxelDir::Down | VoxelDir::West | VoxelDir::South => -1,
        }
    }

    /// The direction as a unit vector.
    pub open spec fn spec_offset(self) -> IVec3 {
        match self {
            VoxelDir::Up => IVec3 { x: 0, y: 1, z: 0 },
            VoxelDir::Down => IVec3 { x: 0, y: -1i32, z: 0 },
            VoxelDir::East => IVec3 { x: 1, y: 0, z: 0 },
            VoxelDir::West => IVec3 { x: -1i32, y: 0, z: 0 },
            VoxelDir::North => IVec3 { x: 0, y: 0, z: 1 },
            VoxelDir::South => IVec3 { x: 0, y: 0, z: -1i32 },
        }
    }

    /// The direction as a unit vector.
    pub fn as_ivec3(self) -> (r: IVec3)
        ensures
            r == self.spec_offset(),
    {
        match self {
            VoxelDir::Up => IVec3 { x: 0, y: 1, z: 0 },
            VoxelDir::Down => IVec3 { x: 0, y: -1i32, z: 0 },
            VoxelDir::East => IVec3 { x: 1, y: 0, z: 0 },
            VoxelDir::West => IVec3 { x: -1i32, y: 0, z: 0 },
            VoxelDir::North => IVec3 { x: 0, y: 0, z: 1 },
            VoxelDir::South => IVec3 { x: 0, y: 0, z: -1i32 },
        }
    }

    /// The component of `vec` along this direction's axis.
    pub fn extract_axis(self, vec: IVec3) -> (r: i32)
        ensures
            (self == VoxelDir::Up || self == VoxelDir::Down) ==> r == vec.y,
            (self == VoxelDir::East || self == VoxelDir::West) ==> r == vec.x,
            (self == VoxelDir::North || self == VoxelDir::South) ==> r == vec.z,
    {
        match self {
            VoxelDir::Up | VoxelDir::Down => vec.y,
            VoxelDir::East | VoxelDir::West => vec.x,
            VoxelDir::North | VoxelDir::South => vec.z,
        }
    }

    /// Whether the position one step away is still representable.
    pub open spec fn can_step(self, pos: IVec3) -> bool {
        match self {
            VoxelDir::Up => pos.y < 0x7FFF_FFFF,
            VoxelDir::Down => pos.y > -0x8000_0000,
            VoxelDir::East => pos.x < 0x7FFF_FFFF,
            VoxelDir::West => pos.x > -0x8000_0000,
            VoxelDir::North => pos.z < 0x7FFF_FFFF,
            VoxelDir::South => pos.z > -0x8000_0000,
        }
    }

    /// The position one step away in this direction.
    pub open spec fn spec_next(self, pos: IVec3) -> IVec3 {
        IVec3 {
            x: (pos.x + self.spec_offset().x) as i32,
            y: (pos.y + self.spec_offset().y) as i32,
            z: (pos.z + self.spec_offset().z) as i32,
        }
    }

    /// The position one step away in this direction.
    pub fn next(self, pos: IVec3) -> (r: IVec3)
        requires
            self.can_step(pos),
        ensures
            r == self.spec_next(pos),
            r.x == pos.x + self.spec_offset().x,
            r.y == pos.y + self.spec_offset().y,
            r.z == pos.z + self.spec_offset().z,
    {
        let v = self.as_ivec3();
        IVec3 { x: pos.x + v.x, y: pos.y + v.y, z: pos.z + v.z }
    }
}

/// Inverting a direction twice gives it back.
pub proof fn lemma_invert_involution(d: VoxelDir)
    ensures
        d.spec_invert().spec_invert() == d,
{
}

/// A read cursor over a world: a position together with its cached
/// decomposition. Stepping updates the indices in constant time; only a
/// step into another region consults the world map.
#[derive(Copy, Clone)]
pub struct Worm {
    /// The cursor's position.
    pos: IVec3,
    /// Origin of the region holding the position.
    origin: IVec2,
    /// Index of the subchunk holding the position, in its region.
    subchunk: usize,
    /// Index of the voxel in its subchunk.
    voxel: usize,
}

impl Worm {
    /// The cursor's position.
    pub closed spec fn spec_pos(&self) -> IVec3 {
        self.pos
    }

    /// The cached decomposition matches the position, whose region is
    /// loaded in `world`.
    pub closed spec fn wf_for(&self, world: &VoxelWorld) -> bool {
        &&& world.pos_loaded(self.pos)
    &&& self.origin.x == spec_origin(self.pos.x)
    &&& self.origin.y == spec_origin(self.pos.z)
    &&& self.subchunk == spec_subchunk_index(
            self.pos.x - self.origin.x,
            self.pos.y - world.spec_min_y(),
            self.pos.z - self.origin.y,
        )
    &&& self.voxel == spec_voxel_index(
            self.pos.x - self.origin.x,
            self.pos.y - world.spec_min_y(),
            self.pos.z - self.origin.y,
        )
    }

    /// The cursor's position.
    pub fn pos(&self) -> (r: IVec3)
        ensures
            r == self.spec_pos(),
    {
        self.pos
    }

    /// Start a cursor at `pos`, decomposing the position once. Yields `None`
    /// when `pos` is outside the world or its region is not loaded.
    pub fn new(world: &VoxelWorld, pos: IVec3) -> (r: Option<Worm>)
        requires
            world.wf(),
        ensures
            match r {
                Some(w) => world.pos_loaded(pos) && w.wf_for(world) && w.spec_pos() == pos,
                None => !world.pos_loaded(pos),
            },
    {
        proof {
            world.lemma_wf_bounds();
        }
        if pos.y < world.min_y() || pos.y >= world.max_y() {
            return None;
        }
        if !world.has_region(pos.xz()) {
            return None;
        }
        let origin = IVec2 { x: crate::world::origin_of(pos.x), y: crate::world::origin_of(pos.z) };
        proof {
            lemma_origin(pos.x);
            lemma_origin(pos.z);
        }
        let lx = (pos.x - origin.x) as usize;
        let ly = (pos.y - world.min_y()) as usize;
        let lz = (pos.z - origin.y) as usize;
        let subchunk = lx / 32 + (lz / 32) * 16 + (ly / 32) * 256;
        let voxel = (ly % 32) + (lx % 32) * 32 + (lz % 32) * 1024;
        proof {
            assert(ly / 32 <= 0x40000) by (nonlinear_arith)
                requires
                    0 <= ly as int <= 0x0080_0000,
            ;
        }
        Some(Worm { pos, origin, subchunk, voxel })
    }

    /// The voxel under the cursor, read through the cached indices.
    pub fn get_voxel(&self, world: &VoxelWorld) -> (r: Voxel)
        requires
            world.wf(),
            self.wf_for(world),
        ensures
            r.0 == world.spec_voxel_at(self.spec_pos()),
    {
        let region = match world.get_region(self.pos.xz()) {
            Some(region) => region,
            None => {
                proof {
                    assert(false);
                }
                return Voxel(0);
            },
        };
        proof {
            world.lemma_region_contains(self.pos);
        }
        Voxel(region.get_voxel_indexed(self.pos, self.subchunk, self.voxel))
    }

    /// Step one voxel in direction `dir`, updating the cached decomposition
    /// in place. Yields `None`, leaving traversal to stop, exactly when the
    /// next position leaves the world's y range, steps into a region that is
    /// not loaded, or leaves representable coordinates.
    #[verifier::rlimit(100)]
    pub fn next(&self, world: &VoxelWorld, dir: VoxelDir) -> (r: Option<Worm>)
        requires
            world.wf(),
            self.wf_for(world),
        ensures
            match r {
                Some(w2) => dir.can_step(self.spec_pos()) && world.pos_loaded(
                    dir.spec_next(self.spec_pos()),
                ) && w2.wf_for(world) && w2.spec_pos() == dir.spec_next(self.spec_pos()),
                None => !(dir.can_step(self.spec_pos()) && world.pos_loaded(
                    dir.spec_next(self.spec_pos()),
                )),
            },
    {
        proof {
            world.lemma_wf_bounds();
            lemma_origin(self.pos.x);
            lemma_origin(self.pos.z);
            world.lemma_region_contains(self.pos);
        }
        let ly = (self.pos.y - world.min_y()) as usize;
        let lx = (self.pos.x - self.origin.x) as usize;
        let lz = (self.pos.z - self.origin.y) as usize;
        let height = world.height();
        proof {
            crate::region::lemma_subchunk_index_bound(lx as int, ly as int, lz as int, height as int);
        }
        match dir {
            VoxelDir::Up => {
                let pos = IVec3 { x: self.pos.x, y: self.pos.y + 1, z: self.pos.z };
                proof {
                    lemma_step_up(ly as int, 32);
                    lemma_last_lane(ly as int, height as int);
                }
                if ly % 32 != 31 {
                    Some(Worm { pos, origin: self.origin, subchunk: self.subchunk, voxel: self.voxel + 1 })
                } else if ly == height - 1 {
                    None
                } else {
                    Some(Worm { pos, origin: self.origin, subchunk: self.subchunk + 256, voxel: self.voxel - 31 })
                }
            },
            VoxelDir::Down => {
                proof {
                    lemma_step_down(ly as int, 32);
                }
                if ly == 0 {
                    None
                } else {
                    let pos = IVec3 { x: self.pos.x, y: self.pos.y - 1, z: self.pos.z };
                    if ly % 32 != 0 {
                        Some(Worm { pos, origin: self.origin, subchunk: self.subchunk, voxel: self.voxel - 1 })
                    } else {
                        Some(Worm { pos, origin: self.origin, subchunk: self.subchunk - 256, voxel: self.voxel + 31 })
                    }
                }
            },
            VoxelDir::East => {
                if self.pos.x == 0x7FFF_FFFF {
                    return None;
                }
                let pos = IVec3 { x: self.pos.x + 1, y: self.pos.y, z: self.pos.z };
                proof {
                    lemma_step_up(lx as int, 32);
                    lemma_origin(pos.x);
                }
                if lx % 32 != 31 {
                    Some(Worm { pos, origin: self.origin, subchunk: self.subchunk, voxel: self.voxel + 32 })
                } else if lx != 511 {
                    Some(Worm { pos, origin: self.origin, subchunk: self.subchunk + 1, voxel: self.voxel - 992 })
                } else {
                    let origin = IVec2 { x: self.origin.x + 512, y: self.origin.y };
                    proof {
                        lemma_neighbor_origin(self.origin.x, pos.x);
                    }
                    if world.has_region(pos.xz()) {
                        Some(Worm { pos, origin, subchunk: self.subchunk - 15, voxel: self.voxel - 992 })
                    } else {
                        None
                    }
                }
            },
            VoxelDir::West => {
                if self.pos.x == -0x8000_0000 {
                    return None;
                }
                let pos = IVec3 { x: self.pos.x - 1, y: self.pos.y, z: self.pos.z };
                proof {
                    lemma_step_down(lx as int, 32);
                    lemma_origin(pos.x);
                }
                if lx % 32 != 0 {
                    Some(Worm { pos, origin: self.origin, subchunk: self.subchunk, voxel: self.voxel - 32 })
                } else if lx != 0 {
                    Some(Worm { pos, origin: self.origin, subchunk: self.subchunk - 1, voxel: self.voxel + 992 })
                } else {
                    let origin = IVec2 { x: self.origin.x - 512, y: self.origin.y };
                    proof {
                        lemma_neighbor_origin_down(self.origin.x, pos.x);
                    }
                    if world.has_region(pos.xz()) {
                        Some(Worm { pos, origin, subchunk: self.subchunk + 15, voxel: self.voxel + 992 })
                    } else {
                        None
                    }
                }
            },
            VoxelDir::North => {
                if self.pos.z == 0x7FFF_FFFF {
                    return None;
                }
                let pos = IVec3 { x: self.pos.x, y: self.pos.y, z: self.pos.z + 1 };
                proof {
                    lemma_step_up(lz as int, 32);
                    lemma_origin(pos.z);
                }
                if lz % 32 != 31 {
                    Some(Worm { pos, origin: self.origin, subchunk: self.subchunk, voxel: self.voxel + 1024 })
                } else if lz != 511 {
                    Some(Worm { pos, origin: self.origin, subchunk: self.subchunk + 16, voxel: self.voxel - 31744 })
                } else {
                    let origin = IVec2 { x: self.origin.x, y: self.origin.y + 512 };
                    proof {
                        lemma_neighbor_origin(self.origin.y, pos.z);
                    }
                    if world.has_region(pos.xz()) {
                        Some(Worm { pos, origin, subchunk: self.subchunk - 240, voxel: self.voxel - 31744 })
                    } else {
                        None
                    }
                }
            },
            VoxelDir::South => {
                if self.pos.z == -0x8000_0000 {
                    return None;
                }
                let pos = IVec3 { x: self.pos.x, y: self.pos.y, z: self.pos.z - 1 };
                proof {
                    lemma_step_down(lz as int, 32);
                    lemma_origin(pos.z);
                }
                if lz % 32 != 0 {
                    Some(Worm { pos, origin: self.origin, subchunk: self.subchunk, voxel: self.voxel - 1024 })
                } else if lz != 0 {
                    Some(Worm { pos, origin: self.origin, subchunk: self.subchunk - 16, voxel: self.voxel + 31744 })
                } else {
                    let origin = IVec2 { x: self.origin.x, y: self.origin.y - 512 };
                    proof {
                        lemma_neighbor_origin_down(self.origin.y, pos.z);
                    }
                    if world.has_region(pos.xz()) {
                        Some(Worm { pos, origin, subchunk: self.subchunk + 240, voxel: self.voxel + 31744 })
                    } else {
                        None
                    }
                }
            },
        }
    }
}

/// A write cursor over a world: the same cached decomposition as [`Worm`],
/// plus a write through it.
#[derive(Copy, Clone)]
pub struct WormMut {
    cursor: Worm,
}

impl WormMut {
    /// The cursor's position.
    pub closed spec fn spec_pos(&self) -> IVec3 {
        self.cursor.spec_pos()
    }

    /// The cached decomposition matches the position, whose region is
    /// loaded in `world`.
    pub closed spec fn wf_for(&self, world: &VoxelWorld) -> bool {
        self.cursor.wf_for(world)
    }

    /// Start a write cursor at `pos`; `None` when `pos` is outside the
    /// world or its region is not loaded.
    pub fn new(world: &VoxelWorld, pos: IVec3) -> (r: Option<WormMut>)
        requires
            world.wf(),
        ensures
            match r {
                Some(w) => world.pos_loaded(pos) && w.wf_for(world) && w.spec_pos() == pos,
                None => !world.pos_loaded(pos),
            },
    {
        match Worm::new(world, pos) {
            Some(cursor) => Some(WormMut { cursor }),
            None => None,
        }
    }

    /// The voxel under the cursor.
    pub fn get_voxel(&self, world: &VoxelWorld) -> (r: Voxel)
        requires
            world.wf(),
            self.wf_for(world),
        ensures
            r.0 == world.spec_voxel_at(self.spec_pos()),
    {
        self.cursor.get_voxel(world)
    }

    /// Assign the voxel under the cursor. The cursor stays valid.
    pub fn set_voxel(&self, world: &mut VoxelWorld, voxel: Voxel)
        requires
            old(world).wf(),
            self.wf_for(old(world)),
        ensures
            final(world).wf(),
            self.wf_for(final(world)),
            final(world).spec_min_y() == old(world).spec_min_y(),
            final(world).spec_max_y() == old(world).spec_max_y(),
            final(world).spec_voxel_at(self.spec_pos()) == voxel.0,
            forall|p2: IVec3|
                p2 != self.spec_pos() ==> #[trigger] final(world).spec_voxel_at(p2) == old(
                    world,
                ).spec_voxel_at(p2),
            forall|p2: IVec3|
                #[trigger] final(world).spec_light_at(p2) == old(world).spec_light_at(p2),
    {
        world.set_voxel(self.cursor.pos(), voxel);
    }

    /// Step one voxel in direction `dir`; `None` exactly when the next
    /// position is not loaded or not representable.
    pub fn next(&self, world: &VoxelWorld, dir: VoxelDir) -> (r: Option<WormMut>)
        requires
            world.wf(),
            self.wf_for(world),
        ensures
            match r {
                Some(w2) => dir.can_step(self.spec_pos()) && world.pos_loaded(
                    dir.spec_next(self.spec_pos()),
                ) && w2.wf_for(world) && w2.spec_pos() == dir.spec_next(self.spec_pos()),
                None => !(dir.can_step(self.spec_pos()) && world.pos_loaded(
                    dir.spec_next(self.spec_pos()),
                )),
            },
    {
        match self.cursor.next(world, dir) {
            Some(cursor) => Some(WormMut { cursor }),
            None => None,
        }
    }
}

/// Stepping a nonnegative coordinate up by one: within a 32-lane it bumps
/// the remainder, at the lane's top it wraps to the next quotient.
proof fn lemma_step_up(a: int, n: int)
    requires
        0 <= a,
        n > 0,
    ensures
        a % n != n - 1 ==> (a + 1) % n == a % n + 1 && (a + 1) / n == a / n,
        a % n == n - 1 ==> (a + 1) % n == 0 && (a + 1) / n == a / n + 1,
        0 <= a % n < n,
{
    vstd::arithmetic::div_mod::lemma_fundamental_div_mod(a, n);
    vstd::arithmetic::div_mod::lemma_mod_bound(a, n);
    assert(n * (a / n) == (a / n) * n) by (nonlinear_arith);
    assert(n * (a / n + 1) == n * (a / n) + n && (a / n + 1) * n == n * (a / n + 1))
        by (nonlinear_arith);
    if a % n != n - 1 {
        vstd::arithmetic::div_mod::lemma_fundamental_div_mod_converse(a + 1, n, a / n, a % n + 1);
    } else {
        vstd::arithmetic::div_mod::lemma_fundamental_div_mod_converse(a + 1, n, a / n + 1, 0);
    }
}

/// Stepping a positive coordinate down by one: within a 32-lane it lowers
/// the remainder, at the lane's bottom it wraps to the previous quotient.
proof fn lemma_step_down(a: int, n: int)
    requires
        0 <= a,
        n > 0,
    ensures
        a > 0 && a % n != 0 ==> (a - 1) % n == a % n - 1 && (a - 1) / n == a / n,
        a > 0 && a % n == 0 ==> (a - 1) % n == n - 1 && (a - 1) / n == a / n - 1,
        0 <= a % n < n,
{
    vstd::arithmetic::div_mod::lemma_fundamental_div_mod(a, n);
    vstd::arithmetic::div_mod::lemma_mod_bound(a, n);
    assert(n * (a / n) == (a / n) * n) by (nonlinear_arith);
    assert(n * (a / n - 1) == n * (a / n) - n && (a / n - 1) * n == n * (a / n - 1))
        by (nonlinear_arith);
    if a > 0 {
        if a % n != 0 {
            vstd::arithmetic::div_mod::lemma_fundamental_div_mod_converse(
                a - 1,
                n,
                a / n,
                a % n - 1,
            );
        } else {
            vstd::arithmetic::div_mod::lemma_fundamental_div_mod_converse(
                a - 1,
                n,
                a / n - 1,
                n - 1,
            );
        }
    }
}

/// Below the top of a height that is a multiple of 32, only the last lane
/// touches the top.
proof fn lemma_last_lane(a: int, h: int)
    requires
        0 <= a < h,
        h % 32 == 0,
    ensures
        a % 32 != 31 ==> a + 1 < h,
        a == h - 1 ==> a % 32 == 31,
{
    vstd::arithmetic::div_mod::lemma_fundamental_div_mod(h, 32);
    assert(32 * (h / 32) == (h / 32) * 32 && (h / 32 - 1) * 32 == 32 * (h / 32) - 32)
        by (nonlinear_arith);
    if a == h - 1 {
        vstd::arithmetic::div_mod::lemma_fundamental_div_mod_converse(h - 1, 32, h / 32 - 1, 31);
    }
    if a + 1 == h {
        vstd::arithmetic::div_mod::lemma_fundamental_div_mod_converse(h - 1, 32, h / 32 - 1, 31);
    }
}

/// Crossing the upper region boundary lands at offset zero of the region
/// whose aligned origin sits 512 above.
proof fn lemma_neighbor_origin(o: i32, v: i32)
    by (bit_vector)
    requires
        (o as u32) & 511u32 == 0,
        v == o + 512,
        o <= 0x7FFF_FFFF - 512,
    ensures
        spec_origin(v) == o + 512,
{
}

/// Crossing the lower region boundary lands at offset 511 of the region
/// whose aligned origin sits 512 below.
proof fn lemma_neighbor_origin_down(o: i32, v: i32)
    by (bit_vector)
    requires
        (o as u32) & 511u32 == 0,
        v == o - 1,
        o >= -0x8000_0000 + 512,
    ensures
        spec_origin(v) == o - 512,
{
}

} // verus!
