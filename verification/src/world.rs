//! The top-level voxel world: a configuration, a region table, and
//! voxel-level access that decomposes a world-space coordinate into
//! (region origin, subchunk index, voxel index).

use vstd::prelude::*;
use crate::ivec::{IVec2, IVec3};
use crate::lightmap::Light;
use crate::map::{
    lemma_aligned_key_not_sentinel, lemma_key_injective, lemma_view_key, spec_key, region_key,
    Regions,
};
use crate::region::Region;
use crate::voxel::{Voxel, VoxelData};

verus! {

/// Configuration for a voxel world.
#[derive(Clone)]
pub struct VoxelConfig {
    /// The y value at or above which is "void" space.
    /// Must be greater than `min_y`; the difference must be a multiple of 32.
    pub max_y: i32,
    /// The y value below which is "void" space.
    pub min_y: i32,
}

/// Whether a coordinate's low nine bits are clear, making it a multiple of
/// 512 and so a valid region corner.
pub open spec fn aligned512(v: i32) -> bool {
    (v as u32) & 511u32 == 0
}

/// The region origin containing coordinate `v`: `v` rounded toward minus
/// infinity to a multiple of 512 (the low nine bits cleared).
pub open spec fn spec_origin(v: i32) -> i32 {
    ((v as u32) & 0xFFFF_FE00u32) as i32
}

/// The key of the region containing the column `(x, z)`.
pub open spec fn spec_origin_key(x: i32, z: i32) -> u64 {
    spec_key(spec_origin(x), spec_origin(z))
}

/// The origin is aligned, lies at most 511 below its coordinate, and is the
/// unique aligned value doing so.
pub proof fn lemma_origin(v: i32)
    by (bit_vector)
    ensures
        aligned512(spec_origin(v)),
        0 <= v - spec_origin(v) < 512,
        forall|o: i32| aligned512(o) && 0 <= v - o < 512 ==> #[trigger] spec_origin(v) == o,
{
}

/// Round `v` toward minus infinity to a multiple of 512.
pub fn origin_of(v: i32) -> (r: i32)
    ensures
        r == spec_origin(v),
{
    ((v as u32) & 0xFFFF_FE00u32) as i32
}

/// Holds the world's configuration and its regions, and answers voxel-level
/// reads and writes anywhere in the world.
pub struct VoxelWorld {
    /// The shape of the world.
    config: VoxelConfig,
    /// Cached `max_y - min_y`.
    height: usize,
    /// Map of region origins to regions.
    regions: Regions,
}

impl VoxelWorld {
    /// The y value below which is void.
    pub closed spec fn spec_min_y(&self) -> int {
        self.config.min_y as int
    }

    /// The y value at or above which is void.
    pub closed spec fn spec_max_y(&self) -> int {
        self.config.max_y as int
    }

    /// The regions, as a map from origin key to region.
    pub closed spec fn regions_map(&self) -> Map<u64, Region> {
        self.regions@
    }

    /// The properties every inserted region satisfies: well-formed, spanning
    /// the world's full y range, its corner on the 512-grid.
    pub open spec fn region_ok(&self, r: Region) -> bool {
        &&& r.wf()
    &&& r.spec_min().y == self.spec_min_y()
    &&& r.spec_max().y == self.spec_max_y()
    &&& aligned512(r.spec_min().x)
    &&& aligned512(r.spec_min().z)
    }

    /// Structural invariant.
    pub closed spec fn wf(&self) -> bool {
        &&& self.spec_min_y() < self.spec_max_y()
    &&& self.height == self.spec_max_y() - self.spec_min_y()
    &&& (self.spec_max_y() - self.spec_min_y()) % 32 == 0
    &&& self.spec_max_y() - self.spec_min_y() <= 0x0080_0000
    &&& self.regions.wf()
    &&& forall|k: u64|
            #[trigger] self.regions@.contains_key(k) ==> self.region_ok(self.regions@[k])
    }

    /// The voxel state the world shows at `pos`: the stored state inside an
    /// inserted region, and air (state 0) everywhere else.
    pub open spec fn spec_voxel_at(&self, pos: IVec3) -> u16 {
        let k = spec_origin_key(pos.x, pos.z);
        if self.spec_min_y() <= pos.y < self.spec_max_y() && self.regions_map().contains_key(k) {
            self.regions_map()[k].voxel_at(pos)
        } else {
            0
        }
    }

    /// The light record the world shows at `pos`: the stored record inside
    /// an inserted region, and no light everywhere else.
    pub open spec fn spec_light_at(&self, pos: IVec3) -> Light {
        let k = spec_origin_key(pos.x, pos.z);
        if self.spec_min_y() <= pos.y < self.spec_max_y() && self.regions_map().contains_key(k) {
            self.regions_map()[k].light_at(pos)
        } else {
            Light::spec_none()
        }
    }

    /// Whether `pos` lies in an inserted region (and inside the y range).
    pub open spec fn pos_loaded(&self, pos: IVec3) -> bool {
        &&& self.spec_min_y() <= pos.y < self.spec_max_y()
    &&& self.regions_map().contains_key(spec_origin_key(pos.x, pos.z))
    }

    /// Build a world from its configuration, which must give a positive
    /// height that is a multiple of 32.
    pub fn new(config: VoxelConfig) -> (r: VoxelWorld)
        requires
            config.max_y > config.min_y,
            (config.max_y - config.min_y) % 32 == 0,
            config.max_y - config.min_y <= 0x0080_0000,
        ensures
            r.wf(),
            r.spec_min_y() == config.min_y,
            r.spec_max_y() == config.max_y,
            r.regions_map() == Map::<u64, Region>::empty(),
    {
        let height = (config.max_y - config.min_y) as usize;
        VoxelWorld { config, height, regions: Regions::new() }
    }

    /// The y value below which is void.
    pub fn min_y(&self) -> (r: i32)
        ensures
            r == self.spec_min_y(),
    {
        self.config.min_y
    }

    /// The y value at or above which is void.
    pub fn max_y(&self) -> (r: i32)
        ensures
            r == self.spec_max_y(),
    {
        self.config.max_y
    }

    /// The number of voxels the world is tall.
    pub fn height(&self) -> (r: usize)
        requires
            self.wf(),
        ensures
            r == self.spec_max_y() - self.spec_min_y(),
    {
        self.height
    }

    /// Insert a region spanning the world's y range, returning the region
    /// previously at the same origin, if any.
    pub fn insert(&mut self, region: Region) -> (r: Option<Region>)
        requires
            old(self).wf(),
            old(self).region_ok(region),
        ensures
            final(self).wf(),
            final(self).spec_min_y() == old(self).spec_min_y(),
            final(self).spec_max_y() == old(self).spec_max_y(),
            final(self).regions_map() == old(self).regions_map().insert(
                region_key(region),
                region,
            ),
            match r {
                Some(prev) => old(self).regions_map().contains_key(region_key(region)) && prev
                    == old(self).regions_map()[region_key(region)],
                None => !old(self).regions_map().contains_key(region_key(region)),
            },
    {
        proof {
            lemma_aligned_key_not_sentinel(region.spec_min().x, region.spec_min().z);
        }
        self.regions.insert(region)
    }

    /// Remove and return the region containing the XZ coordinate, if any.
    pub fn remove(&mut self, pos: IVec2) -> (r: Option<Region>)
        requires
            old(self).wf(),
        ensures
            final(self).wf(),
            final(self).spec_min_y() == old(self).spec_min_y(),
            final(self).spec_max_y() == old(self).spec_max_y(),
            final(self).regions_map() == old(self).regions_map().remove(
                spec_origin_key(pos.x, pos.y),
            ),
            match r {
                Some(prev) => old(self).regions_map().contains_key(spec_origin_key(pos.x, pos.y))
                    && prev == old(self).regions_map()[spec_origin_key(pos.x, pos.y)],
                None => !old(self).regions_map().contains_key(spec_origin_key(pos.x, pos.y)),
            },
    {
        let origin = IVec2 { x: origin_of(pos.x), y: origin_of(pos.y) };
        proof {
            lemma_origin(pos.x);
            lemma_origin(pos.y);
            lemma_aligned_key_not_sentinel(origin.x, origin.y);
        }
        self.regions.remove(origin)
    }

    /// Whether a region containing the XZ coordinate is inserted.
    pub fn has_region(&self, pos: IVec2) -> (r: bool)
        requires
            self.wf(),
        ensures
            r == self.regions_map().contains_key(spec_origin_key(pos.x, pos.y)),
    {
        let origin = IVec2 { x: origin_of(pos.x), y: origin_of(pos.y) };
        proof {
            lemma_origin(pos.x);
            lemma_origin(pos.y);
            lemma_aligned_key_not_sentinel(origin.x, origin.y);
        }
        self.regions.has_region(origin)
    }

    /// Allocate a fresh, empty region containing the XZ coordinate, shaped
    /// by this world's configuration. The region is not inserted.
    pub fn init_region(&mut self, pos: IVec2) -> (r: Region)
        requires
            old(self).wf(),
            pos.x < 0x7FFF_FE00,
            pos.y < 0x7FFF_FE00,
        ensures
            *final(self) == *old(self),
            old(self).region_ok(r),
            r.spec_min() == (IVec3 {
                x: spec_origin(pos.x),
                y: old(self).spec_min_y() as i32,
                z: spec_origin(pos.y),
            }),
            forall|p: IVec3| r.contains_pos(p) ==> #[trigger] r.voxel_at(p) == 0,
            forall|p: IVec3| r.contains_pos(p) ==> #[trigger] r.light_at(p) == Light::spec_none(),
    {
        let min = IVec3 { x: origin_of(pos.x), y: self.config.min_y, z: origin_of(pos.y) };
        proof {
            lemma_origin(pos.x);
            lemma_origin(pos.y);
            let px = pos.x;
            let py = pos.y;
            assert(-0x8000_0000 <= spec_origin(px) + 512 <= 0x7FFF_FFFF) by (bit_vector)
                requires
                    px < 0x7FFF_FE00,
            ;
            assert(-0x8000_0000 <= spec_origin(py) + 512 <= 0x7FFF_FFFF) by (bit_vector)
                requires
                    py < 0x7FFF_FE00,
            ;
        }
        let max = IVec3 { x: min.x + 512, y: self.config.max_y, z: min.z + 512 };
        Region::new(min, max)
    }

    /// Allocate a fresh region containing the XZ coordinate and insert it.
    /// Returns false, changing nothing, if a region is already there.
    pub fn init_and_insert_region(&mut self, pos: IVec2) -> (r: bool)
        requires
            old(self).wf(),
            pos.x < 0x7FFF_FE00,
            pos.y < 0x7FFF_FE00,
        ensures
            final(self).wf(),
            final(self).spec_min_y() == old(self).spec_min_y(),
            final(self).spec_max_y() == old(self).spec_max_y(),
            r == !old(self).regions_map().contains_key(spec_origin_key(pos.x, pos.y)),
            !r ==> *final(self) == *old(self),
            r ==> {
                let k = spec_origin_key(pos.x, pos.y);
                let rr = final(self).regions_map()[k];
                &&& final(self).regions_map() == old(self).regions_map().insert(k, rr)
                &&& old(self).region_ok(rr)
                &&& rr.spec_min() == (IVec3 {
                    x: spec_origin(pos.x),
                    y: old(self).spec_min_y() as i32,
                    z: spec_origin(pos.y),
                })
                &&& forall|p: IVec3| rr.contains_pos(p) ==> #[trigger] rr.voxel_at(p) == 0
                &&& forall|p: IVec3|
                    rr.contains_pos(p) ==> #[trigger] rr.light_at(p) == Light::spec_none()
            },
    {
        if !self.has_region(pos) {
            let region = self.init_region(pos);
            self.insert(region);
            true
        } else {
            false
        }
    }

    /// The region containing the XZ coordinate, if inserted.
    pub fn get_region(&self, pos: IVec2) -> (r: Option<&Region>)
        requires
            self.wf(),
        ensures
            match r {
                Some(rr) => self.regions_map().contains_key(spec_origin_key(pos.x, pos.y)) && *rr
                    == self.regions_map()[spec_origin_key(pos.x, pos.y)],
                None => !self.regions_map().contains_key(spec_origin_key(pos.x, pos.y)),
            },
    {
        let origin = IVec2 { x: origin_of(pos.x), y: origin_of(pos.y) };
        proof {
            lemma_origin(pos.x);
            lemma_origin(pos.y);
            lemma_aligned_key_not_sentinel(origin.x, origin.y);
        }
        self.regions.get(origin)
    }

    /// Mutable access to the region containing the XZ coordinate, which
    /// must be inserted.
    pub fn get_region_mut(&mut self, pos: IVec2) -> (r: &mut Region)
        requires
            old(self).wf(),
            old(self).regions_map().contains_key(spec_origin_key(pos.x, pos.y)),
        ensures
            *r == old(self).regions_map()[spec_origin_key(pos.x, pos.y)],
            region_key(*final(r)) == spec_origin_key(pos.x, pos.y) && old(self).region_ok(
                *final(r),
            ) ==> final(self).wf() && final(self).spec_min_y() == old(self).spec_min_y()
                && final(self).spec_max_y() == old(self).spec_max_y()
                && final(self).regions_map() == old(self).regions_map().insert(
                spec_origin_key(pos.x, pos.y),
                *final(r),
            ),
    {
        let origin = IVec2 { x: origin_of(pos.x), y: origin_of(pos.y) };
        proof {
            lemma_origin(pos.x);
            lemma_origin(pos.y);
            lemma_aligned_key_not_sentinel(origin.x, origin.y);
        }
        self.regions.get_mut(origin)
    }

    /// The voxel at this position. Out-of-bounds positions read as air.
    pub fn get_voxel(&self, pos: IVec3) -> (r: Voxel)
        requires
            self.wf(),
        ensures
            r.0 == self.spec_voxel_at(pos),
    {
        if pos.y < self.config.min_y || pos.y >= self.config.max_y {
            return Voxel(0);
        }
        match self.get_region(pos.xz()) {
            Some(region) => {
                proof {
                    self.lemma_region_contains(pos);
                }
                match region.get_voxel(pos) {
                    Some(v) => v,
                    None => Voxel(0),
                }
            },
            None => Voxel(0),
        }
    }

    /// The light record at this position. Out-of-bounds positions read as
    /// no light.
    pub fn get_light(&self, pos: IVec3) -> (r: Light)
        requires
            self.wf(),
        ensures
            r == self.spec_light_at(pos),
    {
        if pos.y < self.config.min_y || pos.y >= self.config.max_y {
            return Light::none();
        }
        match self.get_region(pos.xz()) {
            Some(region) => {
                proof {
                    self.lemma_region_contains(pos);
                }
                match region.get_light(pos) {
                    Some(l) => l,
                    None => Light::none(),
                }
            },
            None => Light::none(),
        }
    }

    /// The voxel state and light record at this position, or `None` when
    /// the position is out of bounds.
    pub fn get_data(&self, pos: IVec3) -> (r: Option<VoxelData>)
        requires
            self.wf(),
        ensures
            self.pos_loaded(pos) ==> r == Some(
                VoxelData {
                    state: Voxel(self.spec_voxel_at(pos)),
                    light: self.spec_light_at(pos),
                },
            ),
            !self.pos_loaded(pos) ==> r is None,
    {
        if pos.y < self.config.min_y || pos.y >= self.config.max_y {
            return None;
        }
        match self.get_region(pos.xz()) {
            Some(region) => {
                proof {
                    self.lemma_region_contains(pos);
                }
                region.get_data(pos)
            },
            None => None,
        }
    }

    /// Assign to the voxel at this position, returning the previous state,
    /// or `None` (changing nothing) when the position is out of bounds.
    pub fn replace_voxel(&mut self, pos: IVec3, voxel: Voxel) -> (r: Option<Voxel>)
        requires
            old(self).wf(),
        ensures
            final(self).wf(),
            final(self).spec_min_y() == old(self).spec_min_y(),
            final(self).spec_max_y() == old(self).spec_max_y(),
            old(self).pos_loaded(pos) ==> r == Some(Voxel(old(self).spec_voxel_at(pos))) && final(self).spec_voxel_at(pos) == voxel.0,
            !old(self).pos_loaded(pos) ==> r is None && *final(self) == *old(self),
            forall|p2: IVec3|
                p2 != pos ==> #[trigger] final(self).spec_voxel_at(p2) == old(self).spec_voxel_at(
                    p2,
                ),
            forall|p2: IVec3|
                #[trigger] final(self).spec_light_at(p2) == old(self).spec_light_at(p2),
            forall|p2: IVec3| #[trigger] final(self).pos_loaded(p2) == old(self).pos_loaded(p2),
    {
        if pos.y < self.config.min_y || pos.y >= self.config.max_y {
            return None;
        }
        if !self.has_region(pos.xz()) {
            return None;
        }
        let ghost orig = *self;
        proof {
            self.lemma_region_contains(pos);
        }
        let region = self.get_region_mut(pos.xz());
        let prev = region.set_voxel(pos, voxel);
        proof {
            let ghost k = spec_origin_key(pos.x, pos.z);
            assert(self.wf());
            let ghost rr = self.regions_map()[k];
            let ghost ro = orig.regions_map()[k];
            assert(self.regions_map() == orig.regions_map().insert(k, rr));
            assert(rr.spec_min() == ro.spec_min() && rr.spec_max() == ro.spec_max());
            assert forall|p2: IVec3| ro.contains_pos(p2) && p2 != pos implies #[trigger] rr.voxel_at(
                p2,
            ) == ro.voxel_at(p2) by {}
            assert forall|p2: IVec3| ro.contains_pos(p2) && p2 != pos implies #[trigger] rr.light_at(
                p2,
            ) == ro.light_at(p2) by {}
            orig.lemma_same_key_frame(*self, pos);
            self.lemma_region_contains(pos);
        }
        prev
    }

    /// Assign to the voxel at this position. Returns false, changing
    /// nothing, when the position is out of bounds.
    pub fn set_voxel(&mut self, pos: IVec3, voxel: Voxel) -> (r: bool)
        requires
            old(self).wf(),
        ensures
            final(self).wf(),
            final(self).spec_min_y() == old(self).spec_min_y(),
            final(self).spec_max_y() == old(self).spec_max_y(),
            r == old(self).pos_loaded(pos),
            r ==> final(self).spec_voxel_at(pos) == voxel.0,
            !r ==> *final(self) == *old(self),
            forall|p2: IVec3|
                p2 != pos ==> #[trigger] final(self).spec_voxel_at(p2) == old(self).spec_voxel_at(
                    p2,
                ),
            forall|p2: IVec3|
                #[trigger] final(self).spec_light_at(p2) == old(self).spec_light_at(p2),
            forall|p2: IVec3| #[trigger] final(self).pos_loaded(p2) == old(self).pos_loaded(p2),
    {
        match self.replace_voxel(pos, voxel) {
            Some(_) => true,
            None => false,
        }
    }

    /// Assign the light record at this position, returning the previous
    /// record, or `None` (changing nothing) when the position is out of
    /// bounds.
    pub fn set_light(&mut self, pos: IVec3, light: Light) -> (r: Option<Light>)
        requires
            old(self).wf(),
        ensures
            final(self).wf(),
            final(self).spec_min_y() == old(self).spec_min_y(),
            final(self).spec_max_y() == old(self).spec_max_y(),
            old(self).pos_loaded(pos) ==> r == Some(old(self).spec_light_at(pos)) && final(self).spec_light_at(pos) == light,
            !old(self).pos_loaded(pos) ==> r is None && *final(self) == *old(self),
            forall|p2: IVec3|
                p2 != pos ==> #[trigger] final(self).spec_light_at(p2) == old(self).spec_light_at(
                    p2,
                ),
            forall|p2: IVec3|
                #[trigger] final(self).spec_voxel_at(p2) == old(self).spec_voxel_at(p2),
            forall|p2: IVec3| #[trigger] final(self).pos_loaded(p2) == old(self).pos_loaded(p2),
    {
        if pos.y < self.config.min_y || pos.y >= self.config.max_y {
            return None;
        }
        if !self.has_region(pos.xz()) {
            return None;
        }
        let ghost orig = *self;
        proof {
            self.lemma_region_contains(pos);
        }
        let region = self.get_region_mut(pos.xz());
        let prev = region.set_light(pos, light);
        proof {
            let ghost k = spec_origin_key(pos.x, pos.z);
            assert(self.wf());
            let ghost rr = self.regions_map()[k];
            let ghost ro = orig.regions_map()[k];
            assert(self.regions_map() == orig.regions_map().insert(k, rr));
            assert(rr.spec_min() == ro.spec_min() && rr.spec_max() == ro.spec_max());
            assert forall|p2: IVec3| ro.contains_pos(p2) && p2 != pos implies #[trigger] rr.voxel_at(
                p2,
            ) == ro.voxel_at(p2) by {}
            assert forall|p2: IVec3| ro.contains_pos(p2) && p2 != pos implies #[trigger] rr.light_at(
                p2,
            ) == ro.light_at(p2) by {}
            orig.lemma_same_key_frame(*self, pos);
            self.lemma_region_contains(pos);
        }
        prev
    }

    /// Assign both the voxel state and the light record at this position,
    /// returning what they replaced, or `None` (changing nothing) when the
    /// position is out of bounds.
    pub fn set_data(&mut self, pos: IVec3, data: VoxelData) -> (r: Option<VoxelData>)
        requires
            old(self).wf(),
        ensures
            final(self).wf(),
            final(self).spec_min_y() == old(self).spec_min_y(),
            final(self).spec_max_y() == old(self).spec_max_y(),
            old(self).pos_loaded(pos) ==> r == Some(
                VoxelData {
                    state: Voxel(old(self).spec_voxel_at(pos)),
                    light: old(self).spec_light_at(pos),
                },
            ) && final(self).spec_voxel_at(pos) == data.state.0 && final(self).spec_light_at(pos)
                == data.light,
            !old(self).pos_loaded(pos) ==> r is None && *final(self) == *old(self),
            forall|p2: IVec3|
                p2 != pos ==> #[trigger] final(self).spec_voxel_at(p2) == old(self).spec_voxel_at(
                    p2,
                ) && final(self).spec_light_at(p2) == old(self).spec_light_at(p2),
            forall|p2: IVec3| #[trigger] final(self).pos_loaded(p2) == old(self).pos_loaded(p2),
    {
        if pos.y < self.config.min_y || pos.y >= self.config.max_y {
            return None;
        }
        if !self.has_region(pos.xz()) {
            return None;
        }
        let ghost orig = *self;
        proof {
            self.lemma_region_contains(pos);
        }
        let region = self.get_region_mut(pos.xz());
        let prev = region.set_data(pos, data);
        proof {
            let ghost k = spec_origin_key(pos.x, pos.z);
            assert(self.wf());
            let ghost rr = self.regions_map()[k];
            let ghost ro = orig.regions_map()[k];
            assert(self.regions_map() == orig.regions_map().insert(k, rr));
            assert(rr.spec_min() == ro.spec_min() && rr.spec_max() == ro.spec_max());
            assert forall|p2: IVec3| ro.contains_pos(p2) && p2 != pos implies #[trigger] rr.voxel_at(
                p2,
            ) == ro.voxel_at(p2) by {}
            assert forall|p2: IVec3| ro.contains_pos(p2) && p2 != pos implies #[trigger] rr.light_at(
                p2,
            ) == ro.light_at(p2) by {
                assert(rr.voxel_at(p2) == ro.voxel_at(p2));
            }
            orig.lemma_same_key_frame(*self, pos);
            self.lemma_region_contains(pos);
        }
        prev
    }

    /// The shape facts the invariant gives about the configuration.
    pub proof fn lemma_wf_bounds(&self)
        requires
            self.wf(),
        ensures
            self.spec_min_y() < self.spec_max_y(),
            (self.spec_max_y() - self.spec_min_y()) % 32 == 0,
            self.spec_max_y() - self.spec_min_y() <= 0x0080_0000,
    {
    }

    /// A position inside the y range whose region is inserted lies inside
    /// that region's box, whose corner decodes from the origin key.
    pub proof fn lemma_region_contains(&self, pos: IVec3)
        requires
            self.wf(),
            self.spec_min_y() <= pos.y < self.spec_max_y(),
            self.regions_map().contains_key(spec_origin_key(pos.x, pos.z)),
        ensures
            self.regions_map()[spec_origin_key(pos.x, pos.z)].contains_pos(pos),
            self.region_ok(self.regions_map()[spec_origin_key(pos.x, pos.z)]),
            region_key(self.regions_map()[spec_origin_key(pos.x, pos.z)]) == spec_origin_key(
                pos.x,
                pos.z,
            ),
            self.regions_map()[spec_origin_key(pos.x, pos.z)].spec_min().x == spec_origin(pos.x),
            self.regions_map()[spec_origin_key(pos.x, pos.z)].spec_min().z == spec_origin(pos.z),
    {
        let k = spec_origin_key(pos.x, pos.z);
        let r = self.regions_map()[k];
        lemma_view_key(&self.regions, k);
        lemma_key_injective(r.spec_min().x, r.spec_min().z, spec_origin(pos.x), spec_origin(pos.z));
        lemma_origin(pos.x);
        lemma_origin(pos.z);
    }

    /// After one region is replaced under its own key by a region with the
    /// same corners, the world differs only inside that region.
    proof fn lemma_same_key_frame(&self, fin: VoxelWorld, pos: IVec3)
        requires
            self.wf(),
            fin.wf(),
            fin.spec_min_y() == self.spec_min_y(),
            fin.spec_max_y() == self.spec_max_y(),
            self.regions_map().contains_key(spec_origin_key(pos.x, pos.z)),
            fin.regions_map() == self.regions_map().insert(
                spec_origin_key(pos.x, pos.z),
                fin.regions_map()[spec_origin_key(pos.x, pos.z)],
            ),
            fin.regions_map()[spec_origin_key(pos.x, pos.z)].spec_min() == self.regions_map()[
                spec_origin_key(pos.x, pos.z)
            ].spec_min(),
            fin.regions_map()[spec_origin_key(pos.x, pos.z)].spec_max() == self.regions_map()[
                spec_origin_key(pos.x, pos.z)
            ].spec_max(),
            forall|p2: IVec3|
                self.regions_map()[spec_origin_key(pos.x, pos.z)].contains_pos(p2) && p2 != pos
                    ==> #[trigger] fin.regions_map()[spec_origin_key(pos.x, pos.z)].voxel_at(p2)
                    == self.regions_map()[spec_origin_key(pos.x, pos.z)].voxel_at(p2),
            forall|p2: IVec3|
                self.regions_map()[spec_origin_key(pos.x, pos.z)].contains_pos(p2) && p2 != pos
                    ==> #[trigger] fin.regions_map()[spec_origin_key(pos.x, pos.z)].light_at(p2)
                    == self.regions_map()[spec_origin_key(pos.x, pos.z)].light_at(p2),
        ensures
            forall|p2: IVec3|
                p2 != pos ==> #[trigger] fin.spec_voxel_at(p2) == self.spec_voxel_at(p2),
            forall|p2: IVec3|
                p2 != pos ==> #[trigger] fin.spec_light_at(p2) == self.spec_light_at(p2),
            forall|p2: IVec3| #[trigger] fin.pos_loaded(p2) == self.pos_loaded(p2),
    {
        let k = spec_origin_key(pos.x, pos.z);
        assert forall|p2: IVec3| p2 != pos implies #[trigger] fin.spec_voxel_at(p2)
            == self.spec_voxel_at(p2) by {
            let k2 = spec_origin_key(p2.x, p2.z);
            if k2 == k && self.spec_min_y() <= p2.y < self.spec_max_y()
                && self.regions_map().contains_key(k2) {
                self.lemma_region_contains(p2);
            }
        }
        assert forall|p2: IVec3| p2 != pos implies #[trigger] fin.spec_light_at(p2)
            == self.spec_light_at(p2) by {
            let k2 = spec_origin_key(p2.x, p2.z);
            if k2 == k && self.spec_min_y() <= p2.y < self.spec_max_y()
                && self.regions_map().contains_key(k2) {
                self.lemma_region_contains(p2);
            }
        }
    }
}

} // verus!
