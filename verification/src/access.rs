//! Read and write handles over a world.
//!
//! A reader borrows the world shared and serves region- and voxel-level
//! reads; a writer borrows it exclusively and adds the writes. Both return
//! `None` for positions outside any loaded region, where the world-level
//! operations would fall back to air.

use vstd::prelude::*;
use crate::ivec::{IVec2, IVec3};
use crate::lightmap::Light;
use crate::region::Region;
use crate::voxel::{Voxel, VoxelData};
use crate::world::{spec_origin_key, VoxelWorld};

verus! {

/// A shared read handle over a world.
pub struct VoxelReader<'w> {
    world: &'w VoxelWorld,
}

impl<'w> VoxelReader<'w> {
    /// The world being read.
    pub closed spec fn spec_world(&self) -> VoxelWorld {
        *self.world
    }

    /// Borrow `world` for reading.
    pub fn new(world: &'w VoxelWorld) -> (r: VoxelReader<'w>)
        ensures
            r.spec_world() == *world,
    {
        VoxelReader { world }
    }

    /// The region containing the XZ coordinate, if loaded.
    pub fn get_region(&self, xz: IVec2) -> (r: Option<&Region>)
        requires
            self.spec_world().wf(),
        ensures
            match r {
                Some(rr) => self.spec_world().regions_map().contains_key(
                    spec_origin_key(xz.x, xz.y),
                ) && *rr == self.spec_world().regions_map()[spec_origin_key(xz.x, xz.y)],
                None => !self.spec_world().regions_map().contains_key(spec_origin_key(xz.x, xz.y)),
            },
    {
        self.world.get_region(xz)
    }

    /// The voxel at `pos`, or `None` when no region holds it.
    pub fn get_voxel(&self, pos: IVec3) -> (r: Option<Voxel>)
        requires
            self.spec_world().wf(),
        ensures
            self.spec_world().pos_loaded(pos) ==> r == Some(
                Voxel(self.spec_world().spec_voxel_at(pos)),
            ),
            !self.spec_world().pos_loaded(pos) ==> r is None,
    {
        match self.world.get_data(pos) {
            Some(data) => Some(data.state),
            None => None,
        }
    }

    /// The light record at `pos`, or `None` when no region holds it.
    pub fn get_light(&self, pos: IVec3) -> (r: Option<Light>)
        requires
            self.spec_world().wf(),
        ensures
            self.spec_world().pos_loaded(pos) ==> r == Some(self.spec_world().spec_light_at(pos)),
            !self.spec_world().pos_loaded(pos) ==> r is None,
    {
        match self.world.get_data(pos) {
            Some(data) => Some(data.light),
            None => None,
        }
    }

    /// The voxel state and light record at `pos`, or `None` when no region
    /// holds it.
    pub fn get_data(&self, pos: IVec3) -> (r: Option<VoxelData>)
        requires
            self.spec_world().wf(),
        ensures
            self.spec_world().pos_loaded(pos) ==> r == Some(
                VoxelData {
                    state: Voxel(self.spec_world().spec_voxel_at(pos)),
                    light: self.spec_world().spec_light_at(pos),
                },
            ),
            !self.spec_world().pos_loaded(pos) ==> r is None,
    {
        self.world.get_data(pos)
    }
}

/// An exclusive write handle over a world.
pub struct VoxelWriter<'w> {
    world: &'w mut VoxelWorld,
}

impl<'w> VoxelWriter<'w> {
    /// The world being written, as it currently stands.
    pub closed spec fn spec_world(&self) -> VoxelWorld {
        *self.world
    }

    /// Borrow `world` for writing.
    pub fn new(world: &'w mut VoxelWorld) -> (r: VoxelWriter<'w>)
        ensures
            r.spec_world() == *old(world),
    {
        VoxelWriter { world }
    }

    /// The voxel at `pos`, or `None` when no region holds it.
    pub fn get_voxel(&self, pos: IVec3) -> (r: Option<Voxel>)
        requires
            self.spec_world().wf(),
        ensures
            self.spec_world().pos_loaded(pos) ==> r == Some(
                Voxel(self.spec_world().spec_voxel_at(pos)),
            ),
            !self.spec_world().pos_loaded(pos) ==> r is None,
    {
        match self.world.get_data(pos) {
            Some(data) => Some(data.state),
            None => None,
        }
    }

    /// The light record at `pos`, or `None` when no region holds it.
    pub fn get_light(&self, pos: IVec3) -> (r: Option<Light>)
        requires
            self.spec_world().wf(),
        ensures
            self.spec_world().pos_loaded(pos) ==> r == Some(self.spec_world().spec_light_at(pos)),
            !self.spec_world().pos_loaded(pos) ==> r is None,
    {
        match self.world.get_data(pos) {
            Some(data) => Some(data.light),
            None => None,
        }
    }

    /// The voxel state and light record at `pos`, or `None` when no region
    /// holds it.
    pub fn get_data(&self, pos: IVec3) -> (r: Option<VoxelData>)
        requires
            self.spec_world().wf(),
        ensures
            self.spec_world().pos_loaded(pos) ==> r == Some(
                VoxelData {
                    state: Voxel(self.spec_world().spec_voxel_at(pos)),
                    light: self.spec_world().spec_light_at(pos),
                },
            ),
            !self.spec_world().pos_loaded(pos) ==> r is None,
    {
        self.world.get_data(pos)
    }

    /// Assign the voxel at `pos`, returning the state it replaced, or
    /// `None` (changing nothing) when no region holds the position.
    pub fn set_voxel(&mut self, pos: IVec3, voxel: Voxel) -> (r: Option<Voxel>)
        requires
            old(self).spec_world().wf(),
        ensures
            final(self).spec_world().wf(),
            old(self).spec_world().pos_loaded(pos) ==> r == Some(
                Voxel(old(self).spec_world().spec_voxel_at(pos)),
            ) && final(self).spec_world().spec_voxel_at(pos) == voxel.0,
            !old(self).spec_world().pos_loaded(pos) ==> r is None && final(self).spec_world()
                == old(self).spec_world(),
            forall|p2: IVec3|
                p2 != pos ==> #[trigger] final(self).spec_world().spec_voxel_at(p2) == old(
                    self,
                ).spec_world().spec_voxel_at(p2),
            forall|p2: IVec3|
                #[trigger] final(self).spec_world().spec_light_at(p2) == old(
                    self,
                ).spec_world().spec_light_at(p2),
            forall|p2: IVec3|
                #[trigger] final(self).spec_world().pos_loaded(p2) == old(
                    self,
                ).spec_world().pos_loaded(p2),
            final(self).spec_world().spec_min_y() == old(self).spec_world().spec_min_y(),
            final(self).spec_world().spec_max_y() == old(self).spec_world().spec_max_y(),
    {
        self.world.replace_voxel(pos, voxel)
    }

    /// Assign the light record at `pos`, returning the record it replaced,
    /// or `None` (changing nothing) when no region holds the position.
    pub fn set_light(&mut self, pos: IVec3, light: Light) -> (r: Option<Light>)
        requires
            old(self).spec_world().wf(),
        ensures
            final(self).spec_world().wf(),
            old(self).spec_world().pos_loaded(pos) ==> r == Some(
                old(self).spec_world().spec_light_at(pos),
            ) && final(self).spec_world().spec_light_at(pos) == light,
            !old(self).spec_world().pos_loaded(pos) ==> r is None && final(self).spec_world()
                == old(self).spec_world(),
            forall|p2: IVec3|
                p2 != pos ==> #[trigger] final(self).spec_world().spec_light_at(p2) == old(
                    self,
                ).spec_world().spec_light_at(p2),
            forall|p2: IVec3|
                #[trigger] final(self).spec_world().spec_voxel_at(p2) == old(
                    self,
                ).spec_world().spec_voxel_at(p2),
            forall|p2: IVec3|
                #[trigger] final(self).spec_world().pos_loaded(p2) == old(
                    self,
                ).spec_world().pos_loaded(p2),
            final(self).spec_world().spec_min_y() == old(self).spec_world().spec_min_y(),
            final(self).spec_world().spec_max_y() == old(self).spec_world().spec_max_y(),
    {
        self.world.set_light(pos, light)
    }

    /// Assign the voxel state and light record at `pos`, returning what
    /// they replaced, or `None` (changing nothing) when no region holds the
    /// position.
    pub fn set_data(&mut self, pos: IVec3, data: VoxelData) -> (r: Option<VoxelData>)
        requires
            old(self).spec_world().wf(),
        ensures
            final(self).spec_world().wf(),
            old(self).spec_world().pos_loaded(pos) ==> r == Some(
                VoxelData {
                    state: Voxel(old(self).spec_world().spec_voxel_at(pos)),
                    light: old(self).spec_world().spec_light_at(pos),
                },
            ) && final(self).spec_world().spec_voxel_at(pos) == data.state.0 && final(self).spec_world().spec_light_at(pos) == data.light,
            !old(self).spec_world().pos_loaded(pos) ==> r is None && final(self).spec_world()
                == old(self).spec_world(),
            forall|p2: IVec3|
                p2 != pos ==> #[trigger] final(self).spec_world().spec_voxel_at(p2) == old(
                    self,
                ).spec_world().spec_voxel_at(p2) && final(self).spec_world().spec_light_at(p2)
                    == old(self).spec_world().spec_light_at(p2),
            forall|p2: IVec3|
                #[trigger] final(self).spec_world().pos_loaded(p2) == old(
                    self,
                ).spec_world().pos_loaded(p2),
            final(self).spec_world().spec_min_y() == old(self).spec_world().spec_min_y(),
            final(self).spec_world().spec_max_y() == old(self).spec_world().spec_max_y(),
    {
        self.world.set_data(pos, data)
    }
}

impl VoxelWorld {
    /// A shared read handle over this world.
    pub fn reader(&self) -> (r: VoxelReader<'_>)
        ensures
            r.spec_world() == *self,
    {
        VoxelReader::new(self)
    }

    /// An exclusive write handle over this world.
    pub fn writer(&mut self) -> (r: VoxelWriter<'_>)
        ensures
            r.spec_world() == *old(self),
    {
        VoxelWriter::new(self)
    }
}

} // verus!
