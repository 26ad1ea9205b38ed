//! Chunk and subchunk views: non-owning handles into a region.
//!
//! A chunk is the 32 x H x 32 column of subchunks at a fixed (x, z); a
//! subchunk view addresses one 32-cube. Both borrow their region and share
//! its indexing; writes go through the region itself.

use vstd::prelude::*;
use crate::ivec::{IVec2, IVec3};
use crate::lightmap::Light;
use crate::region::Region;
use crate::voxel::Voxel;

verus! {

/// A 32 x H x 32 column of voxels: a vertical column of subchunks of its
/// region.
pub struct Chunk<'s> {
    region: &'s Region,
    /// The minimum coordinate contained by this chunk.
    min: IVec3,
    /// The maximum coordinate contained by this chunk, exclusively.
    max: IVec3,
}

impl<'s> Chunk<'s> {
    /// The region the chunk belongs to.
    pub closed spec fn spec_region(&self) -> Region {
        *self.region
    }

    /// The chunk's box: a 32 x H x 32 column inside its region.
    pub closed spec fn wf(&self) -> bool {
        &&& self.region.wf()
    &&& self.region.spec_min().x <= self.min.x <= self.region.spec_min().x + 480
    &&& self.region.spec_min().z <= self.min.z <= self.region.spec_min().z + 480
    &&& self.min.y == self.region.spec_min().y
    &&& self.max == (IVec3 {
        x: (self.min.x + 32) as i32,
        y: self.region.spec_max().y,
        z: (self.min.z + 32) as i32,
    })
    }

    /// Whether `pos` lies inside this chunk's column.
    pub open spec fn contains_pos(&self, pos: IVec3) -> bool {
        &&& self.spec_min().x <= pos.x < self.spec_min().x + 32
    &&& self.spec_min().z <= pos.z < self.spec_min().z + 32
    &&& self.spec_min().y <= pos.y < self.spec_max().y
    }

    /// The minimum coordinate contained by this chunk.
    pub closed spec fn spec_min(&self) -> IVec3 {
        self.min
    }

    /// The maximum coordinate contained by this chunk, exclusively.
    pub closed spec fn spec_max(&self) -> IVec3 {
        self.max
    }

    /// The minimum coordinate contained by this chunk.
    pub fn min(&self) -> (r: &IVec3)
        ensures
            *r == self.spec_min(),
    {
        &self.min
    }

    /// The maximum coordinate contained by this chunk, exclusively.
    pub fn max(&self) -> (r: &IVec3)
        ensures
            *r == self.spec_max(),
    {
        &self.max
    }

    /// The subchunk of this column containing height `y`, if any.
    pub fn get_subchunk(&self, y: i32) -> (r: Option<Subchunk<'s>>)
        requires
            self.wf(),
        ensures
            match r {
                Some(s) => self.spec_min().y <= y < self.spec_max().y && s.wf()
                    && s.spec_region() == self.spec_region() && s.spec_min() == (IVec3 {
                    x: self.spec_min().x,
                    y: (self.spec_min().y + ((y - self.spec_min().y) / 32) * 32) as i32,
                    z: self.spec_min().z,
                }),
                None => !(self.spec_min().y <= y < self.spec_max().y),
            },
    {
        if y < self.min.y || y >= self.max.y {
            return None;
        }
        proof {
            self.region.lemma_wf_bounds();
            assert((((y - self.min.y) as int) / 32) * 32 >= 0 && (((y - self.min.y) as int) / 32)
                * 32 <= ((y - self.min.y) as int) && (((y - self.min.y) as int) / 32) * 32 + 32
                <= self.region.spec_height()) by (nonlinear_arith)
                requires
                    0 <= ((y - self.min.y) as int),
                    ((y - self.min.y) as int) < self.region.spec_height(),
                    self.region.spec_height() % 32 == 0,
            ;
        }
        let oy = (((y - self.min.y) as usize / 32) * 32) as i32;
        Some(
            Subchunk {
                region: self.region,
                min: IVec3 { x: self.min.x, y: self.min.y + oy, z: self.min.z },
            },
        )
    }

    /// The voxel at `pos`, or `None` when `pos` is outside this column.
    pub fn get_voxel(&self, pos: IVec3) -> (r: Option<Voxel>)
        requires
            self.wf(),
        ensures
            self.contains_pos(pos) ==> r == Some(Voxel(self.spec_region().voxel_at(pos))),
            !self.contains_pos(pos) ==> r is None,
    {
        proof {
            self.region.lemma_wf_bounds();
        }
        if self.contains(pos) {
            self.region.get_voxel(pos)
        } else {
            None
        }
    }

    /// The light record at `pos`, or `None` when `pos` is outside this
    /// column.
    pub fn get_light(&self, pos: IVec3) -> (r: Option<Light>)
        requires
            self.wf(),
        ensures
            self.contains_pos(pos) ==> r == Some(self.spec_region().light_at(pos)),
            !self.contains_pos(pos) ==> r is None,
    {
        proof {
            self.region.lemma_wf_bounds();
        }
        if self.contains(pos) {
            self.region.get_light(pos)
        } else {
            None
        }
    }

    /// Whether `pos` lies inside this chunk's column.
    fn contains(&self, pos: IVec3) -> (r: bool)
        requires
            self.wf(),
        ensures
            r == self.contains_pos(pos),
    {
        proof {
            self.region.lemma_wf_bounds();
        }
        self.min.x <= pos.x && pos.x < self.min.x + 32 && self.min.z <= pos.z && pos.z < self.min.z
            + 32 && self.min.y <= pos.y && pos.y < self.max.y
    }
}

/// A 32 x 32 x 32 cube of voxels of its region.
pub struct Subchunk<'s> {
    region: &'s Region,
    /// The minimum coordinate contained by this subchunk.
    min: IVec3,
}

impl<'s> Subchunk<'s> {
    /// The region the subchunk belongs to.
    pub closed spec fn spec_region(&self) -> Region {
        *self.region
    }

    /// The minimum coordinate contained by this subchunk.
    pub closed spec fn spec_min(&self) -> IVec3 {
        self.min
    }

    /// The subchunk's cube lies on the 32-grid of its region.
    pub closed spec fn wf(&self) -> bool {
        &&& self.region.wf()
    &&& self.region.spec_min().x <= self.min.x <= self.region.spec_min().x + 480
    &&& self.region.spec_min().z <= self.min.z <= self.region.spec_min().z + 480
    &&& self.region.spec_min().y <= self.min.y
    &&& self.min.y + 32 <= self.region.spec_max().y
    }

    /// Whether `pos` lies inside this subchunk's cube.
    pub open spec fn contains_pos(&self, pos: IVec3) -> bool {
        &&& self.spec_min().x <= pos.x < self.spec_min().x + 32
    &&& self.spec_min().y <= pos.y < self.spec_min().y + 32
    &&& self.spec_min().z <= pos.z < self.spec_min().z + 32
    }

    /// The voxel at `pos`, or `None` when `pos` is outside this cube.
    pub fn get_voxel(&self, pos: IVec3) -> (r: Option<Voxel>)
        requires
            self.wf(),
        ensures
            self.contains_pos(pos) ==> r == Some(Voxel(self.spec_region().voxel_at(pos))),
            !self.contains_pos(pos) ==> r is None,
    {
        proof {
            self.region.lemma_wf_bounds();
        }
        if self.contains(pos) {
            self.region.get_voxel(pos)
        } else {
            None
        }
    }

    /// The light record at `pos`, or `None` when `pos` is outside this
    /// cube.
    pub fn get_light(&self, pos: IVec3) -> (r: Option<Light>)
        requires
            self.wf(),
        ensures
            self.contains_pos(pos) ==> r == Some(self.spec_region().light_at(pos)),
            !self.contains_pos(pos) ==> r is None,
    {
        proof {
            self.region.lemma_wf_bounds();
        }
        if self.contains(pos) {
            self.region.get_light(pos)
        } else {
            None
        }
    }

    /// Whether `pos` lies inside this subchunk's cube.
    fn contains(&self, pos: IVec3) -> (r: bool)
        requires
            self.wf(),
        ensures
            r == self.contains_pos(pos),
    {
        proof {
            self.region.lemma_wf_bounds();
        }
        self.min.x <= pos.x && pos.x < self.min.x + 32 && self.min.y <= pos.y && pos.y < self.min.y
            + 32 && self.min.z <= pos.z && pos.z < self.min.z + 32
    }
}

impl Region {
    /// The chunk column of this region containing the XZ coordinate, if
    /// any.
    pub fn get_chunk(&self, xz: IVec2) -> (r: Option<Chunk<'_>>)
        requires
            self.wf(),
        ensures
            match r {
                Some(c) => {
                    &&& 0 <= xz.x - self.spec_min().x < 512
                    &&& 0 <= xz.y - self.spec_min().z < 512
                    &&& c.wf()
                    &&& c.spec_region() == *self
                    &&& c.spec_min() == (IVec3 {
                        x: (self.spec_min().x + ((xz.x - self.spec_min().x) / 32) * 32) as i32,
                        y: self.spec_min().y,
                        z: (self.spec_min().z + ((xz.y - self.spec_min().z) / 32) * 32) as i32,
                    })
                },
                None => !(0 <= xz.x - self.spec_min().x < 512 && 0 <= xz.y - self.spec_min().z
                    < 512),
            },
    {
        let min = self.min();
        let minx = min.x;
        let miny = min.y;
        let minz = min.z;
        let maxy = self.max().y;
        let ox = xz.x as i64 - minx as i64;
        let oz = xz.y as i64 - minz as i64;
        if 0 <= ox && ox < 512 && 0 <= oz && oz < 512 {
            proof {
                self.lemma_wf_bounds();
            }
            let cx = (((ox as usize) / 32) * 32) as i32;
            let cz = (((oz as usize) / 32) * 32) as i32;
            proof {
                assert(0 <= (ox as int) / 32 * 32 <= 480 && 0 <= (oz as int) / 32 * 32 <= 480)
                    by (nonlinear_arith)
                    requires
                        0 <= (ox as int),
                        (ox as int) < 512,
                        0 <= (oz as int),
                        (oz as int) < 512,
                ;
            }
            let cmin = IVec3 { x: minx + cx, y: miny, z: minz + cz };
            Some(
                Chunk {
                    region: self,
                    min: cmin,
                    max: IVec3 { x: cmin.x + 32, y: maxy, z: cmin.z + 32 },
                },
            )
        } else {
            None
        }
    }

    /// The subchunk of this region containing `pos`, if any.
    pub fn get_subchunk(&self, pos: IVec3) -> (r: Option<Subchunk<'_>>)
        requires
            self.wf(),
        ensures
            match r {
                Some(s) => self.contains_pos(pos) && s.wf() && s.spec_region() == *self
                    && s.contains_pos(pos),
                None => !self.contains_pos(pos),
            },
    {
        let chunk = match self.get_chunk(pos.xz()) {
            Some(c) => c,
            None => {
                return None;
            },
        };
        match chunk.get_subchunk(pos.y) {
            Some(s) => {
                proof {
                    self.lemma_wf_bounds();
                    let m = s.spec_min();
                    assert(m.x <= pos.x < m.x + 32 && m.y <= pos.y < m.y + 32 && m.z <= pos.z < m.z
                        + 32 && m.y + 32 <= self.spec_max().y) by (nonlinear_arith)
                        requires
                            m.x == self.spec_min().x + ((pos.x - self.spec_min().x) / 32) * 32,
                            m.z == self.spec_min().z + ((pos.z - self.spec_min().z) / 32) * 32,
                            m.y == self.spec_min().y + ((pos.y - self.spec_min().y) / 32) * 32,
                            0 <= pos.x - self.spec_min().x < 512,
                            0 <= pos.z - self.spec_min().z < 512,
                            0 <= pos.y - self.spec_min().y < self.spec_max().y - self.spec_min().y,
                            (self.spec_max().y - self.spec_min().y) % 32 == 0,
                    ;
                }
                Some(s)
            },
            None => None,
        }
    }
}

} // verus!
