//! A region: a 512 x H x 512 volume of voxels, H a positive multiple of 32,
//! owning one palette array and one light map per subchunk.
//!
//! Subchunk indices inside a region are XZ-major with Y last: the XZ plane
//! of 16 x 16 chunk columns fits in 8 bits, and the variable Y dimension
//! comes after. Voxel indices inside a subchunk are Y-linear (YXZ) so that
//! vertical runs are cache-dense.

use vstd::prelude::*;
use crate::consts::{CHUNKS_PER_REGION, REGION_WIDTH, REGION_WIDTH_CHUNKS, SUBCHUNK_LENGTH, SUBCHUNK_WIDTH};
use crate::ivec::{IVec2, IVec3};
use crate::lightmap::{Light, LightMap};
use crate::palette::PaletteArray;
use crate::voxel::{Voxel, VoxelData};

verus! {

broadcast use crate::palette::lemma_palette_view_len, crate::lightmap::lemma_lightmap_view_len;

/// Chunk-column index of in-region offsets `(x, z)`: 4 bits of x, then 4
/// bits of z.
pub open spec fn spec_chunk_index(x: int, z: int) -> int {
    x / 32 + (z / 32) * 16
}

/// Subchunk index of in-region offsets `(x, y, z)`: the chunk-column index
/// in the low 8 bits, then y.
pub open spec fn spec_subchunk_index(x: int, y: int, z: int) -> int {
    spec_chunk_index(x, z) + (y / 32) * 256
}

/// Voxel-in-subchunk index of in-subchunk offsets: y, then 5 bits of x,
/// then 5 bits of z.
pub open spec fn spec_voxel_index(x: int, y: int, z: int) -> int {
    y % 32 + (x % 32) * 32 + (z % 32) * 1024
}

/// Index of the chunk column containing the in-region offset `xz`.
/// Both components must lie in `[0, 512)`.
pub fn to_chunk_index(xz: IVec2) -> (r: usize)
    requires
        0 <= xz.x < REGION_WIDTH,
        0 <= xz.y < REGION_WIDTH,
    ensures
        r == spec_chunk_index(xz.x as int, xz.y as int),
        r < CHUNKS_PER_REGION,
{
    (xz.x / 32 + (xz.y / 32) * 16) as usize
}

/// The in-region XZ offset of the chunk column with index `i`.
pub fn to_chunk_offs(i: usize) -> (r: IVec2)
    requires
        i < CHUNKS_PER_REGION,
    ensures
        spec_chunk_index(r.x as int, r.y as int) == i,
        0 <= r.x < REGION_WIDTH,
        0 <= r.y < REGION_WIDTH,
        r.x as int % 32 == 0,
        r.y as int % 32 == 0,
{
    IVec2 { x: ((i % 16) * 32) as i32, y: ((i / 16) * 32) as i32 }
}

/// Index of the subchunk containing the in-region offset `offs`.
/// X and Z must lie in `[0, 512)`; Y must be nonnegative.
pub fn to_subchunk_index(offs: IVec3) -> (r: usize)
    requires
        0 <= offs.x < REGION_WIDTH,
        0 <= offs.z < REGION_WIDTH,
        0 <= offs.y <= 0x0080_0000,
    ensures
        r == spec_subchunk_index(offs.x as int, offs.y as int, offs.z as int),
{
    let x = offs.x as usize;
    let y = offs.y as usize;
    let z = offs.z as usize;
    proof {
        assert(y / 32 <= y) by (nonlinear_arith)
            requires
                y >= 0,
        ;
    }
    x / 32 + (z / 32) * 16 + (y / 32) * 256
}

/// The in-region offset of the lowest voxel of the subchunk with index `i`.
pub fn to_subchunk_offs(i: usize) -> (r: IVec3)
    requires
        i < 0x4000_0000,
    ensures
        spec_subchunk_index(r.x as int, r.y as int, r.z as int) == i,
        0 <= r.x < REGION_WIDTH,
        0 <= r.z < REGION_WIDTH,
        0 <= r.y,
{
    let r = IVec3 {
        x: ((i % 16) * 32) as i32,
        z: (((i / 16) % 16) * 32) as i32,
        y: ((i / 256) * 32) as i32,
    };
    proof {
        assert(spec_subchunk_index(r.x as int, r.y as int, r.z as int) == i) by (nonlinear_arith)
            requires
                r.x == (i as int % 16) * 32,
                r.z == ((i as int / 16) % 16) * 32,
                r.y == (i as int / 256) * 32,
                0 <= i < 0x4000_0000,
        ;
    }
    r
}

/// Voxel-in-subchunk index of `offs`, wrapping each component into the
/// subchunk: components at or above the subchunk width wrap to the other
/// side, as the packed layout keeps only the low five bits of each.
pub fn to_voxel_index_wrapping(offs: IVec3) -> (r: usize)
    requires
        0 <= offs.x,
        0 <= offs.y,
        0 <= offs.z,
    ensures
        r == spec_voxel_index(offs.x as int, offs.y as int, offs.z as int),
        r < SUBCHUNK_LENGTH,
{
    (offs.y as usize % 32) + (offs.x as usize % 32) * 32 + (offs.z as usize % 32) * 1024
}

/// Distinct in-range offsets decompose to distinct (subchunk, voxel) pairs;
/// equivalently, the pair determines the offset.
pub proof fn lemma_decomposition_injective(x1: int, y1: int, z1: int, x2: int, y2: int, z2: int)
    requires
        0 <= x1 < 512,
        0 <= x2 < 512,
        0 <= z1 < 512,
        0 <= z2 < 512,
        0 <= y1,
        0 <= y2,
        spec_subchunk_index(x1, y1, z1) == spec_subchunk_index(x2, y2, z2),
        spec_voxel_index(x1, y1, z1) == spec_voxel_index(x2, y2, z2),
    ensures
        x1 == x2 && y1 == y2 && z1 == z2,
{
    assert(x1 / 32 == x2 / 32 && z1 / 32 == z2 / 32 && y1 / 32 == y2 / 32) by (nonlinear_arith)
        requires
            0 <= x1 < 512,
            0 <= x2 < 512,
            0 <= z1 < 512,
            0 <= z2 < 512,
            0 <= y1,
            0 <= y2,
            x1 / 32 + (z1 / 32) * 16 + (y1 / 32) * 256 == x2 / 32 + (z2 / 32) * 16 + (y2 / 32)
                * 256,
    ;
    assert(x1 % 32 == x2 % 32 && z1 % 32 == z2 % 32 && y1 % 32 == y2 % 32) by (nonlinear_arith)
        requires
            0 <= x1,
            0 <= x2,
            0 <= z1,
            0 <= z2,
            0 <= y1,
            0 <= y2,
            y1 % 32 + (x1 % 32) * 32 + (z1 % 32) * 1024 == y2 % 32 + (x2 % 32) * 32 + (z2 % 32)
                * 1024,
    ;
    vstd::arithmetic::div_mod::lemma_fundamental_div_mod(x1, 32);
    vstd::arithmetic::div_mod::lemma_fundamental_div_mod(x2, 32);
    vstd::arithmetic::div_mod::lemma_fundamental_div_mod(y1, 32);
    vstd::arithmetic::div_mod::lemma_fundamental_div_mod(y2, 32);
    vstd::arithmetic::div_mod::lemma_fundamental_div_mod(z1, 32);
    vstd::arithmetic::div_mod::lemma_fundamental_div_mod(z2, 32);
}

/// An in-range offset's subchunk index addresses one of the region's
/// `256 * (h / 32)` subchunks.
pub proof fn lemma_subchunk_index_bound(x: int, y: int, z: int, h: int)
    requires
        0 <= x < 512,
        0 <= z < 512,
        0 <= y < h,
        h % 32 == 0,
    ensures
        0 <= spec_subchunk_index(x, y, z) < 256 * (h / 32),
        0 <= spec_voxel_index(x, y, z) < SUBCHUNK_LENGTH,
{
    assert(0 <= x / 32 < 16 && 0 <= z / 32 < 16 && 0 <= y / 32 < h / 32) by (nonlinear_arith)
        requires
            0 <= x < 512,
            0 <= z < 512,
            0 <= y < h,
            h % 32 == 0,
    ;
    assert(spec_subchunk_index(x, y, z) < 256 * (h / 32)) by (nonlinear_arith)
        requires
            0 <= x / 32 < 16,
            0 <= z / 32 < 16,
            0 <= y / 32 < h / 32,
    ;
    assert(0 <= y % 32 < 32 && 0 <= x % 32 < 32 && 0 <= z % 32 < 32) by (nonlinear_arith)
        requires
            0 <= x,
            0 <= y,
            0 <= z,
    ;
}

/// A 512 x H x 512 volume of voxels. It owns one palette array and one
/// light map per subchunk, stored in parallel arrays under the subchunk
/// index.
pub struct Region {
    palettes: Vec<PaletteArray>,
    lightmaps: Vec<LightMap>,
    /// Inclusive lower corner.
    min: IVec3,
    /// Exclusive upper corner.
    max: IVec3,
}

impl Region {
    /// The lower corner, as seen by contracts.
    pub closed spec fn spec_min(&self) -> IVec3 {
        self.min
    }

    /// The upper corner, as seen by contracts.
    pub closed spec fn spec_max(&self) -> IVec3 {
        self.max
    }

    /// Height of the region in voxels.
    pub open spec fn spec_height(&self) -> int {
        self.spec_max().y - self.spec_min().y
    }

    /// Number of subchunks the region owns.
    pub open spec fn num_subchunks(&self) -> int {
        256 * (self.spec_height() / 32)
    }

    /// Whether the world-space position `pos` lies inside the region.
    pub open spec fn contains_pos(&self, pos: IVec3) -> bool {
        &&& 0 <= pos.x - self.spec_min().x < 512
    &&& 0 <= pos.z - self.spec_min().z < 512
    &&& 0 <= pos.y - self.spec_min().y < self.spec_height()
    }

    /// The voxel state at the world-space position `pos`.
    pub closed spec fn voxel_at(&self, pos: IVec3) -> u16 {
        let x = pos.x - self.min.x;
        let y = pos.y - self.min.y;
        let z = pos.z - self.min.z;
        self.palettes@[spec_subchunk_index(x, y, z)]@[spec_voxel_index(x, y, z)]
    }

    /// The light record at the world-space position `pos`.
    pub closed spec fn light_at(&self, pos: IVec3) -> Light {
        let x = pos.x - self.min.x;
        let y = pos.y - self.min.y;
        let z = pos.z - self.min.z;
        self.lightmaps@[spec_subchunk_index(x, y, z)]@[spec_voxel_index(x, y, z)]
    }

    /// Structural invariant: the box is a 512 x H x 512 volume with H a
    /// positive multiple of 32, and each subchunk has a well-formed palette
    /// array and light map.
    pub closed spec fn wf(&self) -> bool {
        &&& self.max.x == self.min.x + 512
    &&& self.max.z == self.min.z + 512
    &&& 0 < self.spec_height() <= 0x0080_0000
    &&& self.spec_height() % 32 == 0
    &&& self.palettes@.len() == self.num_subchunks()
    &&& self.lightmaps@.len() == self.num_subchunks()
    &&& forall|s: int| 0 <= s < self.palettes@.len() ==> (#[trigger] self.palettes@[s]).wf()
    &&& forall|s: int| 0 <= s < self.lightmaps@.len() ==> (#[trigger] self.lightmaps@[s]).wf()
    }

    /// Allocate a region spanning `min` (inclusive) to `max` (exclusive):
    /// every voxel air, every light none.
    pub fn new(min: IVec3, max: IVec3) -> (r: Region)
        requires
            max.x == min.x + 512,
            max.z == min.z + 512,
            min.y < max.y,
            (max.y - min.y) % 32 == 0,
            max.y - min.y <= 0x0080_0000,
        ensures
            r.wf(),
            r.spec_min() == min,
            r.spec_max() == max,
            forall|p: IVec3| r.contains_pos(p) ==> #[trigger] r.voxel_at(p) == 0,
            forall|p: IVec3| r.contains_pos(p) ==> #[trigger] r.light_at(p) == Light::spec_none(),
    {
        let height = (max.y - min.y) as usize;
        let chunk_len = height / 32;
        proof {
            assert(chunk_len <= 0x4000000) by (nonlinear_arith)
                requires
                    chunk_len == height as int / 32,
                    0 <= height <= 0x0080_0000,
            ;
        }
        let length: usize = 256 * chunk_len;
        let mut palettes: Vec<PaletteArray> = Vec::new();
        let mut lightmaps: Vec<LightMap> = Vec::new();
        while palettes.len() < length
            invariant
                palettes@.len() <= length,
                forall|s: int| 0 <= s < palettes@.len() ==> (#[trigger] palettes@[s]).wf(),
                forall|s: int|
                    0 <= s < palettes@.len() ==> (#[trigger] palettes@[s])@ == Seq::new(
                        SUBCHUNK_LENGTH as nat,
                        |i: int| 0u16,
                    ),
            decreases length - palettes.len(),
        {
            palettes.push(PaletteArray::empty());
        }
        while lightmaps.len() < length
            invariant
                lightmaps@.len() <= length,
                forall|s: int| 0 <= s < lightmaps@.len() ==> (#[trigger] lightmaps@[s]).wf(),
                forall|s: int|
                    0 <= s < lightmaps@.len() ==> (#[trigger] lightmaps@[s])@
                        == crate::lightmap::uniform_lights(Light::spec_none()),
            decreases length - lightmaps.len(),
        {
            lightmaps.push(LightMap::uniform_none());
        }
        let r = Region { palettes, lightmaps, min, max };
        proof {
            assert forall|p: IVec3| r.contains_pos(p) implies #[trigger] r.voxel_at(p) == 0
                && r.light_at(p) == Light::spec_none() by {
                lemma_subchunk_index_bound(
                    p.x - min.x as int,
                    p.y - min.y as int,
                    p.z - min.z as int,
                    r.spec_height(),
                );
            }
        }
        r
    }

    /// The exclusive upper corner.
    pub fn max(&self) -> (r: &IVec3)
        ensures
            *r == self.spec_max(),
    {
        &self.max
    }

    /// The inclusive lower corner.
    pub fn min(&self) -> (r: &IVec3)
        ensures
            *r == self.spec_min(),
    {
        &self.min
    }

    /// The XZ corner the world map keys the region by.
    pub fn origin(&self) -> (r: IVec2)
        ensures
            r.x == self.spec_min().x,
            r.y == self.spec_min().z,
    {
        self.min.xz()
    }

    /// The voxel state at `pos`, or `None` when `pos` is outside the region.
    pub fn get_voxel(&self, pos: IVec3) -> (r: Option<Voxel>)
        requires
            self.wf(),
        ensures
            self.contains_pos(pos) ==> r == Some(Voxel(self.voxel_at(pos))),
            !self.contains_pos(pos) ==> r is None,
    {
        let (si, vi) = match self.decompose(pos) {
            Some(p) => p,
            None => {
                return None;
            },
        };
        Some(Voxel(self.palettes[si].get(vi)))
    }

    /// Assign `voxel` at `pos`, returning the state it replaced, or `None`
    /// (changing nothing) when `pos` is outside the region.
    pub fn set_voxel(&mut self, pos: IVec3, voxel: Voxel) -> (r: Option<Voxel>)
        requires
            old(self).wf(),
        ensures
            final(self).wf(),
            final(self).spec_min() == old(self).spec_min(),
            final(self).spec_max() == old(self).spec_max(),
            old(self).contains_pos(pos) ==> r == Some(Voxel(old(self).voxel_at(pos)))
                && final(self).voxel_at(pos) == voxel.0,
            !old(self).contains_pos(pos) ==> r is None && *final(self) == *old(self),
            forall|p2: IVec3|
                old(self).contains_pos(p2) && p2 != pos ==> #[trigger] final(self).voxel_at(p2)
                    == old(self).voxel_at(p2),
            forall|p2: IVec3|
                old(self).contains_pos(p2) ==> #[trigger] final(self).light_at(p2) == old(
                    self,
                ).light_at(p2),
    {
        let (si, vi) = match self.decompose(pos) {
            Some(p) => p,
            None => {
                return None;
            },
        };
        let prev = self.palettes[si].replace(vi, voxel.0);
        proof {
            self.lemma_target_update(*old(self), pos, si as int, vi as int);
        }
        Some(Voxel(prev))
    }

    /// The light record at `pos`, or `None` when `pos` is outside the
    /// region.
    pub fn get_light(&self, pos: IVec3) -> (r: Option<Light>)
        requires
            self.wf(),
        ensures
            self.contains_pos(pos) ==> r == Some(self.light_at(pos)),
            !self.contains_pos(pos) ==> r is None,
    {
        let (si, vi) = match self.decompose(pos) {
            Some(p) => p,
            None => {
                return None;
            },
        };
        Some(self.lightmaps[si].get_unchecked(vi))
    }

    /// Assign `light` at `pos`, returning the record it replaced, or `None`
    /// (changing nothing) when `pos` is outside the region.
    pub fn set_light(&mut self, pos: IVec3, light: Light) -> (r: Option<Light>)
        requires
            old(self).wf(),
        ensures
            final(self).wf(),
            final(self).spec_min() == old(self).spec_min(),
            final(self).spec_max() == old(self).spec_max(),
            old(self).contains_pos(pos) ==> r == Some(old(self).light_at(pos))
                && final(self).light_at(pos) == light,
            !old(self).contains_pos(pos) ==> r is None && *final(self) == *old(self),
            forall|p2: IVec3|
                old(self).contains_pos(p2) && p2 != pos ==> #[trigger] final(self).light_at(p2)
                    == old(self).light_at(p2),
            forall|p2: IVec3|
                old(self).contains_pos(p2) ==> #[trigger] final(self).voxel_at(p2) == old(
                    self,
                ).voxel_at(p2),
    {
        let (si, vi) = match self.decompose(pos) {
            Some(p) => p,
            None => {
                return None;
            },
        };
        let prev = self.lightmaps[si].set_unchecked(vi, light);
        proof {
            self.lemma_target_update_light(*old(self), pos, si as int, vi as int);
        }
        Some(prev)
    }

    /// The voxel state and light record at `pos`, or `None` when `pos` is
    /// outside the region.
    pub fn get_data(&self, pos: IVec3) -> (r: Option<VoxelData>)
        requires
            self.wf(),
        ensures
            self.contains_pos(pos) ==> r == Some(
                VoxelData { state: Voxel(self.voxel_at(pos)), light: self.light_at(pos) },
            ),
            !self.contains_pos(pos) ==> r is None,
    {
        let (si, vi) = match self.decompose(pos) {
            Some(p) => p,
            None => {
                return None;
            },
        };
        Some(
            VoxelData {
                light: self.lightmaps[si].get_unchecked(vi),
                state: Voxel(self.palettes[si].get(vi)),
            },
        )
    }

    /// Assign both the voxel state and the light record at `pos`, returning
    /// what they replaced, or `None` (changing nothing) when `pos` is
    /// outside the region.
    pub fn set_data(&mut self, pos: IVec3, data: VoxelData) -> (r: Option<VoxelData>)
        requires
            old(self).wf(),
        ensures
            final(self).wf(),
            final(self).spec_min() == old(self).spec_min(),
            final(self).spec_max() == old(self).spec_max(),
            old(self).contains_pos(pos) ==> r == Some(
                VoxelData {
                    state: Voxel(old(self).voxel_at(pos)),
                    light: old(self).light_at(pos),
                },
            ) && final(self).voxel_at(pos) == data.state.0 && final(self).light_at(pos)
                == data.light,
            !old(self).contains_pos(pos) ==> r is None && *final(self) == *old(self),
            forall|p2: IVec3|
                old(self).contains_pos(p2) && p2 != pos ==> #[trigger] final(self).voxel_at(p2)
                    == old(self).voxel_at(p2) && final(self).light_at(p2) == old(self).light_at(
                    p2,
                ),
    {
        let ghost orig = *self;
        let prev_light = match self.set_light(pos, data.light) {
            Some(l) => l,
            None => {
                return None;
            },
        };
        let ghost mid = *self;
        let prev_voxel = match self.set_voxel(pos, data.state) {
            Some(v) => v,
            None => {
                proof {
                    assert(false);
                }
                return None;
            },
        };
        Some(VoxelData { state: prev_voxel, light: prev_light })
    }

    /// The shape facts the invariant gives about the region's box.
    pub proof fn lemma_wf_bounds(&self)
        requires
            self.wf(),
        ensures
            self.spec_max().x == self.spec_min().x + 512,
            self.spec_max().z == self.spec_min().z + 512,
            0 < self.spec_height() <= 0x0080_0000,
            self.spec_height() % 32 == 0,
    {
    }

    /// The voxel state at `pos`, read through an already-computed
    /// (subchunk index, voxel index) pair, as a stepping cursor holds.
    pub fn get_voxel_indexed(&self, pos: IVec3, si: usize, vi: usize) -> (r: u16)
        requires
            self.wf(),
            self.contains_pos(pos),
            si == spec_subchunk_index(
                pos.x - self.spec_min().x,
                pos.y - self.spec_min().y,
                pos.z - self.spec_min().z,
            ),
            vi == spec_voxel_index(
                pos.x - self.spec_min().x,
                pos.y - self.spec_min().y,
                pos.z - self.spec_min().z,
            ),
        ensures
            r == self.voxel_at(pos),
    {
        proof {
            lemma_subchunk_index_bound(
                pos.x - self.spec_min().x,
                pos.y - self.spec_min().y,
                pos.z - self.spec_min().z,
                self.spec_height(),
            );
        }
        self.palettes[si].get(vi)
    }

    /// Split `pos` into (subchunk index, voxel index) when it lies inside
    /// the region.
    fn decompose(&self, pos: IVec3) -> (r: Option<(usize, usize)>)
        requires
            self.wf(),
        ensures
            match r {
                Some(p) => {
                    &&& self.contains_pos(pos)
                    &&& p.0 == spec_subchunk_index(
                        pos.x - self.spec_min().x,
                        pos.y - self.spec_min().y,
                        pos.z - self.spec_min().z,
                    )
                    &&& p.1 == spec_voxel_index(
                        pos.x - self.spec_min().x,
                        pos.y - self.spec_min().y,
                        pos.z - self.spec_min().z,
                    )
                    &&& p.0 < self.palettes@.len()
                    &&& p.1 < SUBCHUNK_LENGTH
                },
                None => !self.contains_pos(pos),
            },
    {
        let ox = pos.x as i64 - self.min.x as i64;
        let oy = pos.y as i64 - self.min.y as i64;
        let oz = pos.z as i64 - self.min.z as i64;
        let h = self.max.y as i64 - self.min.y as i64;
        if 0 <= ox && ox < 512 && 0 <= oz && oz < 512 && 0 <= oy && oy < h {
            let x = ox as usize;
            let y = oy as usize;
            let z = oz as usize;
            proof {
                lemma_subchunk_index_bound(x as int, y as int, z as int, self.spec_height());
                assert(y / 32 < self.spec_height() / 32 && self.spec_height() / 32 <= 0x4000000)
                    by (nonlinear_arith)
                    requires
                        0 <= y < self.spec_height() <= 0x0080_0000,
                        self.spec_height() % 32 == 0,
                ;
            }
            let si = x / 32 + (z / 32) * 16 + (y / 32) * 256;
            let vi = (y % 32) + (x % 32) * 32 + (z % 32) * 1024;
            Some((si, vi))
        } else {
            None
        }
    }

    /// After one palette write at `(si, vi)`, the region reads the new state
    /// there and is unchanged elsewhere.
    proof fn lemma_target_update(&self, orig: Region, pos: IVec3, si: int, vi: int)
        requires
            orig.wf(),
            orig.contains_pos(pos),
            si == spec_subchunk_index(
                pos.x - orig.spec_min().x,
                pos.y - orig.spec_min().y,
                pos.z - orig.spec_min().z,
            ),
            vi == spec_voxel_index(
                pos.x - orig.spec_min().x,
                pos.y - orig.spec_min().y,
                pos.z - orig.spec_min().z,
            ),
            0 <= si < orig.palettes@.len(),
            0 <= vi < SUBCHUNK_LENGTH,
            self.min == orig.min,
            self.max == orig.max,
            self.lightmaps == orig.lightmaps,
            self.palettes@.len() == orig.palettes@.len(),
            (#[trigger] self.palettes@[si]).wf(),
            self.palettes@[si]@.len() == SUBCHUNK_LENGTH,
            forall|k: int|
                0 <= k < SUBCHUNK_LENGTH && k != vi ==> self.palettes@[si]@[k]
                    == orig.palettes@[si]@[k],
            forall|s: int|
                0 <= s < orig.palettes@.len() && s != si ==> self.palettes@[s]
                    == orig.palettes@[s],
        ensures
            self.wf(),
            forall|p2: IVec3|
                orig.contains_pos(p2) && p2 != pos ==> #[trigger] self.voxel_at(p2)
                    == orig.voxel_at(p2),
            forall|p2: IVec3|
                orig.contains_pos(p2) ==> #[trigger] self.light_at(p2) == orig.light_at(p2),
    {
        assert forall|p2: IVec3| orig.contains_pos(p2) && p2 != pos implies #[trigger] self
            .voxel_at(p2) == orig.voxel_at(p2) by {
            let x2 = p2.x - orig.min.x;
            let y2 = p2.y - orig.min.y;
            let z2 = p2.z - orig.min.z;
            lemma_subchunk_index_bound(x2, y2, z2, orig.spec_height());
            if spec_subchunk_index(x2, y2, z2) == si && spec_voxel_index(x2, y2, z2) == vi {
                lemma_decomposition_injective(
                    x2,
                    y2,
                    z2,
                    pos.x - orig.min.x,
                    pos.y - orig.min.y,
                    pos.z - orig.min.z,
                );
                assert(false);
            }
        }
    }

    /// After one light write at `(si, vi)`, the region reads the new light
    /// there and is unchanged elsewhere.
    proof fn lemma_target_update_light(&self, orig: Region, pos: IVec3, si: int, vi: int)
        requires
            orig.wf(),
            orig.contains_pos(pos),
            si == spec_subchunk_index(
                pos.x - orig.spec_min().x,
                pos.y - orig.spec_min().y,
                pos.z - orig.spec_min().z,
            ),
            vi == spec_voxel_index(
                pos.x - orig.spec_min().x,
                pos.y - orig.spec_min().y,
                pos.z - orig.spec_min().z,
            ),
            0 <= si < orig.lightmaps@.len(),
            0 <= vi < SUBCHUNK_LENGTH,
            self.min == orig.min,
            self.max == orig.max,
            self.palettes == orig.palettes,
            self.lightmaps@.len() == orig.lightmaps@.len(),
            (#[trigger] self.lightmaps@[si]).wf(),
            self.lightmaps@[si]@.len() == SUBCHUNK_LENGTH,
            forall|k: int|
                0 <= k < SUBCHUNK_LENGTH && k != vi ==> self.lightmaps@[si]@[k]
                    == orig.lightmaps@[si]@[k],
            forall|s: int|
                0 <= s < orig.lightmaps@.len() && s != si ==> self.lightmaps@[s]
                    == orig.lightmaps@[s],
        ensures
            self.wf(),
            forall|p2: IVec3|
                orig.contains_pos(p2) && p2 != pos ==> #[trigger] self.light_at(p2)
                    == orig.light_at(p2),
            forall|p2: IVec3|
                orig.contains_pos(p2) ==> #[trigger] self.voxel_at(p2) == orig.voxel_at(p2),
    {
        assert forall|p2: IVec3| orig.contains_pos(p2) && p2 != pos implies #[trigger] self
            .light_at(p2) == orig.light_at(p2) by {
            let x2 = p2.x - orig.min.x;
            let y2 = p2.y - orig.min.y;
            let z2 = p2.z - orig.min.z;
            lemma_subchunk_index_bound(x2, y2, z2, orig.spec_height());
            if spec_subchunk_index(x2, y2, z2) == si && spec_voxel_index(x2, y2, z2) == vi {
                lemma_decomposition_injective(
                    x2,
                    y2,
                    z2,
                    pos.x - orig.min.x,
                    pos.y - orig.min.y,
                    pos.z - orig.min.z,
                );
                assert(false);
            }
        }
    }
}

} // verus!
