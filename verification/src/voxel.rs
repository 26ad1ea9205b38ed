//! The voxel state id and the composite per-voxel record.

use vstd::prelude::*;
use crate::lightmap::Light;

verus! {

/// A 16-bit voxel state id. The value 0 is reserved for "air": empty space.
/// State ids are opaque to the storage core; it stores and returns them.
#[derive(Copy, Clone, Eq, PartialEq, Structural, Ord, PartialOrd, Hash, Debug)]
pub struct Voxel(pub u16);

impl Voxel {
    /// The reserved empty state.
    pub fn air() -> (r: Voxel)
        ensures
            r.0 == 0,
    {
        Voxel(0)
    }
}

/// The pair of a voxel state and its light record.
#[derive(Copy, Clone, Eq, PartialEq, Structural, Debug)]
pub struct VoxelData {
    pub state: Voxel,
    pub light: Light,
}

} // verus!
