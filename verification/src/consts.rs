use vstd::prelude::*;

verus! {

/// Width of a subchunk in voxels along each axis.
pub const SUBCHUNK_WIDTH: usize = 32;

/// Number of voxels in a subchunk (32 * 32 * 32).
pub const SUBCHUNK_LENGTH: usize = 32768;

/// Number of chunk columns in a region (16 * 16).
pub const CHUNKS_PER_REGION: usize = 256;

/// Width of a region in voxels along the x and z axes.
pub const REGION_WIDTH: usize = 512;

/// Width of a region in chunks along the x and z axes.
pub const REGION_WIDTH_CHUNKS: usize = 16;

} // verus!
