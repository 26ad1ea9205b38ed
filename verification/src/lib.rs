//! Storage core of a voxel world engine: palette-compressed subchunks,
//! regions, a perfect-hash world map, and constant-time stepping cursors.

pub mod access;
pub mod bits;
pub mod chunk;
pub mod consts;
pub mod ivec;
pub mod lightmap;
pub mod map;
pub mod palette;
pub mod region;
pub mod voxel;
pub mod world;
pub mod worm;
