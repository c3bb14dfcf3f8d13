//! Voxel world derived from a tile map: chunked voxel storage, rasterisation
//! of wall tiles into voxel blocks, and face-culled mesh extraction.

pub mod area;
pub mod chunk;
pub mod map;
pub mod shader;
pub mod space;
pub mod vec3;
