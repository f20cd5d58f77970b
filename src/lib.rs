//! A persistent voxel world: sparse chunked storage, lazy reveal of
//! unexplored space, per-face surface meshing with ambient occlusion, ray
//! selection and collision queries.
pub mod geometry;
pub mod block;
pub mod chunk;
pub mod world;
pub mod surface;
pub mod milieu;
pub mod laws;
pub mod player;
pub mod tool;
