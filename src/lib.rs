//! Sparse voxel octrees and a viewer-centred cache of chunk slots that
//! streams procedurally generated voxel volumes around a moving viewer.

pub mod descriptor;
pub mod vector;
pub mod octree;
pub mod displaced_chunks;
pub mod chunk_generators;
pub mod chunk_map;
pub mod radius_grid;
pub mod byte_voxels;
pub mod standard_voxel_prefab;
pub mod input;
