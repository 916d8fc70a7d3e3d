//! Sparse voxel octree paths and cells.
pub mod path_model;
mod raw_bits;
pub mod cell_path;
pub mod svo;
pub mod stat_bool;
pub mod stat_int;
pub mod task;
pub mod provider;
pub mod chunk;
pub mod subscription;
