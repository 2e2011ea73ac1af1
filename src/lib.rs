//! Chunked voxel storage and multi-source potential fields over bounded regions.

pub mod point;
mod seq_lemmas;
pub mod chunk;
pub mod volume;
pub mod pathfind;
pub mod dimension;
