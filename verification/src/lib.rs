//! Decoding of voxel-world region data into per-chunk top-layer summaries.

pub mod error;
pub mod region;
pub mod region_group;
pub mod region_name;
pub mod resource;
pub mod types;
pub mod util;
pub mod world;
