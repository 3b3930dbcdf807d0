//! Chunks, their sections and the top layer of a chunk.

pub mod chunk;
pub mod column;
pub mod de;
pub mod entry;
pub mod layer;
pub mod order;
pub mod packing;
pub mod section;
