//! The data of a chunk as it is stored, before any of it is interpreted.

use vstd::prelude::*;

verus! {

/// An entry of a block state palette.
#[derive(Debug)]
pub struct BlockStatePaletteEntry {
    /// The name of the block type.
    pub name: String,
}

/// The block states of a section in the newest format.
#[derive(Debug)]
pub struct BlockStatesV1_18 {
    pub palette: Vec<BlockStatePaletteEntry>,
    /// Palette indices packed into 64-bit words; absent when every block is
    /// the first palette entry.
    pub data: Option<Vec<i64>>,
}

/// The biomes of a section in the newest format.
#[derive(Debug)]
pub struct BiomesV1_18 {
    /// Biome names.
    pub palette: Vec<String>,
    /// Palette indices packed into 64-bit words; absent when every position
    /// has the first palette entry.
    pub data: Option<Vec<i64>>,
}

/// A section in the newest format.
#[derive(Debug)]
pub struct SectionV1_18 {
    pub y: i32,
    pub block_states: BlockStatesV1_18,
    pub biomes: BiomesV1_18,
    pub block_light: Option<Vec<i8>>,
}

/// The block data of a section in one of the older formats.
#[derive(Debug)]
pub enum SectionV0Variants {
    /// Packed palette indices and a palette.
    V1_13 { block_states: Vec<i64>, palette: Vec<BlockStatePaletteEntry> },
    /// One byte of block id and one nibble of data for each block.
    V0 { blocks: Vec<i8>, data: Vec<i8> },
    /// No block data.
    Empty {  },
}

/// A section in one of the older formats.
#[derive(Debug)]
pub struct SectionV0 {
    pub y: i8,
    pub block_light: Option<Vec<i8>>,
    pub section: SectionV0Variants,
}

/// The biomes of a whole chunk in one of the older formats.
#[derive(Debug)]
pub enum BiomesV0 {
    IntArray(Vec<i32>),
    ByteArray(Vec<i8>),
}

/// The level of a chunk in one of the older formats.
#[derive(Debug)]
pub struct LevelV0 {
    pub sections: Vec<SectionV0>,
    pub biomes: Option<BiomesV0>,
}

/// The two layouts of a chunk.
#[derive(Debug)]
pub enum ChunkVariants {
    V1_18 { sections: Vec<SectionV1_18> },
    V0 { level: LevelV0 },
}

/// A chunk as stored.
#[derive(Debug)]
pub struct Chunk {
    /// The version of the format; counted as 0 when absent.
    pub data_version: Option<u32>,
    pub chunk: ChunkVariants,
}

} // verus!
