//! Error values reported while loading and scanning chunks.

use vstd::prelude::*;
use crate::types::ChunkCoords;

verus! {

/// What went wrong.
#[derive(Clone, Copy, Debug, PartialEq, Eq, Structural)]
pub enum ErrorKind {
    /// The length of a section's block data does not match its layout.
    InvalidBlockData,
    /// The length of a biome array matches none of the known shapes.
    InvalidBiomeData,
    /// The block light data of a section does not hold 2048 bytes.
    InvalidLightData,
    /// A palette is too long for the largest index width.
    UnsupportedPaletteSize,
    /// A chunk holds sections of two different formats.
    MixedSectionVersions,
    /// A chunk with block data holds no biome array.
    MissingBiomes,
    /// A decoded index points behind the end of the palette.
    PaletteIndexOutOfBounds,
    /// A block height does not fit a signed 32-bit integer.
    HeightOverflow,
}

/// The part of a chunk that was being worked on when an error came up.
#[derive(Clone, Copy, Debug, PartialEq, Eq, Structural)]
pub enum ErrorContext {
    /// The chunk as a whole.
    Chunk,
    /// The block data of the section at the given Y index.
    Section(i32),
    /// The biome data of the section at the given Y index.
    SectionBiomes(i32),
    /// The block light data of the section at the given Y index.
    SectionBlockLight(i32),
}

/// An error of a single chunk.
#[derive(Clone, Copy, Debug, PartialEq, Eq, Structural)]
pub struct Error {
    pub kind: ErrorKind,
    pub context: ErrorContext,
}

/// An error of a chunk together with the position of the chunk in its region.
#[derive(Clone, Copy, Debug, PartialEq, Eq)]
pub struct RegionError {
    pub coords: ChunkCoords,
    pub error: Error,
}

impl ErrorKind {
    /// The error of this kind about the chunk as a whole.
    pub fn at_chunk(self) -> (r: Error)
        ensures
            r == (Error { kind: self, context: ErrorContext::Chunk }),
    {
        Error { kind: self, context: ErrorContext::Chunk }
    }
}

} // verus!
