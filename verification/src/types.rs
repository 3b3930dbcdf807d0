//! Coordinate types and fixed-shape arrays indexed by them.

use vstd::prelude::*;
use vstd::array::array_fill_for_copy_types;

verus! {

/// Edge length of a chunk (and of a section) in blocks.
pub const BLOCKS_PER_CHUNK: usize = 16;

/// Edge length of a region in chunks.
pub const CHUNKS_PER_REGION: usize = 32;

/// Number of bits of a block coordinate.
pub const BLOCK_BITS: u8 = 4;

/// Number of bits of a chunk coordinate.
pub const CHUNK_BITS: u8 = 5;

/// A block coordinate relative to a chunk or section, in `0..16`.
///
/// The axis the coordinate lies on is part of the type.
#[derive(Clone, Copy, Debug, PartialEq, Eq)]
pub struct BlockCoord<const AXIS: u8>(pub u8);

/// A chunk coordinate relative to a region, in `0..32`.
#[derive(Clone, Copy, Debug, PartialEq, Eq)]
pub struct ChunkCoord<const AXIS: u8>(pub u8);

/// A region coordinate.
#[derive(Clone, Copy, Debug, PartialEq, Eq)]
pub struct RegionCoord<const AXIS: u8>(pub i32);

pub type BlockX = BlockCoord<0>;

pub type BlockY = BlockCoord<1>;

pub type BlockZ = BlockCoord<2>;

pub type ChunkX = ChunkCoord<0>;

pub type ChunkZ = ChunkCoord<2>;

pub type RegionX = RegionCoord<0>;

pub type RegionZ = RegionCoord<2>;

/// The vertical index of a section within the world.
#[derive(Clone, Copy, Debug, PartialEq, Eq, Structural)]
pub struct SectionY(pub i32);

impl<const AXIS: u8> BlockCoord<AXIS> {
    /// The coordinate lies inside a chunk.
    pub open spec fn wf(self) -> bool {
        self.0 < 16
    }

    /// Makes a coordinate from a value known to be in range.
    pub fn new(value: u32) -> (r: Self)
        requires
            value < 16,
        ensures
            r.0 == value,
            r.wf(),
    {
        BlockCoord(value as u8)
    }

    /// All coordinates along the axis, in ascending order.
    pub fn iter() -> (r: Vec<Self>)
        ensures
            r@.len() == 16,
            forall|i: int| 0 <= i < 16 ==> (#[trigger] r@[i]).0 == i,
    {
        let mut all: Vec<Self> = Vec::new();
        let mut value: u8 = 0;
        while value < 16
            invariant
                value <= 16,
                all@.len() == value,
                forall|i: int| 0 <= i < value ==> (#[trigger] all@[i]).0 == i,
            decreases 16 - value,
        {
            all.push(BlockCoord(value));
            value = value + 1;
        }
        all
    }
}

impl<const AXIS: u8> ChunkCoord<AXIS> {
    /// The coordinate lies inside a region.
    pub open spec fn wf(self) -> bool {
        self.0 < 32
    }

    /// Makes a coordinate from a value known to be in range.
    pub fn new(value: u32) -> (r: Self)
        requires
            value < 32,
        ensures
            r.0 == value,
            r.wf(),
    {
        ChunkCoord(value as u8)
    }

    /// All coordinates along the axis, in ascending order.
    pub fn iter() -> (r: Vec<Self>)
        ensures
            r@.len() == 32,
            forall|i: int| 0 <= i < 32 ==> (#[trigger] r@[i]).0 == i,
    {
        let mut all: Vec<Self> = Vec::new();
        let mut value: u8 = 0;
        while value < 32
            invariant
                value <= 32,
                all@.len() == value,
                forall|i: int| 0 <= i < value ==> (#[trigger] all@[i]).0 == i,
            decreases 32 - value,
        {
            all.push(ChunkCoord(value));
            value = value + 1;
        }
        all
    }
}

/// The horizontal position of a block column inside a chunk.
#[derive(Clone, Copy, Debug, PartialEq, Eq)]
pub struct LayerBlockCoords {
    pub x: BlockX,
    pub z: BlockZ,
}

impl LayerBlockCoords {
    /// Both coordinates lie inside a chunk.
    pub open spec fn wf(self) -> bool {
        self.x.wf() && self.z.wf()
    }

    /// Linear index of the column: `z * 16 + x`.
    pub open spec fn spec_offset(self) -> int {
        self.z.0 * 16 + self.x.0
    }

    /// The column with a given linear index.
    pub open spec fn from_offset(offset: int) -> Self {
        LayerBlockCoords { x: BlockCoord((offset % 16) as u8), z: BlockCoord((offset / 16) as u8) }
    }

    /// Linear index of the column, rows of equal `z` being contiguous.
    pub fn offset(&self) -> (r: usize)
        requires
            self.wf(),
        ensures
            r == self.spec_offset(),
            r < 256,
    {
        16 * (self.z.0 as usize) + (self.x.0 as usize)
    }
}

/// The position of a block inside a section.
#[derive(Clone, Copy, Debug, PartialEq, Eq)]
pub struct SectionBlockCoords {
    pub xz: LayerBlockCoords,
    pub y: BlockY,
}

impl SectionBlockCoords {
    /// All coordinates lie inside a section.
    pub open spec fn wf(self) -> bool {
        self.xz.wf() && self.y.wf()
    }

    /// Linear index of the block: `y * 256 + z * 16 + x`.
    pub open spec fn spec_offset(self) -> int {
        self.y.0 * 256 + self.xz.spec_offset()
    }

    /// Linear index of the block inside the section's arrays.
    pub fn offset(&self) -> (r: usize)
        requires
            self.wf(),
        ensures
            r == self.spec_offset(),
            r < 4096,
    {
        256 * (self.y.0 as usize) + self.xz.offset()
    }
}

/// The position of a chunk inside a region.
#[derive(Clone, Copy, Debug, PartialEq, Eq)]
pub struct ChunkCoords {
    pub x: ChunkX,
    pub z: ChunkZ,
}

impl ChunkCoords {
    /// Both coordinates lie inside a region.
    pub open spec fn wf(self) -> bool {
        self.x.wf() && self.z.wf()
    }

    /// Linear index of the chunk slot: `z * 32 + x`.
    pub open spec fn spec_offset(self) -> int {
        self.z.0 * 32 + self.x.0
    }

    /// Linear index of the chunk slot inside a region's arrays.
    pub fn offset(&self) -> (r: usize)
        requires
            self.wf(),
        ensures
            r == self.spec_offset(),
            r < 1024,
    {
        32 * (self.z.0 as usize) + (self.x.0 as usize)
    }
}

/// One value per block column of a chunk: a 16×16 grid.
#[derive(Debug)]
pub struct LayerBlockArray<T> {
    cells: [T; 256],
}

impl<T> View for LayerBlockArray<T> {
    type V = Seq<T>;

    /// The 256 cells, the cell of column `(x, z)` at index `z * 16 + x`.
    closed spec fn view(&self) -> Seq<T> {
        self.cells@
    }
}

impl<T> LayerBlockArray<T> {
    /// Every grid has 16×16 cells.
    pub broadcast proof fn lemma_len(self)
        ensures
            #[trigger] self@.len() == 256,
    {
        broadcast use vstd::array::group_array_axioms;

    }

    /// A grid holding the same value in every cell.
    pub fn filled(value: T) -> (r: Self) where T: Copy
        ensures
            r@ == Seq::new(256, |i: int| value),
    {
        broadcast use vstd::array::group_array_axioms;

        let r = LayerBlockArray { cells: array_fill_for_copy_types(value) };
        assert(r@ =~= Seq::new(256, |i: int| value));
        r
    }

    /// The value of a column.
    pub fn get(&self, coords: LayerBlockCoords) -> (r: &T)
        requires
            coords.wf(),
        ensures
            *r == self@[coords.spec_offset()],
    {
        broadcast use vstd::array::group_array_axioms;

        &self.cells[coords.offset()]
    }

    /// Replaces the value of a column.
    pub fn set(&mut self, coords: LayerBlockCoords, value: T)
        requires
            coords.wf(),
        ensures
            final(self)@ == old(self)@.update(coords.spec_offset(), value),
    {
        broadcast use vstd::array::group_array_axioms;

        let offset: usize = coords.offset();
        self.cells[offset] = value;
    }
}

/// One value per chunk slot of a region: a 32×32 grid.
#[derive(Debug)]
pub struct ChunkArray<T> {
    cells: Vec<T>,
}

impl<T> View for ChunkArray<T> {
    type V = Seq<T>;

    /// The 1024 cells, the cell of chunk `(x, z)` at index `z * 32 + x`.
    closed spec fn view(&self) -> Seq<T> {
        self.cells@
    }
}

impl<T> ChunkArray<T> {
    #[verifier::type_invariant]
    spec fn inv(&self) -> bool {
        self.cells@.len() == 1024
    }

    /// The value of a chunk slot.
    pub fn get(&self, coords: ChunkCoords) -> (r: &T)
        requires
            coords.wf(),
        ensures
            self@.len() == 1024,
            *r == self@[coords.spec_offset()],
    {
        proof {
            use_type_invariant(self);
        }
        &self.cells[coords.offset()]
    }

    /// Replaces the value of a chunk slot.
    pub fn set(&mut self, coords: ChunkCoords, value: T)
        requires
            coords.wf(),
        ensures
            old(self)@.len() == 1024,
            final(self)@ == old(self)@.update(coords.spec_offset(), value),
    {
        proof {
            use_type_invariant(&*self);
        }
        let offset: usize = coords.offset();
        self.cells[offset] = value;
    }
}

impl<T> ChunkArray<Option<T>> {
    /// A grid with every slot absent.
    pub fn empty() -> (r: Self)
        ensures
            r@ == Seq::new(1024, |i: int| None::<T>),
    {
        let mut cells: Vec<Option<T>> = Vec::new();
        let mut n: usize = 0;
        while n < 1024
            invariant
                n <= 1024,
                cells@.len() == n,
                forall|i: int| 0 <= i < n ==> cells@[i] == None::<T>,
            decreases 1024 - n,
        {
            cells.push(None);
            n = n + 1;
        }
        assert(cells@ =~= Seq::new(1024, |i: int| None::<T>));
        ChunkArray { cells }
    }
}

} // verus!
