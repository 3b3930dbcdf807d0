//! Decoders of the block, biome and light data of a section.

use vstd::prelude::*;
use vstd::arithmetic::power2::{lemma2_to64, lemma2_to64_rest, lemma_pow2_strictly_increases, pow2};
use crate::error::ErrorKind;
use crate::resource::{Biome, BiomeTypes, BlockType, BlockTypes};
use crate::types::{SectionBlockCoords, SectionY};
use crate::world::de;
use crate::world::packing::{
    aligned_index,
    aligned_len,
    digits_fit,
    lemma_aligned_word,
    lemma_extract,
    lemma_extract_pair,
    lemma_pack_aligned,
    lemma_pack_unaligned,
    lemma_unaligned_window,
    pack_aligned,
    pack_unaligned,
    lemma_word_cast,
    slots_per_word,
    unaligned_index,
    unaligned_len,
    word_bits,
};

verus! {

/// `num_integer::div_rem` on `usize`: the quotient and the remainder of a
/// division, both at once. It divides with `/` and `%`, so the divisor may
/// not be zero.
#[verifier::external_body]
fn div_rem(x: usize, y: usize) -> (r: (usize, usize))
    requires
        y != 0,
    ensures
        r.0 == x / y,
        r.1 == x % y,
{
    num_integer::div_rem(x, y)
}

/// `bits` is the width of the indices into a palette of `len` entries: the
/// smallest width from `min` up that has an index for every entry, and no
/// more than `max`.
pub open spec fn is_palette_bits(len: nat, min: nat, max: nat, bits: nat) -> bool {
    &&& min <= bits <= max
    &&& pow2(bits) >= len
    &&& bits > min ==> pow2((bits - 1) as nat) < len
}

/// The width of the indices into a palette of `len` entries, if there is one
/// between `min` and `max`.
pub open spec fn spec_palette_bits(len: nat, min: nat, max: nat) -> Option<nat> {
    if exists|bits: nat| is_palette_bits(len, min, max, bits) {
        Some(choose|bits: nat| is_palette_bits(len, min, max, bits))
    } else {
        None
    }
}

/// A palette has at most one index width.
pub proof fn lemma_palette_bits_unique(len: nat, min: nat, max: nat, a: nat, b: nat)
    requires
        is_palette_bits(len, min, max, a),
        is_palette_bits(len, min, max, b),
    ensures
        a == b,
{
    if a < b {
        if a < b - 1 {
            lemma_pow2_strictly_increases(a, (b - 1) as nat);
        }
    } else if b < a {
        if b < a - 1 {
            lemma_pow2_strictly_increases(b, (a - 1) as nat);
        }
    }
}

/// A width that fits a palette is the width of the palette.
pub proof fn lemma_palette_bits_found(len: nat, min: nat, max: nat, bits: nat)
    requires
        is_palette_bits(len, min, max, bits),
    ensures
        spec_palette_bits(len, min, max) == Some(bits),
{
    let chosen = choose|bits: nat| is_palette_bits(len, min, max, bits);
    lemma_palette_bits_unique(len, min, max, bits, chosen);
}

/// A palette with a single entry has the smallest width.
pub proof fn lemma_palette_bits_single(min: nat, max: nat)
    requires
        min <= max,
    ensures
        spec_palette_bits(1, min, max) == Some(min),
{
    vstd::arithmetic::power2::lemma_pow2_pos(min);
    lemma_palette_bits_found(1, min, max, min);
}

/// A palette with `2^max` entries has the largest width.
pub proof fn lemma_palette_bits_full(min: nat, max: nat)
    requires
        min <= max,
    ensures
        spec_palette_bits(pow2(max), min, max) == Some(max),
{
    if max > min {
        lemma_pow2_strictly_increases((max - 1) as nat, max);
    }
    lemma_palette_bits_found(pow2(max), min, max, max);
}

/// A palette with more than `2^max` entries has no width.
pub proof fn lemma_palette_bits_overfull(len: nat, min: nat, max: nat)
    requires
        len > pow2(max),
    ensures
        spec_palette_bits(len, min, max) is None,
{
    assert forall|bits: nat| !is_palette_bits(len, min, max, bits) by {
        if bits < max {
            lemma_pow2_strictly_increases(bits, max);
        }
    }
}

/// Determines the number of bits required for indexing into a palette of a
/// given length.
///
/// This is a base-2 logarithm, rounded up, raised to `min` where it is
/// smaller. If the result would be greater than `max`, there is none.
pub fn palette_bits(len: usize, min: u8, max: u8) -> (r: Option<u8>)
    ensures
        match r {
            Some(bits) => is_palette_bits(len as nat, min as nat, max as nat, bits as nat),
            None => forall|bits: nat| !is_palette_bits(len as nat, min as nat, max as nat, bits),
        },
        spec_palette_bits(len as nat, min as nat, max as nat) == match r {
            Some(bits) => Some(bits as nat),
            None => None,
        },
{
    if min > max {
        return None;
    }
    let mut bits: u8 = min;
    loop
        invariant
            min <= bits <= max,
            forall|lower: nat| min <= lower < bits ==> pow2(lower) < len,
        ensures
            pow2(bits as nat) >= len,
        decreases max - bits,
    {
        if bits >= 64 {
            proof {
                lemma2_to64_rest();
                if bits > 64 {
                    lemma_pow2_strictly_increases(64, bits as nat);
                }
            }
            break ;
        }
        proof {
            lemma_extract(0, 0, bits as u64);
        }
        if (1u64 << (bits as u64)) >= len as u64 {
            break ;
        }
        if bits == max {
            proof {
                assert forall|other: nat| !is_palette_bits(
                    len as nat,
                    min as nat,
                    max as nat,
                    other,
                ) by {
                    if min <= other <= max {
                        assert(pow2(other) < len);
                    }
                }
            }
            return None;
        }
        bits = bits + 1;
    }
    proof {
        assert(pow2(bits as nat) >= len);
        lemma_palette_bits_found(len as nat, min as nat, max as nat, bits as nat);
    }
    Some(bits)
}

/// The bit pattern of a byte, read as an unsigned number.
pub open spec fn byte_bits(byte: i8) -> nat {
    if byte >= 0 {
        byte as nat
    } else {
        (byte + 256) as nat
    }
}

/// The four-bit value at a position of an array that holds two such values
/// in each byte, the one with the even position in the lower half.
pub open spec fn nibble_at(data: Seq<i8>, offset: nat) -> nat {
    let byte = byte_bits(data[(offset / 2) as int]);
    if offset % 2 == 1 {
        byte / 16
    } else {
        byte % 16
    }
}

/// Reads a four-bit value from an array of bytes.
fn nibble(data: &[i8], offset: usize) -> (r: u8)
    requires
        offset / 2 < data@.len(),
    ensures
        r == nibble_at(data@, offset as nat),
        r < 16,
{
    let (index, half) = div_rem(offset, 2);
    let signed: i8 = data[index];
    let byte: u8 = signed as u8;
    assert((signed >= 0 ==> byte == signed) && (signed < 0 ==> byte == signed + 256) && (byte >> 4u8)
        == byte / 16 && (byte & 0xfu8) == byte % 16) by (bit_vector)
        requires
            byte == signed as u8,
    ;
    if half == 1 {
        byte >> 4u8
    } else {
        byte & 0xfu8
    }
}

/// Reads an index of the aligned layout.
fn aligned_index_at(words: &[i64], bits: u8, count: usize, offset: usize) -> (r: usize)
    requires
        0 < bits <= 12,
        offset < count,
        words@.len() == aligned_len(count as nat, bits as nat),
    ensures
        r == aligned_index(words@, bits as nat, offset as nat),
        r < pow2(bits as nat),
{
    let width: usize = bits as usize;
    let per_word: usize = 64 / width;
    proof {
        lemma_aligned_word(count as nat, bits as nat, offset as nat);
    }
    let (word, slot) = div_rem(offset, per_word);
    let pattern: u64 = words[word] as u64;
    let shift: u64 = (slot * width) as u64;
    proof {
        lemma_word_cast(words@[word as int]);
        lemma_extract(pattern, shift, bits as u64);
        lemma2_to64();
        if bits < 12 {
            lemma_pow2_strictly_increases(bits as nat, 12);
        }
    }
    let mask: u64 = (1u64 << (bits as u64)) - 1;
    ((pattern >> shift) & mask) as usize
}

/// Reads an index of the unaligned layout.
fn unaligned_index_at(words: &[i64], bits: u8, offset: usize) -> (r: usize)
    requires
        0 < bits <= 12,
        offset < 4096,
        words@.len() == unaligned_len(bits as nat),
    ensures
        r == unaligned_index(words@, bits as nat, offset as nat),
        r < pow2(bits as nat),
{
    let width: usize = bits as usize;
    assert(offset * width <= 4095 * 12 && (offset + 1) * width <= 64 * (64 * width))
        by (nonlinear_arith)
        requires
            offset < 4096,
            0 < width <= 12,
    ;
    let bit_offset: usize = offset * width;
    proof {
        lemma_unaligned_window(words@, bits as nat, offset as nat);
    }
    let (word, shift) = div_rem(bit_offset, 64);
    let first: u64 = words[word] as u64;
    proof {
        lemma_word_cast(words@[word as int]);
        lemma_extract(first, shift as u64, bits as u64);
        lemma2_to64();
        if bits < 12 {
            lemma_pow2_strictly_increases(bits as nat, 12);
        }
    }
    let mask: u64 = (1u64 << (bits as u64)) - 1;
    let mut joined: u64 = first >> (shift as u64);
    if shift + width > 64 {
        let second: u64 = words[word + 1] as u64;
        proof {
            lemma_word_cast(words@[word + 1]);
            lemma_extract_pair(first, second, shift as u64, bits as u64);
        }
        joined = joined | (second << ((64 - shift) as u64));
    }
    (joined & mask) as usize
}

/// The views of an optional array of words.
pub open spec fn words_view(words: Option<&[i64]>) -> Option<Seq<i64>> {
    match words {
        Some(words) => Some(words@),
        None => None,
    }
}

/// Block data that can be asked for the block type at a position.
pub trait Section {
    /// The block type at a position of the section: absent where the block
    /// is of no known type.
    spec fn spec_block_at(&self, coords: SectionBlockCoords) -> Result<Option<BlockType>, ErrorKind>;

    /// Looks up the block type at the given coordinates.
    fn block_at(&self, coords: SectionBlockCoords) -> (r: Result<Option<BlockType>, ErrorKind>)
        requires
            coords.wf(),
        ensures
            r == self.spec_block_at(coords),
    ;
}

/// Biome data that can be asked for the biome at a position.
pub trait Biomes {
    /// The biome at a position of the section with the given Y index: absent
    /// where the biome is not known.
    spec fn spec_biome_at(&self, section: SectionY, coords: SectionBlockCoords) -> Result<
        Option<Biome>,
        ErrorKind,
    >;

    /// Looks up the biome at the given coordinates.
    fn biome_at(&self, section: SectionY, coords: SectionBlockCoords) -> (r: Result<
        Option<Biome>,
        ErrorKind,
    >)
        requires
            coords.wf(),
        ensures
            r == self.spec_biome_at(section, coords),
    ;
}

/// The number of words of the block data of a section.
pub open spec fn section_words(bits: nat, aligned: bool) -> nat {
    if aligned {
        aligned_len(4096, bits)
    } else {
        unaligned_len(bits)
    }
}

/// What a [`SectionV1_13`] holds.
pub struct SectionV1_13View {
    /// The packed palette indices; absent when every index is 0.
    pub block_states: Option<Seq<i64>>,
    /// The block types of the palette entries, absent for unknown names.
    pub palette: Seq<Option<BlockType>>,
    /// The width of a palette index.
    pub bits: nat,
    /// Whether the aligned layout is used.
    pub aligned_blocks: bool,
}

impl SectionV1_13View {
    /// The width fits the palette, and the packed data has the length that
    /// the width and the layout ask for.
    pub open spec fn wf(self) -> bool {
        &&& is_palette_bits(self.palette.len(), 4, 12, self.bits)
        &&& self.block_states matches Some(words) ==> words.len() == section_words(
            self.bits,
            self.aligned_blocks,
        )
    }

    /// The palette index of the block with a linear offset.
    pub open spec fn palette_index(self, offset: nat) -> nat {
        match self.block_states {
            None => 0,
            Some(words) => if self.aligned_blocks {
                aligned_index(words, self.bits, offset)
            } else {
                unaligned_index(words, self.bits, offset)
            },
        }
    }

    /// The block type of the block with a linear offset.
    pub open spec fn block_at(self, offset: nat) -> Result<Option<BlockType>, ErrorKind> {
        let index = self.palette_index(offset);
        if index < self.palette.len() {
            Ok(self.palette[index as int])
        } else {
            Err(ErrorKind::PaletteIndexOutOfBounds)
        }
    }
}

/// The names of the entries of a block state palette.
pub open spec fn palette_names(palette: Seq<de::BlockStatePaletteEntry>) -> Seq<Seq<char>> {
    palette.map_values(|entry: de::BlockStatePaletteEntry| entry.name@)
}

/// The block types of the names of a palette.
pub open spec fn palette_types(names: Seq<Seq<char>>, block_types: &BlockTypes) -> Seq<
    Option<BlockType>,
> {
    names.map_values(|name: Seq<char>| block_types.spec_get(name))
}

/// What loading the block data of a section gives.
pub open spec fn load_section_v1_13(
    data_version: u32,
    block_states: Option<Seq<i64>>,
    names: Seq<Seq<char>>,
    block_types: &BlockTypes,
) -> Result<SectionV1_13View, ErrorKind> {
    let aligned_blocks = data_version >= 2529;
    match spec_palette_bits(names.len(), 4, 12) {
        None => Err(ErrorKind::UnsupportedPaletteSize),
        Some(bits) => if block_states matches Some(words) && words.len() != section_words(
            bits,
            aligned_blocks,
        ) {
            Err(ErrorKind::InvalidBlockData)
        } else {
            Ok(
                SectionV1_13View {
                    block_states,
                    palette: palette_types(names, block_types),
                    bits,
                    aligned_blocks,
                },
            )
        },
    }
}

/// A section that is loaded from packed indices reads, at every position,
/// as the block type of the palette entry with the index that was packed
/// for the position.
pub proof fn lemma_section_round_trip(
    data_version: u32,
    names: Seq<Seq<char>>,
    block_types: &BlockTypes,
    indices: Seq<nat>,
    coords: SectionBlockCoords,
)
    requires
        spec_palette_bits(names.len(), 4, 12) is Some,
        indices.len() == 4096,
        forall|i: int| 0 <= i < 4096 ==> #[trigger] indices[i] < names.len(),
        coords.wf(),
    ensures
        ({
            let bits = spec_palette_bits(names.len(), 4, 12)->0;
            let words = if data_version >= 2529 {
                pack_aligned(indices, bits)
            } else {
                pack_unaligned(indices, bits)
            };
            let loaded = load_section_v1_13(data_version, Some(words), names, block_types);
            &&& loaded is Ok
            &&& loaded->Ok_0.wf()
            &&& loaded->Ok_0.block_at(coords.spec_offset() as nat) == Ok::<
                Option<BlockType>,
                ErrorKind,
            >(block_types.spec_get(names[indices[coords.spec_offset()] as int]))
        }),
{
    let bits = spec_palette_bits(names.len(), 4, 12)->0;
    let offset = coords.spec_offset() as nat;
    assert(is_palette_bits(names.len(), 4, 12, bits));
    assert(digits_fit(indices, bits));
    if data_version >= 2529 {
        lemma_pack_aligned(indices, bits, offset);
    } else {
        lemma_pack_unaligned(indices, bits, offset);
    }
    assert(indices[offset as int] < names.len());
}

/// Section block data of format version 1.13 and later: indices into a
/// palette of block types.
pub struct SectionV1_13<'a> {
    block_states: Option<&'a [i64]>,
    palette: Vec<Option<BlockType>>,
    bits: u8,
    aligned_blocks: bool,
}

impl<'a> View for SectionV1_13<'a> {
    type V = SectionV1_13View;

    closed spec fn view(&self) -> SectionV1_13View {
        SectionV1_13View {
            block_states: words_view(self.block_states),
            palette: self.palette@,
            bits: self.bits as nat,
            aligned_blocks: self.aligned_blocks,
        }
    }
}

impl<'a> SectionV1_13<'a> {
    #[verifier::type_invariant]
    spec fn inv(&self) -> bool {
        self@.wf()
    }

    /// Constructs a new [`SectionV1_13`] from stored data.
    ///
    /// Names that the catalog does not hold stay in the palette without a
    /// block type.
    pub fn new(
        data_version: u32,
        block_states: Option<&'a [i64]>,
        palette: &[de::BlockStatePaletteEntry],
        block_types: &BlockTypes,
    ) -> (r: Result<Self, ErrorKind>)
        ensures
            match r {
                Ok(section) => section@.wf() && load_section_v1_13(
                    data_version,
                    words_view(block_states),
                    palette_names(palette@),
                    block_types,
                ) == Ok::<SectionV1_13View, ErrorKind>(section@),
                Err(e) => load_section_v1_13(
                    data_version,
                    words_view(block_states),
                    palette_names(palette@),
                    block_types,
                ) == Err::<SectionV1_13View, ErrorKind>(e),
            },
    {
        let aligned_blocks = data_version >= 2529;
        let bits: u8 = match palette_bits(palette.len(), 4, 12) {
            Some(bits) => bits,
            None => {
                return Err(ErrorKind::UnsupportedPaletteSize);
            },
        };
        if let Some(words) = block_states {
            proof {
                lemma_aligned_word(4096, bits as nat, 0);
            }
            let expected_length: usize = if aligned_blocks {
                let blocks_per_word: usize = 64 / (bits as usize);
                (4096 + blocks_per_word - 1) / blocks_per_word
            } else {
                64 * (bits as usize)
            };
            if words.len() != expected_length {
                return Err(ErrorKind::InvalidBlockData);
            }
        }
        let ghost names = palette_names(palette@);
        let mut types: Vec<Option<BlockType>> = Vec::new();
        let mut n: usize = 0;
        while n < palette.len()
            invariant
                n <= palette.len(),
                names == palette_names(palette@),
                types@.len() == n,
                forall|i: int| 0 <= i < n ==> types@[i] == block_types.spec_get(names[i]),
            decreases palette.len() - n,
        {
            types.push(block_types.get(&palette[n].name));
            n = n + 1;
        }
        assert(types@ =~= palette_types(names, block_types));
        Ok(SectionV1_13 { block_states, palette: types, bits, aligned_blocks })
    }

    /// The width of a palette index in bits. The packed data of every section
    /// has the length that this width and the layout ask for.
    pub fn bits(&self) -> (r: u8)
        ensures
            r == self@.bits,
            self@.wf(),
    {
        proof {
            use_type_invariant(self);
        }
        self.bits
    }

    /// Looks up the block type palette index at the given coordinates.
    fn palette_index_at(&self, coords: SectionBlockCoords) -> (r: usize)
        requires
            coords.wf(),
        ensures
            r == self@.palette_index(coords.spec_offset() as nat),
    {
        proof {
            use_type_invariant(self);
        }
        match self.block_states {
            None => 0,
            Some(words) => {
                let offset: usize = coords.offset();
                if self.aligned_blocks {
                    aligned_index_at(words, self.bits, 4096, offset)
                } else {
                    unaligned_index_at(words, self.bits, offset)
                }
            },
        }
    }
}

impl<'a> Section for SectionV1_13<'a> {
    open spec fn spec_block_at(&self, coords: SectionBlockCoords) -> Result<
        Option<BlockType>,
        ErrorKind,
    > {
        self@.block_at(coords.spec_offset() as nat)
    }

    fn block_at(&self, coords: SectionBlockCoords) -> (r: Result<Option<BlockType>, ErrorKind>) {
        let index: usize = self.palette_index_at(coords);
        if index < self.palette.len() {
            Ok(self.palette[index])
        } else {
            Err(ErrorKind::PaletteIndexOutOfBounds)
        }
    }
}

/// What a [`SectionV0`] holds.
pub struct SectionV0View {
    /// The numeric block id of each block.
    pub blocks: Seq<i8>,
    /// The data value of each block, two in a byte.
    pub data: Seq<i8>,
}

impl SectionV0View {
    /// There is an id for each of the 4096 blocks, and a data value.
    pub open spec fn wf(self) -> bool {
        &&& self.blocks.len() == 4096
        &&& self.data.len() == 2048
    }

    /// The block type of the block with a linear offset.
    pub open spec fn block_at(self, block_types: &BlockTypes, offset: nat) -> Option<BlockType> {
        block_types.spec_get_legacy(
            byte_bits(self.blocks[offset as int]) as u8,
            nibble_at(self.data, offset) as u8,
        )
    }
}

/// What loading the block data of a section of the oldest format gives.
pub open spec fn load_section_v0(blocks: Seq<i8>, data: Seq<i8>) -> Result<
    SectionV0View,
    ErrorKind,
> {
    if blocks.len() != 4096 || data.len() != 2048 {
        Err(ErrorKind::InvalidBlockData)
    } else {
        Ok(SectionV0View { blocks, data })
    }
}

/// Section block data from before format version 1.13: a numeric id and a
/// data value for each block.
pub struct SectionV0<'a> {
    blocks: &'a [i8],
    data: &'a [i8],
    block_types: &'a BlockTypes,
}

impl<'a> View for SectionV0<'a> {
    type V = SectionV0View;

    closed spec fn view(&self) -> SectionV0View {
        SectionV0View { blocks: self.blocks@, data: self.data@ }
    }
}

impl<'a> SectionV0<'a> {
    #[verifier::type_invariant]
    spec fn inv(&self) -> bool {
        self@.wf()
    }

    /// The catalog that resolves the ids of this section.
    pub closed spec fn block_types(&self) -> &BlockTypes {
        self.block_types
    }

    /// Constructs a new [`SectionV0`] from stored data.
    pub fn new(blocks: &'a [i8], data: &'a [i8], block_types: &'a BlockTypes) -> (r: Result<
        Self,
        ErrorKind,
    >)
        ensures
            match r {
                Ok(section) => section@.wf() && section.block_types() == block_types
                    && load_section_v0(blocks@, data@) == Ok::<SectionV0View, ErrorKind>(
                    section@,
                ),
                Err(e) => load_section_v0(blocks@, data@) == Err::<SectionV0View, ErrorKind>(e),
            },
    {
        if blocks.len() != 4096 {
            return Err(ErrorKind::InvalidBlockData);
        }
        if data.len() != 2048 {
            return Err(ErrorKind::InvalidBlockData);
        }
        Ok(SectionV0 { blocks, data, block_types })
    }
}

impl<'a> Section for SectionV0<'a> {
    open spec fn spec_block_at(&self, coords: SectionBlockCoords) -> Result<
        Option<BlockType>,
        ErrorKind,
    > {
        Ok(self@.block_at(self.block_types(), coords.spec_offset() as nat))
    }

    fn block_at(&self, coords: SectionBlockCoords) -> (r: Result<Option<BlockType>, ErrorKind>) {
        proof {
            use_type_invariant(self);
        }
        let offset: usize = coords.offset();
        let signed: i8 = self.blocks[offset];
        let block: u8 = signed as u8;
        assert((signed >= 0 ==> block == signed) && (signed < 0 ==> block == signed + 256))
            by (bit_vector)
            requires
                block == signed as u8,
        ;
        let data: u8 = nibble(self.data, offset);
        Ok(self.block_types.get_legacy(block, data))
    }
}

/// The linear offset of the biome cell that holds a block: biomes are
/// stored once for each cube of 4×4×4 blocks.
pub open spec fn biome_offset(coords: SectionBlockCoords) -> nat {
    ((coords.y.0 / 4) * 16 + (coords.xz.z.0 / 4) * 4 + coords.xz.x.0 / 4) as nat
}

/// What a [`BiomesV18`] holds.
pub struct BiomesV18View {
    /// The packed palette indices; absent when every index is 0.
    pub biomes: Option<Seq<i64>>,
    /// The biome names of the palette entries.
    pub palette: Seq<Seq<char>>,
    /// The width of a palette index.
    pub bits: nat,
}

impl BiomesV18View {
    /// The width fits the palette, and the packed data has the length that
    /// the width asks for.
    pub open spec fn wf(self) -> bool {
        &&& is_palette_bits(self.palette.len(), 1, 6, self.bits)
        &&& self.biomes matches Some(words) ==> words.len() == aligned_len(64, self.bits)
    }

    /// The palette index of the biome cell with a linear offset.
    pub open spec fn palette_index(self, offset: nat) -> nat {
        match self.biomes {
            None => 0,
            Some(words) => aligned_index(words, self.bits, offset),
        }
    }

    /// The biome at a position, resolved by a catalog.
    pub open spec fn biome_at(self, biome_types: &BiomeTypes, coords: SectionBlockCoords) -> Result<
        Option<Biome>,
        ErrorKind,
    > {
        let index = self.palette_index(biome_offset(coords));
        if index < self.palette.len() {
            Ok(biome_types.spec_get(self.palette[index as int]))
        } else {
            Err(ErrorKind::PaletteIndexOutOfBounds)
        }
    }
}

/// The names of a biome palette.
pub open spec fn biome_names(palette: Seq<String>) -> Seq<Seq<char>> {
    palette.map_values(|name: String| name@)
}

/// What loading the biome data of a section gives.
pub open spec fn load_biomes_v18(biomes: Option<Seq<i64>>, names: Seq<Seq<char>>) -> Result<
    BiomesV18View,
    ErrorKind,
> {
    match spec_palette_bits(names.len(), 1, 6) {
        None => Err(ErrorKind::UnsupportedPaletteSize),
        Some(bits) => if biomes matches Some(words) && words.len() != aligned_len(64, bits) {
            Err(ErrorKind::InvalidBiomeData)
        } else {
            Ok(BiomesV18View { biomes, palette: names, bits })
        },
    }
}

/// Section biome data of format version 1.18 and later.
///
/// The biomes are part of the section, laid out as an array of indices
/// into a palette, like the block data, with one entry for each cube of
/// 4×4×4 blocks.
pub struct BiomesV18<'a> {
    biomes: Option<&'a [i64]>,
    palette: &'a [String],
    bits: u8,
    biome_types: &'a BiomeTypes,
}

impl<'a> View for BiomesV18<'a> {
    type V = BiomesV18View;

    closed spec fn view(&self) -> BiomesV18View {
        BiomesV18View {
            biomes: words_view(self.biomes),
            palette: biome_names(self.palette@),
            bits: self.bits as nat,
        }
    }
}

impl<'a> BiomesV18<'a> {
    #[verifier::type_invariant]
    spec fn inv(&self) -> bool {
        self@.wf()
    }

    /// The catalog that resolves the names of the palette.
    pub closed spec fn biome_types(&self) -> &BiomeTypes {
        self.biome_types
    }

    /// Constructs a new [`BiomesV18`] from stored data.
    pub fn new(biomes: Option<&'a [i64]>, palette: &'a [String], biome_types: &'a BiomeTypes) -> (r:
        Result<Self, ErrorKind>)
        ensures
            match r {
                Ok(section) => section@.wf() && section.biome_types() == biome_types
                    && load_biomes_v18(words_view(biomes), biome_names(palette@)) == Ok::<
                    BiomesV18View,
                    ErrorKind,
                >(section@),
                Err(e) => load_biomes_v18(words_view(biomes), biome_names(palette@)) == Err::<
                    BiomesV18View,
                    ErrorKind,
                >(e),
            },
    {
        let bits: u8 = match palette_bits(palette.len(), 1, 6) {
            Some(bits) => bits,
            None => {
                return Err(ErrorKind::UnsupportedPaletteSize);
            },
        };
        if let Some(words) = biomes {
            proof {
                lemma_aligned_word(64, bits as nat, 0);
            }
            let biomes_per_word: usize = 64 / (bits as usize);
            let expected_length: usize = (64 + biomes_per_word - 1) / biomes_per_word;
            if words.len() != expected_length {
                return Err(ErrorKind::InvalidBiomeData);
            }
        }
        Ok(BiomesV18 { biomes, palette, bits, biome_types })
    }

    /// The width of a palette index in bits. The packed data has the length
    /// that this width asks for.
    pub fn bits(&self) -> (r: u8)
        ensures
            r == self@.bits,
            self@.wf(),
    {
        proof {
            use_type_invariant(self);
        }
        self.bits
    }

    /// Looks up the biome palette index at the given coordinates.
    fn palette_index_at(&self, coords: SectionBlockCoords) -> (r: usize)
        requires
            coords.wf(),
        ensures
            r == self@.palette_index(biome_offset(coords)),
    {
        proof {
            use_type_invariant(self);
        }
        match self.biomes {
            None => 0,
            Some(words) => {
                let x: usize = (coords.xz.x.0 / 4) as usize;
                let y: usize = (coords.y.0 / 4) as usize;
                let z: usize = (coords.xz.z.0 / 4) as usize;
                let offset: usize = 16 * y + 4 * z + x;
                aligned_index_at(words, self.bits, 64, offset)
            },
        }
    }
}

impl<'a> Biomes for BiomesV18<'a> {
    open spec fn spec_biome_at(&self, section: SectionY, coords: SectionBlockCoords) -> Result<
        Option<Biome>,
        ErrorKind,
    > {
        self@.biome_at(self.biome_types(), coords)
    }

    fn biome_at(&self, section: SectionY, coords: SectionBlockCoords) -> (r: Result<
        Option<Biome>,
        ErrorKind,
    >) {
        let index: usize = self.palette_index_at(coords);
        if index < self.palette.len() {
            Ok(self.biome_types.get(&self.palette[index]))
        } else {
            Err(ErrorKind::PaletteIndexOutOfBounds)
        }
    }
}

/// The number of biome cells of the layout with one cell for each cube of
/// 4×4×4 blocks.
pub const BIOMES_V15_LEN: usize = 64;

/// The number of biome cells of the layouts with one cell for each block
/// column.
pub const BIOMES_V0_LEN: usize = 256;

/// Biome data from before format version 1.18, kept once for a whole chunk.
///
/// Three layouts were in use. Biomes of these layouts are numbered, not
/// named, and no catalog resolves the numbers: every position reads as a
/// biome that is not known.
#[derive(Debug)]
#[allow(inconsistent_fields)]
pub enum BiomesV0<'a> {
    /// One number for each cube of 4×4×4 blocks.
    IntArrayV15 { data: &'a [i32], biome_types: &'a BiomeTypes },
    /// One number for each block column.
    IntArrayV0 { data: &'a [i32], biome_types: &'a BiomeTypes },
    /// One byte for each block column.
    ByteArray { data: &'a [i8], biome_types: &'a BiomeTypes },
}

/// Whether stored biome data has one of the three known layouts.
pub open spec fn biomes_v0_error(biomes: Option<&de::BiomesV0>) -> Option<ErrorKind> {
    match biomes {
        None => Some(ErrorKind::MissingBiomes),
        Some(de::BiomesV0::IntArray(data)) => if data@.len() == 64 || data@.len() == 256 {
            None
        } else {
            Some(ErrorKind::InvalidBiomeData)
        },
        Some(de::BiomesV0::ByteArray(data)) => if data@.len() == 256 {
            None
        } else {
            Some(ErrorKind::InvalidBiomeData)
        },
    }
}

impl<'a> BiomesV0<'a> {
    /// The layout and the numbers are those of the stored data.
    pub open spec fn holds(self, biomes: &de::BiomesV0) -> bool {
        match self {
            BiomesV0::IntArrayV15 { data, biome_types } => {
                &&& data@.len() == 64
                &&& biomes matches de::BiomesV0::IntArray(stored)
                &&& stored@ == data@
            },
            BiomesV0::IntArrayV0 { data, biome_types } => {
                &&& data@.len() == 256
                &&& biomes matches de::BiomesV0::IntArray(stored)
                &&& stored@ == data@
            },
            BiomesV0::ByteArray { data, biome_types } => {
                &&& data@.len() == 256
                &&& biomes matches de::BiomesV0::ByteArray(stored)
                &&& stored@ == data@
            },
        }
    }

    /// The catalog that the biomes were loaded with.
    pub open spec fn biome_types(self) -> &'a BiomeTypes {
        match self {
            BiomesV0::IntArrayV15 { data, biome_types } => biome_types,
            BiomesV0::IntArrayV0 { data, biome_types } => biome_types,
            BiomesV0::ByteArray { data, biome_types } => biome_types,
        }
    }

    /// Constructs a new [`BiomesV0`] from stored data.
    pub fn new(biomes: Option<&'a de::BiomesV0>, biome_types: &'a BiomeTypes) -> (r: Result<
        Self,
        ErrorKind,
    >)
        ensures
            match r {
                Ok(decoder) => biomes_v0_error(biomes) is None && decoder.holds(biomes.unwrap())
                    && decoder.biome_types() == biome_types,
                Err(e) => biomes_v0_error(biomes) == Some(e),
            },
    {
        match biomes {
            Some(de::BiomesV0::IntArray(data)) => {
                if data.len() == BIOMES_V15_LEN {
                    Ok(BiomesV0::IntArrayV15 { data: data.as_slice(), biome_types })
                } else if data.len() == BIOMES_V0_LEN {
                    Ok(BiomesV0::IntArrayV0 { data: data.as_slice(), biome_types })
                } else {
                    Err(ErrorKind::InvalidBiomeData)
                }
            },
            Some(de::BiomesV0::ByteArray(data)) => {
                if data.len() == BIOMES_V0_LEN {
                    Ok(BiomesV0::ByteArray { data: data.as_slice(), biome_types })
                } else {
                    Err(ErrorKind::InvalidBiomeData)
                }
            },
            None => Err(ErrorKind::MissingBiomes),
        }
    }
}

impl<'a> Biomes for BiomesV0<'a> {
    open spec fn spec_biome_at(&self, section: SectionY, coords: SectionBlockCoords) -> Result<
        Option<Biome>,
        ErrorKind,
    > {
        Ok(None)
    }

    fn biome_at(&self, section: SectionY, coords: SectionBlockCoords) -> (r: Result<
        Option<Biome>,
        ErrorKind,
    >) {
        Ok(None)
    }
}

/// The views of an optional array of bytes.
pub open spec fn bytes_view(bytes: Option<&[i8]>) -> Option<Seq<i8>> {
    match bytes {
        Some(bytes) => Some(bytes@),
        None => None,
    }
}

/// The block light at a linear offset: darkness where no light is stored.
pub open spec fn light_at(light: Option<Seq<i8>>, offset: nat) -> nat {
    match light {
        None => 0,
        Some(data) => nibble_at(data, offset),
    }
}

/// What loading the block light data of a section gives.
pub open spec fn load_block_light(block_light: Option<Seq<i8>>) -> Result<
    Option<Seq<i8>>,
    ErrorKind,
> {
    if block_light matches Some(data) && data.len() != 2048 {
        Err(ErrorKind::InvalidLightData)
    } else {
        Ok(block_light)
    }
}

/// The block light of a section: four bits for each block.
#[derive(Debug, Clone, Copy)]
pub struct BlockLight<'a>(Option<&'a [i8]>);

impl<'a> View for BlockLight<'a> {
    type V = Option<Seq<i8>>;

    closed spec fn view(&self) -> Option<Seq<i8>> {
        bytes_view(self.0)
    }
}

impl<'a> BlockLight<'a> {
    #[verifier::type_invariant]
    spec fn inv(&self) -> bool {
        self@ matches Some(data) ==> data.len() == 2048
    }

    /// The block light at a position.
    pub open spec fn spec_block_light_at(&self, coords: SectionBlockCoords) -> u8 {
        light_at(self@, coords.spec_offset() as nat) as u8
    }

    /// Constructs a new [`BlockLight`] from stored data.
    pub fn new(block_light: Option<&'a [i8]>) -> (r: Result<Self, ErrorKind>)
        ensures
            match r {
                Ok(light) => load_block_light(bytes_view(block_light)) == Ok::<
                    Option<Seq<i8>>,
                    ErrorKind,
                >(light@),
                Err(e) => load_block_light(bytes_view(block_light)) == Err::<
                    Option<Seq<i8>>,
                    ErrorKind,
                >(e),
            },
    {
        if let Some(data) = block_light {
            if data.len() != 2048 {
                return Err(ErrorKind::InvalidLightData);
            }
        }
        Ok(BlockLight(block_light))
    }

    /// Looks up the block light at the given coordinates.
    pub fn block_light_at(&self, coords: SectionBlockCoords) -> (r: u8)
        requires
            coords.wf(),
        ensures
            r == self.spec_block_light_at(coords),
            r < 16,
    {
        proof {
            use_type_invariant(self);
        }
        match self.0 {
            None => 0,
            Some(data) => nibble(data, coords.offset()),
        }
    }
}

} // verus!
