//! Bit-level helpers for splitting axis coordinates.

use vstd::prelude::*;
use vstd::arithmetic::div_mod::lemma_fundamental_div_mod_converse;
use vstd::arithmetic::power2::{lemma2_to64, lemma_pow2_strictly_increases, pow2};
use vstd::bits::{lemma_u32_pow2_no_overflow, lemma_u32_shl_is_mul};
use crate::types::{BlockCoord, ChunkCoord, BLOCK_BITS, CHUNK_BITS};

verus! {

/// Splits a value into the part above a bit position and the bits below it.
pub trait ShiftMask: Sized {
    type MaskedOutput;

    /// The pair `(value >> shift, value & ((1 << shift) - 1))`.
    spec fn spec_shift_mask(self, shift: u8) -> (Self, Self::MaskedOutput);

    /// Applies a right shift to a value, and returns both the result and the
    /// bits that were shifted out.
    fn shift_mask(self, shift: u8) -> (r: (Self, Self::MaskedOutput))
        requires
            shift < 32,
        ensures
            r == self.spec_shift_mask(shift),
    ;
}

impl ShiftMask for u32 {
    type MaskedOutput = u32;

    open spec fn spec_shift_mask(self, shift: u8) -> (u32, u32) {
        (self >> shift, self & (((1u32 << shift) - 1) as u32))
    }

    fn shift_mask(self, shift: u8) -> (r: (u32, u32)) {
        assert((1u32 << shift) >= 1) by (bit_vector)
            requires
                shift < 32,
        ;
        let mask: u32 = (1u32 << shift) - 1;
        (self >> shift, self & mask)
    }
}

impl ShiftMask for i32 {
    type MaskedOutput = u32;

    open spec fn spec_shift_mask(self, shift: u8) -> (i32, u32) {
        (self >> shift, (self as u32) & (((1u32 << shift) - 1) as u32))
    }

    fn shift_mask(self, shift: u8) -> (r: (i32, u32)) {
        assert((1u32 << shift) >= 1) by (bit_vector)
            requires
                shift < 32,
        ;
        let mask: u32 = (1u32 << shift) - 1;
        (self >> shift, (self as u32) & mask)
    }
}

/// `1 << shift` is the power of two with exponent `shift`.
proof fn lemma_one_shl_is_pow2(shift: u8)
    requires
        shift < 32,
    ensures
        (1u32 << shift) == pow2(shift as nat),
        pow2(shift as nat) <= 0x8000_0000,
{
    let s: u32 = shift as u32;
    lemma_u32_pow2_no_overflow(s as nat);
    lemma_pow2_strictly_increases(s as nat, 32);
    lemma2_to64();
    lemma_u32_shl_is_mul(1u32, s);
    assert(1u32 << shift == 1u32 << s) by (bit_vector)
        requires
            s == shift as u32,
    ;
    assert((1u32 << shift) <= 0x8000_0000u32) by (bit_vector)
        requires
            shift < 32,
    ;
}

/// For an unsigned value, the two parts of `shift_mask` are the quotient and
/// the remainder of the division by `2^shift`, and putting the upper part back
/// above the lower one gives the value again.
pub proof fn lemma_shift_mask_u32(value: u32, shift: u8)
    requires
        shift < 32,
    ensures
        ({
            let (upper, lower) = value.spec_shift_mask(shift);
            &&& upper == value as int / pow2(shift as nat) as int
            &&& lower == value as int % pow2(shift as nat) as int
            &&& (upper << shift) | lower == value
        }),
{
    let (upper, lower) = value.spec_shift_mask(shift);
    lemma_one_shl_is_pow2(shift);
    let p: u32 = 1u32 << shift;
    assert(p > 0 && (value >> shift) * p + (value & ((p - 1) as u32)) == value && (value & ((p - 1) as u32))
        < p) by (bit_vector)
        requires
            shift < 32,
            p == 1u32 << shift,
    ;
    lemma_fundamental_div_mod_converse(value as int, p as int, upper as int, lower as int);
    assert(((value >> shift) << shift) | (value & (((1u32 << shift) - 1) as u32)) == value)
        by (bit_vector)
        requires
            shift < 32,
    ;
}

/// For a signed value, the two parts of `shift_mask` are the quotient
/// (rounded down) and the non-negative remainder of the division by `2^shift`,
/// and putting the upper part back above the lower one gives the value again.
pub proof fn lemma_shift_mask_i32(value: i32, shift: u8)
    requires
        shift < 32,
    ensures
        ({
            let (upper, lower) = value.spec_shift_mask(shift);
            &&& upper == value as int / pow2(shift as nat) as int
            &&& lower == value as int % pow2(shift as nat) as int
            &&& (upper << shift) | (lower as i32) == value
        }),
{
    let (upper, lower) = value.spec_shift_mask(shift);
    lemma_one_shl_is_pow2(shift);
    let p: u32 = 1u32 << shift;
    assert(p > 0 && (value >> shift) * p + ((value as u32) & ((p - 1) as u32)) == value && ((value as u32) & ((
    p - 1) as u32)) < p) by (bit_vector)
        requires
            shift < 32,
            p == 1u32 << shift,
    ;
    lemma_fundamental_div_mod_converse(value as int, p as int, upper as int, lower as int);
    assert(((value >> shift) << shift) | (((value as u32) & (((1u32 << shift) - 1) as u32)) as i32)
        == value) by (bit_vector)
        requires
            shift < 32,
    ;
}

/// Offsets a chunk and block coordinate pair by a number of blocks.
///
/// As the new coordinate may end up in a different region, a region offset
/// is returned together with the new chunk and block coordinates. The
/// offset may move the position by at most one region.
pub fn coord_offset<const AXIS: u8>(
    chunk: ChunkCoord<AXIS>,
    block: BlockCoord<AXIS>,
    offset: i32,
) -> (r: (i8, ChunkCoord<AXIS>, BlockCoord<AXIS>))
    requires
        chunk.wf(),
        block.wf(),
        -512 <= offset <= 512,
    ensures
        -1 <= r.0 <= 1,
        r.1.wf(),
        r.2.wf(),
        (r.0 * 32 + r.1.0) * 16 + r.2.0 == chunk.0 * 16 + block.0 + offset,
{
    let c: i32 = chunk.0 as i32;
    let b: i32 = block.0 as i32;
    assert((c << 4u8) | b == c * 16 + b) by (bit_vector)
        requires
            0 <= c < 32,
            0 <= b < 16,
    ;
    let coord: i32 = ((c << BLOCK_BITS) | b) + offset;
    let (region_chunk, block) = coord.shift_mask(BLOCK_BITS);
    let (region, chunk) = region_chunk.shift_mask(CHUNK_BITS);
    proof {
        lemma_shift_mask_i32(coord, BLOCK_BITS);
        lemma_shift_mask_i32(region_chunk, CHUNK_BITS);
        lemma2_to64();
    }
    (region as i8, ChunkCoord::new(chunk), BlockCoord::new(block))
}

} // verus!
