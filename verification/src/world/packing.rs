//! The arithmetic of indices packed into 64-bit words.
//!
//! A sequence of small numbers ("digits") of a fixed width in bits is stored
//! as one large number, the first digit in the lowest bits. Both layouts of
//! packed section data are instances of this: the aligned layout packs the
//! indices of one word, the unaligned layout packs all indices into one
//! stream of bits that is then cut into words.

use vstd::prelude::*;
use vstd::arithmetic::div_mod::{
    lemma_div_denominator,
    lemma_div_is_ordered,
    lemma_div_plus_one,
    lemma_fundamental_div_mod,
    lemma_fundamental_div_mod_converse,
    lemma_mod_bound,
    lemma_mod_mod,
    lemma_mod_multiples_vanish,
    lemma_multiply_divide_lt,
};
use vstd::arithmetic::power2::{
    lemma2_to64,
    lemma2_to64_rest,
    lemma_pow2_adds,
    lemma_pow2_pos,
    lemma_pow2_strictly_increases,
    pow2,
};
use vstd::bits::{
    lemma_u128_shr_is_div,
    lemma_u64_low_bits_mask_is_mod,
    lemma_u64_pow2_no_overflow,
    lemma_u64_shl_is_mul,
    lemma_u64_shr_is_div,
};

verus! {

/// Every digit fits into `bits` bits.
pub open spec fn digits_fit(digits: Seq<nat>, bits: nat) -> bool {
    forall|i: int| 0 <= i < digits.len() ==> #[trigger] digits[i] < pow2(bits)
}

/// The number whose digits of `bits` bits each, lowest first, are `digits`.
pub open spec fn digits_value(digits: Seq<nat>, bits: nat) -> nat
    decreases digits.len(),
{
    if digits.len() == 0 {
        0
    } else {
        digits[0] + pow2(bits) * digits_value(digits.skip(1), bits)
    }
}

/// `2^(k * bits)` is `2^bits` times `2^((k - 1) * bits)`.
proof fn lemma_pow2_step(k: nat, bits: nat)
    requires
        k > 0,
    ensures
        pow2(k * bits) == pow2(bits) * pow2(((k - 1) as nat) * bits),
        pow2(bits) > 0,
        pow2(((k - 1) as nat) * bits) > 0,
{
    assert(k * bits == bits + ((k - 1) as nat) * bits) by (nonlinear_arith)
        requires
            k > 0,
    ;
    lemma_pow2_adds(bits, ((k - 1) as nat) * bits);
    lemma_pow2_pos(bits);
    lemma_pow2_pos(((k - 1) as nat) * bits);
}

/// A number with `n` digits of `bits` bits is below `2^(n * bits)`.
pub proof fn lemma_digits_bound(digits: Seq<nat>, bits: nat)
    requires
        digits_fit(digits, bits),
    ensures
        digits_value(digits, bits) < pow2(digits.len() * bits),
    decreases digits.len(),
{
    if digits.len() == 0 {
        assert(digits.len() * bits == 0) by (nonlinear_arith)
            requires
                digits.len() == 0,
        ;
        lemma_pow2_pos(0);
    } else {
        let rest = digits.skip(1);
        assert(digits_fit(rest, bits)) by {
            assert forall|i: int| 0 <= i < rest.len() implies #[trigger] rest[i] < pow2(bits) by {
                assert(rest[i] == digits[i + 1]);
            }
        }
        lemma_digits_bound(rest, bits);
        lemma_pow2_step(digits.len(), bits);
        let b = pow2(bits) as int;
        let r = digits_value(rest, bits) as int;
        let top = pow2(rest.len() * bits) as int;
        assert(digits[0] < b);
        assert(digits[0] + b * r < b * top) by (nonlinear_arith)
            requires
                0 <= digits[0] < b,
                0 <= r < top,
        ;
    }
}

/// Dividing by `2^(k * bits)` drops the lowest `k` digits.
pub proof fn lemma_digits_drop(digits: Seq<nat>, bits: nat, k: nat)
    requires
        digits_fit(digits, bits),
        k <= digits.len(),
    ensures
        digits_value(digits, bits) / pow2(k * bits) == digits_value(digits.skip(k as int), bits),
    decreases k,
{
    if k == 0 {
        assert(k * bits == 0) by (nonlinear_arith)
            requires
                k == 0,
        ;
        assert(pow2(0) == 1) by {
            lemma2_to64();
        }
        assert(digits.skip(0) =~= digits);
    } else {
        let rest = digits.skip(1);
        assert(digits_fit(rest, bits)) by {
            assert forall|i: int| 0 <= i < rest.len() implies #[trigger] rest[i] < pow2(bits) by {
                assert(rest[i] == digits[i + 1]);
            }
        }
        lemma_digits_drop(rest, bits, (k - 1) as nat);
        assert(rest.skip(k - 1) =~= digits.skip(k as int));
        lemma_pow2_step(k, bits);
        let b = pow2(bits) as int;
        let low = pow2(((k - 1) as nat) * bits) as int;
        let v = digits_value(digits, bits) as int;
        let r = digits_value(rest, bits) as int;
        assert(digits[0] < b);
        assert(v == r * b + digits[0]) by (nonlinear_arith)
            requires
                v == digits[0] + b * r,
        ;
        lemma_fundamental_div_mod_converse(v, b, r, digits[0] as int);
        lemma_div_denominator(v, b, low);
    }
}

/// The digit at position `k` is found by dividing by `2^(k * bits)` and
/// keeping the lowest `bits` bits.
pub proof fn lemma_digit(digits: Seq<nat>, bits: nat, k: nat)
    requires
        digits_fit(digits, bits),
        k < digits.len(),
    ensures
        (digits_value(digits, bits) / pow2(k * bits)) % pow2(bits) == digits[k as int],
{
    lemma_digits_drop(digits, bits, k);
    let tail = digits.skip(k as int);
    let b = pow2(bits) as int;
    let v = digits_value(tail, bits) as int;
    let r = digits_value(tail.skip(1), bits) as int;
    assert(tail[0] == digits[k as int]);
    assert(digits[k as int] < b);
    assert(v == r * b + tail[0]) by (nonlinear_arith)
        requires
            v == tail[0] + b * r,
    ;
    lemma_fundamental_div_mod_converse(v, b, r, tail[0] as int);
}

/// The digits of a number, `count` of them, lowest first.
pub open spec fn digits_of(n: nat, bits: nat, count: nat) -> Seq<nat> {
    Seq::new(count, |k: int| (n / pow2((k * bits) as nat)) % pow2(bits))
}

/// A number below `2^(count * bits)` is the value of its `count` digits.
pub proof fn lemma_digits_of(n: nat, bits: nat, count: nat)
    requires
        n < pow2(count * bits),
    ensures
        digits_fit(digits_of(n, bits, count), bits),
        digits_value(digits_of(n, bits, count), bits) == n,
    decreases count,
{
    let digits = digits_of(n, bits, count);
    lemma_pow2_pos(bits);
    assert(digits_fit(digits, bits)) by {
        assert forall|i: int| 0 <= i < digits.len() implies #[trigger] digits[i] < pow2(bits) by {
            lemma_mod_bound((n / pow2((i * bits) as nat)) as int, pow2(bits) as int);
        }
    }
    if count == 0 {
        assert(count * bits == 0) by (nonlinear_arith)
            requires
                count == 0,
        ;
        assert(pow2(0) == 1) by {
            lemma2_to64();
        }
    } else {
        let b = pow2(bits);
        let upper = n / b;
        lemma_pow2_step(count, bits);
        let top = pow2(((count - 1) as nat) * bits);
        assert(upper < top) by {
            assert(n < b * top);
            lemma_multiply_divide_lt(n as int, b as int, top as int);
        }
        lemma_digits_of(upper, bits, (count - 1) as nat);
        let rest = digits_of(upper, bits, (count - 1) as nat);
        assert(digits.skip(1) =~= rest) by {
            assert forall|i: int| 0 <= i < rest.len() implies digits.skip(1)[i] == rest[i] by {
                lemma_pow2_step((i + 1) as nat, bits);
                lemma_div_denominator(n as int, b as int, pow2((i * bits) as nat) as int);
                assert(((i + 1) as nat - 1) as nat == i);
                assert(((i + 1) * bits) as nat == (i + 1) as nat * bits);
                assert((i * bits) as nat == (i as nat) * bits);
            }
        }
        assert(digits[0] == n % b) by {
            assert(0 * bits == 0);
            assert(pow2(0) == 1) by {
                lemma2_to64();
            }
        }
        lemma_fundamental_div_mod(n as int, b as int);
    }
}

/// The bit pattern of a word, read as an unsigned number.
pub open spec fn word_bits(word: i64) -> nat {
    if word >= 0 {
        word as nat
    } else {
        (word + 0x1_0000_0000_0000_0000) as nat
    }
}

/// The word with a given bit pattern.
pub open spec fn word_of(pattern: nat) -> i64 {
    if pattern < 0x8000_0000_0000_0000 {
        pattern as i64
    } else {
        (pattern - 0x1_0000_0000_0000_0000) as i64
    }
}

/// The bit patterns of a sequence of words.
pub open spec fn words_bits(words: Seq<i64>) -> Seq<nat> {
    words.map_values(|word: i64| word_bits(word))
}

/// The bits of a sequence of words as one number, the first word lowest.
pub open spec fn stream_value(words: Seq<i64>) -> nat {
    digits_value(words_bits(words), 64)
}

/// The number of indices of `bits` bits that one word holds when no index
/// may lie across two words.
pub open spec fn slots_per_word(bits: nat) -> nat {
    64nat / bits
}

/// The number of words that hold `count` indices in the aligned layout.
pub open spec fn aligned_len(count: nat, bits: nat) -> nat {
    ((count + slots_per_word(bits) - 1) / (slots_per_word(bits) as int)) as nat
}

/// The number of words that hold the 4096 indices of a section in the
/// unaligned layout.
pub open spec fn unaligned_len(bits: nat) -> nat {
    64 * bits
}

/// The index at a position in the aligned layout: each word holds
/// `64 / bits` indices, the first in its lowest bits.
pub open spec fn aligned_index(words: Seq<i64>, bits: nat, offset: nat) -> nat {
    let word = offset / slots_per_word(bits);
    let slot = offset % slots_per_word(bits);
    (word_bits(words[word as int]) / pow2(slot * bits)) % pow2(bits)
}

/// The index at a position in the unaligned layout: the indices follow each
/// other in the stream of bits without gaps.
pub open spec fn unaligned_index(words: Seq<i64>, bits: nat, offset: nat) -> nat {
    (stream_value(words) / pow2(offset * bits)) % pow2(bits)
}

/// The indices that share a word of the aligned layout.
pub open spec fn word_slots(indices: Seq<nat>, bits: nat, word: int) -> Seq<nat> {
    let per_word = slots_per_word(bits) as int;
    let end = if (word + 1) * per_word <= indices.len() {
        (word + 1) * per_word
    } else {
        indices.len() as int
    };
    indices.subrange(word * per_word, end)
}

/// The words that hold a sequence of indices in the aligned layout.
pub open spec fn pack_aligned(indices: Seq<nat>, bits: nat) -> Seq<i64> {
    Seq::new(
        aligned_len(indices.len(), bits),
        |word: int| word_of(digits_value(word_slots(indices, bits, word), bits)),
    )
}

/// The words that hold the 4096 indices of a section in the unaligned layout.
pub open spec fn pack_unaligned(indices: Seq<nat>, bits: nat) -> Seq<i64> {
    Seq::new(
        unaligned_len(bits),
        |word: int|
            word_of((digits_value(indices, bits) / pow2((word * 64) as nat)) % pow2(64)),
    )
}

/// A bit pattern is below `2^64`, and a word made from a pattern has it.
pub proof fn lemma_word_bits(word: i64, pattern: nat)
    ensures
        word_bits(word) < pow2(64),
        pow2(64) == 0x1_0000_0000_0000_0000,
        pattern < pow2(64) ==> word_bits(word_of(pattern)) == pattern,
{
    lemma2_to64_rest();
}

/// The bit patterns of words are digits of 64 bits.
pub proof fn lemma_words_fit(words: Seq<i64>)
    ensures
        digits_fit(words_bits(words), 64),
{
    assert forall|i: int| 0 <= i < words.len() implies #[trigger] words_bits(words)[i] < pow2(
        64,
    ) by {
        lemma_word_bits(words[i], 0);
    }
}

/// Bits above position `high` do not show in a window of `bits` bits that
/// starts at `shift` and ends at or below `high`.
proof fn lemma_window(low: nat, upper: nat, shift: nat, high: nat, bits: nat)
    requires
        shift + bits <= high,
    ensures
        ((low + pow2(high) * upper) / pow2(shift)) % pow2(bits) == (low / pow2(shift)) % pow2(
            bits,
        ),
{
    let ps = pow2(shift) as int;
    let pb = pow2(bits) as int;
    let pr = pow2((high - shift - bits) as nat) as int;
    lemma_pow2_pos(shift);
    lemma_pow2_pos(bits);
    lemma_pow2_adds(shift, (high - shift) as nat);
    lemma_pow2_adds(bits, (high - shift - bits) as nat);
    let ph = pow2(high) as int;
    assert(ph == ps * (pb * pr));
    let q0 = low as int / ps;
    let r0 = low as int % ps;
    lemma_fundamental_div_mod(low as int, ps);
    lemma_mod_bound(low as int, ps);
    let total = low + ph * upper;
    let q = q0 + pb * pr * upper;
    assert(total == q * ps + r0) by (nonlinear_arith)
        requires
            total == low + ph * upper,
            ph == ps * (pb * pr),
            low == ps * q0 + r0,
            q == q0 + pb * pr * upper,
    ;
    lemma_fundamental_div_mod_converse(total, ps, q, r0);
    assert(q == pb * (pr * upper) + q0) by (nonlinear_arith)
        requires
            q == q0 + pb * pr * upper,
    ;
    lemma_mod_multiples_vanish(pr * upper, q0, pb);
}

/// In the unaligned layout an index lies in one word, or in two words that
/// follow each other; no word behind the data is needed to read it.
pub proof fn lemma_unaligned_window(words: Seq<i64>, bits: nat, offset: nat)
    requires
        0 < bits <= 64,
        (offset + 1) * bits <= 64 * words.len(),
    ensures
        ({
            let word = (offset * bits) / 64;
            let shift = (offset * bits) % 64;
            &&& word < words.len()
            &&& shift + bits <= 64 ==> unaligned_index(words, bits, offset) == (word_bits(
                words[word as int],
            ) / pow2(shift)) % pow2(bits)
            &&& shift + bits > 64 ==> word + 1 < words.len() && unaligned_index(
                words,
                bits,
                offset,
            ) == ((word_bits(words[word as int]) + pow2(64) * word_bits(words[word as int + 1]))
                / pow2(shift)) % pow2(bits)
        }),
{
    let bit = offset * bits;
    let word = bit / 64;
    let shift = bit % 64;
    assert((offset + 1) * bits == bit + bits) by (nonlinear_arith)
        requires
            bit == offset * bits,
    ;
    let digits = words_bits(words);
    lemma_words_fit(words);
    lemma_digits_drop(digits, 64, word);
    let tail = digits.skip(word as int);
    let rest = tail.skip(1);
    let t = digits_value(tail, 64);
    let t1 = digits_value(rest, 64);
    assert(tail[0] == word_bits(words[word as int]));
    lemma_pow2_adds(word * 64, shift);
    lemma_pow2_pos(word * 64);
    lemma_pow2_pos(shift);
    lemma_div_denominator(stream_value(words) as int, pow2(word * 64) as int, pow2(shift) as int);
    assert(unaligned_index(words, bits, offset) == (t / pow2(shift)) % pow2(bits));
    if shift + bits <= 64 {
        lemma_window(tail[0], t1, shift, 64, bits);
    } else {
        assert(rest.len() > 0);
        assert(rest[0] == word_bits(words[word as int + 1]));
        let t2 = digits_value(rest.skip(1), 64);
        let pair = tail[0] + pow2(64) * rest[0];
        lemma_pow2_adds(64, 64);
        assert(t == pair + pow2(128) * t2) by (nonlinear_arith)
            requires
                t == tail[0] + pow2(64) * t1,
                t1 == rest[0] + pow2(64) * t2,
                pair == tail[0] + pow2(64) * rest[0],
                pow2(128) == pow2(64) * pow2(64),
        ;
        lemma_window(pair, t2, shift, 128, bits);
    }
}

/// In the aligned layout the word of an index lies inside the data, and the
/// index lies inside its word.
pub proof fn lemma_aligned_word(count: nat, bits: nat, offset: nat)
    requires
        0 < bits <= 64,
        offset < count,
    ensures
        slots_per_word(bits) >= 1,
        slots_per_word(bits) * bits <= 64,
        offset / slots_per_word(bits) < aligned_len(count, bits),
        (offset % slots_per_word(bits)) * bits + bits <= 64,
        (offset / slots_per_word(bits)) * slots_per_word(bits) + offset % slots_per_word(bits)
            == offset,
{
    let per_word = slots_per_word(bits);
    assert(per_word >= 1 && per_word * bits <= 64) by (nonlinear_arith)
        requires
            0 < bits <= 64,
            per_word == 64nat / bits,
    ;
    let word = offset / per_word;
    let slot = offset % per_word;
    lemma_fundamental_div_mod(offset as int, per_word as int);
    lemma_mod_bound(offset as int, per_word as int);
    lemma_div_is_ordered(offset as int, count - 1, per_word as int);
    lemma_div_plus_one(count - 1, per_word as int);
    assert(slot * bits + bits <= 64) by (nonlinear_arith)
        requires
            slot < per_word,
            per_word * bits <= 64,
    ;
    assert(word * per_word + slot == offset) by (nonlinear_arith)
        requires
            offset == per_word * word + slot,
    ;
}

/// Reading back an aligned packing gives the indices that were packed.
pub proof fn lemma_pack_aligned(indices: Seq<nat>, bits: nat, offset: nat)
    requires
        0 < bits <= 64,
        digits_fit(indices, bits),
        offset < indices.len(),
    ensures
        offset / slots_per_word(bits) < pack_aligned(indices, bits).len(),
        aligned_index(pack_aligned(indices, bits), bits, offset) == indices[offset as int],
{
    let per_word = slots_per_word(bits);
    let word = offset / per_word;
    let slot = offset % per_word;
    let count = indices.len();
    lemma_aligned_word(count, bits, offset);
    let slots = word_slots(indices, bits, word as int);
    assert((word + 1) * per_word == word * per_word + per_word) by (nonlinear_arith);
    assert(slot < slots.len());
    assert(slots[slot as int] == indices[offset as int]);
    assert(digits_fit(slots, bits)) by {
        assert forall|i: int| 0 <= i < slots.len() implies #[trigger] slots[i] < pow2(bits) by {
            assert(slots[i] == indices[word * per_word + i]);
        }
    }
    lemma_digits_bound(slots, bits);
    lemma_digit(slots, bits, slot);
    assert(slots.len() * bits <= 64) by (nonlinear_arith)
        requires
            slots.len() <= per_word,
            per_word * bits <= 64,
    ;
    if slots.len() * bits < 64 {
        lemma_pow2_strictly_increases(slots.len() * bits, 64);
    }
    lemma_word_bits(0, digits_value(slots, bits));
}

/// Reading back an unaligned packing gives the indices that were packed.
pub proof fn lemma_pack_unaligned(indices: Seq<nat>, bits: nat, offset: nat)
    requires
        0 < bits <= 64,
        indices.len() == 4096,
        digits_fit(indices, bits),
        offset < 4096,
    ensures
        unaligned_index(pack_unaligned(indices, bits), bits, offset) == indices[offset as int],
{
    let total = digits_value(indices, bits);
    let words = pack_unaligned(indices, bits);
    let count = unaligned_len(bits);
    lemma_pow2_pos(64);
    lemma_digits_bound(indices, bits);
    assert(indices.len() * bits == count * 64) by (nonlinear_arith)
        requires
            indices.len() == 4096,
            count == 64 * bits,
    ;
    lemma_digits_of(total, 64, count);
    let target = digits_of(total, 64, count);
    assert(target.len() == count);
    assert(words.len() == count);
    assert forall|i: int| 0 <= i < count implies words_bits(words)[i] == target[i] by {
        let pattern = (total / pow2((i * 64) as nat)) % pow2(64);
        lemma_pow2_pos(64);
        lemma_mod_bound((total / pow2((i * 64) as nat)) as int, pow2(64) as int);
        lemma_word_bits(0, pattern);
    }
    assert(words_bits(words) =~= target);
    lemma_digit(indices, bits, offset);
}

/// A word cast to an unsigned number keeps its bit pattern.
pub proof fn lemma_word_cast(word: i64)
    ensures
        (word as u64) == word_bits(word),
{
    assert(word >= 0 ==> (word as u64) == word) by (bit_vector);
    assert(word < 0 ==> (word as u64) == word + 0x1_0000_0000_0000_0000) by (bit_vector);
}

/// The mask of the lowest `bits` bits.
pub open spec fn low_mask(bits: u64) -> u64 {
    ((1u64 << bits) - 1) as u64
}

/// Shifting and masking a word reads the bits of one index.
pub proof fn lemma_extract(pattern: u64, shift: u64, bits: u64)
    requires
        bits < 64,
        shift < 64,
    ensures
        1u64 << bits == pow2(bits as nat),
        (1u64 << bits) >= 1,
        ((pattern >> shift) & low_mask(bits)) == (pattern as nat / pow2(shift as nat)) % pow2(
            bits as nat,
        ),
        ((pattern >> shift) & low_mask(bits)) < pow2(bits as nat),
{
    lemma_u64_pow2_no_overflow(bits as nat);
    lemma_u64_shl_is_mul(1u64, bits);
    lemma_u64_shr_is_div(pattern, shift);
    lemma_u64_low_bits_mask_is_mod(pattern >> shift, bits as nat);
    lemma_pow2_pos(bits as nat);
    lemma_mod_bound((pattern >> shift) as int, pow2(bits as nat) as int);
}

/// Joining the upper bits of one word with the lower bits of the next and
/// masking reads the bits of an index that lies across both.
pub proof fn lemma_extract_pair(first: u64, second: u64, shift: u64, bits: u64)
    requires
        0 < shift < 64,
        bits < 64,
    ensures
        ((((first >> shift) | (second << ((64 - shift) as u64))) & low_mask(bits)) as nat) == ((
        first as nat + pow2(64) * second as nat) / pow2(shift as nat)) % pow2(bits as nat),
        (((first >> shift) | (second << ((64 - shift) as u64))) & low_mask(bits)) < pow2(
            bits as nat,
        ),
{
    let joined: u64 = (first >> shift) | (second << ((64 - shift) as u64));
    let wide: u128 = ((second as u128) << 64u128) | (first as u128);
    let shift_wide: u128 = shift as u128;
    assert(wide == (first as u128) + (second as u128) * 0x1_0000_0000_0000_0000u128)
        by (bit_vector)
        requires
            wide == ((second as u128) << 64u128) | (first as u128),
    ;
    let moved: u128 = wide >> shift_wide;
    assert(joined == moved % 0x1_0000_0000_0000_0000u128) by (bit_vector)
        requires
            0 < shift < 64,
            joined == (first >> shift) | (second << ((64 - shift) as u64)),
            wide == ((second as u128) << 64u128) | (first as u128),
            shift_wide == shift as u128,
            moved == wide >> shift_wide,
    ;
    lemma_u128_shr_is_div(wide, shift_wide);
    lemma2_to64_rest();
    lemma_u64_pow2_no_overflow(bits as nat);
    lemma_u64_shl_is_mul(1u64, bits);
    lemma_u64_low_bits_mask_is_mod(joined, bits as nat);
    lemma_pow2_pos(bits as nat);
    lemma_pow2_adds(bits as nat, (64 - bits) as nat);
    lemma_pow2_pos((64 - bits) as nat);
    lemma_mod_mod(moved as int, pow2(bits as nat) as int, pow2((64 - bits) as nat) as int);
    lemma_mod_bound(joined as int, pow2(bits as nat) as int);
}

} // verus!
