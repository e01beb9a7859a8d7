//! Bit masks and single bits of 64-bit values.
//!
//! The functions that encode and decode work with shifts and masks; what
//! they are to compute is stated bit by bit. The lemmas here lead from one
//! to the other.

use vstd::prelude::*;

verus! {

/// Whether bit `index` of `value` is set. Bit 0 is the least significant one;
/// no bit is set at index 64 or above.
pub open spec fn bit(value: u64, index: u64) -> bool {
    index < 64 && (value >> index) & 1 == 1
}

/// `bit` at an index of any size or sign: false outside `0..64`.
pub open spec fn bit_at(value: u64, index: int) -> bool {
    0 <= index < 64 && bit(value, index as u64)
}

/// The 64-bit value whose low `num_bits` bits are set and whose other bits are
/// clear. From 64 bits on, every bit is set.
pub open spec fn low_mask(num_bits: nat) -> u64 {
    if num_bits >= 64 {
        0xffff_ffff_ffff_ffffu64
    } else {
        (((1u64 << (num_bits as u64)) - 1) as u64)
    }
}

/// `value` moved right by `num_bits` places; nothing is left from 64 places on.
pub open spec fn shift_right(value: u64, num_bits: nat) -> u64 {
    if num_bits >= 64 {
        0
    } else {
        value >> (num_bits as u64)
    }
}

/// Returns the mask that keeps the low `num_bits` bits of a 64-bit value.
pub fn get_mask(num_bits: u8) -> (mask: u64)
    ensures
        mask == low_mask(num_bits as nat),
{
    if num_bits >= 64 {
        0xffff_ffff_ffff_ffffu64
    } else {
        let one: u64 = 1;
        assert((one << (num_bits as u64)) >= 1) by (bit_vector)
            requires
                one == 1,
                num_bits < 64,
        ;
        (one << (num_bits as u64)) - 1
    }
}

proof fn lemma_bv_zero_bit(index: u64)
    by (bit_vector)
    ensures
        !bit(0u64, index),
{
}

/// Zero has no bit set.
pub proof fn lemma_zero_bit(index: int)
    ensures
        !bit_at(0u64, index),
{
    if 0 <= index < 64 {
        lemma_bv_zero_bit(index as u64);
    }
}

proof fn lemma_bv_one_bit(index: u64)
    by (bit_vector)
    ensures
        bit(1u64, index) == (index == 0),
{
}

/// One has bit 0 set and no other.
pub proof fn lemma_one_bit(index: int)
    ensures
        bit_at(1u64, index) == (index == 0),
{
    if 0 <= index < 64 {
        lemma_bv_one_bit(index as u64);
    }
}

proof fn lemma_bv_mask_bit(num_bits: u64, index: u64)
    by (bit_vector)
    requires
        num_bits < 64,
    ensures
        bit((((1u64 << num_bits) - 1) as u64), index) == (index < num_bits),
{
}

proof fn lemma_bv_all_ones_bit(index: u64)
    by (bit_vector)
    ensures
        bit(0xffff_ffff_ffff_ffffu64, index) == (index < 64),
{
}

/// The bits of a mask: exactly those below `num_bits`.
pub proof fn lemma_low_mask_bit(num_bits: nat, index: int)
    ensures
        bit_at(low_mask(num_bits), index) == (0 <= index < 64 && index < num_bits),
{
    if 0 <= index < 64 {
        if num_bits >= 64 {
            lemma_bv_all_ones_bit(index as u64);
        } else {
            lemma_bv_mask_bit(num_bits as u64, index as u64);
        }
    }
}

/// The masks of no bits, of five and of eight.
pub proof fn lemma_low_mask_values()
    ensures
        low_mask(0) == 0,
        low_mask(5) == 31,
        low_mask(8) == 255,
{
    assert(((1u64 << 0u64) - 1) as u64 == 0) by (bit_vector);
    assert(((1u64 << 5u64) - 1) as u64 == 31) by (bit_vector);
    assert(((1u64 << 8u64) - 1) as u64 == 255) by (bit_vector);
}

proof fn lemma_bv_and_bit(a: u64, b: u64, index: u64)
    by (bit_vector)
    ensures
        bit(a & b, index) == (bit(a, index) && bit(b, index)),
{
}

/// Masking keeps the bits below `num_bits` and clears the others.
pub proof fn lemma_masked_bit(value: u64, num_bits: nat, index: int)
    ensures
        bit_at(value & low_mask(num_bits), index) == (index < num_bits && bit_at(value, index)),
{
    lemma_low_mask_bit(num_bits, index);
    if 0 <= index < 64 {
        lemma_bv_and_bit(value, low_mask(num_bits), index as u64);
    }
}

proof fn lemma_bv_or_bit(a: u64, b: u64, index: u64)
    by (bit_vector)
    ensures
        bit(a | b, index) == (bit(a, index) || bit(b, index)),
{
}

/// A bit of `a | b` is set where it is set in either.
pub proof fn lemma_or_bit(a: u64, b: u64, index: int)
    ensures
        bit_at(a | b, index) == (bit_at(a, index) || bit_at(b, index)),
{
    if 0 <= index < 64 {
        lemma_bv_or_bit(a, b, index as u64);
    }
}

proof fn lemma_bv_shr_bit(value: u64, shift: u64, index: u64, source: u64)
    by (bit_vector)
    requires
        shift < 64,
        index < 64,
        source == shift + index,
    ensures
        bit(value >> shift, index) == bit(value, source),
{
}

/// Bit `index` of a value moved right by `shift` places is bit `shift + index`
/// of the value.
pub proof fn lemma_shift_right_bit(value: u64, shift: nat, index: int)
    ensures
        bit_at(shift_right(value, shift), index) == (0 <= index && bit_at(value, shift + index)),
{
    if 0 <= index < 64 {
        if shift >= 64 {
            lemma_bv_zero_bit(index as u64);
        } else {
            lemma_bv_shr_bit(value, shift as u64, index as u64, (shift + index) as u64);
        }
    }
}

/// Moving a value right by no places leaves it as it is.
pub proof fn lemma_shift_right_none(value: u64)
    ensures
        shift_right(value, 0) == value,
{
    assert(value >> 0u64 == value) by (bit_vector);
}

proof fn lemma_bv_shr_le(value: u64, shift: u64)
    by (bit_vector)
    requires
        shift < 64,
    ensures
        (value >> shift) <= value,
{
}

/// Moving a value right does not make it larger.
pub proof fn lemma_shift_right_le(value: u64, shift: nat)
    ensures
        shift_right(value, shift) <= value,
{
    if shift < 64 {
        lemma_bv_shr_le(value, shift as u64);
    }
}

proof fn lemma_bv_shl_bit(value: u64, shift: u64, index: u64)
    by (bit_vector)
    requires
        shift < 64,
        index < 64,
    ensures
        bit(value << shift, index) == (shift <= index && bit(value, (index - shift) as u64)),
{
}

/// Bit `index` of a value moved left by `shift` places is bit `index - shift`
/// of the value; the bits below `shift` are clear.
pub proof fn lemma_shift_left_bit(value: u64, shift: u64, index: int)
    requires
        shift < 64,
    ensures
        bit_at(value << shift, index) == (0 <= index < 64 && shift <= index && bit_at(
            value,
            index - shift,
        )),
{
    if 0 <= index < 64 {
        lemma_bv_shl_bit(value, shift, index as u64);
    }
}

proof fn lemma_bv_low_bits_none(a: u64, b: u64)
    by (bit_vector)
    ensures
        a & (((1u64 << 0u64) - 1) as u64) == b & (((1u64 << 0u64) - 1) as u64),
{
}

proof fn lemma_bv_low_bits_step(a: u64, b: u64, num_bits: u64)
    by (bit_vector)
    requires
        num_bits < 63,
        a & (((1u64 << num_bits) - 1) as u64) == b & (((1u64 << num_bits) - 1) as u64),
        bit(a, num_bits) == bit(b, num_bits),
    ensures
        a & (((1u64 << ((num_bits + 1) as u64)) - 1) as u64) == b & (((1u64 << ((num_bits
            + 1) as u64)) - 1) as u64),
{
}

proof fn lemma_bv_low_bits_last(a: u64, b: u64)
    by (bit_vector)
    requires
        a & (((1u64 << 63u64) - 1) as u64) == b & (((1u64 << 63u64) - 1) as u64),
        bit(a, 63) == bit(b, 63),
    ensures
        a == b,
{
}

/// Two values with the same low `num_bits` bits are equal when cut to
/// `num_bits` bits.
proof fn lemma_low_bits_agree(a: u64, b: u64, num_bits: nat)
    requires
        num_bits <= 63,
        forall|i: int| 0 <= i < num_bits ==> bit_at(a, i) == bit_at(b, i),
    ensures
        a & low_mask(num_bits) == b & low_mask(num_bits),
    decreases num_bits,
{
    if num_bits == 0 {
        lemma_bv_low_bits_none(a, b);
    } else {
        let below = (num_bits - 1) as nat;
        lemma_low_bits_agree(a, b, below);
        assert(bit_at(a, below as int) == bit_at(b, below as int));
        lemma_bv_low_bits_step(a, b, below as u64);
    }
}

/// Two 64-bit values with the same 64 bits are equal.
pub proof fn lemma_bits_determine(a: u64, b: u64)
    requires
        forall|i: int| 0 <= i < 64 ==> bit_at(a, i) == bit_at(b, i),
    ensures
        a == b,
{
    lemma_low_bits_agree(a, b, 63);
    assert(bit_at(a, 63) == bit_at(b, 63));
    lemma_bv_low_bits_last(a, b);
}

proof fn lemma_bv_masked_below(value: u64, num_bits: u64, limit_bits: u64)
    by (bit_vector)
    requires
        num_bits <= limit_bits < 64,
    ensures
        value & (((1u64 << num_bits) - 1) as u64) <= (((1u64 << limit_bits) - 1) as u64),
{
}

/// A value cut to `num_bits` bits is at most the mask of any width from
/// `num_bits` on.
pub proof fn lemma_masked_below(value: u64, num_bits: nat, limit_bits: nat)
    requires
        num_bits <= limit_bits < 64,
    ensures
        value & low_mask(num_bits) <= low_mask(limit_bits),
{
    lemma_bv_masked_below(value, num_bits as u64, limit_bits as u64);
}

proof fn lemma_bv_below_mask(value: u64, num_bits: u64, index: u64)
    by (bit_vector)
    requires
        num_bits <= index < 64,
        value <= (((1u64 << num_bits) - 1) as u64),
    ensures
        !bit(value, index),
{
}

/// A value that is at most a mask has no bit set above the mask's bits.
pub proof fn lemma_below_mask_bit(value: u64, num_bits: nat, index: int)
    requires
        num_bits < 64,
        value <= low_mask(num_bits),
        num_bits <= index,
    ensures
        !bit_at(value, index),
{
    if index < 64 {
        lemma_bv_below_mask(value, num_bits as u64, index as u64);
    }
}

proof fn lemma_bv_shifted_below(value: u64, num_bits: u64, shift: u64, limit_bits: u64)
    by (bit_vector)
    requires
        num_bits + shift <= limit_bits,
        limit_bits < 64,
        value <= (((1u64 << num_bits) - 1) as u64),
    ensures
        (value << shift) <= (((1u64 << limit_bits) - 1) as u64),
{
}

/// A value of `num_bits` bits moved left by `shift` places has at most
/// `num_bits + shift` bits.
pub proof fn lemma_shifted_below(value: u64, num_bits: nat, shift: u64, limit_bits: nat)
    requires
        num_bits + shift <= limit_bits,
        limit_bits < 64,
        value <= low_mask(num_bits),
    ensures
        (value << shift) <= low_mask(limit_bits),
{
    lemma_bv_shifted_below(value, num_bits as u64, shift, limit_bits as u64);
}

proof fn lemma_bv_or_below(a: u64, b: u64, num_bits: u64)
    by (bit_vector)
    requires
        num_bits < 64,
        a <= (((1u64 << num_bits) - 1) as u64),
        b <= (((1u64 << num_bits) - 1) as u64),
    ensures
        (a | b) <= (((1u64 << num_bits) - 1) as u64),
{
}

/// Two values of `num_bits` bits give one of `num_bits` bits when combined.
pub proof fn lemma_or_below(a: u64, b: u64, num_bits: nat)
    requires
        num_bits < 64,
        a <= low_mask(num_bits),
        b <= low_mask(num_bits),
    ensures
        (a | b) <= low_mask(num_bits),
{
    lemma_bv_or_below(a, b, num_bits as u64);
}

proof fn lemma_bv_mask_twice(value: u64, wide: u64, narrow: u64)
    by (bit_vector)
    requires
        narrow <= wide < 64,
    ensures
        (value & (((1u64 << wide) - 1) as u64)) & (((1u64 << narrow) - 1) as u64) == value & (((1u64
            << narrow) - 1) as u64),
{
}

/// Cutting to a width and then to a smaller one is cutting to the smaller.
pub proof fn lemma_mask_twice(value: u64, wide: nat, narrow: nat)
    requires
        narrow <= wide < 64,
    ensures
        (value & low_mask(wide)) & low_mask(narrow) == value & low_mask(narrow),
{
    lemma_bv_mask_twice(value, wide as u64, narrow as u64);
}

proof fn lemma_bv_mask_keeps(value: u64, num_bits: u64)
    by (bit_vector)
    requires
        num_bits < 64,
        value <= (((1u64 << num_bits) - 1) as u64),
    ensures
        value & (((1u64 << num_bits) - 1) as u64) == value,
{
}

/// Cutting a value to a width that it fits in leaves it as it is.
pub proof fn lemma_mask_keeps(value: u64, num_bits: nat)
    requires
        num_bits < 64,
        value <= low_mask(num_bits),
    ensures
        value & low_mask(num_bits) == value,
{
    lemma_bv_mask_keeps(value, num_bits as u64);
}

/// A value that has no bit set from `num_bits` on is at most the mask of
/// `num_bits` bits.
pub proof fn lemma_few_bits_below(value: u64, num_bits: nat)
    requires
        num_bits < 64,
        forall|i: int| num_bits <= i < 64 ==> !bit_at(value, i),
    ensures
        value <= low_mask(num_bits),
{
    let cut = value & low_mask(num_bits);
    assert forall|i: int| 0 <= i < 64 implies bit_at(cut, i) == bit_at(value, i) by {
        lemma_masked_bit(value, num_bits, i);
    }
    lemma_bits_determine(cut, value);
    lemma_masked_below(value, num_bits, num_bits);
}

} // verus!
