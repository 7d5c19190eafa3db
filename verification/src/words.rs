//! Facts about words and their masks.

use crate::graph::{fits, mask};
use crate::il::{Value, ValueType};
use crate::semantics::copies;
use vstd::arithmetic::div_mod::{
    lemma_mod_bound, lemma_mod_breakdown, lemma_mul_mod_noop_right, lemma_small_mod,
};
use vstd::arithmetic::power2::{
    lemma2_to64, lemma_pow2_adds, lemma_pow2_pos, lemma_pow2_strictly_increases, pow2,
};
use vstd::bits::lemma_u128_shr_is_div;
use vstd::prelude::*;

verus! {

/// The masks as wide as the types.
pub proof fn mask_values()
    ensures
        mask(0) == 0,
        mask(1) == 1,
        mask(32) == 0xffff_ffff,
        mask(64) == 0xffff_ffff_ffff_ffff,
        mask(128) == 0xffff_ffff_ffff_ffff_ffff_ffff_ffff_ffff,
{
    assert(mask(0) == 0 && mask(1) == 1 && mask(32) == 0xffff_ffff && mask(64)
        == 0xffff_ffff_ffff_ffff) by (bit_vector);
}

/// A narrow mask is within a wide one.
pub proof fn mask_within(narrow: u32, wide: u32)
    requires
        narrow <= wide,
    ensures
        mask(narrow) & mask(wide) == mask(narrow),
{
    assert(narrow <= wide ==> mask(narrow) & mask(wide) == mask(narrow)) by (bit_vector);
}

/// A mask takes the remainder by a power of two.
pub proof fn mask_is_remainder(word: u128, width: u32)
    requires
        width < 128,
    ensures
        (word & mask(width)) as int == word as int % pow2(width as nat) as int,
        word & mask(width) < pow2(width as nat),
    decreases width,
{
    lemma_pow2_pos(width as nat);
    if width == 0 {
        lemma2_to64();
        assert(word & mask(0) == 0) by (bit_vector);
    } else {
        let less = (width - 1) as u32;
        let half = word / 2;
        mask_is_remainder(half, less);
        assert(0 < width < 128 && less == width - 1 && half == word / 2 ==> word & mask(width) == 2
            * (half & mask(less)) + word % 2) by (bit_vector);
        lemma2_to64();
        lemma_pow2_adds(1, less as nat);
        lemma_pow2_pos(less as nat);
        lemma_mod_breakdown(word as int, 2, pow2(less as nat) as int);
    }
    lemma_mod_bound(word as int, pow2(width as nat) as int);
}

/// What fits into some bits fits into more.
pub proof fn fits_more(value: u128, narrow: u32, wide: u32)
    requires
        fits(value, narrow),
        narrow <= wide,
    ensures
        fits(value, wide),
{
    mask_within(narrow, wide);
    let (n, w) = (mask(narrow), mask(wide));
    assert(value & n == value && n & w == n ==> value & w == value) by (bit_vector);
}

/// Masking a word again changes nothing.
pub proof fn mask_again(word: u128, m: u128)
    ensures
        (word & m) & m == word & m,
{
    assert((word & m) & m == word & m) by (bit_vector);
}

/// Two to the power of the greatest width.
pub proof fn full_width()
    ensures
        pow2(128) == 0x1_0000_0000_0000_0000_0000_0000_0000_0000,
{
    lemma2_to64();
    lemma_pow2_adds(64, 64);
}

/// A mask takes the remainder by a power of two, up to the greatest width.
pub proof fn low_bits_are_remainder(word: u128, width: u32)
    requires
        width <= 128,
    ensures
        (word & mask(width)) as int == word as int % pow2(width as nat) as int,
{
    if width < 128 {
        mask_is_remainder(word, width);
    } else {
        full_width();
        of_word(ValueType::U128, word);
        lemma_small_mod(word as nat, pow2(128));
    }
}

/// A word fits into some bits where it is less than that power of two.
pub proof fn fits_below(word: u128, width: u32)
    requires
        width <= 128,
    ensures
        fits(word, width) <==> word < pow2(width as nat),
{
    low_bits_are_remainder(word, width);
    lemma_pow2_pos(width as nat);
    lemma_mod_bound(word as int, pow2(width as nat) as int);
    if word < pow2(width as nat) {
        lemma_small_mod(word as nat, pow2(width as nat));
    }
}

/// Shifting to the left multiplies, up to the greatest width.
pub proof fn shift_left_multiplies(word: u128, shift: u32)
    requires
        shift < 128,
    ensures
        (word << shift) as int == (word as int * pow2(shift as nat) as int) % pow2(128) as int,
    decreases shift,
{
    full_width();
    lemma2_to64();
    if shift == 0 {
        assert(word << 0u32 == word) by (bit_vector);
        lemma_small_mod(word as nat, pow2(128));
    } else {
        let less = (shift - 1) as u32;
        shift_left_multiplies(word, less);
        let half = word << less;
        assert(0 < shift < 128 && less == shift - 1 && half == word << less ==> (word << shift)
            == (if half < 0x8000_0000_0000_0000_0000_0000_0000_0000 {
            2 * half
        } else {
            2 * half - 0x1_0000_0000_0000_0000_0000_0000_0000_0000int
        })) by (bit_vector);
        lemma_pow2_adds(1, less as nat);
        let (x, p, q) = (word as int, pow2(less as nat) as int, pow2(shift as nat) as int);
        assert(x * q == 2 * (x * p)) by (nonlinear_arith)
            requires
                q == 2 * p,
        ;
        let n = 0x1_0000_0000_0000_0000_0000_0000_0000_0000int;
        lemma_mul_mod_noop_right(2, x * p, n);
        assert((2 * (x * p)) % n == (2 * half) % n);
    }
}

/// Shifting to the left multiplies exactly, where the product fits.
pub proof fn shift_left_fits(word: u128, shift: u32, width: u32)
    requires
        word < pow2(width as nat),
        shift < 128,
        width + shift <= 128,
    ensures
        (word << shift) as int == word as int * pow2(shift as nat) as int,
        word as int * pow2(shift as nat) as int + pow2(shift as nat) <= pow2(
            (width + shift) as nat,
        ),
{
    shift_left_multiplies(word, shift);
    lemma_pow2_adds(width as nat, shift as nat);
    lemma_pow2_pos(shift as nat);
    let (x, p, q) = (word as int, pow2(shift as nat) as int, pow2(width as nat) as int);
    assert(x * p + p <= q * p) by (nonlinear_arith)
        requires
            x + 1 <= q,
            p > 0,
    ;
    assert(x * p >= 0) by (nonlinear_arith)
        requires
            x >= 0,
            p > 0,
    ;
    if width + shift < 128 {
        lemma_pow2_strictly_increases((width + shift) as nat, 128);
    }
    lemma_small_mod((x * p) as nat, pow2(128));
}

/// Shifting to the right divides.
pub proof fn shift_right_divides(word: u128, shift: u32)
    requires
        shift < 128,
    ensures
        (word >> shift) as int == word as int / pow2(shift as nat) as int,
{
    lemma_u128_shr_is_div(word, shift as u128);
}

/// One word above another is their sum, the upper one moved up.
pub proof fn above_is_sum(high: u128, low: u128, high_width: u32, low_width: u32)
    requires
        high < pow2(high_width as nat),
        low < pow2(low_width as nat),
        low_width < 128,
        high_width + low_width <= 128,
    ensures
        ((high << low_width) | low) as int == high as int * pow2(low_width as nat) as int + low,
        ((high << low_width) | low) < pow2((high_width + low_width) as nat),
{
    fits_below(low, low_width);
    assert(low_width < 128 && low & mask(low_width) == low ==> (high << low_width) | low == (high
        << low_width) + low) by (bit_vector);
    shift_left_fits(high, low_width, high_width);
}

/// The complement of a word and the word make up the mask.
pub proof fn complement_in_numbers(word: u128, width: u32)
    requires
        1 <= width <= 128,
        word < pow2(width as nat),
    ensures
        (!word & mask(width)) as int + word as int == pow2(width as nat) - 1,
{
    let m = mask(width);
    fits_below(word, width);
    assert(word & m == word ==> (!word & m) + word == m) by (bit_vector);
    mask_in_numbers(width);
}

/// A mask is one less than a power of two.
pub proof fn mask_in_numbers(width: u32)
    requires
        width <= 128,
    ensures
        mask(width) as int == pow2(width as nat) - 1,
{
    full_width();
    if width < 128 {
        lemma2_to64();
        shift_left_multiplies(1, width);
        lemma_pow2_strictly_increases(width as nat, 128);
        lemma_small_mod(pow2(width as nat), pow2(128));
        lemma_pow2_pos(width as nat);
    }
}

/// Copies of a word side by side make up a geometric sum.
pub proof fn copies_in_numbers(value: u128, width: u32, count: nat)
    requires
        value < pow2(width as nat),
        width >= 1,
        width * count <= 128,
    ensures
        copies(value, width, count) as int * (pow2(width as nat) - 1) == value as int * (pow2(
            (width * count) as nat,
        ) - 1),
        copies(value, width, count) < pow2((width * count) as nat),
    decreases count,
{
    lemma2_to64();
    if count == 0 {
        assert(width * count == 0);
        assert(0 * (pow2(width as nat) - 1) == 0 && value as int * (1 - 1) == 0)
            by (nonlinear_arith);
    } else {
        let less = (count - 1) as nat;
        assert(width * count == width * less + width && less * width == width * less)
            by (nonlinear_arith)
            requires
                less == count - 1,
        ;
        copies_in_numbers(value, width, less);
        let low = (width * less) as u32;
        let rest = copies(value, width, less);
        above_is_sum(value, rest, width, low);
        let high = value << low;
        assert(high | rest == rest | high) by (bit_vector);
        lemma_pow2_adds(low as nat, width as nat);
        let (x, v, p, q) = (
            value as int,
            rest as int,
            pow2(width as nat) as int,
            pow2(low as nat) as int,
        );
        assert((x * q + v) * (p - 1) == x * (q * p - 1)) by (nonlinear_arith)
            requires
                v * (p - 1) == x * (q - 1),
        ;
    }
}

/// A value of some type is made of the low bits of a word.
pub proof fn of_word(value_type: ValueType, word: u128)
    ensures
        Value::of(value_type, word).value_type() == value_type,
        Value::of(value_type, word).word() == word & mask(value_type.bits()),
{
    mask_values();
    assert((if word & 1 == 1 {
        1u128
    } else {
        0u128
    }) == word & 1 && (word as u32) as u128 == word & 0xffff_ffff && (word as u64) as u128 == word
        & 0xffff_ffff_ffff_ffff && word == word & 0xffff_ffff_ffff_ffff_ffff_ffff_ffff_ffff)
        by (bit_vector);
}

/// A value is determined by its type and its bits.
pub proof fn same_word(a: Value, b: Value)
    requires
        a.value_type() == b.value_type(),
        a.word() == b.word(),
    ensures
        a == b,
{
}

/// Words that agree in the low bits make the same value.
pub proof fn of_same(value_type: ValueType, a: u128, b: u128)
    requires
        a & mask(value_type.bits()) == b & mask(value_type.bits()),
    ensures
        Value::of(value_type, a) == Value::of(value_type, b),
{
    of_word(value_type, a);
    of_word(value_type, b);
    same_word(Value::of(value_type, a), Value::of(value_type, b));
}

/// One word above another fits into their widths together.
pub proof fn fits_above(high: u128, low: u128, high_width: u32, low_width: u32, width: u32)
    requires
        fits(high, high_width),
        fits(low, low_width),
        high_width + low_width == width,
        width <= 128,
        high_width >= 1,
    ensures
        fits((high << low_width) | low, width),
{
    assert(high & mask(high_width) == high && low & mask(low_width) == low && high_width >= 1
        && high_width <= 128 && low_width < 128 && width <= 128 && width == high_width + low_width
        ==> ((high << low_width) | low) & mask(width) == (high << low_width) | low)
        by (bit_vector);
}

/// Copies of a word fit into as many times its width.
pub proof fn copies_fit(value: u128, width: u32, count: nat, total: u32)
    requires
        fits(value, width),
        width >= 1,
        width * count == total,
        total <= 128,
    ensures
        fits(copies(value, width, count), total),
    decreases count,
{
    if count == 0 {
        mask_values();
        assert(0u128 & 0u128 == 0u128) by (bit_vector);
    } else {
        let less = (count - 1) as nat;
        assert(width * count == width * less + width) by (nonlinear_arith)
            requires
                less == count - 1,
        ;
        let low = (width * less) as u32;
        copies_fit(value, width, less, low);
        assert(less * width == low) by (nonlinear_arith)
            requires
                low == width * less,
        ;
        let rest = copies(value, width, less);
        fits_above(value, rest, width, low, total);
        let high = value << low;
        assert(high | rest == rest | high) by (bit_vector);
    }
}

} // verus!
