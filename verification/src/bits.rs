//! Bit-level facts that tie the machine operations of the curve code to
//! division and remainder.

use vstd::prelude::*;
use vstd::arithmetic::power2::{pow2, lemma_pow2_pos, lemma_pow2_unfold, lemma2_to64};
use vstd::arithmetic::div_mod::{
    lemma_div_denominator,
    lemma_fundamental_div_mod,
    lemma_fundamental_div_mod_converse,
};

verus! {

/// The column bit of the lowest base-4 digit of `value`.
pub open spec fn column_bit(value: usize) -> usize {
    (value / 2) & 1
}

/// The row bit of the lowest base-4 digit of `value`.
pub open spec fn row_bit(value: usize) -> usize {
    (value ^ column_bit(value)) & 1
}

/// The two bits taken from a step count name the quadrant that its lowest
/// base-4 digit selects: 0 lower left, 1 upper left, 2 upper right, 3 lower
/// right.
pub proof fn lemma_digit_bits(value: usize)
    ensures
        value % 4 == 0 ==> column_bit(value) == 0 && row_bit(value) == 0,
        value % 4 == 1 ==> column_bit(value) == 0 && row_bit(value) == 1,
        value % 4 == 2 ==> column_bit(value) == 1 && row_bit(value) == 1,
        value % 4 == 3 ==> column_bit(value) == 1 && row_bit(value) == 0,
{
    assert(value % 4 == 0 ==> (value / 2) & 1 == 0 && (value ^ ((value / 2) & 1)) & 1 == 0)
        by (bit_vector);
    assert(value % 4 == 1 ==> (value / 2) & 1 == 0 && (value ^ ((value / 2) & 1)) & 1 == 1)
        by (bit_vector);
    assert(value % 4 == 2 ==> (value / 2) & 1 == 1 && (value ^ ((value / 2) & 1)) & 1 == 1)
        by (bit_vector);
    assert(value % 4 == 3 ==> (value / 2) & 1 == 1 && (value ^ ((value / 2) & 1)) & 1 == 0)
        by (bit_vector);
}

/// The base-4 digit that a quadrant, named by its column and row bit, stands
/// for on the curve.
pub proof fn lemma_quadrant_digit()
    ensures
        0usize ^ 0usize == 0,
        0usize ^ 1usize == 1,
        3usize ^ 1usize == 2,
        3usize ^ 0usize == 3,
{
    assert(0usize ^ 0usize == 0) by (bit_vector);
    assert(0usize ^ 1usize == 1) by (bit_vector);
    assert(3usize ^ 1usize == 2) by (bit_vector);
    assert(3usize ^ 0usize == 3) by (bit_vector);
}

/// Masking with a power of two tests one binary digit.
pub proof fn lemma_mask_tests_digit(x: usize, mask: usize, level: nat)
    requires
        mask == pow2(level),
    ensures
        (x & mask) > 0 <==> (x / mask) % 2 == 1,
    decreases level,
{
    if level == 0 {
        lemma2_to64();
        assert(mask == 1 ==> ((x & mask) > 0 <==> x % 2 == 1)) by (bit_vector);
    } else {
        lemma_pow2_unfold(level);
        lemma_pow2_pos((level - 1) as nat);
        let half = (mask / 2) as usize;
        let rest = (x / 2) as usize;
        lemma_mask_tests_digit(rest, half, (level - 1) as nat);
        assert(mask % 2 == 0 ==> ((x & mask) > 0 <==> ((x / 2) & (mask / 2)) > 0))
            by (bit_vector);
        lemma_div_denominator(x as int, 2, half as int);
    }
}

/// Reflecting `x` inside a span that is a whole number of `side`s reflects its
/// remainder inside one `side`.
pub proof fn lemma_mirrored_remainder(span: nat, count: nat, side: nat, x: nat)
    requires
        side > 0,
        span == count * side,
        x < span,
    ensures
        (span - 1 - x) % (side as int) == side - 1 - x % side,
{
    let q = x / side;
    let r = x % side;
    lemma_fundamental_div_mod(x as int, side as int);
    assert(span - 1 - x == (count - q - 1) * side + (side - 1 - r)) by (nonlinear_arith)
        requires
            span == count * side,
            x == side * q + r,
    ;
    lemma_fundamental_div_mod_converse(span - 1 - x, side as int, count - q - 1, side - 1 - r);
}

/// An odd number above one, doubled any number of times, is no power of two.
pub proof fn lemma_odd_multiple(odd: nat, doublings: nat, k: nat)
    requires
        odd > 1,
        odd % 2 == 1,
    ensures
        odd * pow2(doublings) != pow2(k),
    decreases doublings,
{
    lemma2_to64();
    if k > 0 {
        lemma_pow2_unfold(k);
    }
    if doublings == 0 {
        assert(odd * pow2(0) == odd);
    } else {
        lemma_pow2_unfold(doublings);
        lemma_pow2_pos((doublings - 1) as nat);
        let lower = pow2((doublings - 1) as nat);
        assert(odd * (2 * lower) == 2 * (odd * lower)) by (nonlinear_arith);
        assert(odd * lower >= 2) by (nonlinear_arith)
            requires
                odd > 1,
                lower > 0,
        ;
        if k > 0 {
            lemma_odd_multiple(odd, (doublings - 1) as nat, (k - 1) as nat);
        }
    }
}

} // verus!
