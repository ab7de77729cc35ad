//! The order of double-precision numbers, on their bit patterns.
//!
//! Coordinates and areas are computed outside this library; here they are
//! carried as IEEE 754 `binary64` bit patterns and only ever compared.
use vstd::prelude::*;

verus! {

/// Bit pattern of positive infinity.
pub const INFINITY_BITS: u64 = 0x7ff0_0000_0000_0000;

/// Bit pattern of negative infinity.
pub const NEG_INFINITY_BITS: u64 = 0xfff0_0000_0000_0000;

/// The pattern without its sign bit.
pub open spec fn magnitude(bits: u64) -> int {
    if bits >= 0x8000_0000_0000_0000 {
        bits - 0x8000_0000_0000_0000
    } else {
        bits as int
    }
}

/// The pattern stands for no number.
pub open spec fn is_nan(bits: u64) -> bool {
    magnitude(bits) > INFINITY_BITS
}

/// An integer that grows with the number: patterns of one sign are in the order
/// of their magnitudes, and both zeros rank as 0.
pub open spec fn rank(bits: u64) -> int {
    if bits >= 0x8000_0000_0000_0000 {
        -magnitude(bits)
    } else {
        magnitude(bits)
    }
}

/// `a < b` as numbers; false when either is NaN.
pub open spec fn number_lt(a: u64, b: u64) -> bool {
    !is_nan(a) && !is_nan(b) && rank(a) < rank(b)
}

/// `a <= b` as numbers; false when either is NaN.
pub open spec fn number_le(a: u64, b: u64) -> bool {
    !is_nan(a) && !is_nan(b) && rank(a) <= rank(b)
}

pub fn nan(bits: u64) -> (r: bool)
    ensures
        r == is_nan(bits),
{
    if bits >= 0x8000_0000_0000_0000 {
        bits - 0x8000_0000_0000_0000 > INFINITY_BITS
    } else {
        bits > INFINITY_BITS
    }
}

pub fn rank_of(bits: u64) -> (r: i64)
    ensures
        r == rank(bits),
{
    if bits >= 0x8000_0000_0000_0000 {
        -((bits - 0x8000_0000_0000_0000) as i64)
    } else {
        bits as i64
    }
}

/// `a < b` as numbers.
pub fn less(a: u64, b: u64) -> (r: bool)
    ensures
        r == number_lt(a, b),
{
    !nan(a) && !nan(b) && rank_of(a) < rank_of(b)
}

/// `a <= b` as numbers.
pub fn at_most(a: u64, b: u64) -> (r: bool)
    ensures
        r == number_le(a, b),
{
    !nan(a) && !nan(b) && rank_of(a) <= rank_of(b)
}

/// A pattern stands for no number exactly if, its sign bit apart, it is greater
/// than that of infinity: all exponent bits are set, and some bit of the fraction.
pub proof fn nan_by_its_bits(bits: u64)
    ensures
        is_nan(bits) <==> (bits & 0x7fff_ffff_ffff_ffff) > 0x7ff0_0000_0000_0000,
        !is_nan(0x7ff0_0000_0000_0000),
        !is_nan(0xfff0_0000_0000_0000),
        INFINITY_BITS == 0x7ff0_0000_0000_0000,
        NEG_INFINITY_BITS == 0xfff0_0000_0000_0000,
{
    assert(bits >= 0x8000_0000_0000_0000 ==> (bits & 0x7fff_ffff_ffff_ffff) == bits
        - 0x8000_0000_0000_0000) by (bit_vector);
    assert(bits < 0x8000_0000_0000_0000 ==> (bits & 0x7fff_ffff_ffff_ffff) == bits) by (bit_vector);
}

/// Numbers with the sign bit clear are in the order of their patterns, those with
/// it set in the opposite order and before all others; the two zeros are equal,
/// and what is no number is neither before nor after anything.
pub proof fn numbers_are_ordered_by_their_bits(a: u64, b: u64)
    ensures
        (a & 0x7fff_ffff_ffff_ffff) > 0x7ff0_0000_0000_0000 || (b & 0x7fff_ffff_ffff_ffff)
            > 0x7ff0_0000_0000_0000 ==> !number_lt(a, b) && !number_le(a, b),
        a <= 0x7ff0_0000_0000_0000 && b <= 0x7ff0_0000_0000_0000 ==> (number_lt(a, b) <==> a < b)
            && (number_le(a, b) <==> a <= b),
        0x8000_0000_0000_0000 <= a <= 0xfff0_0000_0000_0000 && 0x8000_0000_0000_0000 <= b
            <= 0xfff0_0000_0000_0000 ==> (number_lt(a, b) <==> a > b) && (number_le(a, b) <==> a
            >= b),
        0x8000_0000_0000_0000 <= a <= 0xfff0_0000_0000_0000 && b <= 0x7ff0_0000_0000_0000
            ==> number_le(a, b) && (number_lt(a, b) <==> !(a == 0x8000_0000_0000_0000 && b == 0)),
        a <= 0x7ff0_0000_0000_0000 && 0x8000_0000_0000_0000 <= b <= 0xfff0_0000_0000_0000
            ==> !number_lt(a, b) && (number_le(a, b) <==> a == 0 && b == 0x8000_0000_0000_0000),
{
    nan_by_its_bits(a);
    nan_by_its_bits(b);
}

} // verus!
