//! Keys of measured values.
//!
//! A measured value is a double-precision number, which the library takes by
//! its bit pattern: one sign bit, eleven bits of exponent, and the fraction.
//! Among the patterns of finite numbers, a number with a clear sign bit grows
//! with its pattern, and a number with the sign bit set falls as the rest of
//! its pattern grows. The key of a pattern is therefore the pattern itself
//! where the sign bit is clear, and the rest of the pattern, negated, where it
//! is set: keys are ordered as the numbers are, and the two zeros share the
//! key 0.

use vstd::prelude::*;

verus! {

/// The sign bit of a pattern.
pub const SIGN_BIT: u64 = 0x8000_0000_0000_0000;

/// The exponent of a pattern that is no finite number.
pub const EXPONENT_MAX: u64 = 0x7ff;

/// The eleven bits of exponent of a pattern.
pub open spec fn exponent_of(bits: u64) -> int {
    (bits as int / 0x10_0000_0000_0000) % 0x800
}

/// Whether a pattern is that of a finite number: neither an infinity nor a
/// sign that something is no number.
pub open spec fn is_finite_pattern(bits: u64) -> bool {
    exponent_of(bits) != EXPONENT_MAX
}

/// The key of a pattern.
pub open spec fn key_of(bits: u64) -> int {
    if bits < SIGN_BIT {
        bits as int
    } else {
        -(bits - SIGN_BIT)
    }
}

/// The pattern of a key: of the two zeros, the one with the clear sign bit.
pub open spec fn pattern_of(key: int) -> int {
    if key >= 0 {
        key
    } else {
        SIGN_BIT - key
    }
}

/// A key leads back to its pattern, but for the zero with the sign bit set.
pub proof fn lemma_key_round_trip(bits: u64)
    ensures
        -0x7fff_ffff_ffff_ffff <= key_of(bits) <= 0x7fff_ffff_ffff_ffff,
        bits != SIGN_BIT ==> pattern_of(key_of(bits)) == bits,
        bits == SIGN_BIT ==> key_of(bits) == 0,
{
}

/// Keys of patterns with the same sign bit are ordered as the patterns, or
/// against them where the bit is set; and no key with the bit set is above one
/// with the bit clear.
pub proof fn lemma_key_order(a: u64, b: u64)
    ensures
        a < SIGN_BIT && b < SIGN_BIT ==> (key_of(a) < key_of(b) <==> a < b),
        a >= SIGN_BIT && b >= SIGN_BIT ==> (key_of(a) < key_of(b) <==> a > b),
        a >= SIGN_BIT && b < SIGN_BIT ==> key_of(a) <= key_of(b),
{
}

/// The key of a pattern.
pub fn key_of_bits(bits: u64) -> (out: i64)
    ensures
        out == key_of(bits),
{
    if bits < SIGN_BIT {
        bits as i64
    } else {
        -((bits - SIGN_BIT) as i64)
    }
}

/// The pattern of a key.
pub fn bits_of_key(key: i64) -> (out: u64)
    requires
        key > i64::MIN,
    ensures
        out == pattern_of(key as int),
{
    if key >= 0 {
        key as u64
    } else {
        SIGN_BIT + ((-key) as u64)
    }
}

/// Whether a pattern is that of a finite number.
pub fn is_finite_bits(bits: u64) -> (out: bool)
    ensures
        out == is_finite_pattern(bits),
{
    let exponent = (bits >> 52) & 0x7ff;
    assert(exponent == (bits / 0x10_0000_0000_0000) % 0x800) by (bit_vector)
        requires
            exponent == (bits >> 52) & 0x7ff,
    ;
    exponent != EXPONENT_MAX
}

/// The key of a pattern, if it is that of a finite number.
pub fn finite_key(bits: u64) -> (out: Option<i64>)
    ensures
        out is Some <==> is_finite_pattern(bits),
        out is Some ==> out->0 == key_of(bits),
{
    if is_finite_bits(bits) {
        Some(key_of_bits(bits))
    } else {
        None
    }
}

/// The pattern of the number one.
pub const ONE_BITS: u64 = 0x3ff0_0000_0000_0000;

/// The pattern of the infinity with the clear sign bit.
pub const INFINITY_BITS: u64 = 0x7ff0_0000_0000_0000;

/// A pattern without its sign bit.
pub open spec fn magnitude_of(bits: u64) -> int {
    if bits < SIGN_BIT {
        bits as int
    } else {
        bits - SIGN_BIT
    }
}

/// Whether a pattern is that of a number, finite or not: whether, without its
/// sign bit, it does not lie above the pattern of infinity.
pub open spec fn is_number_pattern(bits: u64) -> bool {
    magnitude_of(bits) <= INFINITY_BITS
}

/// The patterns of finite numbers are those that lie, without their sign bit,
/// below the pattern of infinity; so every finite number is a number, and its
/// key lies between the keys of the two infinities.
pub proof fn lemma_finite_is_number(bits: u64)
    ensures
        is_finite_pattern(bits) <==> magnitude_of(bits) < INFINITY_BITS,
        is_finite_pattern(bits) ==> is_number_pattern(bits),
        is_finite_pattern(bits) ==> -(INFINITY_BITS as int) < key_of(bits) < INFINITY_BITS,
{
    let m: u64 = if bits < SIGN_BIT {
        bits
    } else {
        (bits - SIGN_BIT) as u64
    };
    assert(((bits / 0x10_0000_0000_0000) % 0x800 != 0x7ff) <==> m < 0x7ff0_0000_0000_0000)
        by (bit_vector)
        requires
            m == (if bits < 0x8000_0000_0000_0000 {
                bits
            } else {
                (bits - 0x8000_0000_0000_0000) as u64
            }),
    ;
}

/// Whether a pattern is that of a number, finite or not.
pub fn is_number_bits(bits: u64) -> (out: bool)
    ensures
        out == is_number_pattern(bits),
{
    let magnitude = if bits < SIGN_BIT {
        bits
    } else {
        bits - SIGN_BIT
    };
    magnitude <= INFINITY_BITS
}

} // verus!
