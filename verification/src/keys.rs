//! Order keys of single-precision numbers.
//!
//! A number in the IEEE 754 single format is a sign bit, eight exponent bits
//! and twenty-three fraction bits.  Read as an integer, sign apart, the
//! thirty-one low bits grow as the number's magnitude does.  So the number's
//! order key is that integer, negated where the sign bit is set.  Both zeros
//! get the key 0, the infinities get the two extreme keys, and patterns that
//! encode no number have no key.

use vstd::prelude::*;

verus! {

/// The sign bit of a pattern.
pub const SIGN: u32 = 0x8000_0000;

/// The pattern of positive infinity; every greater magnitude encodes no
/// number.
pub const INFINITE: u32 = 0x7f80_0000;

/// The pattern without its sign bit.
pub open spec fn magnitude(bits: u32) -> int {
    if bits >= SIGN {
        bits - SIGN
    } else {
        bits as int
    }
}

/// Whether the sign bit of the pattern is set.
pub open spec fn is_negative(bits: u32) -> bool {
    bits >= SIGN
}

/// Whether the pattern encodes a number, infinities included.
pub open spec fn encodes_number(bits: u32) -> bool {
    magnitude(bits) <= INFINITE
}

/// The order key of a pattern.
pub open spec fn key_of(bits: u32) -> int {
    if is_negative(bits) {
        -magnitude(bits)
    } else {
        magnitude(bits)
    }
}

/// The exponent field of a pattern.
pub open spec fn exponent(bits: u32) -> int {
    magnitude(bits) / 0x80_0000
}

/// The fraction field of a pattern.
pub open spec fn fraction(bits: u32) -> int {
    magnitude(bits) % 0x80_0000
}

/// Whether the magnitude encoded by `a` is below the one encoded by `b`:
/// the smaller exponent decides, and between equal exponents the smaller
/// fraction.
pub open spec fn smaller(a: u32, b: u32) -> bool {
    exponent(a) < exponent(b) || (exponent(a) == exponent(b) && fraction(a) < fraction(b))
}

/// Whether the number encoded by `a` is less than the number encoded by `b`.
/// A negative number is less than a positive one unless both are zero; of two
/// positive numbers the one of smaller magnitude is less, of two negative
/// numbers the one of greater magnitude.
pub open spec fn less(a: u32, b: u32) -> bool {
    if is_negative(a) && is_negative(b) {
        smaller(b, a)
    } else if is_negative(a) {
        magnitude(a) != 0 || magnitude(b) != 0
    } else if is_negative(b) {
        false
    } else {
        smaller(a, b)
    }
}

/// Whether a pattern encodes a number.
pub fn is_number(bits: u32) -> (yes: bool)
    ensures
        yes == encodes_number(bits),
{
    let magnitude = if bits >= SIGN {
        bits - SIGN
    } else {
        bits
    };
    magnitude <= INFINITE
}

/// The order key of the number that a pattern encodes.
pub fn key_of_bits(bits: u32) -> (key: i64)
    ensures
        key == key_of(bits),
        -0x7fff_ffff <= key <= 0x7fff_ffff,
{
    if bits >= SIGN {
        -((bits - SIGN) as i64)
    } else {
        bits as i64
    }
}

/// The pattern with the given order key; for the key 0, the positive zero.
/// A key beyond the range of keys stands for the nearest key in range.
pub open spec fn pattern_of(key: int) -> u32 {
    if key > 0x7fff_ffff {
        0x7fff_ffffu32
    } else if key >= 0 {
        key as u32
    } else if key >= -0x7fff_ffff {
        (SIGN + (-key)) as u32
    } else {
        0xffff_ffffu32
    }
}

/// The pattern of the number with the given order key; for the key 0, the
/// positive zero.  Keys beyond the range of `key_of_bits` give the nearest
/// pattern in range.
pub fn bits_of_key(key: i64) -> (bits: u32)
    ensures
        bits == pattern_of(key as int),
{
    if key > 0x7fff_ffff {
        0x7fff_ffff
    } else if key >= 0 {
        key as u32
    } else if key >= -0x7fff_ffff {
        SIGN + ((-key) as u32)
    } else {
        0xffff_ffff
    }
}

/// Keys order as the numbers do: one number is less than another exactly if
/// its key is.
pub proof fn lemma_keys_order(a: u32, b: u32)
    ensures
        less(a, b) <==> key_of(a) < key_of(b),
{
    lemma_smaller(a, b);
    lemma_smaller(b, a);
}

/// Magnitudes order as their exponent and fraction fields do.
proof fn lemma_smaller(a: u32, b: u32)
    ensures
        smaller(a, b) <==> magnitude(a) < magnitude(b),
{
    let x = magnitude(a);
    let y = magnitude(b);
    vstd::arithmetic::div_mod::lemma_fundamental_div_mod(x, 0x80_0000);
    vstd::arithmetic::div_mod::lemma_fundamental_div_mod(y, 0x80_0000);
    vstd::arithmetic::div_mod::lemma_mod_bound(x, 0x80_0000);
    vstd::arithmetic::div_mod::lemma_mod_bound(y, 0x80_0000);
    if x / 0x80_0000 < y / 0x80_0000 {
        assert(0x80_0000 * (x / 0x80_0000) + 0x80_0000 <= 0x80_0000 * (y / 0x80_0000))
            by (nonlinear_arith)
            requires
                x / 0x80_0000 < y / 0x80_0000,
        ;
    } else if y / 0x80_0000 < x / 0x80_0000 {
        assert(0x80_0000 * (y / 0x80_0000) + 0x80_0000 <= 0x80_0000 * (x / 0x80_0000))
            by (nonlinear_arith)
            requires
                y / 0x80_0000 < x / 0x80_0000,
        ;
    }
}

/// Two patterns share a key exactly if they encode the same number: they
/// are the same pattern, or the two zeros.
pub proof fn lemma_keys_agree(a: u32, b: u32)
    ensures
        key_of(a) == key_of(b) <==> (a == b || (magnitude(a) == 0 && magnitude(b) == 0)),
{
}

/// A key leads back to its pattern, and a pattern to its key: every pattern
/// but the negative zero is the pattern of its key, and every key in range is
/// the key of its pattern.
pub proof fn lemma_key_round_trip(bits: u32, key: int)
    ensures
        -0x7fff_ffff <= key_of(bits) <= 0x7fff_ffff,
        bits != SIGN ==> pattern_of(key_of(bits)) == bits,
        pattern_of(key_of(SIGN)) == 0,
        -0x7fff_ffff <= key <= 0x7fff_ffff ==> key_of(pattern_of(key)) == key,
{
}

/// The order key of a cost.  A cost is a number that is not negative and not
/// infinite; its key is its pattern.  Anything else is no cost.
pub fn cost_key(bits: u32) -> (key: Option<u64>)
    ensures
        key == if bits < INFINITE {
            Some(bits as u64)
        } else {
            None::<u64>
        },
{
    if bits < INFINITE {
        Some(bits as u64)
    } else {
        None
    }
}

} // verus!
