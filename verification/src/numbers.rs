//! Floating-point numbers by their IEEE 754 bit patterns: scores are single
//! precision, times are double precision. Only their order and their whole part
//! matter here.

use vstd::arithmetic::power2::{lemma_pow2_unfold, pow2};
use vstd::prelude::*;

verus! {

/// Whether the pattern of a single is that of no number.
pub open spec fn single_is_nan(bits: u32) -> bool {
    bits % 0x8000_0000 > 0x7f80_0000
}

/// An integer that orders singles as numbers: the magnitude, with the sign.
pub open spec fn single_key(bits: u32) -> int {
    if bits < 0x8000_0000 {
        bits as int
    } else {
        0x8000_0000 - bits
    }
}

/// Whether `a >= b` holds of two singles. Nothing compares with what is no number.
pub open spec fn single_at_least(a: u32, b: u32) -> bool {
    !single_is_nan(a) && !single_is_nan(b) && single_key(a) >= single_key(b)
}

/// An integer that orders doubles as numbers: the magnitude, with the sign.
pub open spec fn double_key(bits: u64) -> int {
    if bits < 0x8000_0000_0000_0000 {
        bits as int
    } else {
        0x8000_0000_0000_0000 - bits
    }
}

/// Whether the pattern of a double is that of no number.
pub open spec fn double_is_nan(bits: u64) -> bool {
    bits % 0x8000_0000_0000_0000 > 0x7ff0_0000_0000_0000
}

/// Whether the pattern of a double is that of a finite number that is not negative.
pub open spec fn is_time(bits: u64) -> bool {
    bits < 0x7ff0_0000_0000_0000
}

/// Whether `a < b` holds of two doubles. Nothing compares with what is no number.
pub open spec fn double_less(a: u64, b: u64) -> bool {
    !double_is_nan(a) && !double_is_nan(b) && double_key(a) < double_key(b)
}

/// The whole part of a double, as an unsigned 64-bit number: negative numbers and
/// what is no number give zero, numbers that are too large the largest value.
pub open spec fn double_whole(bits: u64) -> int {
    let exponent = (bits / 0x10_0000_0000_0000) as int % 2048;
    let fraction = (bits % 0x10_0000_0000_0000) as int;
    let significand = 0x10_0000_0000_0000 + fraction;
    if bits >= 0x8000_0000_0000_0000 || exponent < 1023 {
        0
    } else if exponent == 2047 && fraction != 0 {
        0
    } else if exponent >= 1023 + 64 {
        u64::MAX as int
    } else if exponent <= 1075 {
        significand / pow2((1075 - exponent) as nat) as int
    } else {
        significand * pow2((exponent - 1075) as nat) as int
    }
}

/// `single_key` of a pattern.
pub fn single_order(bits: u32) -> (key: i64)
    ensures
        key == single_key(bits),
{
    if bits < 0x8000_0000 {
        bits as i64
    } else {
        0x8000_0000 - bits as i64
    }
}

/// Whether `a >= b` holds of two singles.
pub fn single_ge(a: u32, b: u32) -> (r: bool)
    ensures
        r == single_at_least(a, b),
{
    a % 0x8000_0000 <= 0x7f80_0000 && b % 0x8000_0000 <= 0x7f80_0000 && single_order(a)
        >= single_order(b)
}

/// `double_key` of a pattern.
pub fn double_order(bits: u64) -> (key: i64)
    ensures
        key == double_key(bits),
{
    if bits < 0x8000_0000_0000_0000 {
        bits as i64
    } else {
        -((bits - 0x8000_0000_0000_0000) as i64)
    }
}

/// Whether `a < b` holds of two doubles.
pub fn double_lt(a: u64, b: u64) -> (r: bool)
    ensures
        r == double_less(a, b),
{
    a % 0x8000_0000_0000_0000 <= 0x7ff0_0000_0000_0000 && b % 0x8000_0000_0000_0000
        <= 0x7ff0_0000_0000_0000 && double_order(a) < double_order(b)
}

/// Two to the power `k`.
fn power_of_two(k: u64) -> (r: u64)
    requires
        k <= 52,
    ensures
        r == pow2(k as nat),
        1 <= r <= 0x10_0000_0000_0000,
{
    let mut r: u64 = 1;
    let mut i: u64 = 0;
    proof {
        vstd::arithmetic::power2::lemma2_to64();
        vstd::arithmetic::power2::lemma2_to64_rest();
    }
    while i < k
        invariant
            i <= k <= 52,
            r == pow2(i as nat),
            pow2(52) == 0x10_0000_0000_0000,
        decreases k - i,
    {
        proof {
            lemma_pow2_unfold((i + 1) as nat);
            if i + 1 < 52 {
                vstd::arithmetic::power2::lemma_pow2_strictly_increases((i + 1) as nat, 52);
            }
        }
        r = r * 2;
        i = i + 1;
    }
    proof {
        if k < 52 {
            vstd::arithmetic::power2::lemma_pow2_strictly_increases(k as nat, 52);
        }
        vstd::arithmetic::power2::lemma_pow2_pos(k as nat);
    }
    r
}

/// The whole part of a double, from its pattern.
pub fn double_to_whole(bits: u64) -> (r: u64)
    ensures
        r == double_whole(bits),
{
    let exponent: u64 = (bits / 0x10_0000_0000_0000) % 2048;
    let fraction: u64 = bits % 0x10_0000_0000_0000;
    let significand: u64 = 0x10_0000_0000_0000 + fraction;
    if bits >= 0x8000_0000_0000_0000 || exponent < 1023 {
        0
    } else if exponent == 2047 && fraction != 0 {
        0
    } else if exponent >= 1087 {
        u64::MAX
    } else if exponent <= 1075 {
        let divisor: u64 = power_of_two(1075 - exponent);
        significand / divisor
    } else {
        let factor: u64 = power_of_two(exponent - 1075);
        proof {
            vstd::arithmetic::power2::lemma2_to64();
            if exponent - 1075 < 11 {
                vstd::arithmetic::power2::lemma_pow2_strictly_increases(
                    (exponent - 1075) as nat,
                    11,
                );
            }
            assert(significand * factor <= 0x1f_ffff_ffff_ffff * 0x800) by (nonlinear_arith)
                requires
                    significand <= 0x1f_ffff_ffff_ffff,
                    factor <= 0x800,
            ;
        }
        significand * factor
    }
}

} // verus!
