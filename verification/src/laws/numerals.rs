//! Laws of numbers: what the bit patterns of floating-point numbers stand for, how
//! numbers are written in decimal, and how vectors are laid out in bytes.

use crate::codec::{component, decoded, encoded, law_decode_inverts_encode};
use crate::numbers::{
    double_is_nan, double_key, double_less, double_whole, is_time, single_at_least, single_is_nan,
    single_key,
};
use crate::text::{bytes_le, decimal, padded, text_le};
use vstd::arithmetic::power2::{
    lemma2_to64, lemma2_to64_rest, lemma_pow2_adds, lemma_pow2_pos, lemma_pow2_strictly_increases,
    lemma_pow2_unfold, pow2,
};
use vstd::prelude::*;
use vstd::utf8::encode_utf8;

verus! {

/// The magnitude that a significand field of `width` bits and an exponent field
/// stand for, counted in units of the smallest number of the format.
pub open spec fn magnitude(width: nat, exponent: nat, fraction: nat) -> nat {
    if exponent == 0 {
        fraction
    } else {
        (pow2(width) + fraction) * pow2((exponent - 1) as nat)
    }
}

/// The number that the pattern of a double stands for, in units of two to the power
/// of -1074. An infinite number counts as greater than all finite ones.
pub open spec fn double_units(bits: u64) -> int {
    let exponent = (bits / 0x10_0000_0000_0000) % 0x800;
    let fraction = bits % 0x10_0000_0000_0000;
    let units = magnitude(52, exponent as nat, fraction as nat) as int;
    if bits < 0x8000_0000_0000_0000 {
        units
    } else {
        -units
    }
}

/// The number that the pattern of a single stands for, in units of two to the power
/// of -149. An infinite number counts as greater than all finite ones.
pub open spec fn single_units(bits: u32) -> int {
    let exponent = (bits / 0x80_0000) % 0x100;
    let fraction = bits % 0x80_0000;
    let units = magnitude(23, exponent as nat, fraction as nat) as int;
    if bits < 0x8000_0000 {
        units
    } else {
        -units
    }
}

proof fn lemma_magnitude_grows(width: nat, e: nat, f: nat, g: nat, h: nat)
    requires
        f < pow2(width),
        h < pow2(width),
        e < g || (e == g && f < h),
    ensures
        magnitude(width, e, f) < magnitude(width, g, h),
{
    let base = pow2(width) as int;
    lemma_pow2_pos(width);
    if e == g {
        if e > 0 {
            let p = pow2((e - 1) as nat) as int;
            lemma_pow2_pos((e - 1) as nat);
            assert((base + f) * p < (base + h) * p) by (nonlinear_arith)
                requires
                    f < h,
                    p > 0,
            ;
        }
    } else {
        let q = pow2((g - 1) as nat) as int;
        lemma_pow2_pos((g - 1) as nat);
        assert(base * q <= (base + h) * q) by (nonlinear_arith)
            requires
                h >= 0,
                q > 0,
        ;
        if e == 0 {
            assert(base <= base * q) by (nonlinear_arith)
                requires
                    base > 0,
                    q >= 1,
            ;
        } else {
            let p = pow2((e - 1) as nat) as int;
            lemma_pow2_pos((e - 1) as nat);
            lemma_pow2_unfold(e);
            if e < g - 1 {
                lemma_pow2_strictly_increases(e, (g - 1) as nat);
            }
            assert(2 * p <= q);
            assert((base + f) * p < base * q) by (nonlinear_arith)
                requires
                    0 <= f < base,
                    p > 0,
                    2 * p <= q,
            ;
        }
    }
}

proof fn lemma_powers()
    ensures
        pow2(23) == 0x80_0000,
        pow2(52) == 0x10_0000_0000_0000,
        pow2(53) == 0x20_0000_0000_0000,
        pow2(64) == 0x1_0000_0000_0000_0000,
{
    lemma2_to64();
    lemma2_to64_rest();
}

proof fn lemma_double_units_grow(a: u64, b: u64)
    requires
        a < b < 0x8000_0000_0000_0000,
    ensures
        double_units(a) < double_units(b),
{
    lemma_powers();
    let e = (a / 0x10_0000_0000_0000) % 0x800;
    let f = a % 0x10_0000_0000_0000;
    let g = (b / 0x10_0000_0000_0000) % 0x800;
    let h = b % 0x10_0000_0000_0000;
    lemma_magnitude_grows(52, e as nat, f as nat, g as nat, h as nat);
}

proof fn lemma_double_units_sign(bits: u64)
    requires
        bits >= 0x8000_0000_0000_0000,
    ensures
        double_units(bits) == -double_units((bits - 0x8000_0000_0000_0000) as u64),
{
    let plain = (bits - 0x8000_0000_0000_0000) as u64;
    assert(bits % 0x10_0000_0000_0000 == plain % 0x10_0000_0000_0000);
    assert((bits / 0x10_0000_0000_0000) % 0x800 == (plain / 0x10_0000_0000_0000) % 0x800);
}

proof fn lemma_double_units_at_least_zero(bits: u64)
    requires
        bits < 0x8000_0000_0000_0000,
    ensures
        bits > 0 ==> double_units(bits) > 0,
        bits == 0 ==> double_units(bits) == 0,
{
    if bits > 0 {
        lemma_double_units_grow(0, bits);
    }
}

/// The keys of doubles are ordered as the numbers are that the doubles stand for.
pub proof fn law_double_order(a: u64, b: u64)
    ensures
        double_key(a) < double_key(b) <==> double_units(a) < double_units(b),
        double_key(a) == double_key(b) <==> double_units(a) == double_units(b),
{
    let limit = 0x8000_0000_0000_0000u64;
    let x = if a < limit { a } else { (a - limit) as u64 };
    let y = if b < limit { b } else { (b - limit) as u64 };
    if a >= limit {
        lemma_double_units_sign(a);
    }
    if b >= limit {
        lemma_double_units_sign(b);
    }
    lemma_double_units_at_least_zero(x);
    lemma_double_units_at_least_zero(y);
    if x < y {
        lemma_double_units_grow(x, y);
    } else if y < x {
        lemma_double_units_grow(y, x);
    }
}

/// One double is less than another exactly if both are numbers and the one number is
/// less than the other.
pub proof fn law_double_less(a: u64, b: u64)
    ensures
        double_less(a, b) <==> {
            &&& !((a / 0x10_0000_0000_0000) % 0x800 == 0x7ff && a % 0x10_0000_0000_0000 != 0)
            &&& !((b / 0x10_0000_0000_0000) % 0x800 == 0x7ff && b % 0x10_0000_0000_0000 != 0)
            &&& double_units(a) < double_units(b)
        },
{
    law_double_order(a, b);
    law_double_is_nan(a);
    law_double_is_nan(b);
}

/// A double is no number exactly if its exponent is the greatest and its fraction is
/// not zero; it is a time exactly if it is not negative and its exponent is less.
pub proof fn law_double_is_nan(bits: u64)
    ensures
        double_is_nan(bits) <==> (bits / 0x10_0000_0000_0000) % 0x800 == 0x7ff && bits
            % 0x10_0000_0000_0000 != 0,
        is_time(bits) <==> bits < 0x8000_0000_0000_0000 && (bits / 0x10_0000_0000_0000) % 0x800
            < 0x7ff,
{
    let e = (bits / 0x10_0000_0000_0000) % 0x800;
    let f = bits % 0x10_0000_0000_0000;
    assert(bits % 0x8000_0000_0000_0000 == 0x10_0000_0000_0000 * e + f);
}

proof fn lemma_single_units_grow(a: u32, b: u32)
    requires
        a < b < 0x8000_0000,
    ensures
        single_units(a) < single_units(b),
{
    lemma_powers();
    let e = (a / 0x80_0000) % 0x100;
    let f = a % 0x80_0000;
    let g = (b / 0x80_0000) % 0x100;
    let h = b % 0x80_0000;
    lemma_magnitude_grows(23, e as nat, f as nat, g as nat, h as nat);
}

proof fn lemma_single_units_sign(bits: u32)
    requires
        bits >= 0x8000_0000,
    ensures
        single_units(bits) == -single_units((bits - 0x8000_0000) as u32),
{
    let plain = (bits - 0x8000_0000) as u32;
    assert(bits % 0x80_0000 == plain % 0x80_0000);
    assert((bits / 0x80_0000) % 0x100 == (plain / 0x80_0000) % 0x100);
}

proof fn lemma_single_units_at_least_zero(bits: u32)
    requires
        bits < 0x8000_0000,
    ensures
        bits > 0 ==> single_units(bits) > 0,
        bits == 0 ==> single_units(bits) == 0,
{
    if bits > 0 {
        lemma_single_units_grow(0, bits);
    }
}

/// The keys of singles are ordered as the numbers are that the singles stand for.
pub proof fn law_single_order(a: u32, b: u32)
    ensures
        single_key(a) < single_key(b) <==> single_units(a) < single_units(b),
        single_key(a) == single_key(b) <==> single_units(a) == single_units(b),
{
    let limit = 0x8000_0000u32;
    let x = if a < limit { a } else { (a - limit) as u32 };
    let y = if b < limit { b } else { (b - limit) as u32 };
    if a >= limit {
        lemma_single_units_sign(a);
    }
    if b >= limit {
        lemma_single_units_sign(b);
    }
    lemma_single_units_at_least_zero(x);
    lemma_single_units_at_least_zero(y);
    if x < y {
        lemma_single_units_grow(x, y);
    } else if y < x {
        lemma_single_units_grow(y, x);
    }
}

/// A single is no number exactly if its exponent is the greatest and its fraction is
/// not zero.
pub proof fn law_single_is_nan(bits: u32)
    ensures
        single_is_nan(bits) <==> (bits / 0x80_0000) % 0x100 == 0xff && bits % 0x80_0000 != 0,
{
    let e = (bits / 0x80_0000) % 0x100;
    let f = bits % 0x80_0000;
    assert(bits % 0x8000_0000 == 0x80_0000 * e + f);
}

/// A score reaches another exactly if both are numbers and the one number is not less
/// than the other.
pub proof fn law_single_at_least(a: u32, b: u32)
    ensures
        single_at_least(a, b) <==> {
            &&& !((a / 0x80_0000) % 0x100 == 0xff && a % 0x80_0000 != 0)
            &&& !((b / 0x80_0000) % 0x100 == 0xff && b % 0x80_0000 != 0)
            &&& single_units(a) >= single_units(b)
        },
{
    law_single_order(a, b);
    law_single_is_nan(a);
    law_single_is_nan(b);
}

proof fn lemma_whole_between(s: int, w: int, q: int, p: int)
    requires
        q > 0,
        p > 0,
        w == s / q,
    ensures
        w * (q * p) <= s * p < (w + 1) * (q * p),
{
    assert(q * w <= s < q * (w + 1)) by (nonlinear_arith)
        requires
            q > 0,
            w == s / q,
    ;
    assert(w * (q * p) <= s * p < (w + 1) * (q * p)) by (nonlinear_arith)
        requires
            q * w <= s < q * (w + 1),
            p > 0,
    ;
}

/// The whole part of a double is the greatest whole number that is not greater, as
/// far as unsigned 64-bit numbers go: negative numbers and what is no number give
/// zero, and numbers that are too large the largest value.
pub proof fn law_whole_part(bits: u64)
    ensures
        ({
            let one = pow2(1074) as int;
            let units = double_units(bits);
            let whole = double_whole(bits);
            if double_is_nan(bits) || units < 0 {
                whole == 0
            } else if units >= 0x1_0000_0000_0000_0000 * one {
                whole == u64::MAX
            } else {
                whole * one <= units < (whole + 1) * one
            }
        }),
{
    lemma_powers();
    law_double_is_nan(bits);
    let one = pow2(1074) as int;
    lemma_pow2_pos(1074);
    let e = ((bits / 0x10_0000_0000_0000) % 0x800) as nat;
    let f = (bits % 0x10_0000_0000_0000) as nat;
    let s = 0x10_0000_0000_0000 + f;
    let units = magnitude(52, e, f) as int;
    let top = 0x1_0000_0000_0000_0000int;
    assert((bits / 0x10_0000_0000_0000) as int % 2048 == e);
    if bits >= 0x8000_0000_0000_0000 {
        assert(units >= 0);
        assert(0 < top * one) by (nonlinear_arith)
            requires
                one > 0,
                top == 0x1_0000_0000_0000_0000,
        ;
    } else if e < 1023 {
        lemma_pow2_adds(53, 1021);
        lemma_pow2_pos(1021);
        assert(units < one) by {
            let p = pow2(1021) as int;
            if e == 0 {
                assert(0x10_0000_0000_0000 < 0x20_0000_0000_0000 * p) by (nonlinear_arith)
                    requires
                        p >= 1,
                ;
            } else {
                let r = pow2((e - 1) as nat) as int;
                if e - 1 < 1021 {
                    lemma_pow2_strictly_increases((e - 1) as nat, 1021);
                }
                lemma_pow2_pos((e - 1) as nat);
                assert(s * r < 0x20_0000_0000_0000 * p) by (nonlinear_arith)
                    requires
                        0 <= s < 0x20_0000_0000_0000,
                        0 < r <= p,
                ;
            }
        }
        assert(one < top * one) by (nonlinear_arith)
            requires
                one > 0,
                top == 0x1_0000_0000_0000_0000,
        ;
    } else if e <= 1075 {
        let q = pow2((1075 - e) as nat) as int;
        let p = pow2((e - 1) as nat) as int;
        lemma_pow2_adds((1075 - e) as nat, (e - 1) as nat);
        lemma_pow2_pos((1075 - e) as nat);
        lemma_pow2_pos((e - 1) as nat);
        let w = s as int / q;
        lemma_whole_between(s as int, w, q, p);
        assert(w <= s) by (nonlinear_arith)
            requires
                w == s as int / q,
                q >= 1,
                s >= 0,
        ;
        assert((w + 1) * one <= top * one) by (nonlinear_arith)
            requires
                w + 1 <= top,
                one > 0,
        ;
    } else if e < 1087 {
        let q = pow2((e - 1075) as nat) as int;
        lemma_pow2_adds((e - 1075) as nat, 1074);
        lemma_pow2_pos((e - 1075) as nat);
        lemma2_to64();
        if e - 1075 < 11 {
            lemma_pow2_strictly_increases((e - 1075) as nat, 11);
        }
        let w = s * q;
        assert(w < top) by (nonlinear_arith)
            requires
                w == s * q,
                0 <= s < 0x20_0000_0000_0000,
                0 < q <= 0x800,
                top == 0x1_0000_0000_0000_0000,
        ;
        assert(s * (q * one) == w * one) by (nonlinear_arith)
            requires
                w == s * q,
        ;
        assert(w * one < top * one && w * one < (w + 1) * one) by (nonlinear_arith)
            requires
                w < top,
                one > 0,
        ;
    } else {
        let p = pow2((e - 1) as nat) as int;
        lemma_pow2_adds(12, 1074);
        lemma2_to64();
        if 1086 < e - 1 {
            lemma_pow2_strictly_increases(1086, (e - 1) as nat);
        }
        assert(0x1000 * one <= p);
        assert(s * p >= top * one) by (nonlinear_arith)
            requires
                s >= 0x10_0000_0000_0000,
                0x1000 * one <= p,
                one > 0,
                top == 0x1_0000_0000_0000_0000,
        ;
    }
}

/// The number that a text of decimal digits stands for.
pub open spec fn number_of(text: Seq<char>) -> int
    decreases text.len(),
{
    if text.len() == 0 {
        0
    } else {
        10 * number_of(text.drop_last()) + (text.last() as int - '0' as int)
    }
}

/// Numbers are written in decimal digits that stand for the number, without zeros in
/// front.
pub proof fn law_decimal_reads_back(n: nat)
    ensures
        number_of(decimal(n)) == n,
        decimal(n).len() > 0,
        forall|i: int| 0 <= i < decimal(n).len() ==> '0' <= #[trigger] decimal(n)[i] <= '9',
        n > 0 ==> decimal(n)[0] != '0',
        n == 0 ==> decimal(n).len() == 1,
    decreases n,
{
    if n < 10 {
        assert(decimal(n).drop_last() =~= Seq::empty());
        assert(number_of(decimal(n).drop_last()) == 0);
    } else {
        law_decimal_reads_back(n / 10);
        assert(decimal(n).drop_last() =~= decimal(n / 10));
        assert forall|i: int| 0 <= i < decimal(n).len() implies '0' <= #[trigger] decimal(n)[i]
            <= '9' by {
            if i < decimal(n / 10).len() {
                assert(decimal(n)[i] == decimal(n / 10)[i]);
            }
        }
        assert(decimal(n)[0] == decimal(n / 10)[0]);
    }
}

proof fn lemma_zeros_in_front(count: nat, digits: Seq<char>)
    ensures
        number_of(Seq::new(count, |i: int| '0') + digits) == number_of(digits),
    decreases digits.len(), count,
{
    let zeros = Seq::new(count, |i: int| '0');
    if digits.len() > 0 {
        lemma_zeros_in_front(count, digits.drop_last());
        assert((zeros + digits).drop_last() =~= zeros + digits.drop_last());
    } else if count > 0 {
        lemma_zeros_in_front((count - 1) as nat, digits);
        let fewer = Seq::new((count - 1) as nat, |i: int| '0');
        assert((zeros + digits).drop_last() =~= fewer + digits);
    } else {
        assert(zeros + digits =~= digits);
    }
}

/// Numbers that are filled up stand for the same number, in digits, and have as many
/// digits as they should have at least.
pub proof fn law_padded_reads_back(n: nat, width: nat)
    ensures
        number_of(padded(n, width)) == n,
        padded(n, width).len() == if decimal(n).len() < width {
            width
        } else {
            decimal(n).len()
        },
        forall|i: int| 0 <= i < padded(n, width).len() ==> '0' <= #[trigger] padded(n, width)[i]
            <= '9',
{
    law_decimal_reads_back(n);
    let digits = decimal(n);
    if digits.len() < width {
        let missing = (width - digits.len()) as nat;
        lemma_zeros_in_front(missing, digits);
        assert forall|i: int| 0 <= i < padded(n, width).len() implies '0' <= #[trigger] padded(
            n,
            width,
        )[i] <= '9' by {
            if i >= missing {
                assert(padded(n, width)[i] == digits[i - missing]);
            }
        }
    }
}

/// A vector is stored with four bytes for each component, the least significant one
/// first.
pub proof fn law_vector_bytes(vector: Seq<u32>, i: int)
    requires
        0 <= i < vector.len(),
    ensures
        ({
            let bytes = encoded(vector);
            &&& bytes.len() == 4 * vector.len()
            &&& vector[i] == bytes[4 * i] + 0x100 * bytes[4 * i + 1] + 0x1_0000 * bytes[4 * i + 2]
                + 0x100_0000 * bytes[4 * i + 3]
        }),
{
    law_decode_inverts_encode(vector);
    law_bytes_vector(encoded(vector), i);
}

/// A stored vector has as many components as there are groups of four bytes, and each
/// is the number whose bytes stand in its group, the least significant one first.
pub proof fn law_bytes_vector(bytes: Seq<u8>, i: int)
    requires
        0 <= i < bytes.len() / 4,
    ensures
        decoded(bytes).len() == bytes.len() / 4,
        decoded(bytes)[i] == bytes[4 * i] + 0x100 * bytes[4 * i + 1] + 0x1_0000 * bytes[4 * i + 2]
            + 0x100_0000 * bytes[4 * i + 3],
{
    assert(decoded(bytes)[i] == component(bytes, 4 * i));
}

proof fn lemma_bytes_le_same_start(a: Seq<u8>, b: Seq<u8>, i: int)
    requires
        0 <= i <= a.len(),
        i <= b.len(),
        a.take(i) == b.take(i),
    ensures
        bytes_le(a, b) == bytes_le(a.skip(i), b.skip(i)),
    decreases i,
{
    if i > 0 {
        assert(a[0] == a.take(i)[0]);
        assert(b[0] == b.take(i)[0]);
        let x = a.drop_first();
        let y = b.drop_first();
        assert(x.take(i - 1) =~= a.take(i).drop_first());
        assert(y.take(i - 1) =~= b.take(i).drop_first());
        lemma_bytes_le_same_start(x, y, i - 1);
        assert(x.skip(i - 1) =~= a.skip(i));
        assert(y.skip(i - 1) =~= b.skip(i));
    } else {
        assert(a.skip(0) =~= a);
        assert(b.skip(0) =~= b);
    }
}

proof fn lemma_first_difference(a: Seq<u8>, b: Seq<u8>) -> (i: int)
    ensures
        0 <= i <= a.len(),
        i <= b.len(),
        a.take(i) == b.take(i),
        i < a.len() && i < b.len() ==> a[i] != b[i],
    decreases a.len(),
{
    if a.len() == 0 || b.len() == 0 || a[0] != b[0] {
        assert(a.take(0) =~= b.take(0));
        0
    } else {
        let k = lemma_first_difference(a.drop_first(), b.drop_first());
        let i = k + 1;
        assert forall|j: int| 0 <= j < i implies a.take(i)[j] == b.take(i)[j] by {
            if j > 0 {
                assert(a.drop_first().take(k)[j - 1] == b.drop_first().take(k)[j - 1]);
            }
        }
        assert(a.take(i) =~= b.take(i));
        i
    }
}

/// One text comes no later than another exactly if its bytes agree with those of the
/// other up to a place where it ends or has the smaller byte.
pub proof fn law_text_order(a: Seq<char>, b: Seq<char>)
    ensures
        ({
            let x = encode_utf8(a);
            let y = encode_utf8(b);
            text_le(a, b) <==> exists|i: int|
                {
                    &&& 0 <= i <= x.len()
                    &&& i <= y.len()
                    &&& #[trigger] x.take(i) == y.take(i)
                    &&& i == x.len() || (i < y.len() && x[i] < y[i])
                }
        }),
{
    let x = encode_utf8(a);
    let y = encode_utf8(b);
    let i = lemma_first_difference(x, y);
    lemma_bytes_le_same_start(x, y, i);
    if text_le(a, b) {
        if i < x.len() {
            assert(x.skip(i)[0] == x[i]);
            if i < y.len() {
                assert(y.skip(i)[0] == y[i]);
            }
        }
        assert(x.take(i) == y.take(i));
    }
    if exists|k: int|
        {
            &&& 0 <= k <= x.len()
            &&& k <= y.len()
            &&& #[trigger] x.take(k) == y.take(k)
            &&& k == x.len() || (k < y.len() && x[k] < y[k])
        } {
        let k = choose|k: int|
            {
                &&& 0 <= k <= x.len()
                &&& k <= y.len()
                &&& #[trigger] x.take(k) == y.take(k)
                &&& k == x.len() || (k < y.len() && x[k] < y[k])
            };
        lemma_bytes_le_same_start(x, y, k);
        if k < x.len() {
            assert(x.skip(k)[0] == x[k]);
            assert(y.skip(k)[0] == y[k]);
        }
    }
}

} // verus!
