//! IEEE 754 binary64 numbers, read through their bit patterns.
//!
//! A pattern has one sign bit, eleven exponent bits and fifty-two fraction
//! bits. What this module computes, it computes on the pattern with integer
//! arithmetic alone.
use crate::text::magnitude;
use vstd::arithmetic::div_mod::{lemma_div_denominator, lemma_fundamental_div_mod};
use vstd::arithmetic::power2::{
    lemma2_to64, lemma2_to64_rest, lemma_pow2_adds, lemma_pow2_unfold, pow2,
};
use vstd::prelude::*;

verus! {

/// The sign bit of a pattern.
pub const SIGN_BIT: u64 = 0x8000_0000_0000_0000;

/// The pattern of positive infinity: all exponent bits set, no fraction bit.
pub const INFINITY_BITS: u64 = 0x7ff0_0000_0000_0000;

/// The pattern of the number one.
pub const ONE_BITS: u64 = 0x3ff0_0000_0000_0000;

/// The pattern without its sign bit.
pub open spec fn abs_bits(b: u64) -> u64 {
    if b >= SIGN_BIT {
        (b - SIGN_BIT) as u64
    } else {
        b
    }
}

/// The sign bit of the pattern is set.
pub open spec fn is_negative(b: u64) -> bool {
    b >= SIGN_BIT
}

/// The pattern is not a number.
pub open spec fn is_nan(b: u64) -> bool {
    abs_bits(b) > INFINITY_BITS
}

/// The pattern is positive or negative zero.
pub open spec fn is_zero(b: u64) -> bool {
    abs_bits(b) == 0
}

/// The place of a number on the line of all patterns that are numbers: the
/// pattern without its sign for a positive number, the negation of that for a
/// negative one. The order of the numbers is the order of their places, and
/// the two zeros share one place.
pub open spec fn rank(b: u64) -> int {
    if is_negative(b) {
        -(abs_bits(b) as int)
    } else {
        abs_bits(b) as int
    }
}

/// Equality of two numbers: no pattern that is not a number equals anything,
/// and the two zeros are equal.
pub open spec fn float_eq(a: u64, b: u64) -> bool {
    !is_nan(a) && !is_nan(b) && rank(a) == rank(b)
}

/// `a` is less than `b`; false where either is not a number.
pub open spec fn float_lt(a: u64, b: u64) -> bool {
    !is_nan(a) && !is_nan(b) && rank(a) < rank(b)
}

/// `a` is less than or equal to `b`; false where either is not a number.
pub open spec fn float_le(a: u64, b: u64) -> bool {
    !is_nan(a) && !is_nan(b) && rank(a) <= rank(b)
}

/// The pattern of one for `true`, of zero for `false`.
pub open spec fn float_of_bool(b: bool) -> u64 {
    if b {
        ONE_BITS
    } else {
        0
    }
}

/// The exponent field of the pattern: the number is its significand times
/// two to the power of this field less 1075.
pub open spec fn exponent_field(b: u64) -> u64 {
    abs_bits(b) >> 52
}

/// The significand of a normal number: its fraction bits under a leading one.
pub open spec fn significand(b: u64) -> u64 {
    (abs_bits(b) & 0xf_ffff_ffff_ffff) | 0x10_0000_0000_0000
}

/// The integer part of the number as a 64-bit signed integer: the number
/// rounded toward zero, the nearest bound where it lies beyond the integers of
/// 64 bits, and zero where the pattern is not a number.
pub open spec fn float_trunc(b: u64) -> i64 {
    let e = exponent_field(b);
    if is_nan(b) || e < 1023 {
        0
    } else if e >= 1086 {
        if is_negative(b) {
            i64::MIN
        } else {
            i64::MAX
        }
    } else {
        let mag = if e >= 1075 {
            significand(b) << ((e - 1075) as u64)
        } else {
            significand(b) >> ((1075 - e) as u64)
        };
        if is_negative(b) {
            (-(mag as int)) as i64
        } else {
            mag as i64
        }
    }
}

/// The number of binary digits of a natural number.
pub open spec fn bit_length(m: nat) -> nat
    decreases m,
{
    if m == 0 {
        0
    } else {
        1 + bit_length(m / 2)
    }
}

/// The quotient of `m` by two to the power `s`, rounded to the nearest
/// integer, and to the even one where two are equally near.
pub open spec fn round_shift(m: nat, s: nat) -> nat {
    let q = m / pow2(s);
    let r = m % pow2(s);
    if 2 * r > pow2(s) || (2 * r == pow2(s) && q % 2 == 1) {
        q + 1
    } else {
        q
    }
}

/// The pattern of the float nearest to an integer, the one with the even
/// significand where two are equally near.
///
/// An integer of `n` binary digits has the exponent field `1022 + n`. Its
/// significand has 53 digits: the integer itself, shifted up where it has
/// fewer and rounded where it has more. The pattern is the sum of the sign bit,
/// the exponent field and the significand without its leading digit; a
/// significand that rounds up to 54 digits carries into the exponent field.
pub open spec fn float_of_int(i: i64) -> u64 {
    if i == 0 {
        0
    } else {
        let m = (if i < 0 {
            -(i as int)
        } else {
            i as int
        }) as nat;
        let n = bit_length(m);
        let sig = if n <= 53 {
            m * pow2((53 - n) as nat)
        } else {
            round_shift(m, (n - 53) as nat)
        };
        let sign = if i < 0 {
            SIGN_BIT as int
        } else {
            0
        };
        (sign + (1021 + n) * 0x10_0000_0000_0000 + sig) as u64
    }
}

/// A number from two to the power `n - 1` up to, but not including, two to
/// the power `n` has `n` binary digits.
pub proof fn lemma_bit_length(m: nat, n: nat)
    requires
        n >= 1,
        pow2((n - 1) as nat) <= m < pow2(n),
    ensures
        bit_length(m) == n,
    decreases n,
{
    lemma_pow2_unfold(n);
    if n == 1 {
        lemma2_to64();
        assert(m == 1);
        assert(bit_length(1) == 1 + bit_length(0));
    } else {
        lemma_pow2_unfold((n - 1) as nat);
        lemma_bit_length(m / 2, (n - 1) as nat);
    }
}

/// The pattern without its sign bit.
pub fn abs_of(b: u64) -> (r: u64)
    ensures
        r == abs_bits(b),
{
    if b >= SIGN_BIT {
        b - SIGN_BIT
    } else {
        b
    }
}

/// Whether the pattern is not a number.
pub fn nan(b: u64) -> (r: bool)
    ensures
        r == is_nan(b),
{
    abs_of(b) > INFINITY_BITS
}

/// Whether the number is not zero: the test `x != 0.0`, which holds of a
/// pattern that is not a number.
pub fn nonzero(b: u64) -> (r: bool)
    ensures
        r == !is_zero(b),
{
    abs_of(b) != 0
}

/// Whether `a` equals `b` as numbers.
pub fn eq_bits(a: u64, b: u64) -> (r: bool)
    ensures
        r == float_eq(a, b),
{
    if nan(a) || nan(b) {
        false
    } else if a == b {
        true
    } else {
        abs_of(a) == 0 && abs_of(b) == 0
    }
}

/// Whether `a` is less than `b` as numbers.
pub fn lt_bits(a: u64, b: u64) -> (r: bool)
    ensures
        r == float_lt(a, b),
{
    if nan(a) || nan(b) {
        return false;
    }
    let x = abs_of(a);
    let y = abs_of(b);
    if a >= SIGN_BIT {
        if b >= SIGN_BIT {
            y < x
        } else {
            x != 0 || y != 0
        }
    } else {
        if b >= SIGN_BIT {
            false
        } else {
            x < y
        }
    }
}

/// Whether `a` is less than or equal to `b` as numbers.
pub fn le_bits(a: u64, b: u64) -> (r: bool)
    ensures
        r == float_le(a, b),
{
    lt_bits(a, b) || eq_bits(a, b)
}

/// The integer part of the number, as [`float_trunc`] defines it.
pub fn trunc_bits(b: u64) -> (r: i64)
    ensures
        r == float_trunc(b),
{
    let a = abs_of(b);
    if a > INFINITY_BITS {
        return 0;
    }
    let e = a >> 52;
    if e < 1023 {
        return 0;
    }
    let negative = b >= SIGN_BIT;
    if e >= 1086 {
        return if negative {
            i64::MIN
        } else {
            i64::MAX
        };
    }
    let sig = (a & 0xf_ffff_ffff_ffff) | 0x10_0000_0000_0000;
    let mag = if e >= 1075 {
        let up = e - 1075;
        assert(sig << up < 0x8000_0000_0000_0000) by (bit_vector)
            requires
                sig == (a & 0xf_ffff_ffff_ffff) | 0x10_0000_0000_0000,
                up <= 10,
        ;
        sig << up
    } else {
        let down = 1075 - e;
        assert(sig >> down < 0x8000_0000_0000_0000) by (bit_vector)
            requires
                sig == (a & 0xf_ffff_ffff_ffff) | 0x10_0000_0000_0000,
                down <= 52,
        ;
        sig >> down
    };
    if negative {
        -(mag as i64)
    } else {
        mag as i64
    }
}

/// The pattern of the float nearest to `i`, as [`float_of_int`] defines it.
pub fn of_int(i: i64) -> (r: u64)
    ensures
        r == float_of_int(i),
{
    if i == 0 {
        return 0;
    }
    let m: u64 = magnitude(i);
    let sign: u64 = if i < 0 {
        SIGN_BIT
    } else {
        0
    };
    proof {
        lemma2_to64();
        lemma2_to64_rest();
    }
    if m < 0x20_0000_0000_0000 {
        let mut sig: u64 = m;
        let mut k: u64 = 0;
        while sig < 0x10_0000_0000_0000
            invariant
                1 <= m < 0x20_0000_0000_0000,
                k <= 52,
                sig == m * pow2(k as nat),
                1 <= sig < 0x20_0000_0000_0000,
                sig < 0x10_0000_0000_0000 ==> k < 52,
            decreases 0x20_0000_0000_0000 - sig,
        {
            proof {
                lemma_pow2_unfold((k + 1) as nat);
                assert(m * pow2((k + 1) as nat) == 2 * (m * pow2(k as nat))) by (nonlinear_arith)
                    requires
                        pow2((k + 1) as nat) == 2 * pow2(k as nat),
                ;
                lemma2_to64_rest();
                lemma_scaled_bound(m as nat, (k + 1) as nat, 53);
                if 2 * sig < 0x10_0000_0000_0000 {
                    lemma_scaled_bound(m as nat, (k + 1) as nat, 52);
                }
            }
            sig = sig * 2;
            k = k + 1;
        }
        proof {
            lemma_scaled_length(m as nat, k as nat);
        }
        sign + (1074 - k) * 0x10_0000_0000_0000 + sig
    } else {
        let mut t: u64 = m;
        let mut s: u64 = 0;
        let mut p: u64 = 1;
        while t >= 0x20_0000_0000_0000
            invariant
                m >= 0x20_0000_0000_0000,
                s <= 11,
                p == pow2(s as nat),
                1 <= p <= 2048,
                t == (m as int) / (p as int),
                t >= 0x10_0000_0000_0000,
                s == 0 ==> t == m,
                t >= 0x20_0000_0000_0000 ==> p <= 1024 && s < 11,
            decreases t,
        {
            proof {
                lemma_pow2_unfold((s + 1) as nat);
                lemma_div_denominator(m as int, p as int, 2);
                lemma_quotient_bound(m as int, (2 * p) as int);
                lemma_small_power(s as nat);
                lemma_small_power((s + 1) as nat);
                lemma_fundamental_div_mod(m as int, (2 * p) as int);
                let q = (m as int) / ((2 * p) as int);
                let d = (2 * p) as int;
                if q >= 0x20_0000_0000_0000 {
                    assert(d < 2048) by (nonlinear_arith)
                        requires
                            m == d * q + (m as int) % d,
                            (m as int) % d >= 0,
                            q >= 0x20_0000_0000_0000,
                            m < 0x1_0000_0000_0000_0000,
                            d > 0,
                    ;
                }
            }
            t = t / 2;
            p = p * 2;
            s = s + 1;
        }
        proof {
            lemma_fundamental_div_mod(m as int, p as int);
            lemma_quotient_length(m as nat, s as nat);
            assert(t * p <= m) by (nonlinear_arith)
                requires
                    m == p * t + (m as int) % (p as int),
                    (m as int) % (p as int) >= 0,
                    p > 0,
            ;
        }
        let rest = m - t * p;
        let half = p / 2;
        let up = rest > half || (rest == half && t % 2 == 1);
        let sig = if up {
            t + 1
        } else {
            t
        };
        assert(sig == round_shift(m as nat, s as nat)) by {
            lemma_pow2_unfold(s as nat);
            assert(rest == (m as int) % (p as int)) by (nonlinear_arith)
                requires
                    m == p * t + (m as int) % (p as int),
                    rest == m - t * p,
            ;
        }
        sign + (1074 + s) * 0x10_0000_0000_0000 + sig
    }
}

/// A positive number scaled by two to the power `k` stays below two to the
/// power `e` only where `k` is less than `e`.
proof fn lemma_scaled_bound(m: nat, k: nat, e: nat)
    requires
        m >= 1,
        m * pow2(k) < pow2(e),
    ensures
        k < e,
{
    if k >= e {
        lemma_pow2_adds(e, (k - e) as nat);
        vstd::arithmetic::power2::lemma_pow2_pos((k - e) as nat);
        vstd::arithmetic::power2::lemma_pow2_pos(e);
        let a = pow2(e);
        let b = pow2((k - e) as nat);
        assert(m * pow2(k) >= a) by (nonlinear_arith)
            requires
                pow2(k) == a * b,
                a >= 1,
                b >= 1,
                m >= 1,
        ;
    }
}

/// A number that fills 53 binary digits once it is scaled by two to the power
/// `k` has `53 - k` binary digits.
proof fn lemma_scaled_length(m: nat, k: nat)
    requires
        m >= 1,
        k <= 52,
        0x10_0000_0000_0000 <= m * pow2(k) < 0x20_0000_0000_0000,
    ensures
        bit_length(m) == 53 - k,
{
    lemma2_to64_rest();
    lemma_pow2_adds((52 - k) as nat, k);
    lemma_pow2_adds((53 - k) as nat, k);
    vstd::arithmetic::power2::lemma_pow2_pos(k);
    let a = pow2((52 - k) as nat);
    let b = pow2((53 - k) as nat);
    let c = pow2(k);
    assert(a <= m < b) by (nonlinear_arith)
        requires
            a * c == 0x10_0000_0000_0000,
            b * c == 0x20_0000_0000_0000,
            0x10_0000_0000_0000 <= m * c < 0x20_0000_0000_0000,
            c >= 1,
    ;
    lemma_bit_length(m, (53 - k) as nat);
}

/// A number whose quotient by two to the power `s` fills 53 binary digits has
/// `53 + s` binary digits.
proof fn lemma_quotient_length(m: nat, s: nat)
    requires
        0x10_0000_0000_0000 <= m / pow2(s) < 0x20_0000_0000_0000,
    ensures
        bit_length(m) == 53 + s,
{
    lemma2_to64_rest();
    lemma_pow2_adds(52, s);
    lemma_pow2_adds(53, s);
    vstd::arithmetic::power2::lemma_pow2_pos(s);
    let c = pow2(s);
    lemma_fundamental_div_mod(m as int, c as int);
    let q = m / c;
    let r = m % c;
    assert(pow2(52 + s) <= m < pow2(53 + s)) by (nonlinear_arith)
        requires
            pow2(52 + s) == 0x10_0000_0000_0000 * c,
            pow2(53 + s) == 0x20_0000_0000_0000 * c,
            m == c * q + r,
            0 <= r < c,
            0x10_0000_0000_0000 <= q < 0x20_0000_0000_0000,
    ;
    lemma_bit_length(m, 53 + s);
}

/// The quotient by a positive number is no more than the dividend and not
/// negative.
proof fn lemma_quotient_bound(m: int, d: int)
    by (nonlinear_arith)
    requires
        m >= 0,
        d > 0,
    ensures
        0 <= m / d <= m,
{
}

/// The powers of two up to the eleventh.
proof fn lemma_small_power(s: nat)
    requires
        s <= 11,
    ensures
        pow2(s) == if s == 0 {
            1nat
        } else if s == 1 {
            2
        } else if s == 2 {
            4
        } else if s == 3 {
            8
        } else if s == 4 {
            16
        } else if s == 5 {
            32
        } else if s == 6 {
            64
        } else if s == 7 {
            128
        } else if s == 8 {
            256
        } else if s == 9 {
            512
        } else if s == 10 {
            1024
        } else {
            2048
        },
{
    lemma2_to64();
}

/// The pattern of one for `true`, of zero for `false`.
pub fn of_bool(b: bool) -> (r: u64)
    ensures
        r == float_of_bool(b),
{
    if b {
        ONE_BITS
    } else {
        0
    }
}

} // verus!
