//! Correctly rounded arithmetic on bit patterns.

use crate::float;
use crate::float::rounding;
use crate::float::rounding::{power_of_two, round_parts};
use crate::float::{INFINITY, NAN, SIGN};
use vstd::arithmetic::power2::*;
use vstd::prelude::*;

verus! {

/// `|x|` of an integer.
pub open spec fn abs(x: int) -> nat {
    if x < 0 {
        (-x) as nat
    } else {
        x as nat
    }
}

/// The bits with the sign flipped.
pub open spec fn negated(a: u32) -> u32 {
    float::with_sign(!float::is_negative(a), float::magnitude(a))
}

/// The bits of `a + b`.
pub open spec fn sum(a: u32, b: u32) -> u32 {
    if float::is_nan(a) || float::is_nan(b) {
        NAN
    } else if float::is_infinite(a) {
        if float::is_infinite(b) && float::is_negative(a) != float::is_negative(b) {
            NAN
        } else {
            a
        }
    } else if float::is_infinite(b) {
        b
    } else {
        let exact = float::value(a) + float::value(b);
        if exact == 0 {
            float::with_sign(float::is_negative(a) && float::is_negative(b), 0)
        } else {
            float::with_sign(exact < 0, rounding::round_to_magnitude(abs(exact), 1))
        }
    }
}

/// The bits of `a - b`.
pub open spec fn difference(a: u32, b: u32) -> u32 {
    sum(a, negated(b))
}

/// The bits of `a * b`.
pub open spec fn product(a: u32, b: u32) -> u32 {
    let negative = float::is_negative(a) != float::is_negative(b);
    if float::is_nan(a) || float::is_nan(b) {
        NAN
    } else if float::is_infinite(a) || float::is_infinite(b) {
        if float::is_zero(a) || float::is_zero(b) {
            NAN
        } else {
            float::with_sign(negative, 0x7F80_0000)
        }
    } else {
        float::with_sign(
            negative,
            rounding::round_to_magnitude(
                float::units(float::magnitude(a)) * float::units(float::magnitude(b)),
                pow2(149),
            ),
        )
    }
}

/// The bits of `a / b`.
pub open spec fn quotient(a: u32, b: u32) -> u32 {
    let negative = float::is_negative(a) != float::is_negative(b);
    if float::is_nan(a) || float::is_nan(b) {
        NAN
    } else if float::is_infinite(a) && float::is_infinite(b) || float::is_zero(a)
        && float::is_zero(b) {
        NAN
    } else if float::is_infinite(a) || float::is_zero(b) {
        float::with_sign(negative, 0x7F80_0000)
    } else if float::is_infinite(b) {
        float::with_sign(negative, 0)
    } else {
        float::with_sign(
            negative,
            rounding::round_to_magnitude(
                float::units(float::magnitude(a)) * pow2(149),
                float::units(float::magnitude(b)),
            ),
        )
    }
}

/// The bits of an integer.
pub open spec fn of_integer(n: int) -> u32 {
    float::with_sign(n < 0, rounding::round_to_magnitude(abs(n) * pow2(149), 1))
}

/// The bits of a fraction with a power of two below the line.
pub open spec fn of_dyadic(n: int, places: nat) -> u32 {
    float::with_sign(n < 0, rounding::round_to_magnitude(abs(n) * pow2(149), pow2(places)))
}

/// What is left of the bits without the sign.
pub fn magnitude_of(bits: u32) -> (mag: u32)
    ensures
        mag == float::magnitude(bits),
        mag < 0x8000_0000,
        bits == float::with_sign(float::is_negative(bits), mag as nat),
{
    bits % SIGN
}

/// Bits put together from a sign and a magnitude.
pub fn signed(negative: bool, mag: u32) -> (bits: u32)
    requires
        mag < 0x8000_0000,
    ensures
        bits == float::with_sign(negative, mag as nat),
        float::magnitude(bits) == mag,
        float::is_negative(bits) == negative,
{
    if negative {
        mag + SIGN
    } else {
        mag
    }
}

/// Whether the bits stand for no number.
pub fn nan(bits: u32) -> (r: bool)
    ensures
        r == float::is_nan(bits),
{
    bits % SIGN > INFINITY
}

/// Whether the bits stand for a finite number.
pub fn finite(bits: u32) -> (r: bool)
    ensures
        r == float::is_finite(bits),
{
    bits % SIGN < INFINITY
}

/// `-a`.
pub fn fneg(a: u32) -> (r: u32)
    ensures
        r == negated(a),
{
    if a >= SIGN {
        a - SIGN
    } else {
        a + SIGN
    }
}

/// `|a|`.
pub fn fabs(a: u32) -> (r: u32)
    ensures
        r == float::with_sign(false, float::magnitude(a)),
{
    a % SIGN
}

/// Exponent of a finite magnitude.
pub(crate) fn exponent_of(mag: u32) -> (e: u32)
    requires
        mag < 0x7F80_0000,
    ensures
        e == float::exponent(mag as nat),
        e <= 253,
{
    if mag < 0x80_0000 {
        0
    } else {
        mag / 0x80_0000 - 1
    }
}

/// Significand of a finite magnitude.
pub(crate) fn significand_of(mag: u32) -> (m: u32)
    requires
        mag < 0x7F80_0000,
    ensures
        m == float::significand(mag as nat),
        m < 0x100_0000,
        m == 0 <==> mag == 0,
        mag >= 0x80_0000 ==> m >= 0x80_0000,
        float::units(mag as nat) == m * pow2(float::exponent(mag as nat)),
{
    if mag < 0x80_0000 {
        mag
    } else {
        mag % 0x80_0000 + 0x80_0000
    }
}

/// A finite magnitude is zero exactly where its units are.
pub proof fn lemma_units_zero(mag: nat)
    ensures
        float::units(mag) == 0 <==> mag == 0,
{
    lemma_pow2_pos(float::exponent(mag));
    let m = float::significand(mag);
    let p = pow2(float::exponent(mag));
    assert(m * p == 0 <==> m == 0) by (nonlinear_arith)
        requires
            p > 0,
            m >= 0,
    ;
}

/// `a * b`.
pub fn fmul(a: u32, b: u32) -> (r: u32)
    ensures
        r == product(a, b),
{
    let x: u32 = magnitude_of(a);
    let y: u32 = magnitude_of(b);
    let negative: bool = (a >= SIGN) != (b >= SIGN);
    if x > INFINITY || y > INFINITY {
        return NAN;
    }
    if x == INFINITY || y == INFINITY {
        if x == 0 || y == 0 {
            return NAN;
        }
        return signed(negative, INFINITY);
    }
    let p: u32 = exponent_of(x);
    let q: u32 = exponent_of(y);
    let m: u32 = significand_of(x);
    let n: u32 = significand_of(y);
    assert(0 <= m * n < 0x1_0000_0000_0000) by (nonlinear_arith)
        requires
            0 <= m < 0x100_0000,
            0 <= n < 0x100_0000,
    ;
    let exact: u128 = m as u128 * n as u128;
    proof {
        lemma_pow2_adds(p as nat, q as nat);
        lemma_pow2_pos(149);
        let num = float::units(x as nat) * float::units(y as nat);
        assert(exact * (pow2((p + q) as nat) * pow2(149)) == num * pow2(149)) by (nonlinear_arith)
            requires
                exact == m * n,
                num == (m * pow2(p as nat)) * (n * pow2(q as nat)),
                pow2((p + q) as nat) == pow2(p as nat) * pow2(q as nat),
        ;
    }
    let mag: u32 = round_parts(
        exact,
        p + q,
        149,
        false,
        Ghost(float::units(x as nat) * float::units(y as nat)),
        Ghost(pow2(149)),
    );
    signed(negative, mag)
}

/// `a / b`.
pub fn fdiv(a: u32, b: u32) -> (r: u32)
    ensures
        r == quotient(a, b),
{
    let x: u32 = magnitude_of(a);
    let y: u32 = magnitude_of(b);
    let negative: bool = (a >= SIGN) != (b >= SIGN);
    if x > INFINITY || y > INFINITY || (x == INFINITY && y == INFINITY) || (x == 0 && y == 0) {
        return NAN;
    }
    if x == INFINITY || y == 0 {
        return signed(negative, INFINITY);
    }
    if y == INFINITY {
        return signed(negative, 0);
    }
    let p: u32 = exponent_of(x);
    let q: u32 = exponent_of(y);
    let m: u32 = significand_of(x);
    let n: u32 = significand_of(y);
    let ghost num = float::units(x as nat) * pow2(149);
    let ghost den = float::units(y as nat);
    proof {
        lemma_units_zero(y as nat);
    }
    let wide: u128 = m as u128 * 0x1000_0000_0000_0000;
    let floor: u128 = wide / n as u128;
    let rest: u128 = wide % n as u128;
    proof {
        lemma2_to64();
        lemma2_to64_rest();
        vstd::arithmetic::div_mod::lemma_fundamental_div_mod(wide as int, n as int);
        lemma_pow2_adds(p as nat, 149);
        lemma_pow2_adds(60, q as nat);
        lemma_pow2_pos((p + 149) as nat);
        lemma_pow2_pos((60 + q) as nat);
        lemma_pow2_pos(q as nat);
        let up = pow2((p + 149) as nat);
        let down = pow2((60 + q) as nat);
        let scale = up * pow2(q as nat);
        assert(scale > 0) by (nonlinear_arith)
            requires
                scale == up * pow2(q as nat),
                up > 0,
                pow2(q as nat) > 0,
        ;
        assert(num * down == wide * scale) by (nonlinear_arith)
            requires
                num == (m * pow2(p as nat)) * pow2(149),
                down == 0x1000_0000_0000_0000 * pow2(q as nat),
                up == pow2(p as nat) * pow2(149),
                wide == m * 0x1000_0000_0000_0000,
                scale == up * pow2(q as nat),
        ;
        assert(up * den == n * scale) by (nonlinear_arith)
            requires
                den == n * pow2(q as nat),
                scale == up * pow2(q as nat),
        ;
        assert(floor * (n * scale) + rest * scale == wide * scale) by (nonlinear_arith)
            requires
                wide == n * floor + rest,
        ;
        assert((floor + 1) * (n * scale) == floor * (n * scale) + n * scale) by (nonlinear_arith);
        assert(0 <= rest * scale < n * scale) by (nonlinear_arith)
            requires
                0 <= rest < n,
                scale > 0,
        ;
        assert(rest > 0 ==> rest * scale > 0) by (nonlinear_arith)
            requires
                scale > 0,
        ;
        assert(rest == 0 ==> rest * scale == 0) by (nonlinear_arith);
        if m > 0 {
            assert(floor >= 0x200_0000) by (nonlinear_arith)
                requires
                    wide == n * floor + rest,
                    rest < n < 0x100_0000,
                    wide >= 0x1000_0000_0000_0000,
            ;
        } else {
            assert(floor == 0) by (nonlinear_arith)
                requires
                    0 == n * floor + rest,
                    n > 0,
                    rest >= 0,
                    floor >= 0,
            ;
        }
    }
    let mag: u32 = round_parts(floor, p + 149, 60 + q, rest > 0, Ghost(num), Ghost(den));
    signed(negative, mag)
}

/// The sum of two finite numbers, the one with the larger exponent first.
fn add_ordered(a: u32, b: u32) -> (r: u32)
    requires
        float::is_finite(a),
        float::is_finite(b),
        float::exponent(float::magnitude(a)) >= float::exponent(float::magnitude(b)),
    ensures
        r == sum(a, b),
{
    let x: u32 = magnitude_of(a);
    let y: u32 = magnitude_of(b);
    let p: u32 = exponent_of(x);
    let q: u32 = exponent_of(y);
    let m: u32 = significand_of(x);
    let n: u32 = significand_of(y);
    let first_negative: bool = a >= SIGN;
    let second_negative: bool = b >= SIGN;
    let ghost exact = float::value(a) + float::value(b);
    let gap: u32 = p - q;
    proof {
        lemma_pow2_pos(q as nat);
        lemma_pow2_adds(gap as nat, q as nat);
    }
    if gap <= 90 {
        let factor: u128 = power_of_two(gap);
        proof {
            rounding::lemma_pow2_monotone(gap as nat, 90);
            lemma2_to64();
            lemma2_to64_rest();
            lemma_pow2_adds(45, 45);
            assert(0 <= m * factor <= 0x100_0000 * 0x400_0000_0000_0000_0000_0000) by (nonlinear_arith)
                requires
                    0 <= m < 0x100_0000,
                    0 <= factor <= 0x400_0000_0000_0000_0000_0000,
            ;
        }
        let large: u128 = m as u128 * factor;
        let small: u128 = n as u128;
        let same: bool = first_negative == second_negative;
        let total: u128 = if same {
            large + small
        } else if large >= small {
            large - small
        } else {
            small - large
        };
        let negative: bool = if same || large >= small {
            first_negative
        } else {
            second_negative
        };
        proof {
            let one = pow2(q as nat);
            assert(float::units(x as nat) == large * one) by (nonlinear_arith)
                requires
                    float::units(x as nat) == m * pow2(p as nat),
                    pow2(p as nat) == factor * one,
                    large == m * factor,
            ;
            assert((large + small) * one == large * one + small * one) by (nonlinear_arith);
            assert((large - small) * one == large * one - small * one) by (nonlinear_arith);
            assert((small - large) * one == small * one - large * one) by (nonlinear_arith);
            assert(total * one == abs(exact) && (total > 0 ==> negative == (exact < 0))) by {
                assert(total > 0 ==> total * one > 0) by (nonlinear_arith)
                    requires
                        one > 0,
                ;
                assert(total == 0 ==> total * one == 0) by (nonlinear_arith);
            }
            assert(total * (one * 1) == total * one) by (nonlinear_arith);
            assert(abs(exact) * pow2(0) == abs(exact)) by (nonlinear_arith)
                requires
                    pow2(0) == 1,
            ;
            assert(total == 0 <==> exact == 0) by {
                assert(total > 0 ==> total * one > 0) by (nonlinear_arith)
                    requires
                        one > 0,
                ;
            }
        }
        if total == 0 {
            return signed(first_negative && second_negative, 0);
        }
        let mag: u32 = round_parts(total, q, 0, false, Ghost(abs(exact)), Ghost(1));
        return signed(negative, mag);
    }
    // The first operand is normal and the second is below one step of it.
    let ghost one = pow2((p - 40) as nat);
    let ghost tail = float::units(y as nat);
    proof {
        lemma2_to64();
        lemma2_to64_rest();
        lemma_pow2_adds((p - 40) as nat, 40);
        lemma_pow2_pos((p - 40) as nat);
        lemma_pow2_adds(24, q as nat);
        rounding::lemma_pow2_monotone((24 + q) as nat, (p - 40) as nat);
        assert(tail < one) by (nonlinear_arith)
            requires
                tail == n * pow2(q as nat),
                n < 0x100_0000,
                pow2(q as nat) > 0,
                0x100_0000 * pow2(q as nat) <= one,
        ;
        assert(float::units(x as nat) == (m * 0x100_0000_0000) * one) by (nonlinear_arith)
            requires
                float::units(x as nat) == m * pow2(p as nat),
                pow2(p as nat) == one * 0x100_0000_0000,
        ;
        assert(n > 0 ==> tail > 0) by (nonlinear_arith)
            requires
                tail == n * pow2(q as nat),
                pow2(q as nat) > 0,
        ;
        assert(n == 0 ==> tail == 0) by (nonlinear_arith)
            requires
                tail == n * pow2(q as nat),
        ;
        let lead = m * 0x100_0000_0000;
        assert((lead + 1) * one == lead * one + one) by (nonlinear_arith);
        assert((lead - 1) * one == lead * one - one) by (nonlinear_arith);
        assert(lead * one >= one) by (nonlinear_arith)
            requires
                lead >= 1,
                one > 0,
        ;
        assert(one * 1 == one);
        assert(abs(exact) * pow2(0) == abs(exact)) by (nonlinear_arith)
            requires
                pow2(0) == 1,
        ;
    }
    let lead: u128 = m as u128 * 0x100_0000_0000;
    let total: u128 = if n == 0 || first_negative == second_negative {
        lead
    } else {
        lead - 1
    };
    let mag: u32 = round_parts(total, p - 40, 0, n > 0, Ghost(abs(exact)), Ghost(1));
    signed(first_negative, mag)
}

/// The order of the operands does not matter to a sum.
pub proof fn lemma_sum_commutes(a: u32, b: u32)
    ensures
        sum(a, b) == sum(b, a),
{
    if float::is_infinite(a) && float::is_infinite(b) && float::is_negative(a) == float::is_negative(b) {
        assert(a == b);
    }
}

/// `a + b`.
pub fn fadd(a: u32, b: u32) -> (r: u32)
    ensures
        r == sum(a, b),
{
    let x: u32 = magnitude_of(a);
    let y: u32 = magnitude_of(b);
    if x > INFINITY || y > INFINITY {
        return NAN;
    }
    if x == INFINITY {
        if y == INFINITY && (a >= SIGN) != (b >= SIGN) {
            return NAN;
        }
        return a;
    }
    if y == INFINITY {
        return b;
    }
    if exponent_of(x) >= exponent_of(y) {
        add_ordered(a, b)
    } else {
        proof {
            lemma_sum_commutes(a, b);
        }
        add_ordered(b, a)
    }
}

/// `a - b`.
pub fn fsub(a: u32, b: u32) -> (r: u32)
    ensures
        r == difference(a, b),
{
    fadd(a, fneg(b))
}

/// The nearest number to an integer.
pub fn from_u64(n: u64) -> (r: u32)
    ensures
        r == of_integer(n as int),
{
    proof {
        lemma2_to64();
        let num = n as nat * pow2(149);
        assert(n * (pow2(149) * 1) == num * pow2(0)) by (nonlinear_arith)
            requires
                num == n * pow2(149),
                pow2(0) == 1,
        ;
    }
    round_parts(n as u128, 149, 0, false, Ghost(n as nat * pow2(149)), Ghost(1))
}

/// The nearest number to a signed integer.
pub fn from_i64(n: i64) -> (r: u32)
    ensures
        r == of_integer(n as int),
{
    let size: u64 = if n >= 0 {
        n as u64
    } else if n == i64::MIN {
        0x8000_0000_0000_0000
    } else {
        (-n) as u64
    };
    let mag: u32 = from_u64(size);
    signed(n < 0, mag)
}

/// The nearest number to `n / 2^places`.
pub fn from_dyadic(n: u64, places: u32) -> (r: u32)
    requires
        places <= 149,
    ensures
        r == of_dyadic(n as int, places as nat),
        r <= INFINITY,
{
    proof {
        lemma_pow2_pos(places as nat);
        let num = n as nat * pow2(149);
        assert(n * (pow2(149) * pow2(places as nat)) == num * pow2(places as nat)) by (nonlinear_arith)
            requires
                num == n * pow2(149),
        ;
    }
    round_parts(
        n as u128,
        149,
        places,
        false,
        Ghost(n as nat * pow2(149)),
        Ghost(pow2(places as nat)),
    )
}

} // verus!
