//! Rounding numbers to integers.

pub mod steps;

use crate::float;
use crate::float::arith;
use crate::float::arith::{finite, from_u64, magnitude_of, nan, signed};
use crate::float::rounding;
use crate::float::rounding::power_of_two;
use crate::float::SIGN;
use vstd::arithmetic::power2::*;
use vstd::prelude::*;

verus! {

/// The largest integer that is not above a magnitude.
pub open spec fn whole(mag: nat) -> nat {
    float::units(mag) / pow2(149)
}

/// Whether a magnitude is no integer.
pub open spec fn broken(mag: nat) -> bool {
    float::units(mag) % pow2(149) != 0
}

/// The bits of the largest integer that is not above a number. What is no
/// finite number stays; a zero keeps its sign.
pub open spec fn floored(a: u32) -> u32 {
    let mag = float::magnitude(a);
    if !float::is_finite(a) {
        a
    } else if float::is_negative(a) && broken(mag) {
        float::with_sign(true, arith::of_integer((whole(mag) + 1) as int) as nat)
    } else {
        float::with_sign(float::is_negative(a), arith::of_integer(whole(mag) as int) as nat)
    }
}

/// The bits of the smallest integer that is not below a number. What is no
/// finite number stays; a zero keeps its sign, and so does what becomes zero.
pub open spec fn ceiled(a: u32) -> u32 {
    let mag = float::magnitude(a);
    if !float::is_finite(a) {
        a
    } else if !float::is_negative(a) && broken(mag) {
        arith::of_integer((whole(mag) + 1) as int)
    } else {
        float::with_sign(float::is_negative(a), arith::of_integer(whole(mag) as int) as nat)
    }
}

/// The integer nearest to a finite number, the even one of two that are as
/// near.
pub open spec fn nearest(a: u32) -> int {
    let n = rounding::nearest_even(float::units(float::magnitude(a)), pow2(149)) as int;
    if float::is_negative(a) {
        -n
    } else {
        n
    }
}

/// An integer brought into the range of eight bits.
pub open spec fn clamped(n: int) -> int {
    if n < -128 {
        -128
    } else if n > 127 {
        127
    } else {
        n
    }
}

/// The nearest 8-bit integer; zero for what is no number.
pub open spec fn as_byte(a: u32) -> int {
    if float::is_nan(a) {
        0
    } else if float::is_infinite(a) {
        if float::is_negative(a) {
            -128
        } else {
            127
        }
    } else {
        clamped(nearest(a))
    }
}

/// The units of a magnitude below 2^24, over 2^149.
proof fn lemma_parts(mag: nat)
    requires
        mag < 0x4B80_0000,
    ensures
        float::exponent(mag) < 150,
        float::units(mag) / pow2(149) == float::significand(mag) / pow2(
            (149 - float::exponent(mag)) as nat,
        ),
        float::units(mag) % pow2(149) == (float::significand(mag) % pow2(
            (149 - float::exponent(mag)) as nat,
        )) * pow2(float::exponent(mag)),
{
    let p = float::exponent(mag);
    let m = float::significand(mag);
    let d = pow2((149 - p) as nat);
    let e = pow2(p);
    lemma_pow2_adds((149 - p) as nat, p);
    lemma_pow2_pos((149 - p) as nat);
    lemma_pow2_pos(p);
    vstd::arithmetic::div_mod::lemma_fundamental_div_mod(m as int, d as int);
    let q = m / d;
    let r = m % d;
    assert(m * e == q * (d * e) + r * e) by (nonlinear_arith)
        requires
            m == d * q + r,
    ;
    assert(r * e < d * e) by (nonlinear_arith)
        requires
            0 <= r < d,
            e > 0,
    ;
    assert(r * e >= 0) by (nonlinear_arith)
        requires
            r >= 0,
            e > 0,
    ;
    vstd::arithmetic::div_mod::lemma_fundamental_div_mod_converse(
        (m * e) as int,
        (d * e) as int,
        q as int,
        (r * e) as int,
    );
}

/// Integer part of a magnitude below 2^24, whether anything is left, and how
/// what is left compares to a half: 0 below, 1 equal, 2 above.
fn split(mag: u32) -> (r: (u32, bool, u8))
    requires
        mag < 0x4B80_0000,
    ensures
        r.0 == whole(mag as nat),
        r.0 < 0x100_0000,
        r.1 == broken(mag as nat),
        r.2 == 0 <==> 2 * (float::units(mag as nat) % pow2(149)) < pow2(149),
        r.2 == 1 <==> 2 * (float::units(mag as nat) % pow2(149)) == pow2(149),
        r.2 <= 2,
{
    let p: u32 = if mag < 0x80_0000 {
        0
    } else {
        mag / 0x80_0000 - 1
    };
    let m: u32 = if mag < 0x80_0000 {
        mag
    } else {
        mag % 0x80_0000 + 0x80_0000
    };
    proof {
        lemma2_to64();
        lemma_parts(mag as nat);
        lemma_pow2_pos(p as nat);
        lemma_pow2_pos((149 - p) as nat);
        lemma_pow2_adds((149 - p) as nat, p as nat);
        let d = pow2((149 - p) as nat);
        let e = pow2(p as nat);
        let r = m as nat % d;
        assert(2 * (r * e) < d * e <==> 2 * r < d) by (nonlinear_arith)
            requires
                e > 0,
        ;
        assert(2 * (r * e) == d * e <==> 2 * r == d) by (nonlinear_arith)
            requires
                e > 0,
        ;
        assert(r * e == 0 <==> r == 0) by (nonlinear_arith)
            requires
                e > 0,
                r >= 0,
        ;
    }
    if 149 - p > 30 {
        proof {
            rounding::lemma_pow2_monotone(30, (149 - p) as nat);
            vstd::arithmetic::div_mod::lemma_small_mod(m as nat, pow2((149 - p) as nat));
            vstd::arithmetic::div_mod::lemma_basic_div(m as int, pow2((149 - p) as nat) as int);
        }
        (0, m != 0, 0)
    } else {
        let d: u64 = power_of_two(149 - p) as u64;
        proof {
            rounding::lemma_pow2_monotone((149 - p) as nat, 30);
            vstd::arithmetic::div_mod::lemma_div_is_ordered_by_denominator(m as int, 1, d as int);
        }
        let q: u64 = m as u64 / d;
        let r: u64 = m as u64 % d;
        let half: u8 = if 2 * r < d {
            0
        } else if 2 * r == d {
            1
        } else {
            2
        };
        (q as u32, r != 0, half)
    }
}

/// A magnitude from 2^23 on is an integer, and the integer part has the same
/// bits.
proof fn lemma_large(mag: nat)
    requires
        0x4B00_0000 <= mag < 0x7F80_0000,
    ensures
        !broken(mag),
        arith::of_integer(whole(mag) as int) == mag,
{
    let p = float::exponent(mag);
    let m = float::significand(mag);
    assert(p >= 149);
    lemma_pow2_adds(149, (p - 149) as nat);
    lemma_pow2_pos(149);
    let k = pow2((p - 149) as nat);
    assert(float::units(mag) == (m * k) * pow2(149)) by (nonlinear_arith)
        requires
            float::units(mag) == m * pow2(p),
            pow2(p) == pow2(149) * k,
    ;
    vstd::arithmetic::div_mod::lemma_fundamental_div_mod_converse(
        float::units(mag) as int,
        pow2(149) as int,
        (m * k) as int,
        0,
    );
    assert(m * k >= 0) by (nonlinear_arith)
        requires
            m >= 0,
            k >= 0,
    ;
    crate::float::order::law_rounding_keeps_numbers(mag, 1);
}

/// The largest integer that is not above a number.
pub fn floor(a: u32) -> (r: u32)
    ensures
        r == floored(a),
{
    let mag: u32 = magnitude_of(a);
    if mag >= 0x4B00_0000 {
        if finite(a) {
            proof {
                lemma_large(mag as nat);
            }
        }
        return a;
    }
    let (n, rest, half) = split(mag);
    if a >= SIGN && rest {
        signed(true, from_u64(n as u64 + 1))
    } else {
        signed(a >= SIGN, from_u64(n as u64))
    }
}

/// The smallest integer that is not below a number.
pub fn ceil(a: u32) -> (r: u32)
    ensures
        r == ceiled(a),
{
    let mag: u32 = magnitude_of(a);
    if mag >= 0x4B00_0000 {
        if finite(a) {
            proof {
                lemma_large(mag as nat);
            }
        }
        return a;
    }
    let (n, rest, half) = split(mag);
    if a < SIGN && rest {
        from_u64(n as u64 + 1)
    } else {
        signed(a >= SIGN, from_u64(n as u64))
    }
}

/// A magnitude from 128 on has an integer part of at least that.
proof fn lemma_over(mag: nat)
    requires
        0x4300_0000 <= mag < 0x7F80_0000,
    ensures
        rounding::nearest_even(float::units(mag), pow2(149)) >= 128,
{
    lemma2_to64();
    lemma_pow2_pos(149);
    lemma_pow2_adds(149, 7);
    lemma_pow2_adds(23, 133);
    assert(float::exponent(0x4300_0000) == 133);
    assert(float::significand(0x4300_0000) == 0x80_0000);
    assert(float::units(0x4300_0000) == 128 * pow2(149));
    if mag > 0x4300_0000 {
        crate::float::order::lemma_units_increase(0x4300_0000, mag);
    }
    assert(float::units(mag) / pow2(149) >= 128) by {
        vstd::arithmetic::div_mod::lemma_div_is_ordered(
            128 * pow2(149) as int,
            float::units(mag) as int,
            pow2(149) as int,
        );
        vstd::arithmetic::div_mod::lemma_div_multiples_vanish(128, pow2(149) as int);
        assert(128 * pow2(149) == pow2(149) * 128);
    }
}

/// The nearest 8-bit integer.
pub fn to_byte(a: u32) -> (r: i8)
    ensures
        r == as_byte(a),
{
    if nan(a) {
        return 0;
    }
    let mag: u32 = magnitude_of(a);
    if mag >= 0x4300_0000 {
        if finite(a) {
            proof {
                lemma_over(mag as nat);
            }
        }
        return if a >= SIGN {
            -128
        } else {
            127
        };
    }
    let (n, rest, half) = split(mag);
    proof {
        lemma2_to64();
        lemma_pow2_pos(149);
        lemma_pow2_adds(149, 7);
        lemma_pow2_adds(23, 133);
        assert(float::exponent(0x4300_0000) == 133);
        assert(float::significand(0x4300_0000) == 0x80_0000);
        assert(float::units(0x4300_0000) == 128 * pow2(149));
        crate::float::order::lemma_units_increase(mag as nat, 0x4300_0000);
        assert(float::units(mag as nat) / pow2(149) < 128) by {
            vstd::arithmetic::div_mod::lemma_fundamental_div_mod(
                float::units(mag as nat) as int,
                pow2(149) as int,
            );
            let q = float::units(mag as nat) / pow2(149);
            assert(q < 128) by (nonlinear_arith)
                requires
                    pow2(149) * q <= float::units(mag as nat),
                    float::units(mag as nat) < 128 * pow2(149),
                    pow2(149) > 0,
            ;
        }
    }
    let near: u32 = if half == 2 || (half == 1 && n % 2 == 1) {
        n + 1
    } else {
        n
    };
    if a >= SIGN {
        -(near as i16) as i8
    } else if near > 127 {
        127
    } else {
        near as i8
    }
}

} // verus!
