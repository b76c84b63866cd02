//! Widening the 16-bit formats to single precision.

use crate::float;
use crate::float::arith;
use crate::float::arith::signed;
use crate::float::order;
use crate::float::rounding;
use crate::float::rounding::round_parts;
use crate::float::{INFINITY, NAN};
use vstd::arithmetic::power2::*;
use vstd::prelude::*;

verus! {

/// Absolute value of a finite half-precision magnitude, in units of 2^-24.
pub open spec fn half_units(mag: nat) -> nat {
    if mag < 0x400 {
        mag
    } else {
        (mag % 0x400 + 0x400) * pow2((mag / 0x400 - 1) as nat)
    }
}

/// The single-precision bits of a half-precision number: the same value, the
/// same infinity, or a quiet NaN with the same low digits.
pub open spec fn of_half(bits: u16) -> u32 {
    let mag = (bits % 0x8000) as nat;
    if mag > 0x7C00 {
        float::with_sign(bits >= 0x8000, NAN as nat + mag % 0x200 * 0x2000)
    } else if mag == 0x7C00 {
        float::with_sign(bits >= 0x8000, INFINITY as nat)
    } else {
        float::with_sign(
            bits >= 0x8000,
            rounding::round_to_magnitude(half_units(mag) * pow2(125), 1),
        )
    }
}

/// The single-precision bits of a brain floating-point number: the same value,
/// the same infinity, or a quiet NaN with the same low digits.
pub open spec fn of_brain(bits: u16) -> u32 {
    if bits % 0x8000 > 0x7F80 {
        float::with_sign(bits >= 0x8000, NAN as nat + (bits % 0x40) as nat * 0x1_0000)
    } else {
        (bits * 0x1_0000) as u32
    }
}

/// The single-precision bits of a half-precision number.
pub fn from_half(bits: u16) -> (r: u32)
    ensures
        r == of_half(bits),
{
    let mag: u16 = bits % 0x8000;
    let negative: bool = bits >= 0x8000;
    if mag > 0x7C00 {
        return signed(negative, NAN + (mag % 0x200) as u32 * 0x2000);
    }
    if mag == 0x7C00 {
        return signed(negative, INFINITY);
    }
    let significand: u16 = if mag < 0x400 {
        mag
    } else {
        mag % 0x400 + 0x400
    };
    let exponent: u16 = if mag < 0x400 {
        0
    } else {
        mag / 0x400 - 1
    };
    let ghost num = half_units(mag as nat) * pow2(125);
    proof {
        lemma2_to64();
        lemma_pow2_adds(exponent as nat, 125);
        assert(significand * (pow2((exponent + 125) as nat) * 1) == num * pow2(0)) by (nonlinear_arith)
            requires
                num == (significand * pow2(exponent as nat)) * pow2(125),
                pow2((exponent + 125) as nat) == pow2(exponent as nat) * pow2(125),
                pow2(0) == 1,
        ;
    }
    let wide: u32 = round_parts(
        significand as u128,
        exponent as u32 + 125,
        0,
        false,
        Ghost(num),
        Ghost(1),
    );
    signed(negative, wide)
}

/// The single-precision bits of a brain floating-point number.
pub fn from_brain(bits: u16) -> (r: u32)
    ensures
        r == of_brain(bits),
{
    if bits % 0x8000 > 0x7F80 {
        signed(bits >= 0x8000, NAN + (bits % 0x40) as u32 * 0x1_0000)
    } else {
        bits as u32 * 0x1_0000
    }
}

/// Widening is lossless: the value of a finite half-precision number, in units
/// of 2^-149, is what its widened bits stand for.
pub proof fn law_half_is_lossless(bits: u16)
    requires
        bits % 0x8000 < 0x7C00,
    ensures
        float::is_finite(of_half(bits)),
        float::units(float::magnitude(of_half(bits))) == half_units((bits % 0x8000) as nat) * pow2(
            125,
        ),
        float::is_negative(of_half(bits)) == (bits >= 0x8000),
{
    let mag = (bits % 0x8000) as nat;
    let num = half_units(mag) * pow2(125);
    lemma2_to64();
    lemma_pow2_pos(125);
    if mag == 0 {
        assert(num == 0) by (nonlinear_arith)
            requires
                num == 0 * pow2(125),
        ;
        assert(num * 1 == 0);
        order::law_rounding_keeps_numbers(0, 1);
        arith::lemma_units_zero(0);
    } else {
        let s = if mag < 0x400 {
            mag
        } else {
            mag % 0x400 + 0x400
        };
        let e = if mag < 0x400 {
            0
        } else {
            (mag / 0x400 - 1) as nat
        };
        lemma_pow2_adds(e, 125);
        assert(s * pow2(e + 125) == num) by (nonlinear_arith)
            requires
                num == half_units(mag) * pow2(125),
                pow2(e + 125) == pow2(e) * pow2(125),
                half_units(mag) == s * pow2(e) || (half_units(mag) == s && pow2(e) == 1),
        ;
        order::lemma_exact(s, e + 125, 1);
    }
}

} // verus!
