//! FP8 E4M3: a sign, four exponent digits and three significand digits.
//!
//! There is no infinity; the magnitude with all digits set is NaN, and 448 is
//! the largest number.

use crate::float;
use crate::float::arith;
use crate::float::arith::{magnitude_of, signed};
use crate::float::bounds;
use crate::float::small;
use crate::float::small::{code_bits, nearest_code};
use crate::float::{INFINITY, NAN, SIGN};
use vstd::arithmetic::power2::*;
use vstd::prelude::*;

verus! {

/// The bits that a byte decodes to.
pub open spec fn decoded(byte: u8) -> u32 {
    let code = byte % 0x80;
    if code == 0x7F {
        NAN
    } else {
        float::with_sign(
            byte >= 0x80,
            arith::of_dyadic(small::small_units(code as nat, 8) as int, 9) as nat,
        )
    }
}

/// Whether a byte is what bits are encoded as: 0xFF for NaN, else the sign and
/// the nearest magnitude, ties to even, 448 for what is larger.
pub open spec fn encodes(bits: u32, byte: u8) -> bool {
    if float::is_nan(bits) {
        byte == 0xFF
    } else {
        &&& (byte >= 0x80) == float::is_negative(bits)
        &&& small::is_nearest(
            float::units(float::magnitude(bits)),
            (byte % 0x80) as nat,
            8,
            9,
            126,
        )
    }
}

/// Decode one E4M3 byte, without loss.
pub fn fp8_e4m3_to_f32(byte: u8) -> (bits: u32)
    ensures
        bits == decoded(byte),
{
    let code: u8 = byte % 0x80;
    if code == 0x7F {
        return NAN;
    }
    signed(byte >= 0x80, code_bits(code as u32, 8, 9))
}

/// Encode as E4M3: nearest, ties to even, ±448 for what is larger.
pub fn f32_to_fp8_e4m3(value: u32) -> (byte: u8)
    ensures
        encodes(value, byte),
{
    let mag: u32 = magnitude_of(value);
    if mag > INFINITY {
        return 0xFF;
    }
    let code: u8 = nearest_code(mag, 8, 9, 126) as u8;
    if value >= SIGN {
        code + 0x80
    } else {
        code
    }
}

/// Encoding has one result.
pub proof fn law_encoding_is_unique(bits: u32, a: u8, b: u8)
    requires
        encodes(bits, a),
        encodes(bits, b),
    ensures
        a == b,
{
    if !float::is_nan(bits) {
        small::law_nearest_is_unique(
            float::units(float::magnitude(bits)),
            (a % 0x80) as nat,
            (b % 0x80) as nat,
            8,
            9,
            126,
        );
    }
}

/// Every byte is encoded again from what it decodes to, but for the NaN bytes,
/// which become 0xFF.
pub proof fn law_round_trip(byte: u8)
    ensures
        encodes(decoded(byte), if byte % 0x80 == 0x7F { 0xFF } else { byte }),
{
    let code = byte % 0x80;
    if code != 0x7F {
        small::lemma_code_exact(code as nat, 8, 9);
        small::law_codes_are_kept(code as nat, 8, 9, 126);
    }
}

/// A byte is a sign, an exponent of four digits and a fraction of three: one and
/// the fraction in eighths, times two to the exponent less seven; with the
/// exponent zero the fraction in eighths, times 2^-6.
pub proof fn law_fields(negative: bool, e: u8, m: u8)
    requires
        e < 16,
        m < 8,
        e < 15 || m < 7,
    ensures
        ({
            let byte = (if negative {
                0x80int
            } else {
                0
            }) + 8 * e + m;
            let size = if e == 0 {
                m * pow2(140)
            } else {
                (8 + m) * pow2((139 + e) as nat)
            };
            float::value(decoded(byte as u8)) == if negative {
                -size
            } else {
                size
            }
        }),
{
    let code = (8 * e + m) as nat;
    small::lemma_code_exact(code, 8, 9);
    if e > 0 {
        assert(code / 8 == e && code % 8 == m);
        lemma_pow2_adds((e - 1) as nat, 140);
        let (a, b, c) = (pow2((e - 1) as nat) as int, pow2(140) as int, 8 + m);
        assert((c * a) * b == c * (a * b)) by (nonlinear_arith);
    }
}

/// Bits are encoded as the nearest number that there is.
pub proof fn law_encoding_is_nearest(bits: u32, byte: u8, other: u8)
    requires
        float::is_finite(bits),
        encodes(bits, byte),
        other % 0x80 != 0x7F,
    ensures
        bounds::size(float::value(decoded(byte)) - float::value(bits)) <= bounds::size(
            float::value(decoded(other)) - float::value(bits),
        ),
{
    let (a, b) = ((byte % 0x80) as nat, (other % 0x80) as nat);
    small::lemma_code_exact(a, 8, 9);
    small::lemma_code_exact(b, 8, 9);
    let u = float::units(float::magnitude(bits));
    assert(small::distance(u, a, 8, 9) <= small::distance(u, b, 8, 9));
    assert(small::distance(u, a, 8, 9) <= small::distance(u, 0, 8, 9));
    assert(small::code_value(0, 8, 9) == 0) by (nonlinear_arith)
        requires
            small::code_value(0, 8, 9) == small::small_units(0, 8) * pow2(140),
            small::small_units(0, 8) == 0,
    ;
}

} // verus!
