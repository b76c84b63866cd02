//! Single-precision numbers as bit patterns.
//!
//! A `u32` stands for the IEEE 754 binary32 number with these bits. Every
//! operation rounds once, to nearest with ties to even, as the hardware does.

pub mod arith;
pub mod bounds;
pub mod exact;
pub mod float16;
pub mod fold;
pub mod function;
pub mod fused;
pub mod integer;
pub mod order;
pub mod ratio;
pub mod rounding;
pub mod shares;
pub mod small;
pub mod sums;
pub mod weights;

use vstd::arithmetic::power2::*;
use vstd::prelude::*;

verus! {

/// The magnitude bits of infinity; larger magnitudes are NaN.
pub const INFINITY: u32 = 0x7F80_0000;

/// The quiet NaN that invalid operations return.
pub const NAN: u32 = 0x7FC0_0000;

/// The sign bit.
pub const SIGN: u32 = 0x8000_0000;

/// Whether the sign bit is set.
pub open spec fn is_negative(bits: u32) -> bool {
    bits >= 0x8000_0000
}

/// The bits without the sign.
pub open spec fn magnitude(bits: u32) -> nat {
    (bits % 0x8000_0000) as nat
}

/// Whether the bits stand for no number.
pub open spec fn is_nan(bits: u32) -> bool {
    magnitude(bits) > 0x7F80_0000
}

/// Whether the bits stand for an infinity of either sign.
pub open spec fn is_infinite(bits: u32) -> bool {
    magnitude(bits) == 0x7F80_0000
}

/// Whether the bits stand for a finite number.
pub open spec fn is_finite(bits: u32) -> bool {
    magnitude(bits) < 0x7F80_0000
}

/// Whether the bits stand for a zero of either sign.
pub open spec fn is_zero(bits: u32) -> bool {
    magnitude(bits) == 0
}

/// Power of two that the significand of a finite magnitude is multiplied by,
/// in units of the smallest subnormal.
pub open spec fn exponent(mag: nat) -> nat {
    if mag < 0x80_0000 {
        0
    } else {
        (mag / 0x80_0000 - 1) as nat
    }
}

/// Significand of a finite magnitude, the implicit leading bit included.
pub open spec fn significand(mag: nat) -> nat {
    if mag < 0x80_0000 {
        mag
    } else {
        mag % 0x80_0000 + 0x80_0000
    }
}

/// Absolute value of a finite magnitude, in units of 2^-149.
pub open spec fn units(mag: nat) -> nat {
    significand(mag) * pow2(exponent(mag))
}

/// The value of finite bits, in units of 2^-149.
pub open spec fn value(bits: u32) -> int {
    if is_negative(bits) {
        -(units(magnitude(bits)) as int)
    } else {
        units(magnitude(bits)) as int
    }
}

/// The bits of a magnitude with a sign.
pub open spec fn with_sign(negative: bool, mag: nat) -> u32 {
    if negative {
        (mag + 0x8000_0000) as u32
    } else {
        mag as u32
    }
}

} // verus!
