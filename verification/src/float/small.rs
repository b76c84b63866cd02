//! Tiny floating-point formats, given by codes that grow with the magnitude.
//!
//! With `h` significands for each exponent, a code below `h` is a multiple of
//! the smallest step, and after each further `h` codes the step doubles.

use crate::float;
use crate::float::arith;
use crate::float::arith::from_dyadic;
use crate::float::order;
use crate::float::rounding;
use crate::float::rounding::power_of_two;
use vstd::arithmetic::power2::*;
use vstd::prelude::*;

verus! {

/// What a code stands for, in smallest steps.
pub open spec fn small_units(code: nat, h: nat) -> nat {
    if code < h {
        code
    } else {
        (code % h + h) * pow2((code / h - 1) as nat)
    }
}

/// What a code stands for in units of 2^-149, where the smallest step is
/// `2^-places`.
pub open spec fn code_value(code: nat, h: nat, places: nat) -> nat {
    small_units(code, h) * pow2((149 - places) as nat)
}

/// How far a code is from `x` units of 2^-149.
pub open spec fn distance(x: nat, code: nat, h: nat, places: nat) -> nat {
    arith::abs(x - code_value(code, h, places))
}

/// Whether no code up to `max` is nearer to `x`, nor as near unless `code` is
/// even.
pub open spec fn is_nearest(x: nat, code: nat, h: nat, places: nat, max: nat) -> bool {
    &&& code <= max
    &&& forall|k: nat|
        #![trigger distance(x, k, h, places)]
        k <= max ==> distance(x, code, h, places) <= distance(x, k, h, places)
    &&& forall|k: nat|
        #![trigger distance(x, k, h, places)]
        k <= max && k != code && distance(x, code, h, places) == distance(x, k, h, places) ==> code
            % 2 == 0
}

/// The format with three significand digits and a smallest step of 2^-9.
pub open spec fn is_e4m3(h: nat, places: nat, max: nat) -> bool {
    h == 8 && places == 9 && max == 126
}

/// The format with one significand digit and a smallest step of 2^-1.
pub open spec fn is_e2m1(h: nat, places: nat, max: nat) -> bool {
    h == 2 && places == 1 && max == 7
}

/// Larger codes stand for larger numbers.
pub proof fn lemma_codes_increase(a: nat, b: nat, h: nat)
    requires
        a < b,
        h > 0,
    ensures
        small_units(a, h) < small_units(b, h),
{
    lemma2_to64();
    let p = (a / h - 1) as nat;
    let q = (b / h - 1) as nat;
    vstd::arithmetic::div_mod::lemma_fundamental_div_mod(a as int, h as int);
    vstd::arithmetic::div_mod::lemma_fundamental_div_mod(b as int, h as int);
    vstd::arithmetic::div_mod::lemma_div_is_ordered(a as int, b as int, h as int);
    if b < h {
    } else if a < h {
        vstd::arithmetic::div_mod::lemma_div_is_ordered(h as int, b as int, h as int);
        vstd::arithmetic::div_mod::lemma_div_by_self(h as int);
        lemma_pow2_pos(q);
        assert((b % h + h) * pow2(q) >= h) by (nonlinear_arith)
            requires
                pow2(q) >= 1,
                b % h >= 0,
                h > 0,
        ;
    } else {
        vstd::arithmetic::div_mod::lemma_div_is_ordered(h as int, a as int, h as int);
        vstd::arithmetic::div_mod::lemma_div_by_self(h as int);
        let m = a % h + h;
        let n = b % h + h;
        lemma_pow2_pos(p);
        if p == q {
            assert(m * pow2(p) < n * pow2(p)) by (nonlinear_arith)
                requires
                    m < n,
                    pow2(p) > 0,
            ;
        } else {
            lemma_pow2_unfold((p + 1) as nat);
            rounding::lemma_pow2_monotone((p + 1) as nat, q);
            assert(m * pow2(p) < n * pow2(q)) by (nonlinear_arith)
                requires
                    m < 2 * h,
                    n >= h,
                    pow2(q) >= 2 * pow2(p),
                    pow2(p) > 0,
                    h > 0,
            ;
        }
    }
}

/// Larger codes stand for larger values.
pub proof fn lemma_values_increase(a: nat, b: nat, h: nat, places: nat)
    requires
        a < b,
        h > 0,
        places <= 149,
    ensures
        code_value(a, h, places) < code_value(b, h, places),
{
    lemma_codes_increase(a, b, h);
    lemma_pow2_pos((149 - places) as nat);
    let p = pow2((149 - places) as nat);
    let x = small_units(a, h);
    let y = small_units(b, h);
    assert(x * p < y * p) by (nonlinear_arith)
        requires
            x < y,
            p > 0,
    ;
}

/// The nearest code is unique.
pub proof fn law_nearest_is_unique(x: nat, a: nat, b: nat, h: nat, places: nat, max: nat)
    requires
        h > 0,
        places <= 149,
        is_nearest(x, a, h, places, max),
        is_nearest(x, b, h, places, max),
    ensures
        a == b,
{
    if a != b {
        let low = if a < b { a } else { b };
        let high = if a < b { b } else { a };
        assert(distance(x, a, h, places) == distance(x, b, h, places));
        assert(a % 2 == 0 && b % 2 == 0);
        lemma_values_increase(low, low + 1, h, places);
        lemma_values_increase(low + 1, high, h, places);
        assert(distance(x, low + 1, h, places) < distance(x, low, h, places));
    }
}

/// What a code stands for, in smallest steps.
pub fn units_of_code(code: u32, h: u32) -> (n: u64)
    requires
        (h == 8 && code <= 127) || (h == 2 && code <= 8),
    ensures
        n == small_units(code as nat, h as nat),
        n < 0x4_0000,
{
    if code < h {
        return code as u64;
    }
    let exponent: u32 = code / h - 1;
    proof {
        lemma2_to64();
        rounding::lemma_pow2_monotone(exponent as nat, 14);
        let m = code % h + h;
        let p = pow2(exponent as nat);
        assert(m * p <= 15 * 0x4000) by (nonlinear_arith)
            requires
                0 <= m <= 15,
                0 <= p <= 0x4000,
        ;
    }
    let power: u64 = power_of_two(exponent) as u64;
    (code % h + h) as u64 * power
}

/// The magnitude bits of a code: exactly the value that it stands for.
pub fn code_bits(code: u32, h: u32, places: u32) -> (mag: u32)
    requires
        (h == 8 && code <= 127) || (h == 2 && code <= 8),
        places <= 10,
    ensures
        mag < 0x7F80_0000,
        mag == arith::of_dyadic(small_units(code as nat, h as nat) as int, places as nat),
        float::units(mag as nat) == code_value(code as nat, h as nat, places as nat),
{
    let n: u64 = units_of_code(code, h);
    proof {
        lemma_dyadic_exact(n as nat, places as nat);
    }
    from_dyadic(n, places)
}

/// A small number of small steps is a single-precision number.
proof fn lemma_dyadic_exact(n: nat, places: nat)
    requires
        n < 0x100_0000,
        places <= 126,
    ensures
        ({
            let bits = arith::of_dyadic(n as int, places);
            &&& bits < 0x7F80_0000
            &&& float::units(bits as nat) == n * pow2((149 - places) as nat)
        }),
{
    let p = (149 - places) as nat;
    let den = pow2(places);
    lemma_pow2_pos(places);
    lemma_pow2_adds(p, places);
    assert(n * pow2(p) * den == n * pow2(149)) by (nonlinear_arith)
        requires
            pow2(149) == pow2(p) * den,
    ;
    order::lemma_exact(n, p, den);
}

/// The bits of a code stand for exactly its value.
pub proof fn lemma_code_exact(code: nat, h: nat, places: nat)
    requires
        (h == 8 && code <= 127) || (h == 2 && code <= 8),
        places <= 10,
    ensures
        ({
            let bits = arith::of_dyadic(small_units(code, h) as int, places);
            &&& bits < 0x7F80_0000
            &&& float::units(bits as nat) == code_value(code, h, places)
        }),
{
    lemma2_to64();
    if code >= h {
        let e = (code / h - 1) as nat;
        rounding::lemma_pow2_monotone(e, 14);
        let m = code % h + h;
        let p = pow2(e);
        assert(m * p <= 15 * 0x4000) by (nonlinear_arith)
            requires
                0 <= m <= 15,
                0 <= p <= 0x4000,
        ;
    }
    lemma_dyadic_exact(small_units(code, h), places);
}

/// The code that is nearest to a magnitude, the even one of two that are as
/// near, the largest one for what is larger.
pub fn nearest_code(mag: u32, h: u32, places: u32, max: u32) -> (code: u32)
    requires
        mag <= 0x7F80_0000,
        is_e4m3(h as nat, places as nat, max as nat) || is_e2m1(h as nat, places as nat, max as nat),
    ensures
        is_nearest(
            float::units(mag as nat),
            code as nat,
            h as nat,
            places as nat,
            max as nat,
        ),
{
    let ghost x = float::units(mag as nat);
    let ghost hh = h as nat;
    let ghost pp = places as nat;
    if mag >= code_bits(max, h, places) {
        proof {
            lemma_at_least(mag as nat, max as nat, hh, pp);
            assert forall|k: nat|
                #![trigger distance(x, k, hh, pp)]
                k <= max implies distance(x, max as nat, hh, pp) <= distance(x, k, hh, pp) && (k
                != max ==> distance(x, max as nat, hh, pp) < distance(x, k, hh, pp)) by {
                if k < max {
                    lemma_values_increase(k, max as nat, hh, pp);
                }
            }
        }
        return max;
    }
    let mut low: u32 = 0;
    let mut high: u32 = max;
    proof {
        lemma_below(mag as nat, max as nat, hh, pp);
        assert(code_value(0, hh, pp) == 0) by (nonlinear_arith)
            requires
                code_value(0, hh, pp) == 0 * pow2((149 - pp) as nat),
        ;
    }
    while high - low > 1
        invariant
            low < high <= max,
            x == float::units(mag as nat),
            hh == h,
            pp == places,
            mag <= 0x7F80_0000,
            is_e4m3(h as nat, places as nat, max as nat) || is_e2m1(
                h as nat,
                places as nat,
                max as nat,
            ),
            code_value(low as nat, hh, pp) <= x,
            x < code_value(high as nat, hh, pp),
        decreases high - low,
    {
        let middle: u32 = low + (high - low) / 2;
        if code_bits(middle, h, places) <= mag {
            proof {
                lemma_at_least(mag as nat, middle as nat, hh, pp);
            }
            low = middle;
        } else {
            proof {
                lemma_below(mag as nat, middle as nat, hh, pp);
            }
            high = middle;
        }
    }
    let sum: u64 = units_of_code(low, h) + units_of_code(high, h);
    let midpoint: u32 = from_dyadic(sum, places + 1);
    let code: u32 = if mag < midpoint || (mag == midpoint && low % 2 == 0) {
        low
    } else {
        high
    };
    proof {
        lemma_dyadic_exact(sum as nat, pp + 1);
        let step = pow2((149 - pp) as nat);
        let half = pow2((148 - pp) as nat);
        lemma_pow2_unfold((149 - pp) as nat);
        let a = small_units(low as nat, hh);
        let b = small_units(high as nat, hh);
        assert(2 * (sum * half) == a * step + b * step) by (nonlinear_arith)
            requires
                sum == a + b,
                step == 2 * half,
        ;
        let mid = float::units(midpoint as nat);
        assert(2 * mid == code_value(low as nat, hh, pp) + code_value(high as nat, hh, pp));
        if mag < midpoint {
            order::lemma_units_increase(mag as nat, midpoint as nat);
        } else if midpoint < mag {
            order::lemma_units_increase(midpoint as nat, mag as nat);
        }
        assert forall|k: nat|
            #![trigger distance(x, k, hh, pp)]
            k <= max implies distance(x, code as nat, hh, pp) <= distance(x, k, hh, pp) && (k != code
            && distance(x, code as nat, hh, pp) == distance(x, k, hh, pp) ==> code % 2 == 0) by {
            if k < low {
                lemma_values_increase(k, low as nat, hh, pp);
            } else if k > high {
                lemma_values_increase(high as nat, k, hh, pp);
            }
        }
    }
    code
}

/// Magnitude bits that are not below those of a code.
proof fn lemma_at_least(mag: nat, code: nat, h: nat, places: nat)
    requires
        mag <= 0x7F80_0000,
        places <= 10,
        (h == 8 && code <= 127) || (h == 2 && code <= 8),
        mag >= arith::of_dyadic(small_units(code, h) as int, places),
        float::units(arith::of_dyadic(small_units(code, h) as int, places) as nat) == code_value(
            code,
            h,
            places,
        ),
    ensures
        float::units(mag) >= code_value(code, h, places),
{
    let bits = arith::of_dyadic(small_units(code, h) as int, places) as nat;
    if bits < mag {
        order::lemma_units_increase(bits, mag);
    }
}

/// Magnitude bits below those of a code.
proof fn lemma_below(mag: nat, code: nat, h: nat, places: nat)
    requires
        mag < arith::of_dyadic(small_units(code, h) as int, places),
        float::units(arith::of_dyadic(small_units(code, h) as int, places) as nat) == code_value(
            code,
            h,
            places,
        ),
    ensures
        float::units(mag) < code_value(code, h, places),
{
    order::lemma_units_increase(mag, arith::of_dyadic(small_units(code, h) as int, places) as nat);
}

/// A code is nearest to what it stands for.
pub proof fn law_codes_are_kept(code: nat, h: nat, places: nat, max: nat)
    requires
        h > 0,
        places <= 149,
        code <= max,
    ensures
        is_nearest(code_value(code, h, places), code, h, places, max),
{
    let x = code_value(code, h, places);
    assert forall|k: nat|
        #![trigger distance(x, k, h, places)]
        k <= max implies distance(x, code, h, places) <= distance(x, k, h, places) && (k != code
        ==> distance(x, code, h, places) < distance(x, k, h, places)) by {
        if k < code {
            lemma_values_increase(k, code, h, places);
        } else if k > code {
            lemma_values_increase(code, k, h, places);
        }
    }
}

} // verus!
