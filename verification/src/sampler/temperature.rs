//! What a temperature does to logits.

use crate::float;
use crate::float::arith;
use crate::float::bounds;
use crate::float::fold::ONE;
use crate::float::order;
use crate::float::ratio;
use crate::float::shares;
use crate::sampler;
use vstd::arithmetic::power2::*;
use vstd::prelude::*;

verus! {

/// Whether a temperature is positive and finite.
pub open spec fn is_warm(t: u32) -> bool {
    float::is_finite(t) && !float::is_negative(t) && !float::is_zero(t)
}

proof fn lemma_one()
    ensures
        float::value(ONE) == bounds::one(),
        bounds::one() > 0,
{
    lemma2_to64();
    lemma_pow2_pos(149);
    lemma_pow2_adds(126, 23);
    assert(float::exponent(0x3F80_0000) == 126 && float::significand(0x3F80_0000) == 0x80_0000);
    assert(0x80_0000 * pow2(126) == pow2(126) * 0x80_0000) by (nonlinear_arith);
}

/// A cooled logit times the temperature is the logit, up to 2^-22 of it, half a
/// unit for the product and a unit for the inverse of the temperature.
pub proof fn law_cooled_times_temperature(logits: Seq<u32>, t: u32, i: int)
    requires
        is_warm(t),
        0 <= i < logits.len(),
        float::is_finite(logits[i]),
        float::is_finite(sampler::cooled(logits, t)[i]),
    ensures
        ({
            let c = float::value(sampler::cooled(logits, t)[i]);
            let l = float::value(logits[i]);
            let v = float::value(t);
            let one = bounds::one();
            0x40_0000 * (bounds::size(c * v - l * one) * one) <= bounds::size(l) * (one * one)
                + 0x20_0000 * (v * one) + 0x40_0000 * (bounds::size(l) * v)
        }),
{
    let inv = arith::quotient(ONE, t);
    let c = sampler::cooled(logits, t)[i];
    assert(c == arith::product(logits[i], inv));
    lemma_one();
    arith::lemma_units_zero(float::magnitude(t));
    bounds::law_product_error(logits[i], inv);
    bounds::law_quotient_error(ONE, t);
    shares::lemma_back(
        float::value(c),
        float::value(logits[i]),
        float::value(inv),
        float::value(t),
        bounds::one(),
    );
}

/// A lower temperature takes a logit no less far from zero, and keeps its sign.
pub proof fn law_colder_is_farther(logits: Seq<u32>, s: u32, t: u32, i: int)
    requires
        is_warm(s),
        is_warm(t),
        order::at_most(s, t),
        0 <= i < logits.len(),
        float::is_finite(logits[i]),
        float::is_finite(sampler::cooled(logits, s)[i]),
    ensures
        !float::is_negative(logits[i]) ==> order::at_most(
            sampler::cooled(logits, t)[i],
            sampler::cooled(logits, s)[i],
        ) && !float::is_negative(sampler::cooled(logits, t)[i]),
        float::is_negative(logits[i]) ==> order::at_most(
            sampler::cooled(logits, s)[i],
            sampler::cooled(logits, t)[i],
        ) && float::is_negative(sampler::cooled(logits, t)[i]),
{
    let l = logits[i];
    let p = arith::quotient(ONE, s);
    let q = arith::quotient(ONE, t);
    assert(sampler::cooled(logits, s)[i] == arith::product(l, p));
    assert(sampler::cooled(logits, t)[i] == arith::product(l, q));
    bounds::law_product_error(l, p);
    lemma_inverses(s, t);
    lemma_farther(l, p, q);
}

/// The inverse of a lower temperature is no lower.
proof fn lemma_inverses(s: u32, t: u32)
    requires
        is_warm(s),
        is_warm(t),
        order::at_most(s, t),
    ensures
        order::at_most(arith::quotient(ONE, t), arith::quotient(ONE, s)),
        !float::is_negative(arith::quotient(ONE, t)),
        !float::is_negative(arith::quotient(ONE, s)),
{
    arith::lemma_units_zero(float::magnitude(s));
    arith::lemma_units_zero(float::magnitude(t));
    order::law_order_of_values(s, t);
    ratio::law_larger_divisor(ONE, t, s);
}

/// A number times more is no less far from zero, and keeps its sign.
proof fn lemma_farther(l: u32, p: u32, q: u32)
    requires
        float::is_finite(l),
        float::is_finite(p),
        !float::is_negative(p),
        !float::is_negative(q),
        order::at_most(q, p),
    ensures
        !float::is_negative(l) ==> order::at_most(arith::product(l, q), arith::product(l, p))
            && !float::is_negative(arith::product(l, q)),
        float::is_negative(l) ==> order::at_most(arith::product(l, p), arith::product(l, q))
            && float::is_negative(arith::product(l, q)),
{
    let m = float::magnitude(l) as u32;
    order::law_product_keeps_order(q, p, m);
    order::law_order_of_two(q, m);
    order::law_order_of_two(p, m);
    lemma_sign(m, p);
    lemma_sign(m, q);
    assert(l == m || l == arith::negated(m));
}

/// The product with the sign of one number changed.
proof fn lemma_sign(a: u32, b: u32)
    requires
        float::is_finite(a),
        float::is_finite(b),
    ensures
        arith::product(arith::negated(a), b) == arith::negated(arith::product(a, b)),
        !float::is_nan(arith::product(a, b)),
        float::is_negative(arith::product(a, b)) == (float::is_negative(a) != float::is_negative(
            b,
        )),
{
    order::law_sign_of_product(a, b);
}

/// A lower temperature brings a logit that is not negative and one that is no
/// closer together.
pub proof fn law_colder_is_wider(logits: Seq<u32>, s: u32, t: u32, i: int, j: int)
    requires
        is_warm(s),
        is_warm(t),
        order::at_most(s, t),
        0 <= i < logits.len(),
        0 <= j < logits.len(),
        float::is_finite(logits[i]),
        float::is_finite(logits[j]),
        !float::is_negative(logits[i]),
        float::is_negative(logits[j]),
        float::is_finite(sampler::cooled(logits, s)[i]),
        float::is_finite(sampler::cooled(logits, s)[j]),
    ensures
        ({
            let a = sampler::cooled(logits, s);
            let b = sampler::cooled(logits, t);
            float::value(b[i]) - float::value(b[j]) <= float::value(a[i]) - float::value(a[j])
        }),
{
    let a = sampler::cooled(logits, s);
    let b = sampler::cooled(logits, t);
    law_colder_is_farther(logits, s, t, i);
    law_colder_is_farther(logits, s, t, j);
    order::law_order_of_values(b[i], a[i]);
    order::law_order_of_values(a[j], b[j]);
}

/// A half, as bits.
pub const HALF: u32 = 0x3F00_0000;

/// A temperature of one keeps finite logits.
pub proof fn law_temperature_of_one(logits: Seq<u32>, i: int)
    requires
        0 <= i < logits.len(),
        float::is_finite(logits[i]),
    ensures
        sampler::cooled(logits, ONE)[i] == logits[i],
{
    lemma_one();
    order::law_rounding_keeps_numbers(0x3F80_0000, pow2(149));
    assert(arith::quotient(ONE, ONE) == ONE);
    order::law_times_one(logits[i]);
}

/// A temperature of a half doubles finite logits, as far as they fit.
pub proof fn law_temperature_of_a_half(logits: Seq<u32>, i: int)
    requires
        0 <= i < logits.len(),
        float::magnitude(logits[i]) < 0x7F00_0000,
    ensures
        float::is_finite(sampler::cooled(logits, HALF)[i]),
        float::value(sampler::cooled(logits, HALF)[i]) == 2 * float::value(logits[i]),
{
    lemma_one();
    lemma2_to64();
    lemma_pow2_pos(149);
    lemma_pow2_adds(125, 23);
    lemma_pow2_adds(127, 23);
    lemma_pow2_adds(1, 148);
    lemma_pow2_adds(1, 149);
    assert(float::exponent(0x3F00_0000) == 125 && float::significand(0x3F00_0000) == 0x80_0000);
    assert(float::exponent(0x4000_0000) == 127 && float::significand(0x4000_0000) == 0x80_0000);
    assert(0x80_0000 * pow2(125) == pow2(125) * 0x80_0000) by (nonlinear_arith);
    assert(0x80_0000 * pow2(127) == pow2(127) * 0x80_0000) by (nonlinear_arith);
    let half = float::units(0x3F00_0000);
    let two = float::units(0x4000_0000);
    assert(arith::quotient(ONE, HALF) == 0x4000_0000) by {
        assert(pow2(149) * pow2(149) == two * half) by (nonlinear_arith)
            requires
                2 * half == pow2(149),
                two == 2 * pow2(149),
        ;
        order::law_rounding_keeps_numbers(0x4000_0000, half);
    }
    let m = float::magnitude(logits[i]);
    let d = lemma_double(m);
    assert(float::units(m) * two == float::units(d) * pow2(149)) by (nonlinear_arith)
        requires
            float::units(d) == 2 * float::units(m),
            two == 2 * pow2(149),
    ;
    order::law_rounding_keeps_numbers(d, pow2(149));
}

/// The magnitude of twice a number.
proof fn lemma_double(m: nat) -> (d: nat)
    requires
        m < 0x7F00_0000,
    ensures
        d < 0x7F80_0000,
        float::units(d) == 2 * float::units(m),
{
    lemma2_to64();
    if m < 0x80_0000 {
        order::lemma_units_of_parts(0, m);
        order::lemma_units_of_parts(0, 2 * m);
        2 * m
    } else {
        let d = (m + 0x80_0000) as nat;
        assert(d / 0x80_0000 == m / 0x80_0000 + 1);
        assert(float::significand(d) == float::significand(m));
        assert(float::exponent(d) == float::exponent(m) + 1);
        lemma_pow2_unfold(float::exponent(d));
        assert(float::units(d) == 2 * float::units(m)) by (nonlinear_arith)
            requires
                float::units(d) == float::significand(d) * pow2(float::exponent(d)),
                float::units(m) == float::significand(m) * pow2(float::exponent(m)),
                float::significand(d) == float::significand(m),
                pow2(float::exponent(d)) == 2 * pow2(float::exponent(m)),
        ;
        d
    }
}

/// The default temperature is seven tenths, that inside a think block one, and
/// the default of `min_p` a twentieth.
pub proof fn law_defaults()
    ensures
        0x100_0000 * bounds::size(10 * float::value(sampler::DEFAULT_TEMPERATURE) - 7 * bounds::one())
            <= 10 * bounds::one(),
        float::value(sampler::DEFAULT_THINK_TEMPERATURE) == bounds::one(),
        0x100_0000 * bounds::size(20 * float::value(sampler::DEFAULT_MIN_P) - bounds::one())
            <= bounds::one(),
{
    lemma_one();
    lemma2_to64();
    lemma2_to64_rest();
    lemma_pow2_pos(121);
    let u = pow2(121) as int;
    lemma_pow2_adds(121, 28);
    lemma_pow2_adds(121, 4);
    assert(float::units(0x3F33_3333) == 0xB3_3333 * pow2(125)) by {
        assert(float::exponent(0x3F33_3333) == 125 && float::significand(0x3F33_3333) == 0xB3_3333);
    }
    assert(float::units(0x3D4C_CCCD) == 0xCC_CCCD * pow2(121)) by {
        assert(float::exponent(0x3D4C_CCCD) == 121 && float::significand(0x3D4C_CCCD) == 0xCC_CCCD);
    }
    assert(pow2(125) == 16 * u && pow2(149) == 0x1000_0000 * u);
}

/// How far a cooled logit times the temperature may be from the logit.
pub open spec fn slack(l: int, t: int) -> int {
    bounds::size(l) * (bounds::one() * bounds::one()) + 0x20_0000 * (t * bounds::one()) + 0x40_0000
        * (bounds::size(l) * t)
}

/// The gap between two cooled logits times the temperature is the gap between
/// the logits, up to what each of them may be off: half the temperature doubles
/// the gap.
pub proof fn law_gap_times_temperature(logits: Seq<u32>, t: u32, i: int, j: int)
    requires
        is_warm(t),
        0 <= i < logits.len(),
        0 <= j < logits.len(),
        float::is_finite(logits[i]),
        float::is_finite(logits[j]),
        float::is_finite(sampler::cooled(logits, t)[i]),
        float::is_finite(sampler::cooled(logits, t)[j]),
    ensures
        ({
            let cooled = sampler::cooled(logits, t);
            let gap = float::value(cooled[i]) - float::value(cooled[j]);
            let plain = float::value(logits[i]) - float::value(logits[j]);
            let v = float::value(t);
            0x40_0000 * (bounds::size(gap * v - plain * bounds::one()) * bounds::one()) <= slack(
                float::value(logits[i]),
                v,
            ) + slack(float::value(logits[j]), v)
        }),
{
    let cooled = sampler::cooled(logits, t);
    let (a, b) = (float::value(cooled[i]), float::value(cooled[j]));
    let (k, l) = (float::value(logits[i]), float::value(logits[j]));
    let v = float::value(t);
    let one = bounds::one();
    lemma_one();
    law_cooled_times_temperature(logits, t, i);
    law_cooled_times_temperature(logits, t, j);
    assert((a - b) * v == a * v - b * v) by (nonlinear_arith);
    assert((k - l) * one == k * one - l * one) by (nonlinear_arith);
    let (e, f) = (bounds::size(a * v - k * one), bounds::size(b * v - l * one));
    let g = bounds::size((a - b) * v - (k - l) * one);
    assert(g <= e + f);
    assert(g * one <= e * one + f * one) by (nonlinear_arith)
        requires
            g <= e + f,
            one > 0,
    ;
}

} // verus!
