//! How YaRN mixes plain and scaled angles.

use crate::cpu::ops::relations;
use crate::cpu::ops::rope;
use crate::cpu::ops::rope::{Functions, RoPEParams, PI, TENTH, THOUSANDTH};
use crate::cpu::ops::sinkhorn::TWO;
use crate::float;
use crate::float::arith;
use crate::float::bounds;
use crate::float::fold::ONE;
use crate::float::integer;
use crate::float::order;
use crate::float::sums;
use vstd::arithmetic::power2::*;
use vstd::prelude::*;

verus! {

/// Whether the place of pair `k` is no further than where the ramp starts.
pub open spec fn is_before(p: RoPEParams, f: Functions, k: int) -> bool {
    order::at_most(arith::of_integer(k), p.ramp_start(f))
}

/// Whether the place of pair `k` is at or past where the ramp ends, and at least
/// a thousandth past where it starts.
pub open spec fn is_past(p: RoPEParams, f: Functions, k: int) -> bool {
    let beyond = arith::difference(arith::of_integer(k), p.ramp_start(f));
    &&& order::at_most(
        arith::difference(p.ramp_end(f), p.ramp_start(f)),
        beyond,
    )
    &&& order::at_most(THOUSANDTH, beyond)
}

/// What lies below `start` is not above zero by it.
proof fn lemma_not_above(k: u32, start: u32)
    requires
        order::at_most(k, start),
        float::is_finite(start),
    ensures
        order::at_most(arith::difference(k, start), 0),
{
    order::law_sum_keeps_order(k, start, arith::negated(start));
    assert(float::is_zero(arith::difference(start, start)));
}

/// Divided by something positive, what is not above zero is not above zero.
proof fn lemma_not_positive(d: u32, h: u32)
    requires
        order::at_most(d, 0),
        float::is_finite(d),
        order::less(0, h),
    ensures
        order::at_most(arith::quotient(d, h), 0),
{
    arith::lemma_units_zero(float::magnitude(h));
    if !float::is_negative(d) {
        assert(float::is_zero(d));
        arith::lemma_units_zero(0);
        if float::is_finite(h) {
            let y = float::units(float::magnitude(h));
            assert(0 * pow2(149) == 0 * y) by (nonlinear_arith);
            order::law_rounding_keeps_numbers(0, y);
        }
    }
}

/// Divided by no more than itself, a positive number is at least one.
proof fn lemma_at_least_one(d: u32, h: u32)
    requires
        order::at_most(h, d),
        float::is_finite(d),
        order::less(0, h),
    ensures
        order::at_most(ONE, arith::quotient(d, h)),
{
    sums::lemma_one();
    arith::lemma_units_zero(float::magnitude(h));
    let x = float::units(float::magnitude(d));
    let y = float::units(float::magnitude(h));
    if float::magnitude(h) < float::magnitude(d) {
        order::lemma_units_increase(float::magnitude(h), float::magnitude(d));
    }
    assert(x * pow2(149) >= pow2(149) * y) by (nonlinear_arith)
        requires
            x >= y,
    ;
    order::law_rounding_reaches(x * pow2(149), y, 0x3F80_0000);
}

/// One less zero is one, and one less one is zero.
proof fn lemma_from_one()
    ensures
        arith::difference(ONE, 0) == ONE,
        arith::difference(ONE, float::SIGN) == ONE,
        arith::difference(ONE, ONE) == 0,
{
    order::law_adding_zero(ONE, float::SIGN);
    order::law_adding_zero(ONE, 0);
    arith::lemma_units_zero(0);
    sums::lemma_one();
}

/// Before the ramp a pair has all of its plain angle, past it none.
pub proof fn law_ramp(p: RoPEParams, f: Functions, k: int)
    requires
        float::is_finite(p.ramp_start(f)),
        float::is_finite(arith::difference(arith::of_integer(k), p.ramp_start(f))),
        !float::is_nan(arith::difference(p.ramp_end(f), p.ramp_start(f))),
    ensures
        is_before(p, f, k) ==> p.ramp(k, f) == ONE,
        is_past(p, f, k) ==> p.ramp(k, f) == 0,
{
    lemma_ramp(arith::of_integer(k), p.ramp_start(f), p.ramp_end(f));
}

proof fn lemma_ramp(place: u32, start: u32, end: u32)
    requires
        float::is_finite(start),
        float::is_finite(arith::difference(place, start)),
        !float::is_nan(arith::difference(end, start)),
    ensures
        ({
            let d = arith::difference(place, start);
            let span = arith::difference(end, start);
            let y = arith::quotient(d, rope::higher(span, THOUSANDTH));
            let r = arith::difference(ONE, rope::unit(y));
            &&& order::at_most(place, start) ==> r == ONE
            &&& order::at_most(span, d) && order::at_most(THOUSANDTH, d) ==> r == 0
        }),
{
    let d = arith::difference(place, start);
    let span = arith::difference(end, start);
    let h = rope::higher(span, THOUSANDTH);
    let y = arith::quotient(d, h);
    lemma_higher(span);
    lemma_from_one();
    if order::at_most(place, start) {
        lemma_not_above(place, start);
        lemma_not_positive(d, h);
        lemma_unit(y);
    }
    if order::at_most(span, d) && order::at_most(THOUSANDTH, d) {
        lemma_at_least_one(d, h);
        lemma_unit(y);
    }
}

proof fn lemma_higher(span: u32)
    requires
        !float::is_nan(span),
    ensures
        order::less(0, rope::higher(span, THOUSANDTH)),
        rope::higher(span, THOUSANDTH) == span || rope::higher(span, THOUSANDTH) == THOUSANDTH,
{
}

proof fn lemma_unit(y: u32)
    requires
        !float::is_nan(y),
    ensures
        order::at_most(y, 0) ==> rope::unit(y) == 0 || rope::unit(y) == float::SIGN,
        order::at_most(ONE, y) ==> rope::unit(y) == ONE,
{
}

/// Where all of the plain angle is mixed in, a pair before the ramp has its
/// plain angle and one past it its scaled angle.
pub proof fn law_mixed_angle(p: RoPEParams, f: Functions, k: int)
    requires
        p.ext_factor == ONE,
        float::is_finite(p.ramp_start(f)),
        float::is_finite(arith::difference(arith::of_integer(k), p.ramp_start(f))),
        !float::is_nan(arith::difference(p.ramp_end(f), p.ramp_start(f))),
        float::is_finite(p.plain(k as nat, f)),
        float::is_finite(arith::product(p.freq_scale, p.plain(k as nat, f))),
    ensures
        is_before(p, f, k) ==> order::same(p.angle(k, f), p.plain(k as nat, f)),
        is_past(p, f, k) ==> order::same(
            p.angle(k, f),
            arith::product(p.freq_scale, p.plain(k as nat, f)),
        ),
{
    let plain = p.plain(k as nat, f);
    let scaled = arith::product(p.freq_scale, plain);
    let r = p.ramp(k, f);
    law_ramp(p, f, k);
    lemma_from_one();
    assert(p.mixes());
    order::law_times_one(plain);
    order::law_times_one(scaled);
    if is_before(p, f, k) {
        order::law_times_one(ONE);
        assert(arith::product(r, p.ext_factor) == ONE);
        order::law_times_zero(scaled, 0);
        let zero = arith::product(scaled, 0);
        order::law_adding_zero(plain, zero);
        order::law_order_of_two(plain, zero);
    }
    if is_past(p, f, k) {
        order::law_times_one(0);
        assert(arith::product(r, p.ext_factor) == 0);
        order::law_times_zero(plain, 0);
        order::law_adding_zero(scaled, arith::product(plain, 0));
    }
}

/// Without mixing the angle is the plain one times the scale, and the rotated
/// numbers are multiplied by the factor alone.
pub proof fn law_no_mixing(p: RoPEParams, f: Functions, k: int)
    requires
        float::is_zero(p.ext_factor),
    ensures
        p.angle(k, f) == arith::product(p.freq_scale, p.plain(k as nat, f)),
        p.gain(f) == p.attn_factor,
{
}

/// Whether `q` is `a` divided by `b`, rounded.
pub open spec fn is_quotient(q: u32, a: int, b: int) -> bool {
    &&& float::is_finite(q)
    &&& 0x100_0000 * bounds::size(float::value(q) * b - a * bounds::one()) <= bounds::size(a)
        * bounds::one() + 0x80_0000 * b
}

/// Whether `s` is `a` and `b` added up, rounded.
pub open spec fn is_sum(s: u32, a: int, b: int) -> bool {
    &&& float::is_finite(s)
    &&& 0x100_0000 * bounds::size(float::value(s) - (a + b)) <= bounds::size(a + b)
}

/// What the constants stand for: three and a bit, a tenth and a thousandth.
pub proof fn law_constants()
    ensures
        31415926 * bounds::one() < 10000000 * float::value(PI) < 31415928 * bounds::one(),
        0x100_0000 * bounds::size(10 * float::value(TENTH) - bounds::one()) <= bounds::one(),
        0x100_0000 * bounds::size(1000 * float::value(THOUSANDTH) - bounds::one()) <= bounds::one(),
        float::value(TWO) == 2 * bounds::one(),
{
    lemma2_to64();
    lemma2_to64_rest();
    lemma_pow2_pos(116);
    let u = pow2(116) as int;
    lemma_pow2_adds(116, 33);
    lemma_pow2_adds(116, 7);
    lemma_pow2_adds(116, 11);
    lemma_pow2_adds(116, 12);
    assert(float::units(0x4049_0FDB) == 0xC9_0FDB * pow2(127)) by {
        assert(float::exponent(0x4049_0FDB) == 127 && float::significand(0x4049_0FDB) == 0xC9_0FDB);
    }
    assert(float::units(0x3DCC_CCCD) == 0xCC_CCCD * pow2(122)) by {
        assert(float::exponent(0x3DCC_CCCD) == 122 && float::significand(0x3DCC_CCCD) == 0xCC_CCCD);
    }
    assert(float::units(0x3A83_126F) == 0x83_126F * pow2(116)) by {
        assert(float::exponent(0x3A83_126F) == 116 && float::significand(0x3A83_126F) == 0x83_126F);
    }
    assert(float::units(0x4000_0000) == 0x80_0000 * pow2(127)) by {
        assert(float::exponent(0x4000_0000) == 127 && float::significand(0x4000_0000) == 0x80_0000);
    }
    lemma_pow2_adds(116, 6);
    assert(pow2(127) == 2048 * u && pow2(122) == 64 * u && pow2(149) == 0x2_0000_0000 * u);
}

/// The place of the pair that makes `beta` turns: a circle is `beta` times twice
/// pi, the turns are the context divided by it, and the place times twice the
/// logarithm of the base is the number of rotated places times the logarithm of
/// the turns.
pub proof fn law_turning_place(p: RoPEParams, beta: u32, f: Functions) -> (r: (u32, u32, u32, u32))
    requires
        float::is_finite(beta),
        order::less(0, beta),
        float::is_finite(p.turning_place(beta, f)),
        float::is_finite((f.ln)(p.freq_base)),
        order::less(0, (f.ln)(p.freq_base)),
        float::is_finite(arith::product(TWO, (f.ln)(p.freq_base))),
        order::less(0, arith::product(TWO, (f.ln)(p.freq_base))),
        float::is_finite(arith::product(arith::product(beta, TWO), PI)),
        order::less(0, arith::product(arith::product(beta, TWO), PI)),
        float::is_finite(
            arith::quotient(
                arith::of_integer(p.n_ctx_orig as int),
                arith::product(arith::product(beta, TWO), PI),
            ),
        ),
    ensures
        ({
            let (twice, circle, turns, top) = r;
            let bottom = arith::product(TWO, (f.ln)(p.freq_base));
            &&& relations::is_product(twice, float::value(beta), float::value(TWO))
            &&& relations::is_product(circle, float::value(twice), float::value(PI))
            &&& is_quotient(
                turns,
                float::value(arith::of_integer(p.n_ctx_orig as int)),
                float::value(circle),
            )
            &&& relations::is_product(
                top,
                float::value(arith::of_integer(p.n_rot as int)),
                float::value((f.ln)(turns)),
            )
            &&& relations::is_product(
                bottom,
                float::value(TWO),
                float::value((f.ln)(p.freq_base)),
            )
            &&& is_quotient(p.turning_place(beta, f), float::value(top), float::value(bottom))
        }),
{
    let twice = arith::product(beta, TWO);
    let circle = arith::product(twice, PI);
    let turns = arith::quotient(arith::of_integer(p.n_ctx_orig as int), circle);
    let top = arith::product(arith::of_integer(p.n_rot as int), (f.ln)(turns));
    let bottom = arith::product(TWO, (f.ln)(p.freq_base));
    bounds::law_product_error(twice, PI);
    bounds::law_product_error(beta, TWO);
    bounds::law_product_error(TWO, (f.ln)(p.freq_base));
    sums::law_signed_quotient_error(arith::of_integer(p.n_ctx_orig as int), circle);
    sums::law_signed_quotient_error(top, bottom);
    bounds::law_product_error(arith::of_integer(p.n_rot as int), (f.ln)(turns));
    (twice, circle, turns, top)
}

/// The ramp starts at the place of the pair with the fast turns, rounded down
/// but not below zero, and ends at that of the pair with the slow turns, rounded
/// up but not beyond the last place.
pub proof fn law_ramp_ends(p: RoPEParams, f: Functions)
    requires
        p.n_rot > 0,
        !float::is_nan(p.turning_place(p.beta_fast, f)),
        !float::is_nan(p.turning_place(p.beta_slow, f)),
        !float::is_nan(integer::floored(p.turning_place(p.beta_fast, f))),
        !float::is_nan(integer::ceiled(p.turning_place(p.beta_slow, f))),
    ensures
        order::at_most(0, p.ramp_start(f)),
        order::at_most(integer::floored(p.turning_place(p.beta_fast, f)), p.ramp_start(f)),
        p.ramp_start(f) == 0 || p.ramp_start(f) == integer::floored(
            p.turning_place(p.beta_fast, f),
        ),
        p.ramp_end(f) == arith::of_integer(p.n_rot - 1) || p.ramp_end(f) == integer::ceiled(
            p.turning_place(p.beta_slow, f),
        ),
        order::at_most(p.ramp_end(f), integer::ceiled(p.turning_place(p.beta_slow, f))),
        order::at_most(p.ramp_end(f), arith::of_integer(p.n_rot - 1)),
{
    crate::cpu::ops::angles::lemma_integer((p.n_rot - 1) as u32);
    lemma_ends(
        integer::floored(p.turning_place(p.beta_fast, f)),
        integer::ceiled(p.turning_place(p.beta_slow, f)),
        arith::of_integer(p.n_rot - 1),
    );
}

proof fn lemma_ends(a: u32, b: u32, last: u32)
    requires
        !float::is_nan(a),
        !float::is_nan(b),
        !float::is_nan(last),
    ensures
        order::at_most(0, rope::higher(a, 0)),
        order::at_most(a, rope::higher(a, 0)),
        rope::higher(a, 0) == 0 || rope::higher(a, 0) == a,
        rope::lower(b, last) == last || rope::lower(b, last) == b,
        order::at_most(rope::lower(b, last), b),
        order::at_most(rope::lower(b, last), last),
{
}

/// With mixing, rotated numbers are multiplied by the factor times one and a
/// tenth of the logarithm of one over the scale.
pub proof fn law_gain(p: RoPEParams, f: Functions) -> (r: (u32, u32, u32))
    requires
        p.mixes(),
        float::is_finite(p.freq_scale),
        order::less(0, p.freq_scale),
        float::is_finite(arith::quotient(ONE, p.freq_scale)),
        float::is_finite(p.gain(f)),
    ensures
        ({
            let (inverse, part, whole) = r;
            &&& is_quotient(inverse, bounds::one(), float::value(p.freq_scale))
            &&& relations::is_product(part, float::value(TENTH), float::value((f.ln)(inverse)))
            &&& is_sum(whole, bounds::one(), float::value(part))
            &&& relations::is_product(
                p.gain(f),
                float::value(p.attn_factor),
                float::value(whole),
            )
        }),
{
    let inverse = arith::quotient(ONE, p.freq_scale);
    let part = arith::product(TENTH, (f.ln)(inverse));
    let whole = arith::sum(ONE, part);
    sums::lemma_one();
    sums::law_signed_quotient_error(ONE, p.freq_scale);
    bounds::law_product_error(p.attn_factor, whole);
    bounds::law_sum_error(ONE, part);
    bounds::law_product_error(TENTH, (f.ln)(inverse));
    (inverse, part, whole)
}

/// A pair is turned with the cosine and the sine of its angle, each times the
/// gain.
pub proof fn law_coefficients(p: RoPEParams, f: Functions, k: int)
    requires
        !p.inverse,
        float::is_finite(p.cosine(k, f)),
        float::is_finite(p.sine(k, f)),
        float::is_finite((f.sin)(p.angle(k, f))),
    ensures
        relations::is_product(
            p.cosine(k, f),
            float::value((f.cos)(p.angle(k, f))),
            float::value(p.gain(f)),
        ),
        relations::is_product(
            p.sine(k, f),
            float::value((f.sin)(p.angle(k, f))),
            float::value(p.gain(f)),
        ),
{
    let s = (f.sin)(p.angle(k, f));
    order::law_times_one(s);
    order::law_order_of_two(s, ONE);
    bounds::law_product_error((f.cos)(p.angle(k, f)), p.gain(f));
    bounds::law_product_error(s, p.gain(f));
}

} // verus!
