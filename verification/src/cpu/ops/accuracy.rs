//! How close the kernels come to exact arithmetic.

use crate::cpu::ops::q8_0;
use crate::cpu::ops::sinkhorn;
use crate::float;
use crate::float::arith;
use crate::float::bounds;
use crate::float::fold;
use crate::float::fold::ONE;
use crate::float::integer;
use crate::float::order;
use crate::float::weights;
use vstd::arithmetic::power2::*;
use vstd::prelude::*;

verus! {

/// The powers of two that bound single-precision numbers, in units.
proof fn lemma_landmarks()
    ensures
        float::units(0x80_0000) == pow2(23),
        float::units(0x4380_0000) == 0x100 * pow2(149),
        float::units(0x42FE_0000) == 127 * pow2(149),
        float::units(0x3F80_0000) == pow2(149),
        float::units(0x7E80_0000) == pow2(275),
        float::units(0x7F80_0000) == pow2(277),
        pow2(275) * pow2(23) == pow2(149) * pow2(149),
        pow2(277) == 4 * pow2(275),
        pow2(149) >= 0x1_0000_0000_0000,
        pow2(23) == 0x80_0000,
{
    lemma2_to64();
    lemma2_to64_rest();
    lemma_pow2_adds(23, 134);
    lemma_pow2_adds(8, 149);
    lemma_pow2_adds(17, 132);
    lemma_pow2_adds(23, 126);
    lemma_pow2_adds(23, 252);
    lemma_pow2_adds(23, 254);
    lemma_pow2_adds(275, 23);
    lemma_pow2_adds(149, 149);
    lemma_pow2_adds(2, 275);
    lemma_pow2_adds(48, 101);
    lemma_pow2_pos(101);
    assert(0x1_0000_0000_0000 * pow2(101) >= 0x1_0000_0000_0000) by (nonlinear_arith)
        requires
            pow2(101) >= 1,
    ;
    assert(float::exponent(0x80_0000) == 0 && float::significand(0x80_0000) == 0x80_0000);
    assert(float::exponent(0x4380_0000) == 134 && float::significand(0x4380_0000) == 0x80_0000);
    assert(float::exponent(0x42FE_0000) == 132 && float::significand(0x42FE_0000) == 0xFE_0000);
    assert(float::exponent(0x3F80_0000) == 126 && float::significand(0x3F80_0000) == 0x80_0000);
    assert(float::exponent(0x7E80_0000) == 252 && float::significand(0x7E80_0000) == 0x80_0000);
    assert(float::exponent(0x7F80_0000) == 254 && float::significand(0x7F80_0000) == 0x80_0000);
}

/// The errors of an inverse, a product and a nearest integer, put together.
proof fn lemma_loss(x: int, d: int, i: int, u: int, p: int, n: int)
    requires
        u >= 0x80_0000,
        d > 0,
        i >= 0,
        bounds::size(x) <= 128 * d,
        2 * bounds::size(n * u - p) <= u,
        0x100_0000 * bounds::size(p * u - x * i) <= bounds::size(x * i) + 0x80_0000 * u,
        0x80_0000 * bounds::size(i * d - u * u) <= u * u,
    ensures
        0x1_0000 * bounds::size(x - n * d) <= 0x8003 * d,
{
    let e1 = n * u - p;
    let e2 = p * u - x * i;
    let e3 = i * d - u * u;
    let uu = u * u;
    let duu = d * uu;
    let s = bounds::size(x);
    assert((n * d - x) * uu == x * e3 + d * e2 + (d * u) * e1) by {
        assert(x * e3 == x * (i * d) - x * uu) by (nonlinear_arith)
            requires
                e3 == i * d - uu,
        ;
        assert(d * e2 == d * (p * u) - d * (x * i)) by (nonlinear_arith)
            requires
                e2 == p * u - x * i,
        ;
        assert((d * u) * e1 == (d * u) * (n * u) - (d * u) * p) by (nonlinear_arith)
            requires
                e1 == n * u - p,
        ;
        assert((d * u) * (n * u) == (n * d) * (u * u)) by (nonlinear_arith);
        assert(d * (p * u) == (d * u) * p) by (nonlinear_arith);
        assert(x * (i * d) == d * (x * i)) by (nonlinear_arith);
        assert((n * d - x) * uu == (n * d) * uu - x * uu) by (nonlinear_arith);
    }
    assert(0x1_0000 * bounds::size(x * e3) <= duu) by {
        let z = bounds::size(e3);
        lemma_size_of_product(x, e3);
        assert(s * z <= (128 * d) * z) by (nonlinear_arith)
            requires
                s <= 128 * d,
                z >= 0,
        ;
        assert(0x80_0000 * ((128 * d) * z) <= (128 * d) * uu) by (nonlinear_arith)
            requires
                0x80_0000 * z <= uu,
                d > 0,
        ;
        assert((128 * d) * uu == 128 * duu) by (nonlinear_arith)
            requires
                duu == d * uu,
        ;
    }
    assert(0x1_0000 * bounds::size(d * e2) <= 2 * duu) by {
        let z = bounds::size(e2);
        lemma_size_of_product(d, e2);
        lemma_size_of_product(x, i);
        assert(i * d <= 2 * uu);
        assert(d * (s * i) <= 256 * duu) by (nonlinear_arith)
            requires
                s <= 128 * d,
                i * d <= 2 * uu,
                i >= 0,
                d > 0,
                duu == d * uu,
        ;
        assert(0x80_0000 * (d * u) <= duu) by (nonlinear_arith)
            requires
                u >= 0x80_0000,
                uu == u * u,
                duu == d * uu,
                d > 0,
        ;
        assert(0x100_0000 * (d * z) <= d * (s * i) + 0x80_0000 * (d * u)) by (nonlinear_arith)
            requires
                0x100_0000 * z <= s * i + 0x80_0000 * u,
                d > 0,
        ;
    }
    assert(2 * bounds::size((d * u) * e1) <= duu) by {
        let z = bounds::size(e1);
        assert(d * u >= 0) by (nonlinear_arith)
            requires
                d > 0,
                u >= 0,
        ;
        lemma_size_of_product(d * u, e1);
        assert(2 * ((d * u) * z) <= (d * u) * u) by (nonlinear_arith)
            requires
                2 * z <= u,
                d * u >= 0,
        ;
        assert((d * u) * u == duu) by (nonlinear_arith)
            requires
                duu == d * uu,
                uu == u * u,
        ;
    }
    let gap = n * d - x;
    lemma_size_of_product(gap, uu);
    assert(uu > 0) by (nonlinear_arith)
        requires
            u >= 1,
            uu == u * u,
    ;
    let z = bounds::size(gap);
    assert(0x1_0000 * (z * uu) <= 0x8003 * duu);
    assert(0x1_0000 * z <= 0x8003 * d) by (nonlinear_arith)
        requires
            0x1_0000 * (z * uu) <= 0x8003 * duu,
            duu == d * uu,
            uu > 0,
    ;
}

proof fn lemma_size_of_product(a: int, b: int)
    ensures
        bounds::size(a * b) == bounds::size(a) * bounds::size(b),
        bounds::size(a) >= 0,
        bounds::size(b) >= 0,
{
    assert(bounds::size(a * b) == bounds::size(a) * bounds::size(b)) by (nonlinear_arith)
        requires
            bounds::size(a) == if a < 0 {
                -a
            } else {
                a
            },
            bounds::size(b) == if b < 0 {
                -b
            } else {
                b
            },
            bounds::size(a * b) == if a * b < 0 {
                -(a * b)
            } else {
                a * b
            },
    ;
}

/// The inverse of a normal number that is not too large, in units.
proof fn lemma_inverse_error(d: u32)
    requires
        0x80_0000 <= d <= 0x7E80_0000,
    ensures
        ({
            let i = arith::quotient(ONE, d);
            &&& float::is_finite(i)
            &&& !float::is_negative(i)
            &&& float::value(i) >= 0
            &&& 0x80_0000 * bounds::size(
                float::value(i) * float::value(d) - bounds::one() * bounds::one(),
            ) <= bounds::one() * bounds::one()
        }),
{
    lemma_landmarks();
    order::lemma_inverse(float::magnitude(d));
    bounds::law_quotient_error(ONE, d);
    if d < 0x7E80_0000 {
        order::lemma_units_increase(d as nat, 0x7E80_0000);
    }
    assert(float::value(d) <= pow2(275));
}

/// The largest magnitude of a block, and its scale.
proof fn lemma_scale(block: Seq<u32>, i: int)
    requires
        q8_0::all_finite(block),
        0 <= i < block.len(),
        q8_0::scale_of(block) >= 0x80_0000,
    ensures
        !float::is_negative(q8_0::scale_of(block)),
        q8_0::scale_of(block) <= 0x7E80_0000,
        float::value(q8_0::scale_of(block)) >= 0x80_0000,
        0xFF_FFFF * bounds::size(float::value(block[i])) <= 127 * (0x100_0001 * float::value(
            q8_0::scale_of(block),
        )),
{
    lemma_landmarks();
    let mags = fold::magnitudes(block);
    let top = fold::highest(mags, 0);
    let d = q8_0::scale_of(block);
    fold::law_highest(mags, 0);
    if top != 0 {
        let k = choose|k: int| 0 <= k < mags.len() && mags[k] == top;
        assert(mags[k] == float::magnitude(block[k]));
        assert(float::is_finite(block[k]));
    }
    let a = float::units(float::magnitude(top));
    order::lemma_units_increase(float::magnitude(top), 0x7F80_0000);
    lemma_pow2_pos(149);
    let den = float::units(0x42FE_0000);
    let num = a * pow2(149);
    assert(num <= pow2(275) * den) by (nonlinear_arith)
        requires
            num == a * pow2(149),
            a <= 4 * pow2(275),
            den == 127 * pow2(149),
    ;
    order::law_rounding_keeps_bounds(num, den, 0x7E80_0000);
    bounds::law_quotient_error(top, q8_0::BYTE_MAX);
    let dd = float::value(d);
    let u = bounds::one();
    assert(0x100_0000 * bounds::size(127 * dd - a) <= a + 0x80_0000 * 127) by (nonlinear_arith)
        requires
            0x100_0000 * bounds::size(dd * (127 * u) - a * u) <= a * u + 0x80_0000 * (127 * u),
            u > 0,
            bounds::size(dd * (127 * u) - a * u) == if dd * (127 * u) - a * u < 0 {
                -(dd * (127 * u) - a * u)
            } else {
                dd * (127 * u) - a * u
            },
            bounds::size(127 * dd - a) == if 127 * dd - a < 0 {
                -(127 * dd - a)
            } else {
                127 * dd - a
            },
    ;
    if 0x80_0000 < d {
        order::lemma_units_increase(0x80_0000, d as nat);
    }
    let x = block[i];
    assert(mags[i] == float::magnitude(x));
    assert(!order::less(top, mags[i]));
    assert(float::is_finite(x));
    if float::magnitude(x) < float::magnitude(top) {
        order::lemma_units_increase(float::magnitude(x), float::magnitude(top));
    }
}

/// Quantizing loses little: each number of a block is its byte times the scale,
/// up to half a scale and three parts in 65536 of it. The scale has to be a
/// normal number.
pub proof fn law_quantizing_loses_little(block: Seq<u32>, i: int)
    requires
        q8_0::all_finite(block),
        0 <= i < block.len(),
        q8_0::scale_of(block) >= 0x80_0000,
    ensures
        0x1_0000 * bounds::size(
            float::value(block[i]) - q8_0::byte_of(block, i) * float::value(q8_0::scale_of(block)),
        ) <= 0x8003 * float::value(q8_0::scale_of(block)),
{
    let d = q8_0::scale_of(block);
    let inv = arith::quotient(ONE, d);
    let v = arith::product(block[i], inv);
    lemma_scale(block, i);
    lemma_inverse_error(d);
    lemma_landmarks();
    assert(q8_0::inverse_of(block) == inv);
    let x = float::value(block[i]);
    let dd = float::value(d);
    let ii = float::value(inv);
    let u = bounds::one();
    assert(float::is_finite(block[i]));
    let s = float::units(float::magnitude(block[i])) as int;
    assert(s == bounds::size(x));
    assert(s * ii <= (0x100 * u) * u) by (nonlinear_arith)
        requires
            s <= 128 * dd,
            ii * dd <= 2 * (u * u),
            ii >= 0,
            dd > 0,
    ;
    assert(s * ii >= 0) by (nonlinear_arith)
        requires
            s >= 0,
            ii >= 0,
    ;
    lemma_pow2_pos(149);
    order::law_rounding_keeps_bounds((s * ii) as nat, pow2(149), 0x4380_0000);
    assert(float::is_finite(v));
    bounds::law_product_error(block[i], inv);
    bounds::law_nearest_error(v);
    let n = integer::nearest(v);
    lemma_loss(x, dd, ii, u, float::value(v), n);
    assert(-128 < n < 128) by {
        assert(0x1_0000 * (n * dd) <= 0x1_0000 * bounds::size(x) + 0x8003 * dd);
        assert(-(0x1_0000 * (n * dd)) <= 0x1_0000 * bounds::size(x) + 0x8003 * dd);
        assert(0x1_0000 * bounds::size(x) <= 0x7F_0010 * dd);
        assert(n < 128) by (nonlinear_arith)
            requires
                0x1_0000 * (n * dd) <= 0x7F_8013 * dd,
                dd > 0,
        ;
        assert(n > -128) by (nonlinear_arith)
            requires
                -(0x1_0000 * (n * dd)) <= 0x7F_8013 * dd,
                dd > 0,
        ;
    }
}

/// The errors of an inverse, of products and of sums, put together: how far the
/// sum of a line is from one.
proof fn lemma_balance(w: int, q: int, s: int, i: int, t: int, e: int, u: int)
    requires
        u >= 0x4000_0000,
        t > 0,
        s >= 0,
        i >= 0,
        0x8_0000 * bounds::size(w - q) <= q,
        0x100_0000 * bounds::size(q * u - s * i) <= s * i + 0x800_0000 * u,
        0x80_0000 * bounds::size(i * t - u * u) <= u * u,
        0x2_0000 * bounds::size(s + e - t) <= t,
        e >= 0,
    ensures
        0x8000 * (bounds::size(w - u) * t) <= 0x8000 * (u * e) + u * t,
{
    let uu = u * u;
    let tuu = t * uu;
    let tu = t * u;
    let e1 = w - q;
    let e2 = q * u - s * i;
    let e3 = i * t - uu;
    let e4 = s + e - t;
    assert(s <= 2 * t);
    assert(uu > 0 && tu > 0) by (nonlinear_arith)
        requires
            u >= 1,
            t >= 1,
            uu == u * u,
            tu == t * u,
    ;
    assert((w - u) * tu == e1 * tu + e2 * t + s * e3 + uu * e4 - uu * e) by {
        assert((w - u) * tu == w * tu - u * tu) by (nonlinear_arith);
        assert(e1 * tu == w * tu - q * tu) by (nonlinear_arith)
            requires
                e1 == w - q,
        ;
        assert(e2 * t == (q * u) * t - (s * i) * t) by (nonlinear_arith)
            requires
                e2 == q * u - s * i,
        ;
        assert(s * e3 == s * (i * t) - s * uu) by (nonlinear_arith)
            requires
                e3 == i * t - uu,
        ;
        assert(uu * e4 == uu * s + uu * e - uu * t) by (nonlinear_arith)
            requires
                e4 == s + e - t,
        ;
        assert((q * u) * t == q * (t * u)) by (nonlinear_arith);
        assert((s * i) * t == s * (i * t)) by (nonlinear_arith);
        assert(u * (t * u) == (u * u) * t) by (nonlinear_arith);
        assert(s * uu == uu * s) by (nonlinear_arith);
    }
    assert(s * (i * t) <= 4 * tuu) by (nonlinear_arith)
        requires
            s <= 2 * t,
            s >= 0,
            i * t <= 2 * uu,
            tuu == t * uu,
            uu > 0,
            t > 0,
    ;
    assert(0x800_0000 * (u * t) <= tuu) by (nonlinear_arith)
        requires
            u >= 0x4000_0000,
            t > 0,
            tuu == t * (u * u),
    ;
    lemma_size_of_product(e2, t);
    assert(0x20_0000 * bounds::size(e2 * t) <= tuu) by {
        let z = bounds::size(e2);
        assert(0x100_0000 * (z * t) <= (s * i) * t + 0x800_0000 * (u * t)) by (nonlinear_arith)
            requires
                0x100_0000 * z <= s * i + 0x800_0000 * u,
                t > 0,
        ;
        assert((s * i) * t == s * (i * t)) by (nonlinear_arith);
    }
    assert(0x1_0000 * bounds::size(e1 * tu) <= tuu) by {
        let z = bounds::size(e1);
        lemma_size_of_product(e1, tu);
        assert(q * tu <= 6 * tuu) by {
            assert(q * tu == (q * u) * t) by (nonlinear_arith)
                requires
                    tu == t * u,
            ;
            assert((q * u) * t == (s * i) * t + e2 * t) by (nonlinear_arith)
                requires
                    e2 == q * u - s * i,
            ;
            assert((s * i) * t == s * (i * t)) by (nonlinear_arith);
        }
        assert(0x8_0000 * (z * tu) <= q * tu) by (nonlinear_arith)
            requires
                0x8_0000 * z <= q,
                tu > 0,
        ;
    }
    assert(0x40_0000 * bounds::size(s * e3) <= tuu) by {
        let z = bounds::size(e3);
        lemma_size_of_product(s, e3);
        assert(s * z <= (2 * t) * z) by (nonlinear_arith)
            requires
                s <= 2 * t,
                z >= 0,
        ;
        assert(0x80_0000 * ((2 * t) * z) <= 2 * tuu) by (nonlinear_arith)
            requires
                0x80_0000 * z <= uu,
                t > 0,
                tuu == t * uu,
        ;
    }
    assert(0x2_0000 * bounds::size(uu * e4) <= tuu) by {
        let z = bounds::size(e4);
        lemma_size_of_product(uu, e4);
        assert(0x2_0000 * (uu * z) <= tuu) by (nonlinear_arith)
            requires
                0x2_0000 * z <= t,
                uu > 0,
                tuu == t * uu,
        ;
    }
    assert(uu * e >= 0) by (nonlinear_arith)
        requires
            uu > 0,
            e >= 0,
    ;
    let gap = bounds::size(w - u);
    lemma_size_of_product(w - u, tu);
    assert(0x8000 * (gap * tu) <= 0x8000 * (uu * e) + tuu);
    assert(0x8000 * (gap * t) <= 0x8000 * (u * e) + u * t) by (nonlinear_arith)
        requires
            0x8000 * (gap * (t * u)) <= 0x8000 * ((u * u) * e) + t * (u * u),
            u > 0,
    ;
}

/// Products with the same factor, added up exactly.
proof fn lemma_scaled_total(line: Seq<u32>, k: u32)
    requires
        float::is_finite(k),
        !float::is_negative(k),
        forall|j: int|
            0 <= j < line.len() ==> !float::is_negative(#[trigger] line[j]) && float::is_finite(
                arith::product(line[j], k),
            ),
    ensures
        bounds::exact_total(line) >= 0,
        0x100_0000 * bounds::size(
            bounds::exact_total(fold::scaled(line, k)) * bounds::one() - bounds::exact_total(line)
                * float::value(k),
        ) <= bounds::exact_total(line) * float::value(k) + line.len() * (0x80_0000 * bounds::one()),
    decreases line.len(),
{
    let u = bounds::one();
    let f = float::value(k);
    if line.len() > 0 {
        let rest = line.drop_last();
        let last = line.last();
        let n = line.len() as int;
        assert(last == line[n - 1]);
        assert forall|j: int| 0 <= j < rest.len() implies !float::is_negative(#[trigger] rest[j])
            && float::is_finite(arith::product(rest[j], k)) by {
            assert(rest[j] == line[j]);
        }
        lemma_scaled_total(rest, k);
        bounds::law_product_error(last, k);
        let all = fold::scaled(line, k);
        assert(all.drop_last() =~= fold::scaled(rest, k));
        assert(all.last() == arith::product(last, k));
        let a = bounds::exact_total(rest);
        let x = float::value(last);
        let b = bounds::exact_total(fold::scaled(rest, k));
        let p = float::value(arith::product(last, k));
        assert((a + x) * f == a * f + x * f) by (nonlinear_arith);
        assert((b + p) * u == b * u + p * u) by (nonlinear_arith);
        assert(x * f >= 0) by (nonlinear_arith)
            requires
                x >= 0,
                f >= 0,
        ;
        let h = 0x80_0000 * u;
        assert(n * h == (n - 1) * h + h) by (nonlinear_arith);
    } else {
        assert(0 * f == 0 && 0 * u == 0 && 0 * (0x80_0000 * u) == 0) by (nonlinear_arith);
    }
}

/// Whether the sum of a line that was divided by its sum and `eps` is one, up to
/// the part that `eps` has in that sum, and 2^-15.
pub open spec fn near_one(divided: Seq<u32>, line: Seq<u32>, eps: u32) -> bool {
    let gap = bounds::size(float::value(fold::total(divided)) - bounds::one());
    let divisor = float::value(arith::sum(fold::total(line), eps));
    0x8000 * (gap * divisor) <= 0x8000 * (bounds::one() * float::value(eps)) + bounds::one()
        * divisor
}

/// The sum of a line that was divided by its sum and `eps` is one, up to the part
/// that `eps` has in that sum, and 2^-15.
pub proof fn law_line_sums_to_one(line: Seq<u32>, eps: u32)
    requires
        sinkhorn::all_within(line, sinkhorn::TWO),
        line.len() <= 16,
        0x80_0000 <= eps <= ONE,
    ensures
        float::value(arith::sum(fold::total(line), eps)) > 0,
        near_one(fold::scaled(line, sinkhorn::inverse_sum(line, eps)), line, eps),
{
    lemma_landmarks();
    let inv = sinkhorn::inverse_sum(line, eps);
    let t = arith::sum(fold::total(line), eps);
    let parts = fold::scaled(line, inv);
    sinkhorn::lemma_line_sum(line, eps);
    assert(float::is_finite(fold::total(line)));
    lemma_inverse_error(t);
    assert forall|j: int| 0 <= j < line.len() implies !float::is_negative(#[trigger] line[j])
        && float::is_finite(arith::product(line[j], inv)) by {
        sinkhorn::lemma_even_line(line, j, eps);
    }
    assert forall|j: int| 0 <= j < parts.len() implies !float::is_negative(#[trigger] parts[j])
        && order::at_most(parts[j], sinkhorn::TWO) by {
        sinkhorn::lemma_even_line(line, j, eps);
    }
    lemma_scaled_total(line, inv);
    sinkhorn::lemma_total_bound(parts);
    bounds::law_total_error(parts);
    bounds::law_total_error(line);
    bounds::law_sum_error(fold::total(line), eps);
    order::law_sum_is_no_smaller(fold::total(line), eps);
    order::law_order_of_values(fold::total(line), t);
    order::law_order_of_values(eps, t);
    let n = line.len() as int;
    let s = bounds::exact_total(line);
    let q = bounds::exact_total(parts);
    let u = bounds::one();
    assert(2 * n * s <= 32 * s) by (nonlinear_arith)
        requires
            n <= 16,
            s >= 0,
    ;
    assert(2 * n * q <= 32 * q) by (nonlinear_arith)
        requires
            n <= 16,
            q >= 0,
    ;
    let h = 0x80_0000 * u;
    assert(n * h <= 16 * h) by (nonlinear_arith)
        requires
            n <= 16,
            h >= 0,
    ;
    arith::lemma_units_zero(float::magnitude(t));
    lemma_balance(
        float::value(fold::total(parts)),
        q,
        s,
        float::value(inv),
        float::value(t),
        float::value(eps),
        u,
    );
}

/// After its columns were divided by their sums, each column of a matrix sums to
/// one, up to the part of `eps` and 2^-15.
pub proof fn law_column_sums(m: Seq<u32>, n: nat, eps: u32, s: int)
    requires
        sinkhorn::all_within(m, sinkhorn::TWO),
        m.len() == n * n,
        0 < n <= 16,
        0x80_0000 <= eps <= ONE,
        0 <= s < n,
    ensures
        near_one(
            sinkhorn::column(sinkhorn::even_columns(m, n, eps), n, s),
            sinkhorn::column(m, n, s),
            eps,
        ),
{
    let line = sinkhorn::column(m, n, s);
    let even = sinkhorn::even_columns(m, n, eps);
    sinkhorn::lemma_column_within(m, n, s);
    law_line_sums_to_one(line, eps);
    let divided = fold::scaled(line, sinkhorn::inverse_sum(line, eps));
    assert forall|d: int| 0 <= d < n implies #[trigger] sinkhorn::column(even, n, s)[d]
        == divided[d] by {
        sinkhorn::lemma_inside(n, d, s);
    }
    assert(sinkhorn::column(even, n, s) =~= divided);
}

/// After its rows were divided by their sums, each row of a matrix sums to one,
/// up to the part of `eps` and 2^-15.
pub proof fn law_row_sums(m: Seq<u32>, n: nat, eps: u32, d: int)
    requires
        sinkhorn::all_within(m, sinkhorn::TWO),
        m.len() == n * n,
        0 < n <= 16,
        0x80_0000 <= eps <= ONE,
        0 <= d < n,
    ensures
        near_one(
            sinkhorn::row(sinkhorn::even_rows(m, n, eps), n, d),
            sinkhorn::row(m, n, d),
            eps,
        ),
{
    let line = sinkhorn::row(m, n, d);
    let even = sinkhorn::even_rows(m, n, eps);
    sinkhorn::lemma_row_within(m, n, d);
    law_line_sums_to_one(line, eps);
    let divided = fold::scaled(line, sinkhorn::inverse_sum(line, eps));
    assert forall|s: int| 0 <= s < n implies #[trigger] sinkhorn::row(even, n, d)[s]
        == divided[s] by {
        sinkhorn::lemma_inside(n, d, s);
    }
    assert(sinkhorn::row(even, n, d) =~= divided);
}

/// Numbers of at most one add up to at most their count.
proof fn lemma_exact_total_most(line: Seq<u32>)
    requires
        sinkhorn::all_within(line, ONE),
    ensures
        0 <= bounds::exact_total(line) <= line.len() * bounds::one(),
    decreases line.len(),
{
    lemma_landmarks();
    let u = bounds::one();
    if line.len() > 0 {
        let rest = line.drop_last();
        let n = line.len() as int;
        assert(line.last() == line[n - 1]);
        assert forall|k: int| 0 <= k < rest.len() implies !float::is_negative(#[trigger] rest[k])
            && order::at_most(rest[k], ONE) by {
            assert(rest[k] == line[k]);
        }
        lemma_exact_total_most(rest);
        order::law_order_of_values(line.last(), ONE);
        assert(n * u == (n - 1) * u + u) by (nonlinear_arith);
    } else {
        assert(0 * u == 0) by (nonlinear_arith);
    }
}

/// A number of at most one, divided by the sum of its row, keeps a part in 34.
proof fn lemma_part_lower(line: Seq<u32>, k: int, eps: u32)
    requires
        sinkhorn::all_within(line, ONE),
        line.len() <= 16,
        0x80_0000 <= eps <= ONE,
        0 <= k < line.len(),
    ensures
        34 * (float::value(arith::product(line[k], sinkhorn::inverse_sum(line, eps))) + 1)
            >= float::value(line[k]),
{
    lemma_landmarks();
    let t = arith::sum(fold::total(line), eps);
    let inv = sinkhorn::inverse_sum(line, eps);
    assert(sinkhorn::all_within(line, sinkhorn::TWO));
    sinkhorn::lemma_line_sum(line, eps);
    sinkhorn::lemma_even_line(line, k, eps);
    lemma_exact_total_most(line);
    bounds::law_total_error(line);
    bounds::law_sum_error(fold::total(line), eps);
    order::law_order_of_values(eps, ONE);
    lemma_inverse_error(t);
    bounds::law_product_error(line[k], inv);
    let n = line.len() as int;
    let u = bounds::one();
    let sum = bounds::exact_total(line);
    assert(2 * n * sum <= 32 * sum) by (nonlinear_arith)
        requires
            n <= 16,
            sum >= 0,
    ;
    assert(n * u <= 16 * u) by (nonlinear_arith)
        requires
            n <= 16,
            u >= 0,
    ;
    let tt = float::value(t);
    assert(tt <= 32 * u);
    lemma_part_bound(
        float::value(line[k]),
        float::value(inv),
        tt,
        float::value(arith::product(line[k], inv)),
        u,
    );
}

proof fn lemma_part_bound(x: int, i: int, t: int, p: int, u: int)
    requires
        u > 0,
        x >= 0,
        i >= 0,
        p >= 0,
        t <= 32 * u,
        0x80_0000 * bounds::size(i * t - u * u) <= u * u,
        0x100_0000 * bounds::size(p * u - x * i) <= bounds::size(x * i) + 0x80_0000 * u,
    ensures
        34 * (p + 1) >= x,
{
    assert(x * i >= 0) by (nonlinear_arith)
        requires
            x >= 0,
            i >= 0,
    ;
    assert(33 * i >= u) by {
        assert(i * t <= (32 * i) * u) by (nonlinear_arith)
            requires
                t <= 32 * u,
                i >= 0,
        ;
        assert(0x80_0000 * ((32 * i) * u) >= 0x7F_FFFF * (u * u));
        assert(0x80_0000 * (32 * i) >= 0x7F_FFFF * u) by (nonlinear_arith)
            requires
                0x80_0000 * ((32 * i) * u) >= 0x7F_FFFF * (u * u),
                u > 0,
        ;
    }
    assert(x * u <= 33 * (x * i)) by (nonlinear_arith)
        requires
            33 * i >= u,
            x >= 0,
    ;
    assert(0xFF_FFFF * (x * u) <= 33 * (0x100_0000 * (p * u)) + 33 * (0x80_0000 * u));
    assert(0xFF_FFFF * x <= 33 * (0x100_0000 * p) + 33 * 0x80_0000) by (nonlinear_arith)
        requires
            0xFF_FFFF * (x * u) <= 33 * (0x100_0000 * (p * u)) + 33 * (0x80_0000 * u),
            u > 0,
    ;
}

/// Where each number keeps a part in 34, so does the sum.
proof fn lemma_total_lower(a: Seq<u32>, b: Seq<u32>)
    requires
        a.len() == b.len(),
        forall|j: int|
            0 <= j < a.len() ==> 34 * (float::value(#[trigger] b[j]) + 1) >= float::value(a[j]),
    ensures
        34 * (bounds::exact_total(b) + a.len()) >= bounds::exact_total(a),
    decreases a.len(),
{
    if a.len() > 0 {
        let p = a.drop_last();
        let q = b.drop_last();
        let n = a.len() as int;
        assert(b[n - 1] == b.last() && a[n - 1] == a.last());
        assert forall|j: int| 0 <= j < p.len() implies 34 * (float::value(#[trigger] q[j]) + 1)
            >= float::value(p[j]) by {
            assert(q[j] == b[j] && p[j] == a[j]);
        }
        lemma_total_lower(p, q);
    }
}

/// Whether each column sums to at least a quarter.
pub open spec fn columns_count(m: Seq<u32>, n: nat) -> bool {
    forall|s: int|
        0 <= s < n ==> 4 * float::value(fold::total(#[trigger] sinkhorn::column(m, n, s)))
            >= bounds::one()
}

/// Dividing rows by their sums leaves each column a part in 256.
proof fn lemma_columns_after_rows(m: Seq<u32>, n: nat, eps: u32, s: int)
    requires
        sinkhorn::all_within(m, ONE),
        m.len() == n * n,
        0 < n <= 16,
        0x80_0000 <= eps <= ONE,
        columns_count(m, n),
        0 <= s < n,
    ensures
        0x100 * float::value(
            fold::total(sinkhorn::column(sinkhorn::even_rows(m, n, eps), n, s)),
        ) >= bounds::one(),
{
    lemma_landmarks();
    let even = sinkhorn::even_rows(m, n, eps);
    assert(sinkhorn::all_within(m, sinkhorn::TWO));
    sinkhorn::lemma_even_rows(m, n, eps);
    assert(sinkhorn::all_within(even, sinkhorn::TWO));
    let a = sinkhorn::column(m, n, s);
    let b = sinkhorn::column(even, n, s);
    sinkhorn::lemma_column_within(m, n, s);
    sinkhorn::lemma_column_within(even, n, s);
    assert forall|d: int| 0 <= d < n implies 34 * (float::value(#[trigger] b[d]) + 1)
        >= float::value(a[d]) by {
        sinkhorn::lemma_inside(n, d, s);
        let line = sinkhorn::row(m, n, d);
        assert forall|k: int| 0 <= k < line.len() implies !float::is_negative(#[trigger] line[k])
            && order::at_most(line[k], ONE) by {
            sinkhorn::lemma_inside(n, d, k);
            assert(line[k] == m[d * n + k]);
        }
        lemma_part_lower(line, s, eps);
        assert(line[s] == a[d]);
    }
    lemma_total_lower(a, b);
    sinkhorn::lemma_total_bound(a);
    sinkhorn::lemma_total_bound(b);
    bounds::law_total_error(a);
    bounds::law_total_error(b);
    let x = bounds::exact_total(a);
    let y = bounds::exact_total(b);
    let k = n as int;
    assert(2 * k * x <= 32 * x) by (nonlinear_arith)
        requires
            k <= 16,
            x >= 0,
    ;
    assert(2 * k * y <= 32 * y) by (nonlinear_arith)
        requires
            k <= 16,
            y >= 0,
    ;
    assert(4 * float::value(fold::total(a)) >= bounds::one());
}

/// Columns that keep a part in 256 sum to one once they are divided, up to 256
/// times `eps` and 2^-15.
proof fn lemma_columns_even(m: Seq<u32>, n: nat, eps: u32, s: int)
    requires
        sinkhorn::all_within(m, sinkhorn::TWO),
        m.len() == n * n,
        0 < n <= 16,
        0x80_0000 <= eps <= ONE,
        0 <= s < n,
        0x100 * float::value(fold::total(sinkhorn::column(m, n, s))) >= bounds::one(),
    ensures
        sums_to_one(
            fold::total(sinkhorn::column(sinkhorn::even_columns(m, n, eps), n, s)),
            eps,
        ),
{
    let line = sinkhorn::column(m, n, s);
    law_column_sums(m, n, eps, s);
    sinkhorn::lemma_column_within(m, n, s);
    sinkhorn::lemma_line_sum(line, eps);
    let t = arith::sum(fold::total(line), eps);
    order::law_order_of_values(fold::total(line), t);
    let divided = sinkhorn::column(sinkhorn::even_columns(m, n, eps), n, s);
    let gap = bounds::size(float::value(fold::total(divided)) - bounds::one());
    let u = bounds::one();
    let e = float::value(eps);
    let d = float::value(t);
    lemma_pow2_pos(149);
    assert(0x8000 * gap <= 0x80_0000 * e + u) by (nonlinear_arith)
        requires
            0x8000 * (gap * d) <= 0x8000 * (u * e) + u * d,
            0x100 * d >= u,
            u > 0,
            d > 0,
            e >= 0,
    ;
}

/// Whether a sum is one, up to 256 times `eps` and 2^-15.
pub open spec fn sums_to_one(sum: u32, eps: u32) -> bool {
    0x8000 * bounds::size(float::value(sum) - bounds::one()) <= 0x80_0000 * float::value(eps)
        + bounds::one()
}

/// A number of at most 2^-10, in units.
proof fn lemma_small_eps(eps: u32)
    requires
        eps <= 0x3A80_0000,
    ensures
        0 <= 0x400 * float::value(eps) <= bounds::one(),
{
    lemma2_to64();
    lemma_pow2_adds(23, 116);
    lemma_pow2_adds(10, 139);
    assert(float::exponent(0x3A80_0000) == 116 && float::significand(0x3A80_0000) == 0x80_0000);
    order::law_order_of_values(eps, 0x3A80_0000);
}

/// After the first round each column counts.
proof fn lemma_first_columns(m: Seq<u32>, n: nat, eps: u32)
    requires
        sinkhorn::all_within(m, sinkhorn::TWO),
        m.len() == n * n,
        0 < n <= 16,
        0x80_0000 <= eps <= 0x3A80_0000,
        forall|k: int| 0 <= k < m.len() ==> order::at_most(eps, #[trigger] m[k]),
    ensures
        columns_count(sinkhorn::even_columns(m, n, eps), n),
{
    let even = sinkhorn::even_columns(m, n, eps);
    lemma_small_eps(eps);
    lemma_pow2_pos(149);
    assert forall|s: int| 0 <= s < n implies 4 * float::value(
        fold::total(#[trigger] sinkhorn::column(even, n, s)),
    ) >= bounds::one() by {
        let line = sinkhorn::column(m, n, s);
        let total = fold::total(line);
        let t = arith::sum(total, eps);
        law_column_sums(m, n, eps, s);
        sinkhorn::lemma_column_within(m, n, s);
        sinkhorn::lemma_line_sum(line, eps);
        sinkhorn::lemma_inside(n, 0, s);
        assert(line[0] == m[0 * n + s]);
        fold::law_total_starts_from_zero(line);
        fold::law_total_is_no_smaller(line, 0);
        assert(order::at_most(line[0], total));
        order::law_order_of_values(eps, total);
        bounds::law_sum_error(total, eps);
        let e = float::value(eps);
        let d = float::value(t);
        let u = bounds::one();
        let w = float::value(fold::total(sinkhorn::column(even, n, s)));
        assert(order::at_most(eps, t)) by {
            order::law_sum_is_no_smaller(total, eps);
        }
        order::law_order_of_values(eps, t);
        arith::lemma_units_zero(eps as nat);
        let gap = bounds::size(w - u);
        assert(4 * gap <= 3 * u) by (nonlinear_arith)
            requires
                0x8000 * (gap * d) <= 0x8000 * (u * e) + u * d,
                100 * e <= 51 * d,
                u > 0,
                d > 0,
        ;
    }
}

/// The columns of the matrix of a token sum to one, up to 256 times `eps` and
/// 2^-15, from the second round on.
pub proof fn law_matrix_columns(
    logits: Seq<u32>,
    n: nat,
    iters: nat,
    eps: u32,
    exp: spec_fn(u32) -> u32,
    s: int,
)
    requires
        weights::is_exponential(exp),
        0 < n <= 16,
        logits.len() == n * n,
        forall|k: int| 0 <= k < logits.len() ==> float::is_finite(#[trigger] logits[k]),
        0x80_0000 <= eps <= 0x3A80_0000,
        iters >= 2,
        0 <= s < n,
    ensures
        sums_to_one(
            fold::total(
                sinkhorn::column(sinkhorn::mixing(logits, n, iters, eps, exp), n, s),
            ),
            eps,
        ),
{
    let soft = sinkhorn::soft_rows(logits, n, eps, exp);
    sinkhorn::lemma_soft_rows(logits, n, eps, exp);
    sinkhorn::lemma_even_columns(soft, n, eps);
    lemma_first_columns(soft, n, eps);
    lemma_rounds(sinkhorn::even_columns(soft, n, eps), n, eps, (iters - 1) as nat, s);
}

/// Every round brings the columns to one.
proof fn lemma_rounds(m: Seq<u32>, n: nat, eps: u32, rounds: nat, s: int)
    requires
        sinkhorn::all_within(m, ONE),
        m.len() == n * n,
        0 < n <= 16,
        0x80_0000 <= eps <= 0x3A80_0000,
        columns_count(m, n),
        0 <= s < n,
    ensures
        columns_count(sinkhorn::evened(m, n, eps, rounds), n),
        rounds > 0 ==> sums_to_one(
            fold::total(sinkhorn::column(sinkhorn::evened(m, n, eps, rounds), n, s)),
            eps,
        ),
    decreases rounds,
{
    if rounds > 0 {
        let before = sinkhorn::evened(m, n, eps, (rounds - 1) as nat);
        lemma_rounds(m, n, eps, (rounds - 1) as nat, s);
        sinkhorn::lemma_evened_within(m, n, eps, (rounds - 1) as nat);
        assert(sinkhorn::all_within(before, sinkhorn::TWO));
        let mid = sinkhorn::even_rows(before, n, eps);
        sinkhorn::lemma_even_rows(before, n, eps);
        assert(sinkhorn::all_within(mid, sinkhorn::TWO));
        let after = sinkhorn::even_columns(mid, n, eps);
        lemma_small_eps(eps);
        assert forall|c: int| 0 <= c < n implies sums_to_one(
            fold::total(#[trigger] sinkhorn::column(after, n, c)),
            eps,
        ) by {
            lemma_columns_after_rows(before, n, eps, c);
            lemma_columns_even(mid, n, eps, c);
        }
        lemma_pow2_pos(149);
        assert forall|c: int| 0 <= c < n implies 4 * float::value(
            fold::total(#[trigger] sinkhorn::column(after, n, c)),
        ) >= bounds::one() by {
            assert(sums_to_one(fold::total(sinkhorn::column(after, n, c)), eps));
        }
    }
}

/// Quantizing a row loses little: each number is its byte times the scale of its
/// 32, up to half a scale and three parts in 65536 of it. The scale has to be a
/// normal number.
pub proof fn law_quantized_row(x: Seq<u32>, k: int)
    requires
        q8_0::all_finite(x),
        0 <= k < x.len(),
        q8_0::scales(x)[k / 32] >= 0x80_0000,
    ensures
        0x1_0000 * bounds::size(
            float::value(x[k]) - q8_0::quantized(x)[k] * float::value(q8_0::scales(x)[k / 32]),
        ) <= 0x8003 * float::value(q8_0::scales(x)[k / 32]),
{
    let b = k / 32;
    let block = q8_0::block_at(x, b);
    assert forall|i: int| 0 <= i < block.len() implies float::is_finite(#[trigger] block[i]) by {
        assert(block[i] == x[32 * b + i]);
    }
    assert(block[k % 32] == x[k]);
    law_quantizing_loses_little(block, k % 32);
}

} // verus!
