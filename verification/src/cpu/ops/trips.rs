//! What a round trip through a small format comes to.

use crate::cpu::ops::dsv4_quant;
use crate::cpu::ops::dsv4_quant::Format;
use crate::cpu::ops::formats;
use crate::cpu::ops::hadamard;
use crate::cpu::ops::signs;
use crate::float;
use crate::float::arith;
use crate::float::bounds;
use crate::float::fold;
use crate::float::order;
use crate::float::rounding;
use crate::float::small;
use crate::float::sums;
use vstd::arithmetic::power2::*;
use vstd::prelude::*;

verus! {

/// What a group is scaled by.
pub open spec fn scale(f: Format, group: Seq<u32>) -> u32 {
    dsv4_quant::power_bits(f.exponent_of(group))
}

/// Whether every number is finite.
pub open spec fn all_finite(s: Seq<u32>) -> bool {
    forall|i: int| 0 <= i < s.len() ==> float::is_finite(#[trigger] s[i])
}

/// The bits of a power of two stand for it.
pub proof fn law_powers(e: int)
    requires
        -126 <= e <= 127,
    ensures
        float::value(dsv4_quant::power_bits(e)) == pow2((149 + e) as nat),
        float::is_finite(dsv4_quant::power_bits(e)),
        !float::is_negative(dsv4_quant::power_bits(e)),
        !float::is_zero(dsv4_quant::power_bits(e)),
        float::magnitude(dsv4_quant::power_bits(e)) == dsv4_quant::power_bits(e),
        pow2((149 + e) as nat) >= 0x80_0000,
{
    lemma2_to64();
    let b = ((e + 127) * 0x80_0000) as nat;
    assert(float::exponent(b) == e + 126 && float::significand(b) == 0x80_0000);
    lemma_pow2_adds(23, (e + 126) as nat);
    rounding::lemma_pow2_monotone(23, (149 + e) as nat);
}

/// The least scale up to one that reaches.
proof fn lemma_least(f: Format, mag: nat, e: int) -> (r: int)
    requires
        mag < 0x7F80_0000,
        -126 <= e <= 127,
        f.reaches(mag, e),
    ensures
        f.is_scale(mag, r),
    decreases e + 126,
{
    if e > -126 && f.reaches(mag, e - 1) {
        lemma_least(f, mag, e - 1)
    } else {
        e
    }
}

proof fn lemma_scale_exists(f: Format, mag: nat)
    requires
        f.wf(),
        mag < 0x7F80_0000,
    ensures
        exists|e: int| f.is_scale(mag, e),
{
    lemma2_to64();
    let p = float::exponent(mag);
    rounding::lemma_pow2_monotone(p, 253);
    lemma_pow2_adds(24, 253);
    lemma_pow2_unfold(277);
    lemma_pow2_pos(p);
    let m = float::significand(mag);
    assert(m * pow2(p) <= 0x100_0000 * pow2(253)) by (nonlinear_arith)
        requires
            m <= 0x100_0000,
            0 < pow2(p) <= pow2(253),
    ;
    assert(pow2(277) == 2 * pow2(276));
    assert(f.limit * pow2(276) >= 2 * pow2(276)) by (nonlinear_arith)
        requires
            f.limit >= 2,
    ;
    assert(f.reaches(mag, 127));
    let e = lemma_least(f, mag, 127);
}

/// The scale of a group is the least power of two, from the smallest normal
/// number on, with which the largest number of the format reaches the floor and
/// every number of the group.
pub proof fn law_scale(f: Format, group: Seq<u32>)
    requires
        f.wf(),
        all_finite(group),
    ensures
        ({
            let e = f.exponent_of(group);
            let s = float::value(scale(f, group));
            &&& -126 <= e <= 127
            &&& s == pow2((149 + e) as nat)
            &&& float::value(f.floor) <= f.limit * s
            &&& forall|i: int|
                0 <= i < group.len() ==> bounds::size(#[trigger] float::value(group[i])) <= f.limit * s
            &&& e > -126 ==> 2 * float::value(f.floor) > f.limit * s || exists|i: int|
                0 <= i < group.len() && 2 * bounds::size(#[trigger] float::value(group[i])) > f.limit
                    * s
        }),
{
    let mags = fold::magnitudes(group);
    let top = fold::highest(mags, 0);
    let reach = f.reach_of(group);
    fold::law_highest(mags, 0);
    if top != 0 {
        let k = choose|k: int| 0 <= k < mags.len() && mags[k] == top;
        assert(mags[k] == float::magnitude(group[k]));
        assert(float::is_finite(group[k]));
    }
    lemma_scale_exists(f, reach as nat);
    let e = f.exponent_of(group);
    assert(f.is_scale(reach as nat, e));
    law_powers(e);
    let s = pow2((149 + e) as nat);
    if f.floor < reach {
        order::lemma_units_increase(f.floor as nat, reach as nat);
    }
    assert forall|i: int| 0 <= i < group.len() implies bounds::size(
        #[trigger] float::value(group[i]),
    ) <= f.limit * s by {
        assert(mags[i] == float::magnitude(group[i]));
        assert(float::is_finite(group[i]));
        assert(!order::less(top, mags[i]));
        if float::magnitude(group[i]) < reach {
            order::lemma_units_increase(float::magnitude(group[i]), reach as nat);
        }
    }
    if e > -126 {
        assert(!f.reaches(reach as nat, e - 1));
        lemma_pow2_unfold((149 + e) as nat);
        let half = pow2((148 + e) as nat);
        assert(f.limit * s == 2 * (f.limit * half)) by (nonlinear_arith)
            requires
                s == 2 * half,
        ;
        if reach != f.floor {
            let k = choose|k: int| 0 <= k < mags.len() && mags[k] == top;
            assert(mags[k] == float::magnitude(group[k]));
            assert(2 * bounds::size(float::value(group[k])) > f.limit * s);
        }
    }
}

/// The quotient by the scale stays within the format.
proof fn lemma_quotient_within(f: Format, x: u32, e: int)
    requires
        f.wf(),
        float::is_finite(x),
        -126 <= e <= 127,
        bounds::size(float::value(x)) <= f.limit * pow2((149 + e) as nat),
    ensures
        float::is_finite(arith::quotient(x, dsv4_quant::power_bits(e))),
{
    law_powers(e);
    let s = pow2((149 + e) as nat);
    let a = float::units(float::magnitude(x));
    let top: nat = if f.limit == 6 {
        0x40C0_0000
    } else {
        0x43E0_0000
    };
    lemma2_to64();
    assert(float::units(top) == f.limit * pow2(149)) by {
        if f.limit == 6 {
            assert(float::exponent(top) == 128 && float::significand(top) == 0xC0_0000);
            lemma_pow2_adds(21, 128);
            assert(pow2(149) == 0x20_0000 * pow2(128));
            assert(float::units(top) == 0xC0_0000 * pow2(128));
            assert(f.limit * pow2(149) == 6 * pow2(149)) by (nonlinear_arith)
                requires
                    f.limit == 6,
            ;
        } else {
            assert(float::exponent(top) == 134 && float::significand(top) == 0xE0_0000);
            lemma_pow2_adds(15, 134);
            assert(pow2(149) == 0x8000 * pow2(134));
            assert(float::units(top) == 0xE0_0000 * pow2(134));
            assert(f.limit * pow2(149) == 448 * pow2(149)) by (nonlinear_arith)
                requires
                    f.limit == 448,
            ;
        }
    }
    assert(a * pow2(149) <= (f.limit * pow2(149)) * s) by (nonlinear_arith)
        requires
            a <= f.limit * s,
    ;
    order::law_rounding_keeps_bounds(a * pow2(149), s, top);
}

/// The steps of a round trip, put together.
proof fn lemma_steps(x: int, q: int, y: int, r: int, v: int, s: int, u: int, limit: int)
    requires
        u >= 0x100_0000,
        s >= 0x80_0000,
        0 <= limit <= 448,
        0 <= x <= limit * s,
        0 <= q,
        0 <= y <= limit * u,
        0 <= r,
        0x100_0000 * bounds::size(q * s - x * u) <= x * u + 0x80_0000 * s,
        bounds::size(y - q) <= bounds::size(v - q),
        0x100_0000 * bounds::size(r * u - y * s) <= y * s + 0x80_0000 * u,
    ensures
        0x2000 * (bounds::size(r * u - x * u) - bounds::size(v * s - x * u)) <= s * u,
{
    let su = s * u;
    let (a, b, c, d, w) = (x * u, q * s, y * s, r * u, v * s);
    assert(a <= 448 * su && a >= 0) by (nonlinear_arith)
        requires
            0 <= x <= limit * s,
            limit <= 448,
            u >= 0,
            s >= 0,
            a == x * u,
            su == s * u,
    ;
    assert(c <= 448 * su && c >= 0) by (nonlinear_arith)
        requires
            0 <= y <= limit * u,
            limit <= 448,
            u >= 0,
            s >= 0,
            c == y * s,
            su == s * u,
    ;
    assert(bounds::size(c - b) == bounds::size(y - q) * s) by (nonlinear_arith)
        requires
            c == y * s,
            b == q * s,
            s >= 0,
            bounds::size(y - q) == if y - q < 0 {
                -(y - q)
            } else {
                y - q
            },
            bounds::size(c - b) == if c - b < 0 {
                -(c - b)
            } else {
                c - b
            },
    ;
    assert(bounds::size(w - b) == bounds::size(v - q) * s) by (nonlinear_arith)
        requires
            w == v * s,
            b == q * s,
            s >= 0,
            bounds::size(v - q) == if v - q < 0 {
                -(v - q)
            } else {
                v - q
            },
            bounds::size(w - b) == if w - b < 0 {
                -(w - b)
            } else {
                w - b
            },
    ;
    assert(bounds::size(y - q) * s <= bounds::size(v - q) * s) by (nonlinear_arith)
        requires
            bounds::size(y - q) <= bounds::size(v - q),
            s >= 0,
    ;
    assert(0x80_0000 * s <= su) by (nonlinear_arith)
        requires
            u >= 0x80_0000,
            s >= 0,
            su == s * u,
    ;
    assert(0x80_0000 * u <= su) by (nonlinear_arith)
        requires
            s >= 0x80_0000,
            u >= 0,
            su == s * u,
    ;
}

/// Whether `r` is what `x` comes back as where the scale is `s`: a number of the
/// format times the scale, as near as any other of them, up to 2^-13 of the
/// scale, and with the sign of `x`.
pub open spec fn is_trip(f: Format, r: u32, x: u32, s: u32) -> bool {
    let (back, size) = (bounds::size(float::value(r)), bounds::size(float::value(x)));
    let one = bounds::one();
    &&& forall|code: nat|
        code <= f.max ==> 0x2000 * (bounds::size(back * one - size * one) - bounds::size(
            float::value(#[trigger] f.bits_of(code)) * float::value(s) - size * one,
        )) <= float::value(s) * one
    &&& float::value(x) >= 0 ==> float::value(r) >= 0
    &&& float::value(x) <= 0 ==> float::value(r) <= 0
}

/// Each number of a group comes back as the nearest number of the format, times
/// the scale of the group.
pub proof fn law_round_trip(f: Format, group: Seq<u32>, i: int)
    requires
        f.wf(),
        all_finite(group),
        0 <= i < group.len(),
        float::is_finite(f.rounded(group)[i]),
    ensures
        is_trip(f, f.rounded(group)[i], group[i], scale(f, group)),
{
    lemma_round_trip(f, group, i, 0);
    assert forall|code: nat| code <= f.max implies {
        let (r, x, s) = (f.rounded(group)[i], group[i], scale(f, group));
        let (back, size) = (bounds::size(float::value(r)), bounds::size(float::value(x)));
        let one = bounds::one();
        0x2000 * (bounds::size(back * one - size * one) - bounds::size(
            float::value(#[trigger] f.bits_of(code)) * float::value(s) - size * one,
        )) <= float::value(s) * one
    } by {
        lemma_round_trip(f, group, i, code);
    }
}

/// Each number of a row comes back as a number of the format, times the scale of
/// its group.
pub proof fn law_row_round_trip(f: Format, row: Seq<u32>, group: nat, i: int)
    requires
        f.wf(),
        group > 0,
        row.len() % group == 0,
        all_finite(row),
        0 <= i < row.len(),
        float::is_finite(dsv4_quant::rounded_row(f, row, group)[i]),
    ensures
        ({
            let from = i - i % (group as int);
            is_trip(
                f,
                dsv4_quant::rounded_row(f, row, group)[i],
                row[i],
                scale(f, row.subrange(from, from + group)),
            )
        }),
{
    let g = group as int;
    let q = i / g;
    let from = i - i % g;
    let n = row.len() as int;
    vstd::arithmetic::div_mod::lemma_fundamental_div_mod(n, g);
    vstd::arithmetic::div_mod::lemma_fundamental_div_mod(i, g);
    vstd::arithmetic::div_mod::lemma_div_pos_is_pos(i, g);
    assert(q < n / g) by (nonlinear_arith)
        requires
            g * q <= i,
            i < g * (n / g),
            g > 0,
    ;
    assert((q + 1) * g <= n) by (nonlinear_arith)
        requires
            q + 1 <= n / g,
            n == g * (n / g),
            g > 0,
    ;
    assert((q + 1) * g == q * g + g && q * g == g * q) by (nonlinear_arith);
    assert(0 <= q * g) by (nonlinear_arith)
        requires
            q >= 0,
            g > 0,
    ;
    let part = row.subrange(from, from + g);
    assert(part =~= dsv4_quant::group_of(row, group, q));
    assert forall|k: int| 0 <= k < part.len() implies float::is_finite(#[trigger] part[k]) by {
        assert(part[k] == row[from + k]);
    }
    assert(part[i % g] == row[i]);
    law_round_trip(f, part, i % g);
}

/// An indexer row is transformed, and what comes of it goes on a round trip
/// through the 4-bit format: number `k` is the sum of the row with the signs of
/// `k`, times the scale of the transform, up to rounding; then it is the nearest
/// number of the format, times the scale of its 32.
pub proof fn law_indexer_row(x: Seq<u32>, most: int, i: int) -> (t: Seq<u32>)
    requires
        x.len() == 128,
        hadamard::all_finite(dsv4_quant::transformed(x)),
        forall|j: int| 0 <= j < 128 ==> bounds::size(#[trigger] hadamard::values(x)[j]) <= most,
        0 <= i < 128,
        float::is_finite(dsv4_quant::indexer_row(x)[i]),
    ensures
        t.len() == 128,
        forall|k: int|
            0 <= k < 128 ==> 0x2000 * bounds::size(
                float::value(#[trigger] t[k]) * bounds::one() - signs::signed_sum(
                    hadamard::values(x),
                    k,
                    128,
                ) * hadamard::norm(),
            ) <= most * hadamard::norm() + 0x2000 * bounds::one(),
        is_trip(
            dsv4_quant::e2m1(),
            dsv4_quant::indexer_row(x)[i],
            t[i],
            scale(dsv4_quant::e2m1(), t.subrange(i - i % 32, i - i % 32 + 32)),
        ),
{
    let t = dsv4_quant::transformed(x);
    reveal(dsv4_quant::indexer_row);
    assert forall|k: int| 0 <= k < 128 implies 0x2000 * bounds::size(
        float::value(#[trigger] t[k]) * bounds::one() - signs::signed_sum(
            hadamard::values(x),
            k,
            128,
        ) * hadamard::norm(),
    ) <= most * hadamard::norm() + 0x2000 * bounds::one() by {
        hadamard::law_transform_error(x, most, k);
        signs::law_transform_is_a_signed_sum(hadamard::values(x), k);
    }
    law_row_round_trip(dsv4_quant::e2m1(), t, 32, i);
    t
}

proof fn lemma_round_trip(f: Format, group: Seq<u32>, i: int, other: nat)
    requires
        f.wf(),
        all_finite(group),
        0 <= i < group.len(),
        float::is_finite(f.rounded(group)[i]),
        other <= f.max,
    ensures
        ({
            let r = float::value(f.rounded(group)[i]);
            let x = float::value(group[i]);
            let s = float::value(scale(f, group));
            let one = bounds::one();
            let v = float::value(f.bits_of(other));
            &&& 0x2000 * (bounds::size(bounds::size(r) * one - bounds::size(x) * one)
                - bounds::size(v * s - bounds::size(x) * one)) <= s * one
            &&& x >= 0 ==> r >= 0
            &&& x <= 0 ==> r <= 0
        }),
{
    let s = scale(f, group);
    let e = f.exponent_of(group);
    let x = group[i];
    law_scale(f, group);
    law_powers(e);
    assert(float::is_finite(x));
    assert(bounds::size(float::value(group[i])) <= f.limit * float::value(s));
    lemma_quotient_within(f, x, e);
    let q = arith::quotient(x, s);
    sums::law_signed_quotient_error(x, s);
    formats::law_snapped_is_nearest(f, q, other);
    let y = f.snapped(q);
    let r = arith::product(y, s);
    assert(f.rounded(group)[i] == r);
    bounds::law_product_error(y, s);
    lemma_snapped_within(f, q);
    lemma_signs(x, s, q, y, r);
    lemma_unit();
    lemma_absolute(
        float::value(x),
        float::value(q),
        float::value(y),
        float::value(r),
        float::value(s),
        bounds::one(),
    );
    lemma_steps(
        bounds::size(float::value(x)),
        bounds::size(float::value(q)),
        bounds::size(float::value(y)),
        bounds::size(float::value(r)),
        float::value(f.bits_of(other)),
        float::value(s),
        bounds::one(),
        f.limit as int,
    );
}

proof fn lemma_unit()
    ensures
        bounds::one() >= 0x100_0000,
{
    lemma2_to64();
    rounding::lemma_pow2_monotone(24, 149);
}

/// What is snapped is within the format.
proof fn lemma_snapped_within(f: Format, q: u32)
    requires
        f.wf(),
        float::is_finite(q),
    ensures
        bounds::size(float::value(f.snapped(q))) <= f.limit * bounds::one(),
{
    let u = float::units(float::magnitude(q));
    let (h, places, max) = (f.h as nat, f.places as nat, f.max as nat);
    let code = f.nearest(u);
    formats::lemma_nearest(f, u);
    small::lemma_code_exact(code, h, places);
    small::lemma_code_exact(max, h, places);
    if code < max {
        small::lemma_values_increase(code, max, h, places);
    }
    formats::law_limits();
    let b = f.bits_of(max);
    assert(float::magnitude(b) == b);
}

/// A quotient, what it snaps to and the product keep the sign.
proof fn lemma_signs(x: u32, s: u32, q: u32, y: u32, r: u32)
    requires
        float::is_finite(x),
        float::is_finite(s),
        !float::is_negative(s),
        !float::is_zero(s),
        q == arith::quotient(x, s),
        r == arith::product(y, s),
        float::is_finite(q),
        float::is_finite(y),
        float::is_finite(r),
        float::value(q) >= 0 ==> float::value(y) >= 0,
        float::value(q) <= 0 ==> float::value(y) <= 0,
    ensures
        float::value(x) >= 0 ==> float::value(q) >= 0 && float::value(y) >= 0 && float::value(r)
            >= 0,
        float::value(x) <= 0 ==> float::value(q) <= 0 && float::value(y) <= 0 && float::value(r)
            <= 0,
{
    arith::lemma_units_zero(float::magnitude(x));
    arith::lemma_units_zero(float::magnitude(y));
    let d = float::units(float::magnitude(s));
    arith::lemma_units_zero(float::magnitude(s));
    arith::lemma_units_zero(0);
    if float::value(x) == 0 {
        assert(0 * pow2(149) == 0) by (nonlinear_arith);
        order::law_rounding_keeps_bounds(0, d, 0);
    }
    if float::value(y) == 0 {
        assert(0 * d == 0) by (nonlinear_arith);
        lemma_pow2_pos(149);
        order::law_rounding_keeps_bounds(0, pow2(149), 0);
    }
}

/// Errors of numbers are errors of their absolute values.
proof fn lemma_absolute(x: int, q: int, y: int, r: int, s: int, u: int)
    requires
        s >= 0,
        u >= 0,
        x >= 0 ==> q >= 0 && y >= 0 && r >= 0,
        x <= 0 ==> q <= 0 && y <= 0 && r <= 0,
    ensures
        bounds::size(q * s - x * u) == bounds::size(bounds::size(q) * s - bounds::size(x) * u),
        bounds::size(r * u - y * s) == bounds::size(bounds::size(r) * u - bounds::size(y) * s),
        bounds::size(y * s) == bounds::size(y) * s,
{
    assert((-q) * s == -(q * s)) by (nonlinear_arith);
    assert((-x) * u == -(x * u)) by (nonlinear_arith);
    assert((-r) * u == -(r * u)) by (nonlinear_arith);
    assert((-y) * s == -(y * s)) by (nonlinear_arith);
    assert(y >= 0 ==> y * s >= 0) by (nonlinear_arith)
        requires
            s >= 0,
    ;
    assert(y <= 0 ==> y * s <= 0) by (nonlinear_arith)
        requires
            s >= 0,
    ;
}

/// A number times a power of two, up to rounding.
pub proof fn law_times_power(x: u32, e: int)
    requires
        -126 <= e <= 127,
        float::is_finite(arith::product(x, dsv4_quant::power_bits(e))),
    ensures
        ({
            let exact = float::value(x) * pow2((149 + e) as nat);
            0x100_0000 * bounds::size(
                float::value(arith::product(x, dsv4_quant::power_bits(e))) * bounds::one() - exact,
            ) <= bounds::size(exact) + 0x80_0000 * bounds::one()
        }),
{
    law_powers(e);
    bounds::law_product_error(x, dsv4_quant::power_bits(e));
}

/// A code of a format is an exponent and a fraction: with the exponent zero the
/// fraction in the smallest step, else one and the fraction, times a power of
/// two that doubles from exponent to exponent.
pub proof fn law_fields(e: nat, m: nat)
    ensures
        e < 4 && m < 2 ==> float::value(dsv4_quant::e2m1().bits_of(2 * e + m)) == if e == 0 {
            m * pow2(148)
        } else {
            (2 + m) * pow2((147 + e) as nat)
        },
        e < 16 && m < 8 ==> float::value(dsv4_quant::e4m3().bits_of(8 * e + m)) == if e == 0 {
            m * pow2(140)
        } else {
            (8 + m) * pow2((139 + e) as nat)
        },
{
    if e < 4 && m < 2 {
        small::lemma_code_exact(2 * e + m, 2, 1);
        lemma_field(2 * e + m, 2, e, m, 148);
        let b = dsv4_quant::e2m1().bits_of(2 * e + m);
        assert(float::magnitude(b) == b);
    }
    if e < 16 && m < 8 {
        small::lemma_code_exact(8 * e + m, 8, 9);
        lemma_field(8 * e + m, 8, e, m, 140);
        let b = dsv4_quant::e4m3().bits_of(8 * e + m);
        assert(float::magnitude(b) == b);
    }
}

proof fn lemma_field(code: nat, h: nat, e: nat, m: nat, p: nat)
    requires
        h == 2 || h == 8,
        m < h,
        code == h * e + m,
    ensures
        small::small_units(code, h) * pow2(p) == if e == 0 {
            m * pow2(p)
        } else {
            (h + m) * pow2((p + e - 1) as nat)
        },
{
    if e > 0 {
        assert(code / h == e && code % h == m);
        lemma_pow2_adds((e - 1) as nat, p);
        let (a, b, c) = (pow2((e - 1) as nat) as int, pow2(p) as int, (m + h) as int);
        assert((c * a) * b == c * (a * b)) by (nonlinear_arith);
    }
}

} // verus!
