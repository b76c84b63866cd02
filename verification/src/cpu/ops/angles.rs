//! By which angles pairs are turned, and what turning does to a pair.

use crate::cpu::ops::rope::{Functions, RoPEParams, MINUS_TWO};
use crate::cpu::ops::sinkhorn::TWO;
use crate::float;
use crate::float::arith;
use crate::float::bounds;
use crate::float::fold::ONE;
use crate::float::order;
use vstd::arithmetic::power::*;
use vstd::arithmetic::power2::*;
use vstd::prelude::*;

verus! {

/// Whether powers of a base with a negative exponent, or none, are between zero
/// and one.
pub open spec fn falls(base: u32, powf: spec_fn(u32, u32) -> u32) -> bool {
    forall|y: u32|
        order::at_most(y, 0) ==> !float::is_negative(#[trigger] powf(base, y)) && order::at_most(
            powf(base, y),
            ONE,
        )
}

/// The quotient of minus two and a positive number is not positive.
proof fn lemma_exponent(n: u32)
    requires
        n > 0,
    ensures
        order::at_most(arith::quotient(MINUS_TWO, arith::of_integer(n as int)), 0),
{
    let d = arith::of_integer(n as int);
    lemma_integer(n);
}

/// A positive integer below 2^32, as bits, is positive and finite.
pub proof fn lemma_integer(n: u32)
    ensures
        !float::is_negative(arith::of_integer(n as int)),
        float::is_finite(arith::of_integer(n as int)),
        n > 0 ==> !float::is_zero(arith::of_integer(n as int)),
        n < 0x100_0000 ==> float::value(arith::of_integer(n as int)) == n * bounds::one(),
        0x100_0000 * bounds::size(
            float::value(arith::of_integer(n as int)) - n * bounds::one(),
        ) <= n * bounds::one(),
{
    lemma2_to64();
    lemma_pow2_pos(149);
    let num = (n as nat) * pow2(149);
    lemma_pow2_adds(32, 149);
    let top = 0x4F80_0000nat;
    assert(float::exponent(top) == 158 && float::significand(top) == 0x80_0000);
    lemma_pow2_adds(158, 23);
    assert(0x80_0000 * pow2(158) == pow2(158) * 0x80_0000) by (nonlinear_arith);
    assert(num <= pow2(181)) by (nonlinear_arith)
        requires
            num == (n as nat) * pow2(149),
            n <= 0x1_0000_0000,
            pow2(181) == 0x1_0000_0000 * pow2(149),
    ;
    assert(float::units(top) * 1 == float::units(top));
    order::law_rounding_keeps_bounds(num, 1, top);
    bounds::law_rounding_error(num, 1);
    if n > 0 {
        assert(num >= pow2(149)) by (nonlinear_arith)
            requires
                num == (n as nat) * pow2(149),
                n >= 1,
        ;
        let got = float::rounding::round_to_magnitude(num, 1);
        arith::lemma_units_zero(got);
        assert(float::units(got) * 1 == float::units(got));
    }
    if n < 0x100_0000 {
        order::lemma_exact(n as nat, 149, 1);
        assert(num * 1 == num);
    }
}

/// The angles of the pairs do not grow from pair to pair.
pub proof fn law_angles_fall(p: RoPEParams, f: Functions, k: nat)
    requires
        p.n_rot > 0,
        falls(p.freq_base, f.powf),
    ensures
        !float::is_negative(p.plain(k, f)),
        float::is_finite(p.plain(k, f)),
        order::at_most(p.plain(k + 1, f), p.plain(k, f)),
    decreases k,
{
    let r = p.falloff(f);
    lemma_exponent(p.n_rot);
    lemma_integer(p.pos);
    if k > 0 {
        law_angles_fall(p, f, (k - 1) as nat);
    }
    order::law_part_is_no_larger(p.plain(k, f), r);
}

/// Whether angle `a` is `pos` times the `k`-th power of `r`, up to the rounding
/// of `k` products. All are counted in units.
pub open spec fn is_angle(a: int, pos: int, r: int, k: nat) -> bool {
    let one = bounds::one();
    0x100_0000 * bounds::size(a * pow(one, k) - pos * pow(r, k)) <= 2 * k * (pos * pow(r, k))
        + 0x100_0000 * (k * pow(one, k))
}

/// Whether `y` is minus two divided by `n`, up to rounding. Both are counted in
/// units.
pub open spec fn is_exponent(y: int, n: int) -> bool {
    let one = bounds::one();
    0x100_0000 * bounds::size(y * n + 2 * (one * one)) <= 2 * (one * one) + 0x80_0000 * n
}

/// Whether `v` is the integer `n`, counted in units, up to rounding.
pub open spec fn is_integer(v: int, n: int) -> bool {
    &&& 0x100_0000 * bounds::size(v - n * bounds::one()) <= n * bounds::one()
    &&& n < 0x100_0000 ==> v == n * bounds::one()
}

/// The exponent of the fall from pair to pair is minus two divided by the
/// number of rotated places.
pub proof fn law_exponent(p: RoPEParams, f: Functions) -> (y: u32)
    requires
        p.n_rot > 0,
    ensures
        p.falloff(f) == (f.powf)(p.freq_base, y),
        float::is_finite(y),
        is_integer(float::value(arith::of_integer(p.n_rot as int)), p.n_rot as int),
        is_exponent(float::value(y), float::value(arith::of_integer(p.n_rot as int))),
        float::value(y) <= 0,
{
    let d = arith::of_integer(p.n_rot as int);
    let one = bounds::one();
    let y = arith::quotient(MINUS_TWO, d);
    let q = arith::quotient(TWO, d);
    lemma_integer(p.n_rot);
    lemma_two();
    arith::lemma_units_zero(float::magnitude(d));
    let v = float::value(d);
    assert(v >= one) by {
        let n = p.n_rot as int;
        if n < 0x100_0000 {
            assert(n * one >= one) by (nonlinear_arith)
                requires
                    n >= 1,
                    one > 0,
            ;
        } else {
            assert(n * one >= 0x100_0000 * one) by (nonlinear_arith)
                requires
                    n >= 0x100_0000,
                    one > 0,
            ;
        }
    }
    let num = float::units(0x4000_0000) * pow2(149);
    assert(num <= float::units(0x4000_0000) * float::units(float::magnitude(d)))
        by (nonlinear_arith)
        requires
            num == float::units(0x4000_0000) * pow2(149),
            pow2(149) <= float::units(float::magnitude(d)),
    ;
    order::law_rounding_keeps_bounds(num, float::units(float::magnitude(d)), 0x4000_0000);
    bounds::law_quotient_error(TWO, d);
    assert(float::value(y) == -float::value(q));
    assert((-float::value(q)) * v == -(float::value(q) * v)) by (nonlinear_arith);
    assert(float::value(TWO) * one == 2 * (one * one)) by (nonlinear_arith)
        requires
            float::value(TWO) == 2 * one,
    ;
    y
}

proof fn lemma_two()
    ensures
        float::value(ONE) == bounds::one(),
        float::value(TWO) == 2 * bounds::one(),
        float::units(0x4000_0000) == 2 * pow2(149),
        float::value(MINUS_TWO) == -2 * bounds::one(),
        bounds::one() > 0,
{
    lemma2_to64();
    lemma_pow2_pos(149);
    lemma_pow2_adds(126, 23);
    lemma_pow2_adds(127, 23);
    lemma_pow2_adds(1, 149);
    assert(float::exponent(0x3F80_0000) == 126 && float::significand(0x3F80_0000) == 0x80_0000);
    assert(float::exponent(0x4000_0000) == 127 && float::significand(0x4000_0000) == 0x80_0000);
    assert(0x80_0000 * pow2(126) == pow2(126) * 0x80_0000) by (nonlinear_arith);
    assert(0x80_0000 * pow2(127) == pow2(127) * 0x80_0000) by (nonlinear_arith);
}

/// The plain angle of pair `k` is the position times the `k`-th power of what
/// the angle falls by from pair to pair.
pub proof fn law_plain_angle(p: RoPEParams, f: Functions, k: nat)
    requires
        p.n_rot > 0,
        falls(p.freq_base, f.powf),
        k <= 0x40_0000,
    ensures
        float::is_finite(p.plain(k, f)),
        is_integer(float::value(arith::of_integer(p.pos as int)), p.pos as int),
        is_angle(
            float::value(p.plain(k, f)),
            float::value(arith::of_integer(p.pos as int)),
            float::value(p.falloff(f)),
            k,
        ),
    decreases k,
{
    let r = p.falloff(f);
    let one = bounds::one();
    let pos = float::value(arith::of_integer(p.pos as int));
    lemma_exponent(p.n_rot);
    lemma_integer(p.pos);
    lemma_two();
    law_angles_fall(p, f, k);
    order::law_order_of_values(r, ONE);
    if k == 0 {
        lemma_pow0(one);
        lemma_pow0(float::value(r));
        assert(pos * 1 - pos * 1 == 0);
    } else {
        let j = (k - 1) as nat;
        law_plain_angle(p, f, j);
        law_angles_fall(p, f, j);
        bounds::law_product_error(p.plain(j, f), r);
        lemma_pow_step(one, j);
        lemma_pow_step(float::value(r), j);
        lemma_angle_step(
            float::value(p.plain(j, f)),
            float::value(p.plain(k, f)),
            pos,
            float::value(r),
            pow(one, j),
            pow(float::value(r), j),
            j as int,
            one,
        );
    }
}

proof fn lemma_pow_step(b: int, k: nat)
    requires
        b >= 0,
    ensures
        pow(b, k + 1) == b * pow(b, k),
        pow(b, k) >= 0,
    decreases k,
{
    reveal(pow);
    if k > 0 {
        lemma_pow_step(b, (k - 1) as nat);
        assert(b * pow(b, (k - 1) as nat) >= 0) by (nonlinear_arith)
            requires
                b >= 0,
                pow(b, (k - 1) as nat) >= 0,
        ;
    }
}

/// One more product adds one more rounding.
proof fn lemma_angle_step(a: int, b: int, pos: int, r: int, w: int, q: int, k: int, one: int)
    requires
        0 <= k <= 0x40_0000,
        0 <= a,
        0 <= b,
        0 <= pos,
        0 <= r <= one,
        0 < one,
        0 <= w,
        0 <= q,
        0x100_0000 * bounds::size(b * one - a * r) <= a * r + 0x80_0000 * one,
        0x100_0000 * bounds::size(a * w - pos * q) <= 2 * k * (pos * q) + 0x100_0000 * (k * w),
    ensures
        0x100_0000 * bounds::size(b * (one * w) - pos * (r * q)) <= 2 * (k + 1) * (pos * (r * q))
            + 0x100_0000 * ((k + 1) * (one * w)),
{
    let e = a * w - pos * q;
    let d = b * one - a * r;
    let x = pos * (r * q);
    let y = one * w;
    let z = a * w * r;
    assert(d * w == b * (one * w) - z) by (nonlinear_arith)
        requires
            d == b * one - a * r,
            z == a * w * r,
    ;
    assert(e * r == z - x) by (nonlinear_arith)
        requires
            e == a * w - pos * q,
            x == pos * (r * q),
            z == a * w * r,
    ;
    assert(0x100_0000 * bounds::size(d * w) <= z + 0x80_0000 * y) by {
        assert(bounds::size(d * w) == bounds::size(d) * w) by (nonlinear_arith)
            requires
                w >= 0,
        ;
        assert(0x100_0000 * (bounds::size(d) * w) == (0x100_0000 * bounds::size(d)) * w)
            by (nonlinear_arith);
        assert((0x100_0000 * bounds::size(d)) * w <= (a * r + 0x80_0000 * one) * w)
            by (nonlinear_arith)
            requires
                0x100_0000 * bounds::size(d) <= a * r + 0x80_0000 * one,
                w >= 0,
        ;
        assert((a * r + 0x80_0000 * one) * w == z + 0x80_0000 * y) by (nonlinear_arith)
            requires
                z == a * w * r,
                y == one * w,
        ;
    }
    assert(0x100_0000 * bounds::size(e * r) <= 2 * k * x + 0x100_0000 * (k * y)) by {
        assert(bounds::size(e * r) == bounds::size(e) * r) by (nonlinear_arith)
            requires
                r >= 0,
        ;
        assert(0x100_0000 * (bounds::size(e) * r) == (0x100_0000 * bounds::size(e)) * r)
            by (nonlinear_arith);
        let m = 2 * k * (pos * q) + 0x100_0000 * (k * w);
        assert((0x100_0000 * bounds::size(e)) * r <= m * r) by (nonlinear_arith)
            requires
                0x100_0000 * bounds::size(e) <= m,
                r >= 0,
        ;
        assert(m * r == 2 * k * x + 0x100_0000 * (k * (w * r))) by (nonlinear_arith)
            requires
                m == 2 * k * (pos * q) + 0x100_0000 * (k * w),
                x == pos * (r * q),
        ;
        assert(w * r <= y) by (nonlinear_arith)
            requires
                y == one * w,
                r <= one,
                w >= 0,
        ;
        assert(k * (w * r) <= k * y) by (nonlinear_arith)
            requires
                w * r <= y,
                k >= 0,
        ;
    }
    assert(x >= 0) by {
        assert(r * q >= 0) by (nonlinear_arith)
            requires
                r >= 0,
                q >= 0,
        ;
        assert(pos * (r * q) >= 0) by (nonlinear_arith)
            requires
                pos >= 0,
                r * q >= 0,
        ;
    }
    assert(y >= 0) by (nonlinear_arith)
        requires
            y == one * w,
            one > 0,
            w >= 0,
    ;
    assert(2 * k * x <= 0x80_0000 * x) by (nonlinear_arith)
        requires
            k <= 0x40_0000,
            x >= 0,
    ;
    assert(k * y <= 0x40_0000 * y) by (nonlinear_arith)
        requires
            k <= 0x40_0000,
            y >= 0,
    ;
    assert(2 * (k + 1) * x == 2 * k * x + 2 * x) by (nonlinear_arith);
    assert((k + 1) * y == k * y + y) by (nonlinear_arith);
}

/// Where pair `k` of head `h` starts.
pub open spec fn pair_place(p: RoPEParams, h: int, k: int) -> int {
    h * p.head_dim + (p.head_dim - p.n_rot) + 2 * k
}

proof fn lemma_pair_place(p: RoPEParams, h: int, k: int)
    requires
        p.n_rot <= p.head_dim,
        0 <= h < p.n_head,
        0 <= k,
        2 * k + 1 < p.n_rot,
    ensures
        ({
            let i = pair_place(p, h, k);
            let dim = p.head_dim as int;
            &&& 0 <= i
            &&& i + 1 < p.n_head * p.head_dim
            &&& i % dim == p.head_dim - p.n_rot + 2 * k
            &&& (i + 1) % dim == p.head_dim - p.n_rot + 2 * k + 1
        }),
{
    let dim = p.head_dim as int;
    let d = p.head_dim - p.n_rot + 2 * k;
    assert(h * dim >= 0) by (nonlinear_arith)
        requires
            h >= 0,
            dim >= 0,
    ;
    assert((h + 1) * dim <= p.n_head * dim) by (nonlinear_arith)
        requires
            h + 1 <= p.n_head,
            dim >= 0,
    ;
    assert((h + 1) * dim == h * dim + dim) by (nonlinear_arith);
    vstd::arithmetic::div_mod::lemma_fundamental_div_mod_converse(h * dim + d, dim, h, d);
    vstd::arithmetic::div_mod::lemma_fundamental_div_mod_converse(h * dim + d + 1, dim, h, d + 1);
}

/// One times a number is that number, and zero times a number is zero.
proof fn lemma_unit_products(x: u32)
    requires
        float::is_finite(x),
    ensures
        arith::product(ONE, x) == x,
        arith::product(x, ONE) == x,
        float::is_zero(arith::product(0, x)),
{
    order::law_times_one(x);
    order::law_order_of_two(x, ONE);
    order::law_times_zero(x, 0);
    order::law_order_of_two(x, 0);
}

/// Adding a zero or taking it off does not change a number; taking a number off
/// a zero changes its sign.
proof fn lemma_unit_sums(x: u32, zero: u32)
    requires
        float::is_finite(x),
        float::is_zero(zero),
    ensures
        order::same(arith::difference(x, zero), x),
        order::same(arith::sum(x, zero), x),
        order::same(arith::sum(zero, x), x),
        order::same(arith::difference(zero, x), arith::negated(x)),
{
    let other = arith::negated(x);
    order::law_adding_zero(x, zero);
    order::law_adding_zero(x, arith::negated(zero));
    order::law_adding_zero(other, zero);
    order::law_order_of_two(x, zero);
    order::law_order_of_two(other, zero);
}

/// What becomes of a pair.
pub proof fn law_pair(p: RoPEParams, x: Seq<u32>, f: Functions, h: int, k: int)
    requires
        x.len() == p.n_head * p.head_dim,
        p.n_rot <= p.head_dim,
        0 <= h < p.n_head,
        0 <= k,
        2 * k + 1 < p.n_rot,
    ensures
        ({
            let i = pair_place(p, h, k);
            let c = p.cosine(k, f);
            let s = p.sine(k, f);
            &&& 0 <= i
            &&& i + 1 < x.len()
            &&& p.rotated(x, f)[i] == arith::difference(
                arith::product(x[i], c),
                arith::product(x[i + 1], s),
            )
            &&& p.rotated(x, f)[i + 1] == arith::sum(
                arith::product(x[i], s),
                arith::product(x[i + 1], c),
            )
        }),
{
    lemma_pair_place(p, h, k);
    let d = 2 * k;
    assert(d / 2 == k && d % 2 == 0 && (d + 1) / 2 == k && (d + 1) % 2 == 1);
}

proof fn lemma_plain_pair(p: RoPEParams, x: Seq<u32>, f: Functions, h: int, k: int)
    requires
        x.len() == p.n_head * p.head_dim,
        p.n_rot <= p.head_dim,
        float::is_zero(p.ext_factor),
        p.freq_scale == ONE,
        p.attn_factor == ONE,
        !p.inverse,
        float::is_finite(p.plain(k as nat, f)),
        float::is_finite((f.cos)(p.plain(k as nat, f))),
        float::is_finite((f.sin)(p.plain(k as nat, f))),
        0 <= h < p.n_head,
        0 <= k,
        2 * k + 1 < p.n_rot,
    ensures
        ({
            let i = pair_place(p, h, k);
            let angle = p.plain(k as nat, f);
            let c = (f.cos)(angle);
            let s = (f.sin)(angle);
            &&& x[i] == ONE && x[i + 1] == 0 ==> order::same(p.rotated(x, f)[i], c)
                && order::same(p.rotated(x, f)[i + 1], s)
            &&& x[i] == 0 && x[i + 1] == ONE ==> order::same(
                p.rotated(x, f)[i],
                arith::negated(s),
            ) && order::same(p.rotated(x, f)[i + 1], c)
        }),
{
    let angle = p.plain(k as nat, f);
    let c = (f.cos)(angle);
    let s = (f.sin)(angle);
    lemma_unit_products(angle);
    assert(!p.mixes());
    assert(p.angle(k, f) == angle);
    lemma_unit_products(c);
    lemma_unit_products(s);
    assert(p.cosine(k, f) == c);
    assert(p.sine(k, f) == s);
    law_pair(p, x, f, h, k);
    lemma_unit_sums(c, arith::product(0, s));
    lemma_unit_sums(s, arith::product(0, c));
    lemma_unit_sums(c, arith::product(0, c));
    lemma_unit_sums(s, arith::product(0, s));
    lemma_unit_sums(s, arith::product(0, c));
    lemma_unit_sums(c, arith::product(0, s));
}

/// Without mixing, scaling or a gain, pair `k` of a head that holds one and zero
/// comes out as the cosine and the sine of its angle, and one that holds zero
/// and one as minus the sine and the cosine. The angle is the position times the
/// `k`-th power of what the base gives for the exponent minus two by the number
/// of rotated places.
pub proof fn law_pairs_turn(
    p: RoPEParams,
    x: Seq<u32>,
    y: Seq<u32>,
    f: Functions,
    h: int,
    k: int,
) -> (r: (u32, u32))
    requires
        x.len() == p.n_head * p.head_dim,
        y.len() == p.n_head * p.head_dim,
        0 < p.n_rot <= p.head_dim,
        p.n_rot % 2 == 0,
        float::is_zero(p.ext_factor),
        p.freq_scale == ONE,
        p.attn_factor == ONE,
        !p.inverse,
        falls(p.freq_base, f.powf),
        forall|a: u32| float::is_finite(#[trigger] (f.cos)(a)),
        forall|a: u32| float::is_finite(#[trigger] (f.sin)(a)),
        0 <= h < p.n_head,
        0 <= k <= 0x40_0000,
        2 * k + 1 < p.n_rot,
        x[pair_place(p, h, k)] == ONE,
        x[pair_place(p, h, k) + 1] == 0,
        y[pair_place(p, h, k)] == 0,
        y[pair_place(p, h, k) + 1] == ONE,
    ensures
        ({
            let i = pair_place(p, h, k);
            let (angle, exponent) = r;
            let base = float::value((f.powf)(p.freq_base, exponent));
            let places = float::value(arith::of_integer(p.n_rot as int));
            let pos = float::value(arith::of_integer(p.pos as int));
            &&& order::same(p.rotated(x, f)[i], (f.cos)(angle))
            &&& order::same(p.rotated(x, f)[i + 1], (f.sin)(angle))
            &&& order::same(p.rotated(y, f)[i], arith::negated((f.sin)(angle)))
            &&& order::same(p.rotated(y, f)[i + 1], (f.cos)(angle))
            &&& is_integer(places, p.n_rot as int)
            &&& is_integer(pos, p.pos as int)
            &&& is_exponent(float::value(exponent), places)
            &&& is_angle(float::value(angle), pos, base, k as nat)
        }),
{
    let exponent = law_exponent(p, f);
    let angle = p.plain(k as nat, f);
    law_plain_angle(p, f, k as nat);
    lemma_plain_pair(p, x, f, h, k);
    lemma_plain_pair(p, y, f, h, k);
    (angle, exponent)
}

} // verus!
