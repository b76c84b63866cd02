//! What the mix weights of hyper-connections are, said of bases, mixes and
//! scales.

use crate::cpu::ops::scalar;
use crate::cpu::ops::sinkhorn;
use crate::cpu::ops::sinkhorn::TWO;
use crate::float;
use crate::float::arith;
use crate::float::bounds;
use crate::float::fold::ONE;
use crate::float::order;
use crate::float::ratio;
use crate::float::weights;
use vstd::arithmetic::power2::*;
use vstd::prelude::*;

verus! {

/// A half, as bits.
pub const HALF: u32 = 0x3F00_0000;

/// Adding a zero keeps every number but minus zero.
proof fn lemma_zero_and(zero: u32, x: u32)
    requires
        float::is_zero(zero),
        !float::is_nan(x),
        x != float::SIGN,
    ensures
        arith::sum(zero, x) == x,
{
    order::law_adding_zero(x, zero);
    order::law_order_of_two(x, zero);
    arith::lemma_units_zero(float::magnitude(x));
    arith::lemma_units_zero(0);
}

/// A number, plus zero for minus zero.
pub open spec fn plain_zero(x: u32) -> u32 {
    if x == float::SIGN {
        0
    } else {
        x
    }
}

/// Adding plus zero keeps every number but minus zero, which becomes plus zero.
proof fn lemma_and_zero(x: u32)
    requires
        !float::is_nan(x),
    ensures
        arith::sum(x, 0) == plain_zero(x),
{
    order::law_order_of_two(x, 0);
    arith::lemma_units_zero(0);
    if x != float::SIGN {
        lemma_zero_and(0, x);
    }
}

/// Whether mixes and bases are there for `n` streams.
pub open spec fn fits(mix: Seq<u32>, base: Seq<u32>, scale: Seq<u32>, n: nat) -> bool {
    &&& n > 0
    &&& mix.len() == 2 * n + n * n
    &&& base.len() == 2 * n + n * n
    &&& scale.len() == 3
}

/// The mix weights of given logits: first the gates before the layer, then
/// those after it, which reach up to two, then the matrix.
pub open spec fn weights_of(
    z: Seq<u32>,
    n: nat,
    iters: nat,
    eps: u32,
    exp: spec_fn(u32) -> u32,
) -> Seq<u32> {
    Seq::new(n, |i: int| arith::sum(scalar::logistic(z[i], exp), eps)) + Seq::new(
        n,
        |i: int| arith::product(TWO, scalar::logistic(z[n + i], exp)),
    ) + sinkhorn::mixing(z.subrange(2 * n as int, z.len() as int), n, iters, eps, exp)
}

/// Where the scales are zero, the mixes do not matter: the bases are the logits.
pub proof fn law_bases_alone(
    mix: Seq<u32>,
    base: Seq<u32>,
    scale: Seq<u32>,
    n: nat,
    iters: nat,
    eps: u32,
    exp: spec_fn(u32) -> u32,
)
    requires
        fits(mix, base, scale, n),
        forall|k: int| 0 <= k < 3 ==> float::is_zero(#[trigger] scale[k]),
        forall|k: int| 0 <= k < mix.len() ==> float::is_finite(#[trigger] mix[k]),
        forall|k: int|
            0 <= k < base.len() ==> !float::is_nan(#[trigger] base[k]) && base[k] != float::SIGN,
    ensures
        sinkhorn::split(mix, base, scale, n, iters, eps, exp) == weights_of(
            base,
            n,
            iters,
            eps,
            exp,
        ),
{
    assert forall|k: int, s: int| 0 <= k < base.len() && 0 <= s < 3 implies sinkhorn::logit(
        mix,
        base,
        #[trigger] scale[s],
        k,
    ) == #[trigger] base[k] by {
        assert(float::is_finite(mix[k]));
        order::law_times_zero(mix[k], scale[s]);
        lemma_zero_and(arith::product(mix[k], scale[s]), base[k]);
    }
    lemma_split_of(mix, base, scale, base, n, iters, eps, exp);
}

/// Where the bases are zero, each mix times its scale is the logit.
pub proof fn law_mixes_alone(
    mix: Seq<u32>,
    base: Seq<u32>,
    scale: Seq<u32>,
    n: nat,
    iters: nat,
    eps: u32,
    exp: spec_fn(u32) -> u32,
)
    requires
        fits(mix, base, scale, n),
        forall|k: int| 0 <= k < 3 ==> float::is_finite(#[trigger] scale[k]),
        forall|k: int| 0 <= k < mix.len() ==> float::is_finite(#[trigger] mix[k]),
        forall|k: int| 0 <= k < base.len() ==> #[trigger] base[k] == 0,
    ensures
        sinkhorn::split(mix, base, scale, n, iters, eps, exp) == weights_of(
            Seq::new(
                mix.len(),
                |k: int|
                    plain_zero(
                        arith::product(
                            mix[k],
                            if k < n {
                                scale[0]
                            } else if k < 2 * n {
                                scale[1]
                            } else {
                                scale[2]
                            },
                        ),
                    ),
            ),
            n,
            iters,
            eps,
            exp,
        ),
{
    let z = Seq::new(
        mix.len(),
        |k: int|
            plain_zero(
                arith::product(
                    mix[k],
                    if k < n {
                        scale[0]
                    } else if k < 2 * n {
                        scale[1]
                    } else {
                        scale[2]
                    },
                ),
            ),
    );
    assert forall|k: int, s: int|
        0 <= k < base.len() && 0 <= s < 3 && s == (if k < n {
            0int
        } else if k < 2 * n {
            1
        } else {
            2
        }) implies sinkhorn::logit(mix, base, #[trigger] scale[s], k) == #[trigger] z[k] by {
        assert(float::is_finite(mix[k]));
        assert(base[k] == 0);
        lemma_no_nan(mix[k], scale[s]);
        lemma_and_zero(arith::product(mix[k], scale[s]));
    }
    lemma_split_of(mix, base, scale, z, n, iters, eps, exp);
}

/// A product of finite numbers is a number.
proof fn lemma_no_nan(a: u32, b: u32)
    requires
        float::is_finite(a),
        float::is_finite(b),
    ensures
        !float::is_nan(arith::product(a, b)),
{
}

proof fn lemma_split_of(
    mix: Seq<u32>,
    base: Seq<u32>,
    scale: Seq<u32>,
    z: Seq<u32>,
    n: nat,
    iters: nat,
    eps: u32,
    exp: spec_fn(u32) -> u32,
)
    requires
        fits(mix, base, scale, n),
        z.len() == base.len(),
        forall|k: int|
            0 <= k < n ==> sinkhorn::logit(mix, base, scale[0], k) == #[trigger] z[k],
        forall|k: int|
            n <= k < 2 * n ==> sinkhorn::logit(mix, base, scale[1], k) == #[trigger] z[k],
        forall|k: int|
            2 * n <= k < z.len() ==> sinkhorn::logit(mix, base, scale[2], k) == #[trigger] z[k],
    ensures
        sinkhorn::split(mix, base, scale, n, iters, eps, exp) == weights_of(
            z,
            n,
            iters,
            eps,
            exp,
        ),
{
    let rest = z.subrange(2 * n as int, z.len() as int);
    let logits = sinkhorn::matrix_logits(mix, base, scale[2], n);
    assert forall|k: int| 0 <= k < n * n implies logits[k] == rest[k] by {
        assert(rest[k] == z[2 * n + k]);
    }
    assert(logits =~= rest);
    assert(sinkhorn::pre_gates(mix, base, scale[0], n, eps, exp) =~= Seq::new(
        n,
        |i: int| arith::sum(scalar::logistic(z[i], exp), eps),
    ));
    assert(sinkhorn::post_gates(mix, base, scale[1], n, exp) =~= Seq::new(
        n,
        |i: int| arith::product(TWO, scalar::logistic(z[n + i], exp)),
    ));
}

/// The exponential that the logistic function is made of.
spec fn fall(x: u32, exp: spec_fn(u32) -> u32) -> u32 {
    if order::at_most(0, x) {
        exp(arith::negated(x))
    } else {
        exp(x)
    }
}

proof fn lemma_fall(x: u32, exp: spec_fn(u32) -> u32)
    requires
        weights::is_exponential(exp),
        !float::is_nan(x),
    ensures
        ({
            let e = fall(x, exp);
            let t = arith::sum(ONE, e);
            &&& !float::is_negative(e)
            &&& float::is_finite(e)
            &&& 0 <= float::value(e) <= bounds::one()
            &&& !float::is_negative(t)
            &&& float::is_finite(t)
            &&& !float::is_zero(t)
            &&& bounds::one() <= float::value(t) <= 2 * bounds::one()
        }),
{
    let e = fall(x, exp);
    let t = arith::sum(ONE, e);
    assert(!float::is_negative(e) && order::at_most(e, ONE));
    lemma_one_and_two();
    order::law_order_of_values(e, ONE);
    arith::lemma_units_zero(float::magnitude(e));
    order::law_sum_is_no_smaller(ONE, e);
    let exact = float::value(ONE) + float::value(e);
    assert(float::units(0x4000_0000) * 1 == float::units(0x4000_0000));
    order::law_rounding_keeps_bounds(arith::abs(exact), 1, 0x4000_0000);
    order::law_order_of_values(ONE, t);
    order::law_order_of_values(t, TWO);
}

proof fn lemma_one_and_two()
    ensures
        float::value(ONE) == bounds::one(),
        float::value(TWO) == 2 * bounds::one(),
        float::units(0x4000_0000) == 2 * pow2(149),
        bounds::one() > 0x800_0000,
{
    lemma2_to64();
    lemma_pow2_adds(126, 23);
    lemma_pow2_adds(127, 23);
    lemma_pow2_adds(1, 149);
    lemma_pow2_adds(32, 117);
    lemma_pow2_pos(117);
    assert(pow2(32) * pow2(117) >= pow2(32)) by (nonlinear_arith)
        requires
            pow2(117) >= 1,
            pow2(32) >= 0,
    ;
    assert(float::exponent(0x3F80_0000) == 126 && float::significand(0x3F80_0000) == 0x80_0000);
    assert(float::exponent(0x4000_0000) == 127 && float::significand(0x4000_0000) == 0x80_0000);
    assert(0x80_0000 * pow2(126) == pow2(126) * 0x80_0000) by (nonlinear_arith);
    assert(0x80_0000 * pow2(127) == pow2(127) * 0x80_0000) by (nonlinear_arith);
}

/// The logistic function of a number that is not negative, times one and the
/// exponential of what is as far below zero, is one; that of a negative number,
/// times one and its exponential, is its exponential. Both hold up to 2^-22.
pub proof fn law_logistic(x: u32, exp: spec_fn(u32) -> u32)
    requires
        weights::is_exponential(exp),
        !float::is_nan(x),
    ensures
        order::at_most(0, x) ==> ({
            let e = float::value(exp(arith::negated(x)));
            let one = bounds::one();
            0x40_0000 * bounds::size(float::value(scalar::logistic(x, exp)) * (one + e) - one * one)
                <= one * (one + e)
        }),
        order::less(x, 0) ==> ({
            let e = float::value(exp(x));
            let one = bounds::one();
            0x40_0000 * bounds::size(float::value(scalar::logistic(x, exp)) * (one + e) - e * one)
                <= one * (one + e)
        }),
{
    let e = fall(x, exp);
    let t = arith::sum(ONE, e);
    let l = scalar::logistic(x, exp);
    let one = bounds::one();
    lemma_fall(x, exp);
    lemma_one_and_two();
    scalar::law_logistic_is_a_part(x, exp);
    order::law_order_of_values(l, ONE);
    bounds::law_sum_error(ONE, e);
    let top = if order::at_most(0, x) {
        ONE
    } else {
        e
    };
    assert(l == arith::quotient(top, t));
    bounds::law_quotient_error(top, t);
    arith::lemma_units_zero(float::magnitude(l));
    lemma_divided(
        float::value(l),
        float::value(t),
        one + float::value(e),
        float::value(top),
        one,
    );
}

proof fn lemma_divided(l: int, t: int, s: int, top: int, one: int)
    requires
        0 <= l <= one,
        0 <= top <= one,
        one <= s,
        t <= 2 * one,
        one > 0x800_0000,
        0x100_0000 * bounds::size(t - s) <= s,
        0x100_0000 * bounds::size(l * t - top * one) <= top * one + 0x80_0000 * t,
    ensures
        0x40_0000 * bounds::size(l * s - top * one) <= one * s,
{
    let d = t - s;
    assert(l * s == l * t - l * d) by (nonlinear_arith)
        requires
            d == t - s,
    ;
    assert(0x100_0000 * bounds::size(l * d) <= one * s) by {
        assert(bounds::size(l * d) == l * bounds::size(d)) by (nonlinear_arith)
            requires
                l >= 0,
        ;
        assert(0x100_0000 * (l * bounds::size(d)) == l * (0x100_0000 * bounds::size(d)))
            by (nonlinear_arith);
        assert(l * (0x100_0000 * bounds::size(d)) <= one * s) by (nonlinear_arith)
            requires
                0 <= l <= one,
                0 <= 0x100_0000 * bounds::size(d) <= s,
        ;
    }
    assert(top * one <= one * s) by (nonlinear_arith)
        requires
            0 <= top <= one,
            one <= s,
    ;
    assert(0x80_0000 * t <= one * s) by (nonlinear_arith)
        requires
            t <= 2 * one,
            one > 0x800_0000,
            one <= s,
    ;
}

/// The logistic function of numbers that are not negative does not fall; it is
/// at least a half there and at most a half below.
pub proof fn law_logistic_grows(x: u32, y: u32, exp: spec_fn(u32) -> u32)
    requires
        weights::is_exponential(exp),
        order::at_most(x, y),
        order::at_most(0, y),
    ensures
        order::at_most(scalar::logistic(x, exp), scalar::logistic(y, exp)),
{
    let e = fall(x, exp);
    let f = fall(y, exp);
    let s = arith::sum(ONE, e);
    let t = arith::sum(ONE, f);
    lemma_fall(x, exp);
    lemma_fall(y, exp);
    lemma_one_and_two();
    if order::at_most(0, x) {
        assert(order::at_most(f, e));
        order::law_sum_keeps_order(f, e, ONE);
        order::law_order_of_two(f, ONE);
        order::law_order_of_two(e, ONE);
        order::law_order_of_values(t, s);
        ratio::law_larger_divisor(ONE, s, t);
    } else {
        lemma_at_most_half(e, s);
        lemma_at_least_half(t);
    }
}

proof fn lemma_at_most_half(e: u32, s: u32)
    requires
        float::is_finite(e),
        !float::is_negative(e),
        float::value(e) <= bounds::one(),
        s == arith::sum(ONE, e),
        float::is_finite(s),
        !float::is_negative(s),
        float::value(s) >= bounds::one(),
    ensures
        order::at_most(arith::quotient(e, s), HALF),
{
    lemma_one_and_two();
    lemma_half();
    arith::lemma_units_zero(float::magnitude(s));
    let x = float::units(float::magnitude(e));
    let y = float::units(float::magnitude(s));
    lemma_twice_fits(e, s);
    assert(x * pow2(149) <= float::units(0x3F00_0000) * y) by (nonlinear_arith)
        requires
            2 * x <= y,
            2 * float::units(0x3F00_0000) == pow2(149),
    ;
    order::law_rounding_keeps_bounds(x * pow2(149), y, 0x3F00_0000);
}

/// Twice a number of at most one is no more than that number and one, rounded.
proof fn lemma_twice_fits(e: u32, s: u32)
    requires
        float::is_finite(e),
        !float::is_negative(e),
        float::value(e) <= bounds::one(),
        s == arith::sum(ONE, e),
        float::is_finite(s),
        !float::is_negative(s),
    ensures
        2 * float::value(e) <= float::value(s),
{
    lemma_one_and_two();
    let m = float::magnitude(e);
    order::law_order_of_values(e, ONE);
    let mag = float::magnitude(s);
    let exact = float::value(ONE) + float::value(e);
    lemma2_to64();
    if m < 0x80_0000 {
        order::lemma_units_of_parts(0, m);
        order::law_sum_is_no_smaller(ONE, e);
        order::law_order_of_values(ONE, s);
    } else {
        let d = (m + 0x80_0000) as nat;
        assert(d / 0x80_0000 == m / 0x80_0000 + 1);
        assert(float::significand(d) == float::significand(m));
        assert(float::exponent(d) == float::exponent(m) + 1);
        lemma_pow2_unfold(float::exponent(d));
        assert(float::units(d) == 2 * float::units(m)) by (nonlinear_arith)
            requires
                float::units(d) == float::significand(d) * pow2(float::exponent(d)),
                float::units(m) == float::significand(m) * pow2(float::exponent(m)),
                float::significand(d) == float::significand(m),
                pow2(float::exponent(d)) == 2 * pow2(float::exponent(m)),
        ;
        assert(float::units(d) * 1 == float::units(d));
        order::law_rounding_reaches(arith::abs(exact), 1, d);
        if d < mag {
            order::lemma_units_increase(d, mag);
        }
    }
}

proof fn lemma_at_least_half(t: u32)
    requires
        float::is_finite(t),
        !float::is_negative(t),
        bounds::one() <= float::value(t) <= 2 * bounds::one(),
    ensures
        order::at_most(HALF, arith::quotient(ONE, t)),
{
    lemma_one_and_two();
    lemma_half();
    arith::lemma_units_zero(float::magnitude(t));
    let y = float::units(float::magnitude(t));
    let u = float::units(0x3F80_0000);
    assert(u * pow2(149) >= float::units(0x3F00_0000) * y) by (nonlinear_arith)
        requires
            u == pow2(149),
            y <= 2 * pow2(149),
            2 * float::units(0x3F00_0000) == pow2(149),
    ;
    order::law_rounding_reaches(u * pow2(149), y, 0x3F00_0000);
}

proof fn lemma_half()
    ensures
        2 * float::units(0x3F00_0000) == pow2(149),
{
    lemma2_to64();
    lemma_pow2_adds(125, 23);
    lemma_pow2_adds(1, 148);
    assert(float::exponent(0x3F00_0000) == 125 && float::significand(0x3F00_0000) == 0x80_0000);
    assert(0x80_0000 * pow2(125) == pow2(125) * 0x80_0000) by (nonlinear_arith);
}

/// Where the scales are zero, a gate does not fall as its base grows to or
/// beyond zero.
pub proof fn law_gates_grow(
    mix: Seq<u32>,
    base: Seq<u32>,
    more: Seq<u32>,
    scale: Seq<u32>,
    n: nat,
    iters: nat,
    eps: u32,
    exp: spec_fn(u32) -> u32,
    i: int,
)
    requires
        weights::is_exponential(exp),
        float::is_finite(eps),
        fits(mix, base, scale, n),
        fits(mix, more, scale, n),
        forall|k: int| 0 <= k < 3 ==> float::is_zero(#[trigger] scale[k]),
        forall|k: int| 0 <= k < mix.len() ==> float::is_finite(#[trigger] mix[k]),
        forall|k: int|
            0 <= k < base.len() ==> !float::is_nan(#[trigger] base[k]) && base[k] != float::SIGN,
        forall|k: int|
            0 <= k < more.len() ==> !float::is_nan(#[trigger] more[k]) && more[k] != float::SIGN,
        0 <= i < 2 * n,
        order::at_most(base[i], more[i]),
        order::at_most(0, more[i]),
    ensures
        order::at_most(
            sinkhorn::split(mix, base, scale, n, iters, eps, exp)[i],
            sinkhorn::split(mix, more, scale, n, iters, eps, exp)[i],
        ),
{
    law_bases_alone(mix, base, scale, n, iters, eps, exp);
    law_bases_alone(mix, more, scale, n, iters, eps, exp);
    let a = scalar::logistic(base[i], exp);
    let b = scalar::logistic(more[i], exp);
    law_logistic_grows(base[i], more[i], exp);
    scalar::law_logistic_is_a_part(base[i], exp);
    scalar::law_logistic_is_a_part(more[i], exp);
    if i < n {
        order::law_sum_keeps_order(a, b, eps);
    } else {
        assert(n + (i - n) == i);
        order::law_product_keeps_order(a, b, TWO);
        order::law_order_of_two(a, TWO);
        order::law_order_of_two(b, TWO);
    }
}

} // verus!
