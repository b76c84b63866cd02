//! Shares: exponentials of scores, each divided by their sum.

use crate::float;
use crate::float::arith;
use crate::float::bounds;
use crate::float::fold;
use crate::float::fold::ONE;
use crate::float::order;
use crate::float::sums;
use crate::float::weights;
use vstd::prelude::*;

verus! {

/// The exponential of how far each score is below `top`.
pub open spec fn exponentials(s: Seq<u32>, top: u32, exp: spec_fn(u32) -> u32) -> Seq<u32> {
    Seq::new(s.len(), |i: int| exp(arith::difference(s[i], top)))
}

/// Whether `p` is the weight `w` divided by `all`, the sum of `n` weights in
/// units, up to `8n + 4` times 2^-24 of it and two units.
pub open spec fn is_share(p: u32, w: u32, all: int, n: nat) -> bool {
    &&& float::is_finite(p)
    &&& !float::is_negative(p)
    &&& 0x100_0000 * bounds::size(float::value(p) * all - float::value(w) * bounds::one()) <= (8 * n
        + 4) * (float::value(w) * bounds::one()) + 0x200_0000 * all
}

/// A weight times one over a rounded sum is its share.
pub proof fn lemma_share(w: u32, t: u32, all: int, n: nat)
    requires
        n <= 0x10_0000,
        !float::is_negative(w),
        order::at_most(w, ONE),
        float::is_finite(t),
        !float::is_negative(t),
        bounds::one() <= float::value(t) <= 0x40_0000 * bounds::one(),
        all >= 0,
        0x100_0000 * bounds::size(float::value(t) - all) <= 2 * n * all,
    ensures
        is_share(arith::product(w, arith::quotient(ONE, t)), w, all, n),
{
    let inv = arith::quotient(ONE, t);
    let p = arith::product(w, inv);
    let one = bounds::one();
    sums::lemma_one();
    arith::lemma_units_zero(float::magnitude(t));
    order::law_order_of_values(ONE, t);
    order::law_quotient_is_a_part(ONE, t);
    order::law_part_is_no_larger(inv, w);
    order::law_order_of_two(inv, w);
    bounds::law_quotient_error(ONE, t);
    bounds::law_product_error(w, inv);
    arith::lemma_units_zero(float::magnitude(p));
    lemma_divided(float::value(p), float::value(w), float::value(inv), float::value(t), one);
    lemma_exact_sum(float::value(p), float::value(w), float::value(t), all, n as int, one);
}

/// A product with a rounded inverse is close to the exact quotient.
proof fn lemma_divided(p: int, w: int, q: int, t: int, one: int)
    requires
        one > 0x1000_0000_0000_0000,
        w >= 0,
        q >= 0,
        one <= t <= 0x40_0000 * one,
        0x100_0000 * bounds::size(q * t - one * one) <= one * one + 0x80_0000 * t,
        0x100_0000 * bounds::size(p * one - w * q) <= bounds::size(w * q) + 0x80_0000 * one,
    ensures
        0x100_0000 * bounds::size(p * t - w * one) <= 4 * (w * one) + 0x80_0000 * t,
{
    let d = p * one - w * q;
    let e = q * t - one * one;
    let x = p * t - w * one;
    let ww = w * (one * one);
    assert(0x80_0000 * t <= one * one) by (nonlinear_arith)
        requires
            t <= 0x40_0000 * one,
            one > 0x1000_0000_0000_0000,
    ;
    assert(x * one == d * t + w * e) by {
        assert(d * t == p * one * t - w * q * t) by (nonlinear_arith)
            requires
                d == p * one - w * q,
        ;
        assert(w * e == w * q * t - ww) by (nonlinear_arith)
            requires
                e == q * t - one * one,
                ww == w * (one * one),
        ;
        assert(x * one == p * one * t - ww) by (nonlinear_arith)
            requires
                x == p * t - w * one,
                ww == w * (one * one),
        ;
    }
    assert(ww >= 0) by {
        assert(one * one >= 0) by (nonlinear_arith);
        assert(w * (one * one) >= 0) by (nonlinear_arith)
            requires
                w >= 0,
                one * one >= 0,
        ;
    }
    assert(0x80_0000 * bounds::size(w * e) <= ww) by {
        assert(bounds::size(w * e) == w * bounds::size(e)) by (nonlinear_arith)
            requires
                w >= 0,
        ;
        assert(w * (0x80_0000 * bounds::size(e)) <= w * (one * one)) by (nonlinear_arith)
            requires
                w >= 0,
                0x80_0000 * bounds::size(e) <= one * one,
        ;
        assert(w * (0x80_0000 * bounds::size(e)) == 0x80_0000 * (w * bounds::size(e)))
            by (nonlinear_arith);
    }
    assert(w * q >= 0) by (nonlinear_arith)
        requires
            w >= 0,
            q >= 0,
    ;
    assert(w * q * t == ww + w * e) by (nonlinear_arith)
        requires
            e == q * t - one * one,
            ww == w * (one * one),
    ;
    assert(0x100_0000 * bounds::size(d * t) <= w * q * t + 0x80_0000 * (one * t)) by {
        assert(bounds::size(d * t) == bounds::size(d) * t) by (nonlinear_arith)
            requires
                t > 0,
        ;
        assert((0x100_0000 * bounds::size(d)) * t <= (w * q + 0x80_0000 * one) * t)
            by (nonlinear_arith)
            requires
                0x100_0000 * bounds::size(d) <= w * q + 0x80_0000 * one,
                t > 0,
        ;
        assert((0x100_0000 * bounds::size(d)) * t == 0x100_0000 * (bounds::size(d) * t))
            by (nonlinear_arith);
        assert((w * q + 0x80_0000 * one) * t == w * q * t + 0x80_0000 * (one * t))
            by (nonlinear_arith);
    }
    let m = bounds::size(x);
    let r = 4 * (w * one) + 0x80_0000 * t;
    assert(bounds::size(x * one) == m * one) by (nonlinear_arith)
        requires
            one > 0,
            m == bounds::size(x),
    ;
    assert(r * one == 4 * ww + 0x80_0000 * (one * t)) by (nonlinear_arith)
        requires
            r == 4 * (w * one) + 0x80_0000 * t,
            ww == w * (one * one),
    ;
    assert(0x100_0000 * (m * one) <= r * one);
    assert(0x100_0000 * m <= r) by (nonlinear_arith)
        requires
            0x100_0000 * (m * one) <= r * one,
            one > 0,
    ;
}

/// The same with the exact sum in place of the rounded one.
proof fn lemma_exact_sum(p: int, w: int, t: int, all: int, n: int, one: int)
    requires
        0 <= n <= 0x10_0000,
        p >= 0,
        w >= 0,
        t > 0,
        all >= 0,
        one > 0,
        0x100_0000 * bounds::size(t - all) <= 2 * n * all,
        0x100_0000 * bounds::size(p * t - w * one) <= 4 * (w * one) + 0x80_0000 * t,
    ensures
        0x100_0000 * bounds::size(p * all - w * one) <= (8 * n + 4) * (w * one) + 0x200_0000 * all,
{
    let d = t - all;
    let z = w * one;
    assert(2 * n * all <= 0x20_0000 * all) by (nonlinear_arith)
        requires
            n <= 0x10_0000,
            all >= 0,
    ;
    assert(p * all == p * t - p * d) by (nonlinear_arith)
        requires
            d == t - all,
    ;
    assert(z >= 0) by (nonlinear_arith)
        requires
            z == w * one,
            w >= 0,
            one > 0,
    ;
    assert(bounds::size(p * d) == p * bounds::size(d)) by (nonlinear_arith)
        requires
            p >= 0,
    ;
    assert(0x100_0000 * (p * bounds::size(d)) <= 2 * n * (p * all)) by {
        assert(p * (0x100_0000 * bounds::size(d)) <= p * (2 * n * all)) by (nonlinear_arith)
            requires
                p >= 0,
                0x100_0000 * bounds::size(d) <= 2 * n * all,
        ;
        assert(p * (0x100_0000 * bounds::size(d)) == 0x100_0000 * (p * bounds::size(d)))
            by (nonlinear_arith);
        assert(p * (2 * n * all) == 2 * n * (p * all)) by (nonlinear_arith);
    }
    let y = p * all;
    assert(y >= 0) by (nonlinear_arith)
        requires
            y == p * all,
            p >= 0,
            all >= 0,
    ;
    assert(2 * n * y <= 0x20_0000 * y) by (nonlinear_arith)
        requires
            n <= 0x10_0000,
            y >= 0,
    ;
    assert(y <= 2 * z + 2 * all);
    assert(2 * n * y <= 2 * n * (2 * z + 2 * all)) by (nonlinear_arith)
        requires
            y <= 2 * z + 2 * all,
            n >= 0,
    ;
    assert(2 * n * (2 * z + 2 * all) == 4 * n * z + 4 * n * all) by (nonlinear_arith);
    assert(4 * n * all <= 0x40_0000 * all) by (nonlinear_arith)
        requires
            n <= 0x10_0000,
            all >= 0,
    ;
    assert(4 * n * z >= 0) by (nonlinear_arith)
        requires
            n >= 0,
            z >= 0,
    ;
    assert((8 * n + 4) * z == 2 * (4 * n * z) + 4 * z) by (nonlinear_arith);
}

/// Weights of scores divided by their sum are the shares of the exponentials of
/// how far the scores are below the highest one.
pub proof fn lemma_shares(s: Seq<u32>, at: int, exp: spec_fn(u32) -> u32, i: int)
    requires
        weights::is_exponential(exp),
        s.len() <= 0x10_0000,
        0 <= at < s.len(),
        0 <= i < s.len(),
        float::is_finite(s[at]),
        forall|k: int| 0 <= k < s.len() ==> order::at_most(#[trigger] s[k], s[at]),
    ensures
        weights::of_scores(s, s[at], exp) == exponentials(s, s[at], exp),
        ({
            let w = exponentials(s, s[at], exp);
            let p = arith::product(w[i], arith::quotient(ONE, fold::total(w)));
            &&& is_share(p, w[i], bounds::exact_total(w), s.len())
            &&& bounds::exact_total(w) > 0
            &&& float::is_finite(fold::total(w))
            &&& order::less(0, fold::total(w))
        }),
{
    let top = s[at];
    let w = exponentials(s, top, exp);
    assert(weights::of_scores(s, top, exp) =~= w);
    weights::lemma_weights(s, top, exp);
    sums::lemma_one();
    let t = fold::total(w);
    assert(w[at] == ONE);
    fold::law_total_starts_from_zero(w);
    fold::law_total_is_no_smaller(w, 0);
    sums::lemma_parts_add_up(w);
    order::law_order_of_values(ONE, t);
    bounds::law_total_error(w);
    let n = s.len() as int;
    assert(2 * n * bounds::one() <= 0x20_0000 * bounds::one()) by (nonlinear_arith)
        requires
            n <= 0x10_0000,
            bounds::one() > 0,
    ;
    let all = bounds::exact_total(w);
    if all == 0 {
        assert(2 * n * all == 0) by (nonlinear_arith)
            requires
                all == 0,
        ;
    }
    lemma_share(w[i], t, all, s.len());
}

/// A number times a rounded inverse, times what was inverted, is that number up
/// to rounding. All are counted in units.
pub proof fn lemma_back(c: int, l: int, q: int, t: int, one: int)
    requires
        one > 0,
        t > 0,
        0x100_0000 * bounds::size(c * one - l * q) <= bounds::size(l * q) + 0x80_0000 * one,
        0x100_0000 * bounds::size(q * t - one * one) <= one * one + 0x80_0000 * t,
    ensures
        0x40_0000 * (bounds::size(c * t - l * one) * one) <= bounds::size(l) * (one * one) + 0x20_0000
            * (t * one) + 0x40_0000 * (bounds::size(l) * t),
{
    let d = c * one - l * q;
    let e = q * t - one * one;
    let m = bounds::size(l);
    let x = (c * t - l * one) * one;
    assert(x == d * t + l * e) by {
        assert(d * t == c * one * t - l * q * t) by (nonlinear_arith)
            requires
                d == c * one - l * q,
        ;
        assert(l * e == l * q * t - l * (one * one)) by (nonlinear_arith)
            requires
                e == q * t - one * one,
        ;
        assert(x == c * one * t - l * (one * one)) by (nonlinear_arith)
            requires
                x == (c * t - l * one) * one,
        ;
    }
    assert(bounds::size(x) == bounds::size(c * t - l * one) * one) by (nonlinear_arith)
        requires
            x == (c * t - l * one) * one,
            one > 0,
    ;
    assert(bounds::size(l * e) == m * bounds::size(e)) by (nonlinear_arith)
        requires
            m == bounds::size(l),
    ;
    assert(0x100_0000 * (m * bounds::size(e)) <= m * (one * one) + 0x80_0000 * (m * t)) by {
        assert(m * (0x100_0000 * bounds::size(e)) <= m * (one * one + 0x80_0000 * t))
            by (nonlinear_arith)
            requires
                m >= 0,
                0x100_0000 * bounds::size(e) <= one * one + 0x80_0000 * t,
        ;
        assert(m * (one * one + 0x80_0000 * t) == m * (one * one) + 0x80_0000 * (m * t))
            by (nonlinear_arith);
        assert(m * (0x100_0000 * bounds::size(e)) == 0x100_0000 * (m * bounds::size(e)))
            by (nonlinear_arith);
    }
    let lq = bounds::size(l * q);
    assert(bounds::size(d * t) == bounds::size(d) * t) by (nonlinear_arith)
        requires
            t > 0,
    ;
    assert(0x100_0000 * (bounds::size(d) * t) <= lq * t + 0x80_0000 * (t * one)) by {
        assert((0x100_0000 * bounds::size(d)) * t <= (lq + 0x80_0000 * one) * t) by (nonlinear_arith)
            requires
                0x100_0000 * bounds::size(d) <= lq + 0x80_0000 * one,
                t > 0,
        ;
        assert((lq + 0x80_0000 * one) * t == lq * t + 0x80_0000 * (t * one)) by (nonlinear_arith);
        assert((0x100_0000 * bounds::size(d)) * t == 0x100_0000 * (bounds::size(d) * t))
            by (nonlinear_arith);
    }
    assert(lq * t == bounds::size(l * (q * t))) by {
        assert(l * (q * t) == (l * q) * t) by (nonlinear_arith);
        assert(bounds::size((l * q) * t) == lq * t) by (nonlinear_arith)
            requires
                t > 0,
                lq == bounds::size(l * q),
        ;
    }
    assert(l * (q * t) == l * (one * one) + l * e) by (nonlinear_arith)
        requires
            e == q * t - one * one,
    ;
    assert(bounds::size(l * (one * one)) == m * (one * one)) by {
        let s = one * one;
        assert(s > 0) by (nonlinear_arith)
            requires
                s == one * one,
                one > 0,
        ;
        assert(bounds::size(l * s) == bounds::size(l) * s) by (nonlinear_arith)
            requires
                s > 0,
        ;
    }
    assert(m * (one * one) >= 0 && m * t >= 0 && t * one >= 0) by {
        assert(one * one >= 0) by (nonlinear_arith);
        assert(m * (one * one) >= 0) by (nonlinear_arith)
            requires
                m >= 0,
                one * one >= 0,
        ;
        assert(m * t >= 0) by (nonlinear_arith)
            requires
                m >= 0,
                t > 0,
        ;
        assert(t * one >= 0) by (nonlinear_arith)
            requires
                t > 0,
                one > 0,
        ;
    }
}

} // verus!
