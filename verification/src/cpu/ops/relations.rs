//! What softmaxes, norms and gates are, said of the numbers that go in.

use crate::cpu::ops::scalar;
use crate::cpu::ops::sinkhorn;
use crate::float;
use crate::float::arith;
use crate::float::bounds;
use crate::float::fold;
use crate::float::fold::ONE;
use crate::float::order;
use crate::float::shares;
use crate::float::sums;
use crate::float::weights;
use vstd::prelude::*;

verus! {

/// Whether no score of `s` is higher than the finite one at `at`.
pub open spec fn leads(s: Seq<u32>, at: int) -> bool {
    &&& 0 <= at < s.len()
    &&& float::is_finite(s[at])
    &&& forall|k: int| 0 <= k < s.len() ==> order::at_most(#[trigger] s[k], s[at])
}

/// The softmax of a score is its share: the exponential of how far it is below
/// the highest score, divided by the sum of all such exponentials.
pub proof fn law_softmax_shares(s: Seq<u32>, exp: spec_fn(u32) -> u32, i: int) -> (at: int)
    requires
        weights::is_exponential(exp),
        weights::are_scores(s),
        weights::has_finite(s),
        s.len() <= 0x10_0000,
        0 <= i < s.len(),
    ensures
        leads(s, at),
        ({
            let w = shares::exponentials(s, s[at], exp);
            shares::is_share(
                scalar::softmaxed(s, exp)[i],
                exp(arith::difference(s[i], s[at])),
                bounds::exact_total(w),
                s.len(),
            )
        }),
{
    let rest = s.skip(1);
    let top = fold::highest(rest, s[0]);
    let k = choose|k: int| 0 <= k < s.len() && float::is_finite(#[trigger] s[k]);
    if k > 0 {
        assert(rest[k - 1] == s[k]);
    }
    assert(weights::are_scores(rest)) by {
        assert forall|j: int| 0 <= j < rest.len() implies !float::is_nan(#[trigger] rest[j])
            && rest[j] != float::INFINITY by {
            assert(rest[j] == s[j + 1]);
        }
    }
    assert(!float::is_nan(s[0]) && s[0] != float::INFINITY);
    weights::lemma_finite_top(rest, s[0]);
    fold::law_highest(rest, s[0]);
    assert forall|j: int| 0 <= j < s.len() implies order::at_most(#[trigger] s[j], top) by {
        if j > 0 {
            assert(s[j] == rest[j - 1]);
        }
    }
    let at = if top == s[0] {
        0
    } else {
        1 + choose|t: int| 0 <= t < rest.len() && rest[t] == top
    };
    assert(s[at] == top);
    shares::lemma_shares(s, at, exp, i);
    at
}

/// A softmax with a sink gives each score and the sink its share: the
/// exponential of how far it is below the highest of them, divided by the sum of
/// all such exponentials, that of the sink first.
pub proof fn law_sink_shares(s: Seq<u32>, sink: u32, exp: spec_fn(u32) -> u32, i: int) -> (at: int)
    requires
        weights::is_exponential(exp),
        weights::are_scores(s),
        !float::is_nan(sink),
        sink != float::INFINITY,
        float::is_finite(sink) || weights::has_finite(s),
        s.len() < 0x10_0000,
        0 <= i < s.len(),
    ensures
        leads(seq![sink] + s, at),
        ({
            let all = seq![sink] + s;
            let w = shares::exponentials(all, all[at], exp);
            &&& shares::is_share(
                scalar::sink_softmaxed(s, sink, exp)[i],
                exp(arith::difference(s[i], all[at])),
                bounds::exact_total(w),
                all.len(),
            )
            &&& shares::is_share(
                scalar::sink_part(s, sink, exp),
                exp(arith::difference(sink, all[at])),
                bounds::exact_total(w),
                all.len(),
            )
        }),
{
    let all = seq![sink] + s;
    let top = fold::highest(s, sink);
    weights::lemma_finite_top(s, sink);
    fold::law_highest(s, sink);
    let at = if top == sink {
        0
    } else {
        1 + choose|t: int| 0 <= t < s.len() && s[t] == top
    };
    assert(all[at] == top);
    assert forall|k: int| 0 <= k < all.len() implies order::at_most(#[trigger] all[k], top) by {
        if k > 0 {
            assert(all[k] == s[k - 1]);
        }
    }
    shares::lemma_shares(all, at, exp, i + 1);
    shares::lemma_shares(all, at, exp, 0);
    let w = shares::exponentials(all, top, exp);
    let part = exp(arith::difference(sink, top));
    let v = weights::of_scores(s, top, exp);
    assert(all[i + 1] == s[i]);
    assert(w[i + 1] == v[i]);
    assert(w =~= seq![part] + v);
    weights::law_no_positive_exponent(sink, top);
    assert(!float::is_negative(part) && !float::is_nan(part));
    lemma_total_with_first(part, v);
    at
}

/// Adding up from a first number is adding up the sequence that it heads.
proof fn lemma_total_with_first(x: u32, s: Seq<u32>)
    requires
        !float::is_negative(x),
        !float::is_nan(x),
    ensures
        fold::total(seq![x] + s) == fold::total_from(s, x),
    decreases s.len(),
{
    let all = seq![x] + s;
    if s.len() == 0 {
        assert(all.drop_last() =~= Seq::<u32>::empty());
        assert(fold::total(Seq::<u32>::empty()) == 0);
        assert(all.last() == x);
        order::law_adding_zero(x, 0);
        order::law_order_of_two(x, 0);
        arith::lemma_units_zero(0);
        arith::lemma_units_zero(float::magnitude(x));
        assert(arith::sum(0, x) == x);
    } else {
        lemma_total_with_first(x, s.drop_last());
        assert(all.drop_last() =~= seq![x] + s.drop_last());
        assert(all.last() == s.last());
    }
}

/// A row of the first matrix of hyper-connections is the softmax of its logits,
/// with `eps` added: entry `s` of row `d` is made of the share of logit `s` among
/// the logits of row `d`.
pub proof fn law_first_rows(
    m: Seq<u32>,
    n: nat,
    eps: u32,
    exp: spec_fn(u32) -> u32,
    d: int,
    s: int,
) -> (r: (int, u32))
    requires
        weights::is_exponential(exp),
        m.len() == n * n,
        n <= 16,
        0 <= d < n,
        0 <= s < n,
        forall|k: int| 0 <= k < m.len() ==> float::is_finite(#[trigger] m[k]),
    ensures
        ({
            let line = m.subrange(d * n, d * n + n);
            let (at, share) = r;
            let w = shares::exponentials(line, line[at], exp);
            &&& leads(line, at)
            &&& shares::is_share(
                share,
                exp(arith::difference(m[d * n + s], line[at])),
                bounds::exact_total(w),
                n,
            )
            &&& sinkhorn::soft_rows(m, n, eps, exp)[d * n + s] == arith::sum(share, eps)
        }),
{
    sinkhorn::lemma_inside(n, d, s);
    sinkhorn::lemma_inside(n, d, 0);
    sinkhorn::lemma_inside(n, d, n - 1);
    let line = m.subrange(d * n, d * n + n);
    assert(line =~= sinkhorn::row(m, n, d));
    assert forall|k: int| 0 <= k < n implies float::is_finite(#[trigger] line[k]) by {
        assert(line[k] == m[d * n + k]);
    }
    let top = fold::highest(line, fold::NEG_INF);
    assert(float::is_finite(line[0]));
    weights::lemma_finite_top(line, fold::NEG_INF);
    fold::law_highest(line, fold::NEG_INF);
    let at = choose|t: int| 0 <= t < line.len() && line[t] == top;
    shares::lemma_shares(line, at, exp, s);
    let w = shares::exponentials(line, top, exp);
    let share = arith::product(w[s], arith::quotient(ONE, fold::total(w)));
    assert(line[s] == m[d * n + s]);
    (at, share)
}

/// One more round normalises the rows and then the columns; asking for no round
/// is asking for one.
pub proof fn law_rounds(
    logits: Seq<u32>,
    n: nat,
    iters: nat,
    eps: u32,
    exp: spec_fn(u32) -> u32,
)
    ensures
        sinkhorn::mixing(logits, n, 0, eps, exp) == sinkhorn::mixing(logits, n, 1, eps, exp),
        sinkhorn::mixing(logits, n, 1, eps, exp) == sinkhorn::even_columns(
            sinkhorn::soft_rows(logits, n, eps, exp),
            n,
            eps,
        ),
        iters > 0 ==> sinkhorn::mixing(logits, n, iters + 1, eps, exp) == sinkhorn::even_columns(
            sinkhorn::even_rows(sinkhorn::mixing(logits, n, iters, eps, exp), n, eps),
            n,
            eps,
        ),
{
    let m = sinkhorn::even_columns(sinkhorn::soft_rows(logits, n, eps, exp), n, eps);
    assert(sinkhorn::evened(m, n, eps, 0) == m);
}

/// Whether `p` is the product of `a` and `b`, rounded.
pub open spec fn is_product(p: u32, a: int, b: int) -> bool {
    &&& float::is_finite(p)
    &&& 0x100_0000 * bounds::size(float::value(p) * bounds::one() - a * b) <= bounds::size(a * b)
        + 0x80_0000 * bounds::one()
}

/// Whether `y` is the mean of the squares of `x` and `eps`, up to rounding.
pub open spec fn is_mean_square(y: u32, x: Seq<u32>, eps: u32) -> bool {
    let one = bounds::one();
    let n = x.len() as int;
    let squares = sums::exact_dot(x, x, x.len());
    &&& float::is_finite(y)
    &&& 0x100_0000 * bounds::size(
        float::value(y) * n * one - (squares + float::value(eps) * n * one),
    ) <= (2 * n + 7) * squares + float::value(eps) * n * one + 0x400_0000 * (n * one)
}

/// Whether `r` times `root` is `p`, up to rounding.
pub open spec fn is_divided(r: u32, root: u32, p: u32) -> bool {
    let one = bounds::one();
    let l = bounds::size(float::value(p));
    let t = float::value(root);
    0x40_0000 * (bounds::size(float::value(r) * t - float::value(p) * one) * one) <= l * (one * one)
        + 0x20_0000 * (t * one) + 0x40_0000 * (l * t)
}

/// A number of a norm is the product of its weight and the number that went in,
/// divided by the square root of the mean of the squares and `eps`.
pub proof fn law_norm(
    x: Seq<u32>,
    weight: Seq<u32>,
    eps: u32,
    sqrt: spec_fn(u32) -> u32,
    i: int,
) -> (r: (u32, u32))
    requires
        0 < x.len() <= 0x10_0000,
        weight.len() == x.len(),
        0 <= i < x.len(),
        float::is_finite(eps),
        !float::is_negative(eps),
        float::is_finite(fold::dot(x, x, x.len())),
        forall|y: u32|
            order::at_most(0, y) ==> float::is_finite(#[trigger] sqrt(y)) && order::less(0, sqrt(y)),
        float::is_finite(scalar::normed(x, weight, eps, sqrt)[i]),
        float::is_finite(
            arith::sum(
                arith::quotient(fold::dot(x, x, x.len()), arith::of_integer(x.len() as int)),
                eps,
            ),
        ),
    ensures
        ({
            let (y, p) = r;
            &&& is_mean_square(y, x, eps)
            &&& is_product(p, float::value(x[i]), float::value(weight[i]))
            &&& is_divided(scalar::normed(x, weight, eps, sqrt)[i], sqrt(y), p)
        }),
{
    let n = x.len();
    let d = fold::dot(x, x, n);
    let count = arith::of_integer(n as int);
    let mean = arith::quotient(d, count);
    let y = arith::sum(mean, eps);
    let root = sqrt(y);
    let inv = arith::quotient(ONE, root);
    let p = arith::product(x[i], weight[i]);
    let out = arith::product(p, inv);
    assert(scalar::normed(x, weight, eps, sqrt)[i] == out);
    sums::lemma_one();
    sums::law_dot_error(x, x, n);
    lemma_squares(x, n);
    float::exact::law_small_integers_are_exact(n as int);
    assert(float::value(count) == n * bounds::one()) by {
        vstd::arithmetic::power2::lemma2_to64();
    }
    bounds::law_sum_error(mean, eps);
    assert(float::value(count) > 0) by (nonlinear_arith)
        requires
            float::value(count) == n * bounds::one(),
            n > 0,
            bounds::one() > 0,
    ;
    arith::lemma_units_zero(float::magnitude(count));
    bounds::law_quotient_error(d, count);
    arith::lemma_units_zero(float::magnitude(d));
    arith::lemma_units_zero(float::magnitude(mean));
    lemma_mean(
        float::value(d),
        float::value(mean),
        float::value(y),
        float::value(eps),
        sums::exact_dot(x, x, n),
        n as int,
        bounds::one(),
    );
    order::law_sum_is_no_smaller(mean, eps);
    assert(order::less(0, root));
    arith::lemma_units_zero(float::magnitude(root));
    bounds::law_product_error(p, inv);
    bounds::law_product_error(x[i], weight[i]);
    bounds::law_quotient_error(ONE, root);
    order::law_order_of_values(0, root);
    shares::lemma_back(
        float::value(out),
        float::value(p),
        float::value(inv),
        float::value(root),
        bounds::one(),
    );
    (y, p)
}

/// Squares have no sign, and neither has their sum.
proof fn lemma_squares(x: Seq<u32>, n: nat)
    requires
        float::is_finite(fold::dot(x, x, n)),
    ensures
        sums::exact_dot(x, x, n) == sums::dot_size(x, x, n),
        sums::exact_dot(x, x, n) >= 0,
        !float::is_negative(fold::dot(x, x, n)),
    decreases n,
{
    if n > 0 {
        let v = float::value(x[n - 1]);
        assert(v * v >= 0) by (nonlinear_arith);
        let before = fold::dot(x, x, (n - 1) as nat);
        let p = arith::product(x[n - 1], x[n - 1]);
        bounds::law_sum_error(before, p);
        lemma_squares(x, (n - 1) as nat);
        assert(!float::is_negative(p));
        arith::lemma_units_zero(float::magnitude(p));
        order::law_sum_is_no_smaller(before, p);
    }
}

proof fn lemma_mean(d: int, m: int, y: int, e: int, x: int, n: int, one: int)
    requires
        0 < n <= 0x10_0000,
        one > 0,
        d >= 0,
        m >= 0,
        e >= 0,
        x >= 0,
        0x100_0000 * bounds::size(m * (n * one) - d * one) <= d * one + 0x80_0000 * (n * one),
        0x100_0000 * bounds::size(y - (m + e)) <= bounds::size(m + e),
        0x100_0000 * bounds::size(d * one - x) <= (2 * n + 1) * x + 0x100_0000 * (n * one),
    ensures
        0x100_0000 * bounds::size(y * n * one - (x + e * n * one)) <= (2 * n + 7) * x + e * n * one
            + 0x400_0000 * (n * one),
{
    let s = n * one;
    let a = y - (m + e);
    let dd = d * one;
    let es = e * n * one;
    assert(s > 0) by (nonlinear_arith)
        requires
            s == n * one,
            n > 0,
            one > 0,
    ;
    assert(y * n * one == a * s + m * s + es) by (nonlinear_arith)
        requires
            a == y - (m + e),
            s == n * one,
            es == e * n * one,
    ;
    assert(es == e * s && es >= 0) by {
        assert(es == e * s) by (nonlinear_arith)
            requires
                s == n * one,
                es == e * n * one,
        ;
        assert(e * s >= 0) by (nonlinear_arith)
            requires
                e >= 0,
                s > 0,
        ;
    }
    assert(0x100_0000 * bounds::size(a * s) <= m * s + es) by {
        assert(bounds::size(a * s) == bounds::size(a) * s) by (nonlinear_arith)
            requires
                s > 0,
        ;
        assert((0x100_0000 * bounds::size(a)) * s <= (m + e) * s) by (nonlinear_arith)
            requires
                0x100_0000 * bounds::size(a) <= m + e,
                s > 0,
        ;
        assert((m + e) * s == m * s + e * s) by (nonlinear_arith);
        assert((0x100_0000 * bounds::size(a)) * s == 0x100_0000 * (bounds::size(a) * s))
            by (nonlinear_arith);
    }
    assert((2 * n + 1) * x <= 0x20_0001 * x) by (nonlinear_arith)
        requires
            n <= 0x10_0000,
            x >= 0,
    ;
    assert(dd >= 0) by (nonlinear_arith)
        requires
            dd == d * one,
            d >= 0,
            one > 0,
    ;
    assert((2 * n + 7) * x == (2 * n + 1) * x + 6 * x) by (nonlinear_arith);
}

/// A gated number is a first number times its logistic function, times a second
/// number, each product rounded.
pub proof fn law_gated(gate: Seq<u32>, up: Seq<u32>, exp: spec_fn(u32) -> u32, i: int) -> (h: u32)
    requires
        gate.len() == up.len(),
        0 <= i < gate.len(),
        float::is_finite(scalar::gated_all(gate, up, exp)[i]),
    ensures
        is_product(h, float::value(gate[i]), float::value(scalar::logistic(gate[i], exp))),
        is_product(scalar::gated_all(gate, up, exp)[i], float::value(h), float::value(up[i])),
{
    let h = arith::product(gate[i], scalar::logistic(gate[i], exp));
    let out = scalar::gated_all(gate, up, exp)[i];
    assert(out == arith::product(h, up[i]));
    bounds::law_product_error(h, up[i]);
    bounds::law_product_error(gate[i], scalar::logistic(gate[i], exp));
    h
}

} // verus!
