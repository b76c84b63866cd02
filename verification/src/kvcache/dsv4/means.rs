//! A pooled value is a weighted mean.

use crate::cpu::ops::relations;
use crate::float;
use crate::float::arith;
use crate::float::bounds;
use crate::float::fold;
use crate::float::fold::{NEG_INF, ONE};
use crate::float::order;
use crate::float::shares;
use crate::float::sums;
use crate::float::weights;
use crate::kvcache::dsv4::compressed;
use vstd::arithmetic::power2::*;
use vstd::prelude::*;

verus! {

/// The sizes of the first `n` numbers, added up.
pub open spec fn total_size(s: Seq<u32>, n: nat) -> int
    decreases n,
{
    if n == 0 {
        0
    } else {
        total_size(s, (n - 1) as nat) + bounds::size(float::value(s[n - 1]))
    }
}

/// The values of the first `n` numbers, added up exactly.
pub open spec fn total_value(s: Seq<u32>, n: nat) -> int
    decreases n,
{
    if n == 0 {
        0
    } else {
        total_value(s, (n - 1) as nat) + float::value(s[n - 1])
    }
}

proof fn lemma_size(s: Seq<u32>, n: nat)
    ensures
        bounds::size(total_value(s, n)) <= total_size(s, n),
    decreases n,
{
    if n > 0 {
        lemma_size(s, (n - 1) as nat);
    }
}

/// A finite sum of `n` groups of terms is off by at most `4n` times 2^-24 of
/// their sizes.
proof fn lemma_groups(s: Seq<u32>, group: nat, n: nat)
    requires
        group == 1 || group == 2,
        n <= 0x1_0000,
        float::is_finite(compressed::total_of(s, group, n)),
    ensures
        forall|i: int| 0 <= i < group * n ==> float::is_finite(#[trigger] s[i]),
        0x100_0000 * bounds::size(
            float::value(compressed::total_of(s, group, n)) - total_value(s, group * n),
        ) <= 4 * n * total_size(s, group * n),
    decreases n,
{
    arith::lemma_units_zero(0);
    if n == 0 {
        assert(group * 0 == 0) by (nonlinear_arith);
    } else {
        let m = (n - 1) as nat;
        let before = compressed::total_of(s, group, m);
        let after = compressed::total_of(s, group, n);
        assert(group * n == group * m + group) by (nonlinear_arith)
            requires
                n == m + 1,
        ;
        lemma_size(s, group * m);
        let size = total_size(s, group * m);
        if group == 2 {
            let a = s[2 * n - 2];
            let b = s[2 * n - 1];
            let pair = arith::sum(a, b);
            bounds::law_sum_error(before, pair);
            bounds::law_sum_error(a, b);
            lemma_groups(s, group, m);
            assert(total_value(s, (2 * m + 2) as nat) == total_value(s, (2 * m + 1) as nat)
                + float::value(b));
            assert(total_value(s, (2 * m + 1) as nat) == total_value(s, 2 * m) + float::value(a));
            assert(total_size(s, (2 * m + 2) as nat) == total_size(s, (2 * m + 1) as nat)
                + bounds::size(float::value(b)));
            assert(total_size(s, (2 * m + 1) as nat) == total_size(s, 2 * m) + bounds::size(
                float::value(a),
            ));
            lemma_group_step(
                float::value(before),
                float::value(pair),
                float::value(after),
                total_value(s, 2 * m),
                size,
                float::value(a) + float::value(b),
                bounds::size(float::value(a)) + bounds::size(float::value(b)),
                m as int,
            );
        } else {
            let a = s[n - 1];
            bounds::law_sum_error(before, a);
            lemma_groups(s, group, m);
            lemma_group_step(
                float::value(before),
                float::value(a),
                float::value(after),
                total_value(s, m),
                size,
                float::value(a),
                bounds::size(float::value(a)),
                m as int,
            );
        }
    }
}

proof fn lemma_group_step(b: int, p: int, t: int, x: int, s: int, q: int, z: int, m: int)
    requires
        0 <= m < 0x1_0000,
        bounds::size(x) <= s,
        bounds::size(q) <= z,
        0x100_0000 * bounds::size(p - q) <= z,
        0x100_0000 * bounds::size(t - (b + p)) <= bounds::size(b + p),
        0x100_0000 * bounds::size(b - x) <= 4 * m * s,
    ensures
        0x100_0000 * bounds::size(t - (x + q)) <= 4 * (m + 1) * (s + z),
{
    assert(4 * m * s <= 0x4_0000 * s) by (nonlinear_arith)
        requires
            m < 0x1_0000,
            s >= 0,
    ;
    assert(4 * (m + 1) * (s + z) == 4 * m * s + 4 * s + 4 * (m + 1) * z) by (nonlinear_arith);
    assert(4 * (m + 1) * z >= 4 * z) by (nonlinear_arith)
        requires
            m >= 0,
            z >= 0,
    ;
}

/// Groups of numbers between zero and one have a finite sum, which is no smaller
/// than any of them.
proof fn lemma_parts(s: Seq<u32>, group: nat, n: nat)
    requires
        group == 1 || group == 2,
        n <= 0x1_0000,
        group * n <= s.len(),
        forall|i: int|
            0 <= i < group * n ==> !float::is_negative(#[trigger] s[i]) && order::at_most(s[i], ONE),
    ensures
        float::is_finite(compressed::total_of(s, group, n)),
        !float::is_negative(compressed::total_of(s, group, n)),
        float::value(compressed::total_of(s, group, n)) <= 4 * n * bounds::one(),
        forall|i: int|
            0 <= i < group * n ==> float::value(#[trigger] s[i]) <= float::value(
                compressed::total_of(s, group, n),
            ),
    decreases n,
{
    sums::lemma_one();
    arith::lemma_units_zero(0);
    let one = bounds::one();
    if n == 0 {
        assert(4 * 0 * one == 0) by (nonlinear_arith);
        assert(group * 0 == 0) by (nonlinear_arith);
    } else {
        let m = (n - 1) as nat;
        assert(group * n == group * m + group) by (nonlinear_arith)
            requires
                n == m + 1,
        ;
        lemma_parts(s, group, m);
        let before = compressed::total_of(s, group, m);
        let after = compressed::total_of(s, group, n);
        assert(4 * m * one + 4 * one == 4 * n * one) by (nonlinear_arith)
            requires
                n == m + 1,
        ;
        assert(4 * n * one <= 0x4_0000 * one) by (nonlinear_arith)
            requires
                n <= 0x1_0000,
                one > 0,
        ;
        if group == 2 {
            let a = s[2 * n - 2];
            let b = s[2 * n - 1];
            order::law_order_of_values(a, ONE);
            order::law_order_of_values(b, ONE);
            lemma_two(a, b, one);
            let pair = arith::sum(a, b);
            bounds::law_sum_error(a, b);
            lemma_two(before, pair, 0x4_0000 * one);
            bounds::law_sum_error(before, pair);
            assert forall|i: int| 0 <= i < group * n implies float::value(#[trigger] s[i])
                <= float::value(after) by {
                if i == 2 * n - 2 {
                    assert(s[i] == a);
                } else if i == 2 * n - 1 {
                    assert(s[i] == b);
                }
            }
        } else {
            let a = s[n - 1];
            order::law_order_of_values(a, ONE);
            lemma_two(before, a, 0x4_0000 * one);
            bounds::law_sum_error(before, a);
        }
    }
}

/// Two numbers that are not negative and far from the largest have a finite sum
/// that is no smaller than either.
proof fn lemma_two(a: u32, b: u32, most: int)
    requires
        float::is_finite(a),
        float::is_finite(b),
        !float::is_negative(a),
        !float::is_negative(b),
        float::value(a) <= most,
        float::value(b) <= most,
        most <= 0x4_0000 * bounds::one(),
    ensures
        float::is_finite(arith::sum(a, b)),
        !float::is_negative(arith::sum(a, b)),
        float::value(a) <= float::value(arith::sum(a, b)),
        float::value(b) <= float::value(arith::sum(a, b)),
{
    let exact = float::value(a) + float::value(b);
    lemma2_to64();
    lemma_pow2_adds(21, 149);
    lemma_pow2_adds(147, 23);
    let top = 0x4A00_0000nat;
    assert(float::exponent(top) == 147 && float::significand(top) == 0x80_0000);
    assert(0x80_0000 * pow2(147) == pow2(147) * 0x80_0000) by (nonlinear_arith);
    assert(float::units(top) * 1 == float::units(top));
    order::law_rounding_keeps_bounds(arith::abs(exact), 1, top);
    order::law_sum_is_no_smaller(a, b);
    order::law_order_of_values(a, arith::sum(a, b));
    order::law_order_of_values(b, arith::sum(a, b));
}

/// Products of weights and values, added up exactly, are close to the sum of the
/// exact products.
proof fn lemma_terms(v: Seq<u32>, w: Seq<u32>, n: nat)
    requires
        n <= v.len(),
        n <= 0x2_0000,
        forall|i: int| 0 <= i < n ==> float::is_finite(#[trigger] compressed::weighted(v, w)[i]),
    ensures
        ({
            let p = compressed::weighted(v, w);
            let one = bounds::one();
            &&& 0x100_0000 * bounds::size(total_value(p, n) * one - sums::exact_dot(w, v, n))
                <= sums::dot_size(w, v, n) + 0x80_0000 * (n * one)
            &&& 0x100_0000 * (total_size(p, n) * one) <= 0x100_0001 * sums::dot_size(w, v, n)
                + 0x80_0000 * (n * one)
        }),
    decreases n,
{
    let p = compressed::weighted(v, w);
    let one = bounds::one();
    sums::lemma_one();
    if n > 0 {
        let m = (n - 1) as nat;
        lemma_terms(v, w, m);
        let x = float::value(p[n - 1]);
        let q = float::value(w[n - 1]) * float::value(v[n - 1]);
        assert(p[n - 1] == arith::product(w[n - 1], v[n - 1]));
        bounds::law_product_error(w[n - 1], v[n - 1]);
        assert((total_value(p, m) + x) * one == total_value(p, m) * one + x * one)
            by (nonlinear_arith);
        assert((total_size(p, m) + bounds::size(x)) * one == total_size(p, m) * one + bounds::size(
            x,
        ) * one) by (nonlinear_arith);
        assert(bounds::size(x) * one == bounds::size(x * one)) by (nonlinear_arith)
            requires
                one > 0,
        ;
        assert(n * one == m * one + one) by (nonlinear_arith)
            requires
                n == m + 1,
        ;
    } else {
        assert(0 * one == 0) by (nonlinear_arith);
    }
}

/// Whether `r` is the mean of the first `k` values under weights, up to rounding:
/// times the sum of the weights it is the sum of the values times their weights.
pub open spec fn is_mean(r: u32, v: Seq<u32>, w: Seq<u32>, k: nat, n: nat) -> bool {
    let one = bounds::one();
    let all = total_value(w, k);
    &&& float::is_finite(r)
    &&& 0x100_0000 * bounds::size(float::value(r) * all - sums::exact_dot(w, v, k)) <= (24 * n + 3)
        * sums::dot_size(w, v, k) + 0x200_0000 * (k * one + all)
}

/// How far a rounded numerator is from the exact one.
proof fn lemma_numerator(u: int, x: int, s: int, pv: int, ps: int, n: int, ko: int, one: int)
    requires
        0 < n <= 0x1_0000,
        one > 0,
        ko >= 0,
        bounds::size(x) <= s,
        0x100_0000 * bounds::size(u - pv) <= 4 * n * ps,
        0x100_0000 * bounds::size(pv * one - x) <= s + 0x80_0000 * ko,
        0x100_0000 * (ps * one) <= 0x100_0001 * s + 0x80_0000 * ko,
    ensures
        0x100_0000 * bounds::size(u * one - x) <= 8 * (n * s) + s + 0x90_0000 * ko,
        bounds::size(u * one) <= 2 * s + ko,
{
    let pso = ps * one;
    let uo = u * one;
    let d = u - pv;
    let ns = n * s;
    let nk = n * ko;
    assert(uo - pv * one == d * one) by (nonlinear_arith)
        requires
            uo == u * one,
            d == u - pv,
    ;
    assert(bounds::size(d * one) == bounds::size(d) * one) by (nonlinear_arith)
        requires
            one > 0,
    ;
    assert(0x100_0000 * (bounds::size(d) * one) <= 4 * n * pso) by {
        assert((0x100_0000 * bounds::size(d)) * one <= (4 * n * ps) * one) by (nonlinear_arith)
            requires
                0x100_0000 * bounds::size(d) <= 4 * n * ps,
                one > 0,
        ;
        assert((4 * n * ps) * one == 4 * n * pso) by (nonlinear_arith)
            requires
                pso == ps * one,
        ;
        assert((0x100_0000 * bounds::size(d)) * one == 0x100_0000 * (bounds::size(d) * one))
            by (nonlinear_arith);
    }
    assert(pso <= 2 * s + ko);
    assert(4 * n * pso <= 4 * n * (2 * s + ko)) by (nonlinear_arith)
        requires
            pso <= 2 * s + ko,
            n > 0,
    ;
    assert(4 * n * (2 * s + ko) == 8 * ns + 4 * nk) by (nonlinear_arith)
        requires
            ns == n * s,
            nk == n * ko,
    ;
    assert(ns <= 0x1_0000 * s) by (nonlinear_arith)
        requires
            ns == n * s,
            n <= 0x1_0000,
            s >= 0,
    ;
    assert(nk <= 0x1_0000 * ko) by (nonlinear_arith)
        requires
            nk == n * ko,
            n <= 0x1_0000,
            ko >= 0,
    ;
}

/// How far a rounded quotient is from the exact one, by a rounded denominator.
proof fn lemma_by_rounded(rt: int, uo: int, x: int, s: int, ns: int, ko: int, t: int)
    requires
        ko >= 0,
        s >= 0,
        t > 0,
        0x100_0000 * bounds::size(uo - x) <= 8 * ns + s + 0x90_0000 * ko,
        bounds::size(uo) <= 2 * s + ko,
        0x100_0000 * bounds::size(rt - uo) <= bounds::size(uo) + 0x80_0000 * t,
        bounds::size(x) <= s,
        ns <= 0x1_0000 * s,
    ensures
        0x100_0000 * bounds::size(rt - x) <= 8 * ns + 3 * s + 0x91_0000 * ko + 0x80_0000 * t,
        bounds::size(rt) <= 2 * s + ko + t,
{
}

/// The same by the exact denominator.
proof fn lemma_by_exact(r: int, t: int, all: int, x: int, s: int, n: int, ko: int)
    requires
        0 < n <= 0x1_0000,
        ko >= 0,
        s >= 0,
        t > 0,
        all >= 0,
        0x100_0000 * bounds::size(t - all) <= 4 * n * all,
        0x100_0000 * bounds::size(r * t - x) <= 8 * (n * s) + 3 * s + 0x91_0000 * ko + 0x80_0000
            * t,
        bounds::size(r * t) <= 2 * s + ko + t,
    ensures
        0x100_0000 * bounds::size(r * all - x) <= (24 * n + 3) * s + 0x200_0000 * (ko + all),
{
    let ns = n * s;
    let nk = n * ko;
    let na = n * all;
    let m = bounds::size(r);
    let d = bounds::size(t - all);
    let ra = m * all;
    assert(4 * n * all == 4 * na) by (nonlinear_arith)
        requires
            na == n * all,
    ;
    assert(0 <= na <= 0x1_0000 * all) by (nonlinear_arith)
        requires
            na == n * all,
            0 < n <= 0x1_0000,
            all >= 0,
    ;
    assert(t <= 2 * all && all <= 2 * t);
    assert(r * all == r * t - r * (t - all)) by (nonlinear_arith);
    assert(bounds::size(r * (t - all)) == m * d) by (nonlinear_arith)
        requires
            m == bounds::size(r),
            d == bounds::size(t - all),
    ;
    assert(0x100_0000 * (m * d) <= 4 * (n * ra)) by {
        assert(m * (0x100_0000 * d) <= m * (4 * na)) by (nonlinear_arith)
            requires
                0x100_0000 * d <= 4 * na,
                m >= 0,
        ;
        assert(m * (4 * na) == 4 * (n * ra)) by (nonlinear_arith)
            requires
                na == n * all,
                ra == m * all,
        ;
        assert(m * (0x100_0000 * d) == 0x100_0000 * (m * d)) by (nonlinear_arith);
    }
    let rt = bounds::size(r * t);
    assert(ra <= 2 * rt) by {
        assert(rt == m * t) by (nonlinear_arith)
            requires
                t > 0,
                rt == bounds::size(r * t),
                m == bounds::size(r),
        ;
        assert(m * all <= m * (2 * t)) by (nonlinear_arith)
            requires
                all <= 2 * t,
                m >= 0,
        ;
        assert(m * (2 * t) == 2 * (m * t)) by (nonlinear_arith);
    }
    assert(n * ra <= n * (4 * s + 2 * ko + 4 * all)) by (nonlinear_arith)
        requires
            ra <= 4 * s + 2 * ko + 4 * all,
            n > 0,
    ;
    assert(n * (4 * s + 2 * ko + 4 * all) == 4 * ns + 2 * nk + 4 * na) by (nonlinear_arith)
        requires
            ns == n * s,
            nk == n * ko,
            na == n * all,
    ;
    assert(nk <= 0x1_0000 * ko) by (nonlinear_arith)
        requires
            nk == n * ko,
            n <= 0x1_0000,
            ko >= 0,
    ;
    assert((24 * n + 3) * s == 24 * ns + 3 * s) by (nonlinear_arith)
        requires
            ns == n * s,
    ;
    let e = 0x100_0000 * (m * d);
    assert(e <= 16 * ns + 8 * nk + 16 * na);
    assert(bounds::size(r * all - x) <= bounds::size(r * t - x) + m * d);
}

/// From a rounded numerator, denominator and quotient to the exact mean.
proof fn lemma_mean(
    r: int,
    u: int,
    t: int,
    all: int,
    x: int,
    s: int,
    pv: int,
    ps: int,
    n: int,
    k: int,
    one: int,
)
    requires
        0 < n <= 0x1_0000,
        0 <= k <= 0x2_0000,
        one > 0,
        t > 0,
        all >= 0,
        bounds::size(x) <= s,
        0x100_0000 * bounds::size(t - all) <= 4 * n * all,
        0x100_0000 * bounds::size(u - pv) <= 4 * n * ps,
        0x100_0000 * bounds::size(pv * one - x) <= s + 0x80_0000 * (k * one),
        0x100_0000 * (ps * one) <= 0x100_0001 * s + 0x80_0000 * (k * one),
        0x100_0000 * bounds::size(r * t - u * one) <= bounds::size(u) * one + 0x80_0000 * t,
    ensures
        0x100_0000 * bounds::size(r * all - x) <= (24 * n + 3) * s + 0x200_0000 * (k * one + all),
{
    let ko = k * one;
    assert(ko >= 0) by (nonlinear_arith)
        requires
            ko == k * one,
            k >= 0,
            one > 0,
    ;
    lemma_numerator(u, x, s, pv, ps, n, ko, one);
    let uo = u * one;
    assert(bounds::size(uo) == bounds::size(u) * one) by (nonlinear_arith)
        requires
            uo == u * one,
            one > 0,
    ;
    let ns = n * s;
    assert(ns <= 0x1_0000 * s) by (nonlinear_arith)
        requires
            ns == n * s,
            n <= 0x1_0000,
            s >= 0,
    ;
    lemma_by_rounded(r * t, uo, x, s, ns, ko, t);
    lemma_by_exact(r, t, all, x, s, n, ko);
}

/// A pooled value is the mean of the values, each under the exponential of how
/// far its score is below the highest one.
pub proof fn law_pooled_is_a_mean(
    values: Seq<u32>,
    scores: Seq<u32>,
    group: nat,
    ratio: nat,
    exp: spec_fn(u32) -> u32,
) -> (at: int)
    requires
        weights::is_exponential(exp),
        weights::are_scores(scores),
        weights::has_finite(scores),
        group == 1 || group == 2,
        0 < ratio <= 0x1_0000,
        values.len() == group * ratio,
        scores.len() == group * ratio,
        float::is_finite(compressed::pooled(values, scores, group, ratio, exp)),
    ensures
        relations::leads(scores, at),
        is_mean(
            compressed::pooled(values, scores, group, ratio, exp),
            values,
            shares::exponentials(scores, scores[at], exp),
            group * ratio,
            ratio,
        ),
{
    let k = group * ratio;
    let top = fold::highest(scores, NEG_INF);
    weights::lemma_finite_top(scores, NEG_INF);
    fold::law_highest(scores, NEG_INF);
    let at = choose|t: int| 0 <= t < scores.len() && scores[t] == top;
    assert(scores[at] == top);
    let w = shares::exponentials(scores, top, exp);
    assert(weights::of_scores(scores, top, exp) =~= w);
    weights::lemma_weights(scores, top, exp);
    assert(w[at] == ONE);
    lemma_parts(w, group, ratio);
    lemma_groups(w, group, ratio);
    sums::lemma_one();
    let t = compressed::total_of(w, group, ratio);
    assert(float::value(w[at]) <= float::value(t));
    arith::lemma_units_zero(0);
    order::law_order_of_values(0, t);
    arith::lemma_units_zero(float::magnitude(t));
    let p = compressed::weighted(values, w);
    let u = compressed::total_of(p, group, ratio);
    let r = compressed::pooled(values, scores, group, ratio, exp);
    assert(r == arith::quotient(u, t));
    sums::law_signed_quotient_error(u, t);
    lemma_groups(p, group, ratio);
    assert(k <= 0x2_0000) by (nonlinear_arith)
        requires
            k == group * ratio,
            group <= 2,
            ratio <= 0x1_0000,
    ;
    lemma_terms(values, w, k);
    lemma_not_negative(w, k);
    sums::lemma_dot_size(w, values, k);
    lemma_mean(
        float::value(r),
        float::value(u),
        float::value(t),
        total_value(w, k),
        sums::exact_dot(w, values, k),
        sums::dot_size(w, values, k),
        total_value(p, k),
        total_size(p, k),
        ratio as int,
        k as int,
        bounds::one(),
    );
    at
}

/// Numbers that are not negative add up to their sizes.
proof fn lemma_not_negative(w: Seq<u32>, n: nat)
    requires
        n <= w.len(),
        forall|i: int| 0 <= i < w.len() ==> !float::is_negative(#[trigger] w[i]),
    ensures
        total_value(w, n) == total_size(w, n),
        total_value(w, n) >= 0,
    decreases n,
{
    if n > 0 {
        lemma_not_negative(w, (n - 1) as nat);
        assert(!float::is_negative(w[n - 1]));
    }
}

} // verus!
