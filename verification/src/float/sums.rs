//! How far rounded sums and products of sequences are from exact ones.

use crate::float;
use crate::float::arith;
use crate::float::bounds;
use crate::float::fold;
use crate::float::fold::ONE;
use crate::float::fused;
use crate::float::order;
use vstd::arithmetic::power2::*;
use vstd::prelude::*;

verus! {

/// What one is in units, and that it is far above 2^60.
pub proof fn lemma_one()
    ensures
        float::value(ONE) == bounds::one(),
        float::units(0x3F80_0000) == pow2(149),
        bounds::one() > 0x1000_0000_0000_0000,
{
    lemma2_to64();
    lemma2_to64_rest();
    lemma_pow2_adds(126, 23);
    lemma_pow2_adds(61, 88);
    lemma_pow2_pos(88);
    assert(float::exponent(0x3F80_0000) == 126 && float::significand(0x3F80_0000) == 0x80_0000);
    assert(0x80_0000 * pow2(126) == pow2(126) * 0x80_0000) by (nonlinear_arith);
    assert(pow2(61) * pow2(88) >= pow2(61)) by (nonlinear_arith)
        requires
            pow2(88) >= 1,
            pow2(61) >= 0,
    ;
}

/// The exact products of two sequences, added up.
pub open spec fn exact_dot(a: Seq<u32>, b: Seq<u32>, n: nat) -> int
    decreases n,
{
    if n == 0 {
        0
    } else {
        exact_dot(a, b, (n - 1) as nat) + float::value(a[n - 1]) * float::value(b[n - 1])
    }
}

/// The sizes of the exact products of two sequences, added up.
pub open spec fn dot_size(a: Seq<u32>, b: Seq<u32>, n: nat) -> int
    decreases n,
{
    if n == 0 {
        0
    } else {
        dot_size(a, b, (n - 1) as nat) + bounds::size(
            float::value(a[n - 1]) * float::value(b[n - 1]),
        )
    }
}

/// Sizes are no smaller than what they are the sizes of.
pub proof fn lemma_dot_size(a: Seq<u32>, b: Seq<u32>, n: nat)
    ensures
        bounds::size(exact_dot(a, b, n)) <= dot_size(a, b, n),
    decreases n,
{
    if n > 0 {
        lemma_dot_size(a, b, (n - 1) as nat);
    }
}

/// A finite product of two sequences of `n` numbers is off by at most `2n + 1`
/// times 2^-24 of the sizes of its terms, and a unit for each.
pub proof fn law_dot_error(a: Seq<u32>, b: Seq<u32>, n: nat)
    requires
        n <= 0x10_0000,
        float::is_finite(fold::dot(a, b, n)),
    ensures
        forall|i: int|
            0 <= i < n ==> float::is_finite(#[trigger] a[i]) && float::is_finite(b[i]),
        0x100_0000 * bounds::size(
            float::value(fold::dot(a, b, n)) * bounds::one() - exact_dot(a, b, n),
        ) <= (2 * n + 1) * dot_size(a, b, n) + 0x100_0000 * (n * bounds::one()),
    decreases n,
{
    lemma_one();
    arith::lemma_units_zero(0);
    let one = bounds::one();
    if n == 0 {
        assert(0 * one == 0) by (nonlinear_arith);
    } else {
        let m = (n - 1) as nat;
        let before = fold::dot(a, b, m);
        let p = arith::product(a[m as int], b[m as int]);
        bounds::law_sum_error(before, p);
        bounds::law_product_error(a[m as int], b[m as int]);
        law_dot_error(a, b, m);
        lemma_dot_size(a, b, m);
        lemma_dot_step(
            float::value(before),
            float::value(p),
            float::value(fold::dot(a, b, n)),
            exact_dot(a, b, m),
            dot_size(a, b, m),
            float::value(a[m as int]) * float::value(b[m as int]),
            m as int,
            one,
        );
    }
}

proof fn lemma_dot_step(d: int, p: int, t: int, x: int, s: int, q: int, m: int, one: int)
    requires
        0 <= m < 0x10_0000,
        one > 0x1000_0000_0000_0000,
        bounds::size(x) <= s,
        0x100_0000 * bounds::size(t - (d + p)) <= bounds::size(d + p),
        0x100_0000 * bounds::size(p * one - q) <= bounds::size(q) + 0x80_0000 * one,
        0x100_0000 * bounds::size(d * one - x) <= (2 * m + 1) * s + 0x100_0000 * (m * one),
    ensures
        0x100_0000 * bounds::size(t * one - (x + q)) <= (2 * (m + 1) + 1) * (s + bounds::size(q))
            + 0x100_0000 * ((m + 1) * one),
{
    let e = t - (d + p);
    assert(t * one == e * one + d * one + p * one) by (nonlinear_arith)
        requires
            e == t - (d + p),
    ;
    assert(0x100_0000 * bounds::size(e * one) <= bounds::size(d * one) + bounds::size(p * one)) by {
        assert(bounds::size(e * one) == bounds::size(e) * one) by (nonlinear_arith)
            requires
                one > 0,
        ;
        assert(bounds::size(d * one) == bounds::size(d) * one) by (nonlinear_arith)
            requires
                one > 0,
        ;
        assert(bounds::size(p * one) == bounds::size(p) * one) by (nonlinear_arith)
            requires
                one > 0,
        ;
        assert((0x100_0000 * bounds::size(e)) * one <= (bounds::size(d) + bounds::size(p)) * one)
            by (nonlinear_arith)
            requires
                0x100_0000 * bounds::size(e) <= bounds::size(d) + bounds::size(p),
                one > 0,
        ;
        assert((0x100_0000 * bounds::size(e)) * one == 0x100_0000 * (bounds::size(e) * one))
            by (nonlinear_arith);
        assert((bounds::size(d) + bounds::size(p)) * one == bounds::size(d) * one + bounds::size(p)
            * one) by (nonlinear_arith);
    }
    assert((2 * m + 1) * s <= 0x20_0000 * s) by (nonlinear_arith)
        requires
            m < 0x10_0000,
            s >= 0,
    ;
    assert(m * one <= 0x10_0000 * one) by (nonlinear_arith)
        requires
            m < 0x10_0000,
            one > 0,
    ;
    assert((m + 1) * one == m * one + one) by (nonlinear_arith);
    let z = bounds::size(q);
    assert((2 * (m + 1) + 1) * (s + z) == (2 * m + 1) * s + 2 * s + (2 * m + 3) * z)
        by (nonlinear_arith);
    assert((2 * m + 3) * z >= 3 * z) by (nonlinear_arith)
        requires
            m >= 0,
            z >= 0,
    ;
}

/// Numbers between zero and one, at most 2^20 of them, have a finite sum.
pub proof fn lemma_parts_add_up(s: Seq<u32>)
    requires
        s.len() <= 0x10_0000,
        forall|i: int|
            0 <= i < s.len() ==> !float::is_negative(#[trigger] s[i]) && order::at_most(s[i], ONE),
    ensures
        float::is_finite(fold::total(s)),
        !float::is_negative(fold::total(s)),
        float::value(fold::total(s)) <= 2 * s.len() * bounds::one(),
    decreases s.len(),
{
    lemma_one();
    arith::lemma_units_zero(0);
    let one = bounds::one();
    if s.len() > 0 {
        let rest = s.drop_last();
        let x = s.last();
        let n = s.len() as int;
        assert(x == s[n - 1]);
        assert forall|i: int| 0 <= i < rest.len() implies !float::is_negative(#[trigger] rest[i])
            && order::at_most(rest[i], ONE) by {
            assert(rest[i] == s[i]);
        }
        lemma_parts_add_up(rest);
        order::law_order_of_values(x, ONE);
        let t = fold::total(rest);
        let exact = float::value(t) + float::value(x);
        assert(2 * (n - 1) * one + 2 * one == 2 * n * one) by (nonlinear_arith);
        assert(2 * n * one <= 0x20_0000 * one) by (nonlinear_arith)
            requires
                n <= 0x10_0000,
                one > 0,
        ;
        lemma2_to64();
        lemma_pow2_adds(21, 149);
        lemma_pow2_adds(147, 23);
        let top = 0x4A00_0000nat;
        assert(float::exponent(top) == 147 && float::significand(top) == 0x80_0000);
        assert(0x80_0000 * pow2(147) == pow2(147) * 0x80_0000) by (nonlinear_arith);
        assert(float::units(top) * 1 == float::units(top));
        order::law_rounding_keeps_bounds(arith::abs(exact), 1, top);
        bounds::law_sum_error(t, x);
    } else {
        assert(2 * 0 * one == 0) by (nonlinear_arith);
    }
}

/// A finite quotient by a positive number is off by at most 2^-24 of the exact
/// one, or half a unit.
pub proof fn law_signed_quotient_error(a: u32, b: u32)
    requires
        float::is_finite(b),
        !float::is_negative(b),
        !float::is_zero(b),
        float::is_finite(arith::quotient(a, b)),
    ensures
        float::is_finite(a),
        0x100_0000 * bounds::size(
            float::value(arith::quotient(a, b)) * float::value(b) - float::value(a) * bounds::one(),
        ) <= bounds::size(float::value(a)) * bounds::one() + 0x80_0000 * float::value(b),
{
    if float::is_negative(a) {
        let c = float::magnitude(a) as u32;
        let q = arith::quotient(c, b);
        bounds::law_quotient_error(c, b);
        let (x, y, z) = (float::value(q), float::value(b), float::value(c));
        assert(float::value(arith::quotient(a, b)) == -x);
        assert((-x) * y == -(x * y)) by (nonlinear_arith);
        assert((-z) * bounds::one() == -(z * bounds::one())) by (nonlinear_arith);
    } else {
        bounds::law_quotient_error(a, b);
    }
}

/// A finite product and sum in one step is off by at most 2^-24 of the exact one,
/// or half a unit.
pub proof fn law_fused_error(a: u32, b: u32, c: u32)
    requires
        float::is_finite(fused::fused(a, b, c)),
    ensures
        float::is_finite(a),
        float::is_finite(b),
        float::is_finite(c),
        ({
            let exact = float::value(a) * float::value(b) + float::value(c) * bounds::one();
            0x100_0000 * bounds::size(
                float::value(fused::fused(a, b, c)) * bounds::one() - exact,
            ) <= bounds::size(exact) + 0x80_0000 * bounds::one()
        }),
{
    lemma_pow2_pos(149);
    arith::lemma_units_zero(0);
    if float::is_finite(a) && float::is_finite(b) && float::is_finite(c) {
        let exact = fused::exact_fused(a, b, c);
        let one = bounds::one();
        if exact == 0 {
            assert(0 * one == 0) by (nonlinear_arith);
        } else {
            bounds::law_rounding_error(arith::abs(exact), pow2(149));
            let r = float::units(
                float::rounding::round_to_magnitude(arith::abs(exact), pow2(149)),
            ) as int;
            assert((-r) * one == -(r * one)) by (nonlinear_arith);
        }
    }
}

} // verus!
