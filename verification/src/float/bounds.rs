//! How far rounded results are from exact ones.
//!
//! Values are counted in units of 2^-149, so that one has 2^149 of them. A
//! rounded result is off by at most 2^-24 of the exact one; below the normal
//! numbers, by at most half a unit.

use crate::float;
use crate::float::arith;
use crate::float::fold;
use crate::float::order;
use crate::float::rounding;
use vstd::arithmetic::power2::*;
use vstd::prelude::*;

verus! {

/// One, in units.
pub open spec fn one() -> int {
    pow2(149) as int
}

/// The absolute value of an integer.
pub open spec fn size(x: int) -> int {
    if x < 0 {
        -x
    } else {
        x
    }
}

/// A finite rounded magnitude is off by at most 2^-24 of the exact one, or half
/// a unit. A whole number of units below 2^24 is kept.
pub proof fn law_rounding_error(num: nat, den: nat)
    requires
        den > 0,
        rounding::round_to_magnitude(num, den) < 0x7F80_0000,
    ensures
        0x100_0000 * size(float::units(rounding::round_to_magnitude(num, den)) * den - num) <= num
            + 0x80_0000 * den,
        den == 1 ==> 0x100_0000 * size(
            float::units(rounding::round_to_magnitude(num, den)) * den - num,
        ) <= num,
{
    lemma2_to64();
    let places = rounding::dropped_places(num, den);
    let whole = den * pow2(places);
    let m = rounding::nearest_even(num, whole);
    lemma_pow2_pos(places);
    assert(whole > 0) by (nonlinear_arith)
        requires
            whole == den * pow2(places),
            den > 0,
            pow2(places) > 0,
    ;
    order::lemma_dropped_places_bounds(num, den);
    rounding::lemma_significand_fits(num, whole, 0, 0x100_0000);
    if places > 0 {
        rounding::lemma_significand_fits(num, whole, 0x80_0000, 0x100_0000);
    }
    order::lemma_units_of_parts(places, m);
    let got = float::units(rounding::round_to_magnitude(num, den)) * den;
    assert(got == m * whole) by (nonlinear_arith)
        requires
            got == (m * pow2(places)) * den,
            whole == den * pow2(places),
    ;
    lemma_nearest_error(num, whole);
    if places == 0 {
        assert(whole == den) by (nonlinear_arith)
            requires
                whole == den * pow2(places),
                pow2(places) == 1,
        ;
    }
}

/// The nearest integer is off by at most a half.
proof fn lemma_nearest_error(num: nat, den: nat)
    requires
        den > 0,
    ensures
        2 * size(rounding::nearest_even(num, den) * den - num) <= den,
        den == 1 ==> rounding::nearest_even(num, den) == num,
{
    vstd::arithmetic::div_mod::lemma_fundamental_div_mod(num as int, den as int);
    let floor = (num / den) as int;
    assert((floor + 1) * den == floor * den + den) by (nonlinear_arith);
    assert(den * floor == floor * den) by (nonlinear_arith);
}

/// The nearest integer to a number is off by at most a half.
pub proof fn law_nearest_error(a: u32)
    ensures
        2 * size(crate::float::integer::nearest(a) * one() - float::value(a)) <= one(),
{
    lemma_pow2_pos(149);
    let u = float::units(float::magnitude(a));
    let n = rounding::nearest_even(u, pow2(149)) as int;
    lemma_nearest_error(u, pow2(149));
    assert((-n) * one() == -(n * one())) by (nonlinear_arith);
}

/// A finite sum is off by at most 2^-24 of the exact one.
pub proof fn law_sum_error(a: u32, b: u32)
    requires
        float::is_finite(arith::sum(a, b)),
    ensures
        float::is_finite(a),
        float::is_finite(b),
        0x100_0000 * size(float::value(arith::sum(a, b)) - (float::value(a) + float::value(b)))
            <= size(float::value(a) + float::value(b)),
{
    let exact = float::value(a) + float::value(b);
    arith::lemma_units_zero(0);
    if float::is_finite(a) && float::is_finite(b) && exact != 0 {
        law_rounding_error(arith::abs(exact), 1);
    }
}

/// A finite difference is off by at most 2^-24 of the exact one.
pub proof fn law_difference_error(a: u32, b: u32)
    requires
        float::is_finite(arith::difference(a, b)),
    ensures
        float::is_finite(a),
        float::is_finite(b),
        0x100_0000 * size(
            float::value(arith::difference(a, b)) - (float::value(a) - float::value(b)),
        ) <= size(float::value(a) - float::value(b)),
{
    law_sum_error(a, arith::negated(b));
}

/// A finite product is off by at most 2^-24 of the exact one, or half a unit.
pub proof fn law_product_error(a: u32, b: u32)
    requires
        float::is_finite(arith::product(a, b)),
    ensures
        float::is_finite(a),
        float::is_finite(b),
        0x100_0000 * size(
            float::value(arith::product(a, b)) * one() - float::value(a) * float::value(b),
        ) <= size(float::value(a) * float::value(b)) + 0x80_0000 * one(),
{
    lemma_pow2_pos(149);
    if float::is_finite(a) && float::is_finite(b) {
        let x = float::units(float::magnitude(a)) as int;
        let y = float::units(float::magnitude(b)) as int;
        let m = rounding::round_to_magnitude((x * y) as nat, pow2(149));
        let r = float::units(m) as int;
        assert(x * y >= 0) by (nonlinear_arith)
            requires
                x >= 0,
                y >= 0,
        ;
        law_rounding_error((x * y) as nat, pow2(149));
        assert((-x) * y == -(x * y)) by (nonlinear_arith);
        assert(x * (-y) == -(x * y)) by (nonlinear_arith);
        assert((-x) * (-y) == x * y) by (nonlinear_arith);
        assert((-r) * one() == -(r * one())) by (nonlinear_arith);
    }
}

/// A finite quotient of numbers that are not negative is off by at most 2^-24 of
/// the exact one, or half a unit.
pub proof fn law_quotient_error(a: u32, b: u32)
    requires
        float::is_finite(a),
        float::is_finite(b),
        !float::is_negative(a),
        !float::is_negative(b),
        !float::is_zero(b),
        float::is_finite(arith::quotient(a, b)),
    ensures
        !float::is_negative(arith::quotient(a, b)),
        0x100_0000 * size(
            float::value(arith::quotient(a, b)) * float::value(b) - float::value(a) * one(),
        ) <= float::value(a) * one() + 0x80_0000 * float::value(b),
{
    arith::lemma_units_zero(float::magnitude(b));
    let x = float::units(float::magnitude(a)) as int;
    assert(x * one() >= 0) by (nonlinear_arith)
        requires
            x >= 0,
            one() >= 0,
    ;
    law_rounding_error(
        float::units(float::magnitude(a)) * pow2(149),
        float::units(float::magnitude(b)),
    );
}

/// The values of numbers, added up exactly.
pub open spec fn exact_total(s: Seq<u32>) -> int
    decreases s.len(),
{
    if s.len() == 0 {
        0
    } else {
        exact_total(s.drop_last()) + float::value(s.last())
    }
}

/// A finite sum of `n` numbers that are not negative is off by at most `2n`
/// times 2^-24 of the exact one.
pub proof fn law_total_error(s: Seq<u32>)
    requires
        s.len() <= 0x40_0000,
        float::is_finite(fold::total(s)),
        forall|i: int| 0 <= i < s.len() ==> !float::is_negative(#[trigger] s[i]),
    ensures
        exact_total(s) >= 0,
        0x100_0000 * size(float::value(fold::total(s)) - exact_total(s)) <= 2 * s.len()
            * exact_total(s),
        forall|i: int| 0 <= i < s.len() ==> float::is_finite(#[trigger] s[i]),
    decreases s.len(),
{
    arith::lemma_units_zero(0);
    if s.len() > 0 {
        let rest = s.drop_last();
        let last = s.last();
        let n = s.len() as int;
        assert(last == s[n - 1]);
        assert forall|i: int| 0 <= i < rest.len() implies !float::is_negative(#[trigger] rest[i]) by {
            assert(rest[i] == s[i]);
        }
        let before = fold::total(rest);
        law_sum_error(before, last);
        law_total_error(rest);
        let sum = exact_total(rest);
        let x = float::value(last);
        let drift = size(float::value(before) - sum);
        assert(2 * (n - 1) * sum <= 0x80_0000 * sum) by (nonlinear_arith)
            requires
                n <= 0x40_0000,
                sum >= 0,
        ;
        assert(2 * n * (sum + x) == 2 * (n - 1) * sum + 2 * sum + 2 * n * x) by (nonlinear_arith);
        assert(2 * n * x >= 2 * x) by (nonlinear_arith)
            requires
                n >= 1,
                x >= 0,
        ;
        assert forall|i: int| 0 <= i < s.len() implies float::is_finite(#[trigger] s[i]) by {
            if i < n - 1 {
                assert(rest[i] == s[i]);
            }
        }
    } else {
        assert(float::value(0) == 0);
    }
}

} // verus!
