//! Ratios: what a common factor and a larger divisor do to a quotient.

use crate::float;
use crate::float::arith;
use crate::float::order;
use crate::float::rounding;
use vstd::arithmetic::power2::*;
use vstd::prelude::*;

verus! {

proof fn lemma_places_of_multiple(num: nat, den: nat, k: nat)
    requires
        den > 0,
        k > 0,
    ensures
        rounding::dropped_places(num * k, den * k) == rounding::dropped_places(num, den),
    decreases num - den,
{
    assert(den * k > 0) by (nonlinear_arith)
        requires
            den > 0,
            k > 0,
    ;
    assert(num < 0x100_0000 * den <==> num * k < 0x100_0000 * (den * k)) by (nonlinear_arith)
        requires
            k > 0,
    ;
    if num >= 0x100_0000 * den {
        lemma_places_of_multiple(num, 2 * den, k);
        assert(2 * (den * k) == (2 * den) * k) by (nonlinear_arith);
    }
}

proof fn lemma_nearest_of_multiple(num: nat, den: nat, k: nat)
    requires
        den > 0,
        k > 0,
    ensures
        rounding::nearest_even(num * k, den * k) == rounding::nearest_even(num, den),
{
    let q = num / den;
    let r = num % den;
    vstd::arithmetic::div_mod::lemma_fundamental_div_mod(num as int, den as int);
    assert(num * k == q * (den * k) + r * k) by (nonlinear_arith)
        requires
            num == den * q + r,
    ;
    assert(0 <= r * k < den * k) by (nonlinear_arith)
        requires
            0 <= r < den,
            k > 0,
    ;
    vstd::arithmetic::div_mod::lemma_fundamental_div_mod_converse(
        (num * k) as int,
        (den * k) as int,
        q as int,
        (r * k) as int,
    );
    assert(2 * r < den <==> 2 * (r * k) < den * k) by (nonlinear_arith)
        requires
            k > 0,
    ;
    assert(2 * r > den <==> 2 * (r * k) > den * k) by (nonlinear_arith)
        requires
            k > 0,
    ;
}

/// A common factor of both parts does not matter to a rounded ratio.
pub proof fn law_common_factor(num: nat, den: nat, k: nat)
    requires
        den > 0,
        k > 0,
    ensures
        rounding::round_to_magnitude(num * k, den * k) == rounding::round_to_magnitude(num, den),
{
    lemma_places_of_multiple(num, den, k);
    let p = rounding::dropped_places(num, den);
    lemma_pow2_pos(p);
    assert(den * pow2(p) > 0) by (nonlinear_arith)
        requires
            den > 0,
            pow2(p) > 0,
    ;
    lemma_nearest_of_multiple(num, den * pow2(p), k);
    assert((den * pow2(p)) * k == (den * k) * pow2(p)) by (nonlinear_arith);
}

/// A ratio with the larger divisor rounds to no more.
proof fn lemma_larger_divisor(num: nat, x: nat, y: nat)
    requires
        0 < y <= x,
    ensures
        rounding::round_to_magnitude(num, x) <= rounding::round_to_magnitude(num, y),
{
    law_common_factor(num, x, y);
    law_common_factor(num, y, x);
    assert(x * y == y * x) by (nonlinear_arith);
    assert(num * y <= num * x) by (nonlinear_arith)
        requires
            y <= x,
    ;
    assert(x * y > 0) by (nonlinear_arith)
        requires
            x > 0,
            y > 0,
    ;
    order::law_rounding_keeps_order(num * y, num * x, x * y);
}

/// Divided by a larger positive number, a number that is not negative is no
/// larger.
pub proof fn law_larger_divisor(a: u32, s: u32, t: u32)
    requires
        float::is_finite(a),
        !float::is_negative(a),
        float::is_finite(s),
        float::is_finite(t),
        !float::is_negative(s),
        !float::is_negative(t),
        0 < float::value(t) <= float::value(s),
    ensures
        order::at_most(arith::quotient(a, s), arith::quotient(a, t)),
{
    arith::lemma_units_zero(float::magnitude(s));
    arith::lemma_units_zero(float::magnitude(t));
    lemma_larger_divisor(
        float::units(float::magnitude(a)) * pow2(149),
        float::units(float::magnitude(s)),
        float::units(float::magnitude(t)),
    );
}

} // verus!
