//! Comparing bit patterns, and what the order of the bits says of the values.

use crate::float;
use crate::float::arith;
use crate::float::rounding;
use crate::float::{INFINITY, SIGN};
use vstd::arithmetic::power2::*;
use vstd::prelude::*;

verus! {

/// An integer that orders the numbers as their values do; both zeros have 0.
pub open spec fn rank(bits: u32) -> int {
    if float::is_negative(bits) {
        -(float::magnitude(bits) as int)
    } else {
        float::magnitude(bits) as int
    }
}

/// `a < b`: false where either is NaN.
pub open spec fn less(a: u32, b: u32) -> bool {
    !float::is_nan(a) && !float::is_nan(b) && rank(a) < rank(b)
}

/// `a <= b`: false where either is NaN.
pub open spec fn at_most(a: u32, b: u32) -> bool {
    !float::is_nan(a) && !float::is_nan(b) && rank(a) <= rank(b)
}

/// `a == b`: false where either is NaN.
pub open spec fn same(a: u32, b: u32) -> bool {
    !float::is_nan(a) && !float::is_nan(b) && rank(a) == rank(b)
}

/// `rank` as a machine integer.
fn rank_of(bits: u32) -> (r: i64)
    ensures
        r == rank(bits),
{
    if bits >= SIGN {
        -((bits - SIGN) as i64)
    } else {
        bits as i64
    }
}

/// `a < b`.
pub fn flt(a: u32, b: u32) -> (r: bool)
    ensures
        r == less(a, b),
{
    a % SIGN <= INFINITY && b % SIGN <= INFINITY && rank_of(a) < rank_of(b)
}

/// `a <= b`.
pub fn fle(a: u32, b: u32) -> (r: bool)
    ensures
        r == at_most(a, b),
{
    a % SIGN <= INFINITY && b % SIGN <= INFINITY && rank_of(a) <= rank_of(b)
}

/// `a == b`.
pub fn feq(a: u32, b: u32) -> (r: bool)
    ensures
        r == same(a, b),
{
    a % SIGN <= INFINITY && b % SIGN <= INFINITY && rank_of(a) == rank_of(b)
}

/// Larger magnitude bits stand for a larger absolute value.
pub proof fn lemma_units_increase(a: nat, b: nat)
    requires
        a < b,
    ensures
        float::units(a) < float::units(b),
{
    lemma2_to64();
    let p = float::exponent(a);
    let q = float::exponent(b);
    let m = float::significand(a);
    let n = float::significand(b);
    lemma_pow2_pos(p);
    lemma_pow2_pos(q);
    if p == q {
        assert(m < n);
        assert(m * pow2(p) < n * pow2(p)) by (nonlinear_arith)
            requires
                m < n,
                pow2(p) > 0,
        ;
    } else {
        assert(p < q);
        lemma_pow2_unfold((p + 1) as nat);
        rounding::lemma_pow2_monotone((p + 1) as nat, q);
        assert(m * pow2(p) < n * pow2(q)) by (nonlinear_arith)
            requires
                m < 0x100_0000,
                n >= 0x80_0000,
                pow2(q) >= 2 * pow2(p),
                pow2(p) > 0,
        ;
    }
}

/// The order of finite numbers is the order of their values.
pub proof fn law_order_of_values(a: u32, b: u32)
    requires
        float::is_finite(a),
        float::is_finite(b),
    ensures
        less(a, b) <==> float::value(a) < float::value(b),
        same(a, b) <==> float::value(a) == float::value(b),
        at_most(a, b) <==> float::value(a) <= float::value(b),
{
    let x = float::magnitude(a);
    let y = float::magnitude(b);
    arith::lemma_units_zero(x);
    arith::lemma_units_zero(y);
    if x < y {
        lemma_units_increase(x, y);
    } else if y < x {
        lemma_units_increase(y, x);
    }
}

/// What the bits `places * 2^23 + m` stand for.
pub proof fn lemma_units_of_parts(places: nat, m: nat)
    requires
        m <= 0x100_0000,
        places > 0 ==> m >= 0x80_0000,
    ensures
        float::units(places * 0x80_0000 + m) == m * pow2(places),
{
    lemma2_to64();
    let bits = places * 0x80_0000 + m;
    if m < 0x80_0000 {
    } else if m < 0x100_0000 {
        assert(bits / 0x80_0000 == places + 1);
        assert(bits % 0x80_0000 == m - 0x80_0000);
    } else {
        assert(bits / 0x80_0000 == places + 2);
        assert(bits % 0x80_0000 == 0);
        lemma_pow2_unfold((places + 1) as nat);
        assert(0x80_0000 * pow2((places + 1) as nat) == 0x100_0000 * pow2(places)) by (nonlinear_arith)
            requires
                pow2((places + 1) as nat) == 2 * pow2(places),
        ;
    }
}

/// A number that single precision holds is kept by rounding.
pub proof fn law_rounding_keeps_numbers(mag: nat, den: nat)
    requires
        mag < 0x7F80_0000,
        den > 0,
    ensures
        rounding::round_to_magnitude(float::units(mag) * den, den) == mag,
{
    lemma2_to64();
    let places = float::exponent(mag);
    let m = float::significand(mag);
    let num = float::units(mag) * den;
    let whole = den * pow2(places);
    lemma_pow2_pos(places);
    assert(whole > 0) by (nonlinear_arith)
        requires
            whole == den * pow2(places),
            den > 0,
            pow2(places) > 0,
    ;
    assert(num == m * whole) by (nonlinear_arith)
        requires
            num == (m * pow2(places)) * den,
            whole == den * pow2(places),
    ;
    assert(num < 0x100_0000 * whole) by (nonlinear_arith)
        requires
            num == m * whole,
            m < 0x100_0000,
            whole > 0,
    ;
    if places > 0 {
        let prior = (places - 1) as nat;
        lemma_pow2_unfold(places);
        assert(num >= 0x100_0000 * (den * pow2(prior))) by (nonlinear_arith)
            requires
                num == m * whole,
                m >= 0x80_0000,
                whole == den * pow2(places),
                pow2(places) == 2 * pow2(prior),
                whole > 0,
        ;
    }
    rounding::lemma_dropped_places(num, den, places);
    vstd::arithmetic::div_mod::lemma_fundamental_div_mod_converse(num as int, whole as int, m as int, 0);
}

/// No integer is nearer to a fraction than the one it is rounded to.
proof fn lemma_nearest_integer(num: nat, den: nat, other: int)
    requires
        den > 0,
    ensures
        arith::abs(rounding::nearest_even(num, den) * den - num) <= arith::abs(other * den - num),
{
    vstd::arithmetic::div_mod::lemma_fundamental_div_mod(num as int, den as int);
    let floor = (num / den) as int;
    let rest = (num % den) as int;
    assert((floor + 1) * den == floor * den + den) by (nonlinear_arith);
    assert(den * floor == floor * den) by (nonlinear_arith);
    if other <= floor {
        assert(other * den <= floor * den) by (nonlinear_arith)
            requires
                other <= floor,
                den > 0,
        ;
    } else {
        assert(other * den >= (floor + 1) * den) by (nonlinear_arith)
            requires
                other >= floor + 1,
                den > 0,
        ;
    }
}

/// Rounding picks a nearest number: no finite magnitude is closer to the exact
/// value than the result, where the result is finite.
pub proof fn law_rounding_is_nearest(num: nat, den: nat, other: nat)
    requires
        den > 0,
        rounding::round_to_magnitude(num, den) < 0x7F80_0000,
        other < 0x7F80_0000,
    ensures
        arith::abs(float::units(rounding::round_to_magnitude(num, den)) * den - num)
            <= arith::abs(float::units(other) * den - num),
{
    lemma2_to64();
    let places = rounding::dropped_places(num, den);
    let whole = den * pow2(places);
    let m = rounding::nearest_even(num, whole);
    lemma_pow2_pos(places);
    assert(whole > 0) by (nonlinear_arith)
        requires
            whole == den * pow2(places),
            den > 0,
            pow2(places) > 0,
    ;
    lemma_dropped_places_bounds(num, den);
    rounding::lemma_significand_fits(num, whole, 0, 0x100_0000);
    if places > 0 {
        rounding::lemma_significand_fits(num, whole, 0x80_0000, 0x100_0000);
    }
    lemma_units_of_parts(places, m);
    assert(float::units(rounding::round_to_magnitude(num, den)) * den == m * whole) by (nonlinear_arith)
        requires
            float::units(rounding::round_to_magnitude(num, den)) == m * pow2(places),
            whole == den * pow2(places),
    ;
    let e = float::exponent(other);
    let s = float::significand(other);
    lemma_pow2_pos(e);
    if e >= places {
        let up = (e - places) as nat;
        lemma_pow2_adds(up, places);
        let multiple = s * pow2(up);
        assert(float::units(other) * den == multiple * whole) by (nonlinear_arith)
            requires
                float::units(other) == s * pow2(e),
                pow2(e) == pow2(up) * pow2(places),
                multiple == s * pow2(up),
                whole == den * pow2(places),
        ;
        lemma_nearest_integer(num, whole, multiple as int);
    } else {
        // The other magnitude lies below the least one of this exponent.
        lemma_pow2_unfold((e + 1) as nat);
        rounding::lemma_pow2_monotone((e + 1) as nat, places);
        assert(float::units(other) * den <= 0x80_0000 * whole) by (nonlinear_arith)
            requires
                float::units(other) == s * pow2(e),
                s < 0x100_0000,
                2 * pow2(e) <= pow2(places),
                pow2(e) > 0,
                whole == den * pow2(places),
        ;
        lemma_nearest_integer(num, whole, 0x80_0000);
    }
}

/// The bounds that `dropped_places` is the least for.
pub proof fn lemma_dropped_places_bounds(num: nat, den: nat)
    requires
        den > 0,
    ensures
        num < 0x100_0000 * (den * pow2(rounding::dropped_places(num, den))),
        rounding::dropped_places(num, den) > 0 ==> 0x80_0000 * (den * pow2(
            rounding::dropped_places(num, den),
        )) <= num,
    decreases num - den,
{
    lemma2_to64();
    let places = rounding::dropped_places(num, den);
    if num < 0x100_0000 * den {
        assert(den * pow2(0) == den) by (nonlinear_arith)
            requires
                pow2(0) == 1,
        ;
    } else {
        let prior = rounding::dropped_places(num, 2 * den);
        lemma_dropped_places_bounds(num, 2 * den);
        lemma_pow2_unfold(places);
        assert((2 * den) * pow2(prior) == den * pow2(places)) by (nonlinear_arith)
            requires
                pow2(places) == 2 * pow2(prior),
        ;
        if prior == 0 {
            assert(0x80_0000 * (den * pow2(places)) == 0x100_0000 * den) by (nonlinear_arith)
                requires
                    pow2(places) == 2,
            ;
        }
    }
}

/// A small positive integer reaches 24 digits by doubling.
proof fn lemma_normalized(s: nat, shift: nat)
    requires
        0 < s,
        shift <= 23,
        s * pow2(shift) < 0x100_0000,
    ensures
        exists|up: nat| up <= 23 && 0x80_0000 <= #[trigger] (s * pow2(up)) < 0x100_0000,
    decreases 23 - shift,
{
    lemma2_to64();
    if s * pow2(shift) >= 0x80_0000 {
    } else if shift == 23 {
        assert(s * pow2(23) >= 0x80_0000) by (nonlinear_arith)
            requires
                pow2(23) == 0x80_0000,
                s >= 1,
        ;
    } else {
        lemma_pow2_unfold((shift + 1) as nat);
        assert(s * pow2((shift + 1) as nat) == 2 * (s * pow2(shift))) by (nonlinear_arith)
            requires
                pow2((shift + 1) as nat) == 2 * pow2(shift),
        ;
        lemma_normalized(s, (shift + 1) as nat);
    }
}

/// An integer of at most 24 digits times a power of two is a single-precision
/// number, so rounding keeps it.
pub proof fn lemma_exact(n: nat, p: nat, den: nat)
    requires
        n < 0x100_0000,
        23 <= p <= 200,
        den > 0,
    ensures
        rounding::round_to_magnitude(n * pow2(p) * den, den) < 0x7F80_0000,
        float::units(rounding::round_to_magnitude(n * pow2(p) * den, den)) == n * pow2(p),
{
    lemma2_to64();
    if n == 0 {
        assert(n * pow2(p) * den == 0) by (nonlinear_arith)
            requires
                n == 0,
        ;
        assert(n * pow2(p) == 0) by (nonlinear_arith)
            requires
                n == 0,
        ;
        assert(0 * den == 0);
        law_rounding_keeps_numbers(0, den);
    } else {
        assert(n * pow2(0) == n) by (nonlinear_arith)
            requires
                pow2(0) == 1,
        ;
        lemma_normalized(n, 0);
        let up = choose|up: nat| up <= 23 && 0x80_0000 <= #[trigger] (n * pow2(up)) < 0x100_0000;
        let places = (p - up) as nat;
        let m = n * pow2(up);
        lemma_units_of_parts(places, m);
        lemma_pow2_adds(up, places);
        assert(m * pow2(places) == n * pow2(p)) by (nonlinear_arith)
            requires
                m == n * pow2(up),
                pow2(up) * pow2(places) == pow2(p),
        ;
        law_rounding_keeps_numbers(places * 0x80_0000 + m, den);
    }
}

/// Adding zero keeps a number.
pub proof fn law_adding_zero(a: u32, zero: u32)
    requires
        !float::is_nan(a),
        float::is_zero(zero),
    ensures
        same(arith::sum(a, zero), a),
{
    let mag = float::magnitude(a);
    arith::lemma_units_zero(0);
    arith::lemma_units_zero(mag);
    if float::is_finite(a) {
        assert(float::value(zero) == 0);
        law_rounding_keeps_numbers(mag, 1);
        assert(float::units(mag) * 1 == float::units(mag));
    }
}

/// Rounding to an integer keeps the order.
proof fn lemma_nearest_keeps_order(a: nat, b: nat, den: nat)
    requires
        den > 0,
        a <= b,
    ensures
        rounding::nearest_even(a, den) <= rounding::nearest_even(b, den),
{
    let d = den as int;
    vstd::arithmetic::div_mod::lemma_fundamental_div_mod(a as int, d);
    vstd::arithmetic::div_mod::lemma_fundamental_div_mod(b as int, d);
    vstd::arithmetic::div_mod::lemma_div_is_ordered(a as int, b as int, d);
}

/// Rounding keeps the order.
pub proof fn law_rounding_keeps_order(a: nat, b: nat, den: nat)
    requires
        den > 0,
        a <= b,
    ensures
        rounding::round_to_magnitude(a, den) <= rounding::round_to_magnitude(b, den),
{
    lemma2_to64();
    let p = rounding::dropped_places(a, den);
    let q = rounding::dropped_places(b, den);
    lemma_pow2_pos(p);
    lemma_pow2_pos(q);
    lemma_dropped_places_bounds(a, den);
    lemma_dropped_places_bounds(b, den);
    let small = den * pow2(p);
    let large = den * pow2(q);
    assert(small > 0 && large > 0) by (nonlinear_arith)
        requires
            small == den * pow2(p),
            large == den * pow2(q),
            den > 0,
            pow2(p) > 0,
            pow2(q) > 0,
    ;
    if p == q {
        lemma_nearest_keeps_order(a, b, small);
    } else if p < q {
        rounding::lemma_significand_fits(a, small, 0, 0x100_0000);
        rounding::lemma_significand_fits(b, large, 0x80_0000, 0x100_0000);
    } else {
        lemma_pow2_unfold(q + 1);
        rounding::lemma_pow2_monotone(q + 1, p);
        assert(0x80_0000 * small >= 0x100_0000 * large) by (nonlinear_arith)
            requires
                small == den * pow2(p),
                large == den * pow2(q),
                pow2(p) >= 2 * pow2(q),
                den > 0,
        ;
    }
}

/// Rounding does not go past a number: what is at most as large as a finite
/// magnitude rounds to no larger one.
pub proof fn law_rounding_keeps_bounds(num: nat, den: nat, mag: nat)
    requires
        den > 0,
        mag < 0x7F80_0000,
        num <= float::units(mag) * den,
    ensures
        rounding::round_to_magnitude(num, den) <= mag,
{
    law_rounding_keeps_order(num, float::units(mag) * den, den);
    law_rounding_keeps_numbers(mag, den);
}

/// What is at least as large as a finite magnitude rounds to no smaller one.
pub proof fn law_rounding_reaches(num: nat, den: nat, mag: nat)
    requires
        den > 0,
        mag < 0x7F80_0000,
        num >= float::units(mag) * den,
    ensures
        rounding::round_to_magnitude(num, den) >= mag,
{
    law_rounding_keeps_order(float::units(mag) * den, num, den);
    law_rounding_keeps_numbers(mag, den);
}

/// A sum with the same finite number keeps the order.
pub proof fn law_sum_keeps_order(a: u32, b: u32, c: u32)
    requires
        at_most(a, b),
        float::is_finite(c),
    ensures
        at_most(arith::sum(a, c), arith::sum(b, c)),
{
    lemma_magnitude_of_sum(a, c);
    lemma_magnitude_of_sum(b, c);
    if float::is_finite(a) && float::is_finite(b) {
        law_order_of_values(a, b);
        let x = float::value(a) + float::value(c);
        let y = float::value(b) + float::value(c);
        if 0 < x {
            law_rounding_keeps_order(arith::abs(x), arith::abs(y), 1);
        } else if y < 0 {
            law_rounding_keeps_order(arith::abs(y), arith::abs(x), 1);
        }
    }
}

/// The sign and magnitude of a sum of which one number is finite.
proof fn lemma_magnitude_of_sum(a: u32, c: u32)
    requires
        !float::is_nan(a),
        float::is_finite(c),
    ensures
        !float::is_nan(arith::sum(a, c)),
        float::is_infinite(a) ==> arith::sum(a, c) == a,
        float::is_finite(a) ==> ({
            let exact = float::value(a) + float::value(c);
            let mag = rounding::round_to_magnitude(arith::abs(exact), 1) as int;
            rank(arith::sum(a, c)) == if exact < 0 {
                -mag
            } else if exact == 0 {
                0
            } else {
                mag
            }
        }),
{
}

/// A product with the same finite number that is not negative keeps the order.
pub proof fn law_product_keeps_order(a: u32, b: u32, c: u32)
    requires
        at_most(a, b),
        float::is_finite(a),
        float::is_finite(b),
        float::is_finite(c),
        !float::is_negative(c),
    ensures
        at_most(arith::product(a, c), arith::product(b, c)),
{
    lemma_pow2_pos(149);
    let k = float::units(float::magnitude(c));
    let x = float::magnitude(a);
    let y = float::magnitude(b);
    if x < y {
        lemma_units_increase(x, y);
        lemma_product_order(float::units(x), float::units(y), k);
        law_rounding_keeps_order(float::units(x) * k, float::units(y) * k, pow2(149));
    } else {
        if y < x {
            lemma_units_increase(y, x);
        }
        lemma_product_order(float::units(y), float::units(x), k);
        law_rounding_keeps_order(float::units(y) * k, float::units(x) * k, pow2(149));
    }
    if x == 0 {
        law_times_zero(c, a);
        law_order_of_two(c, a);
    }
    if y == 0 {
        law_times_zero(c, b);
        law_order_of_two(c, b);
    }
}

proof fn lemma_product_order(x: nat, y: nat, k: nat)
    requires
        x <= y,
    ensures
        x * k <= y * k,
{
    assert(x * k <= y * k) by (nonlinear_arith)
        requires
            x <= y,
            k >= 0,
    ;
}

/// One has as many units as there are in one.
proof fn lemma_units_of_one()
    ensures
        float::units(0x3F80_0000) == pow2(149),
{
    lemma2_to64();
    lemma_pow2_adds(23, 126);
    assert(float::exponent(0x3F80_0000) == 126);
    assert(float::significand(0x3F80_0000) == 0x80_0000);
}

/// A number times one is itself.
pub proof fn law_times_one(a: u32)
    requires
        !float::is_nan(a),
    ensures
        arith::product(a, 0x3F80_0000) == a,
{
    lemma_units_of_one();
    lemma_pow2_pos(149);
    if float::is_finite(a) {
        law_rounding_keeps_numbers(float::magnitude(a), pow2(149));
    }
}

/// A finite number times zero is zero.
pub proof fn law_times_zero(a: u32, zero: u32)
    requires
        float::is_finite(a),
        float::is_zero(zero),
    ensures
        float::is_zero(arith::product(a, zero)),
{
    lemma_pow2_pos(149);
    arith::lemma_units_zero(0);
    law_rounding_keeps_numbers(0, pow2(149));
    assert(float::units(float::magnitude(a)) * 0 == 0 * pow2(149)) by (nonlinear_arith);
}

/// Sums and products do not depend on the order of two numbers.
pub proof fn law_order_of_two(a: u32, b: u32)
    ensures
        arith::sum(a, b) == arith::sum(b, a),
        arith::product(a, b) == arith::product(b, a),
{
    let x = float::units(float::magnitude(a));
    let y = float::units(float::magnitude(b));
    assert(x * y == y * x) by (nonlinear_arith);
}

/// A product with the sign of one number changed is the product with its sign
/// changed, or no number as before.
pub proof fn law_sign_of_product(a: u32, b: u32)
    ensures
        float::is_nan(arith::product(a, b)) ==> arith::product(arith::negated(a), b)
            == arith::product(a, b),
        !float::is_nan(arith::product(a, b)) ==> arith::product(arith::negated(a), b)
            == arith::negated(arith::product(a, b)),
{
}

/// A sum of two numbers that are not negative is no smaller than either.
pub proof fn law_sum_is_no_smaller(a: u32, b: u32)
    requires
        at_most(0, a),
        at_most(0, b),
        !float::is_negative(a),
        !float::is_negative(b),
    ensures
        at_most(a, arith::sum(a, b)),
        at_most(b, arith::sum(a, b)),
        !float::is_negative(arith::sum(a, b)),
{
    let x = float::magnitude(a);
    let y = float::magnitude(b);
    arith::lemma_units_zero(x);
    arith::lemma_units_zero(y);
    if float::is_finite(a) && float::is_finite(b) {
        law_rounding_reaches(float::units(x) + float::units(y), 1, x);
        law_rounding_reaches(float::units(x) + float::units(y), 1, y);
    }
}

/// A number that is not negative, divided by one that is no smaller, is between
/// zero and one.
pub proof fn law_quotient_is_a_part(a: u32, b: u32)
    requires
        float::is_finite(a),
        !float::is_negative(a),
        !float::is_negative(b),
        !float::is_zero(b),
        at_most(a, b),
    ensures
        !float::is_negative(arith::quotient(a, b)),
        at_most(arith::quotient(a, b), 0x3F80_0000),
{
    if float::is_finite(b) {
        let x = float::units(float::magnitude(a));
        let y = float::units(float::magnitude(b));
        lemma_units_of_one();
        arith::lemma_units_zero(float::magnitude(b));
        if float::magnitude(a) < float::magnitude(b) {
            lemma_units_increase(float::magnitude(a), float::magnitude(b));
        }
        assert(x * pow2(149) <= pow2(149) * y) by (nonlinear_arith)
            requires
                x <= y,
        ;
        law_rounding_keeps_bounds(x * pow2(149), y, 0x3F80_0000);
    }
}

/// A number that is not negative, times one between zero and one, is no larger
/// than itself.
pub proof fn law_part_is_no_larger(x: u32, part: u32)
    requires
        float::is_finite(x),
        !float::is_negative(x),
        !float::is_negative(part),
        at_most(part, 0x3F80_0000),
    ensures
        at_most(arith::product(x, part), x),
        !float::is_negative(arith::product(x, part)),
{
    lemma_units_of_one();
    lemma_pow2_pos(149);
    let mag = float::magnitude(x);
    let p = float::magnitude(part);
    if p < 0x3F80_0000 {
        lemma_units_increase(p, 0x3F80_0000);
    }
    let num = float::units(mag) * float::units(p);
    assert(num <= float::units(mag) * pow2(149)) by (nonlinear_arith)
        requires
            num == float::units(mag) * float::units(p),
            float::units(p) <= pow2(149),
    ;
    law_rounding_keeps_bounds(num, pow2(149), mag);
}

/// How far a magnitude is above the one before it.
proof fn lemma_units_step(mag: nat)
    requires
        mag >= 0x80_0000,
    ensures
        float::units(mag + 1) == float::units(mag) + pow2(float::exponent(mag)),
{
    let e = float::exponent(mag);
    let m = float::significand(mag);
    lemma_pow2_unfold(e + 1);
    if m + 1 < 0x100_0000 {
        assert(float::exponent(mag + 1) == e);
        assert(float::significand(mag + 1) == m + 1);
        assert((m + 1) * pow2(e) == m * pow2(e) + pow2(e)) by (nonlinear_arith);
    } else {
        assert(float::exponent(mag + 1) == e + 1);
        assert(float::significand(mag + 1) == 0x80_0000);
        assert(0x80_0000 * (2 * pow2(e)) == m * pow2(e) + pow2(e)) by (nonlinear_arith)
            requires
                m + 1 == 0x100_0000,
        ;
    }
}

/// A number times its rounded inverse is above one by half of the last place
/// at most.
pub proof fn lemma_inverse(t: nat)
    requires
        0x80_0000 <= t <= 0x7E80_0000,
    ensures
        ({
            let q = rounding::round_to_magnitude(pow2(149) * pow2(149), float::units(t));
            &&& q < 0x7F80_0000
            &&& float::units(t) * float::units(q) <= pow2(298) + pow2(274)
        }),
{
    lemma2_to64();
    lemma_pow2_adds(149, 149);
    lemma_pow2_adds(23, 275);
    lemma_pow2_adds(1, 274);
    lemma_pow2_adds(23, 252);
    let least = 0x80_0000nat;
    let most = 0x7E80_0000nat;
    assert(float::exponent(least) == 0 && float::significand(least) == 0x80_0000);
    assert(float::exponent(most) == 252 && float::significand(most) == 0x80_0000);
    assert(float::units(least) == pow2(23));
    assert(float::units(most) == pow2(275));
    if least < t {
        lemma_units_increase(least, t);
    }
    if t < most {
        lemma_units_increase(t, most);
    }
    let d = float::units(t);
    let num = pow2(298);
    let q = rounding::round_to_magnitude(num, d);
    assert(num <= pow2(275) * d) by (nonlinear_arith)
        requires
            num == pow2(23) * pow2(275),
            pow2(23) <= d,
    ;
    law_rounding_keeps_bounds(num, d, most);
    assert(num >= pow2(23) * d) by (nonlinear_arith)
        requires
            num == pow2(23) * pow2(275),
            d <= pow2(275),
    ;
    law_rounding_reaches(num, d, least);
    let u = float::units(q);
    if d * u > num {
        assert(q > least) by {
            if q == least {
                assert(d * u <= num) by (nonlinear_arith)
                    requires
                        u == pow2(23),
                        num >= pow2(23) * d,
                ;
            }
        }
        let below = (q - 1) as nat;
        let v = float::units(below);
        let e = float::exponent(below);
        let step = pow2(e);
        lemma_units_step(below);
        law_rounding_is_nearest(num, d, below);
        lemma_pow2_pos(e);
        assert(d * u == u * d) by (nonlinear_arith);
        assert(d * v <= num && 2 * (d * u - num) <= step * d) by (nonlinear_arith)
            requires
                u == v + step,
                step > 0,
                d > 0,
                d * u > num,
                arith::abs(u * d - num) <= arith::abs(v * d - num),
                arith::abs(u * d - num) == u * d - num,
                v * d - num >= 0 ==> arith::abs(v * d - num) == v * d - num,
                v * d - num < 0 ==> arith::abs(v * d - num) == num - v * d,
        ;
        assert(0x80_0000 * (step * d) <= num) by (nonlinear_arith)
            requires
                v == float::significand(below) * step,
                float::significand(below) >= 0x80_0000,
                d * v <= num,
                step > 0,
                d > 0,
        ;
        assert(step * d <= pow2(275)) by (nonlinear_arith)
            requires
                0x80_0000 * (step * d) <= num,
                num == 0x80_0000 * pow2(275),
        ;
    }
}

/// What is above one by half of the last place at most is rounded to one.
proof fn lemma_rounds_to_one(num: nat)
    requires
        num <= pow2(298) + pow2(274),
    ensures
        rounding::round_to_magnitude(num, pow2(149)) <= 0x3F80_0000,
{
    lemma2_to64();
    let most = pow2(298) + pow2(274);
    let den = pow2(149);
    lemma_pow2_pos(149);
    lemma_pow2_pos(274);
    lemma_pow2_pos(275);
    lemma_pow2_adds(149, 126);
    lemma_pow2_adds(149, 125);
    lemma_pow2_adds(23, 275);
    lemma_pow2_adds(1, 274);
    lemma_pow2_adds(24, 274);
    lemma_pow2_adds(1, 298);
    lemma_pow2_adds(24, 275);
    rounding::lemma_pow2_monotone(274, 298);
    lemma_pow2_strictly_increases(274, 298);
    rounding::lemma_dropped_places(most, den, 126);
    vstd::arithmetic::div_mod::lemma_fundamental_div_mod_converse(
        most as int,
        pow2(275) as int,
        0x80_0000,
        pow2(274) as int,
    );
    assert(rounding::nearest_even(most, pow2(275)) == 0x80_0000);
    law_rounding_keeps_order(num, most, den);
}

/// A number divided, through a rounded inverse, by one that is no smaller, is
/// between zero and one, as long as that inverse keeps its precision.
pub proof fn law_inverse_gives_a_part(a: u32, b: u32)
    requires
        !float::is_negative(a),
        at_most(a, b),
        0x80_0000 <= b <= 0x7E80_0000,
    ensures
        !float::is_negative(arith::product(a, arith::quotient(0x3F80_0000, b))),
        at_most(arith::product(a, arith::quotient(0x3F80_0000, b)), 0x3F80_0000),
{
    let q = arith::quotient(0x3F80_0000, b);
    let t = float::magnitude(b);
    lemma_units_of_one();
    lemma_inverse(t);
    lemma_pow2_pos(149);
    lemma_rounds_to_one(float::units(t) * float::units(float::magnitude(q)));
    law_product_keeps_order(a, b, q);
}

} // verus!
