//! Multiplying and adding with a single rounding.

use crate::float;
use crate::float::arith;
use crate::float::arith::{exponent_of, magnitude_of, signed, significand_of};
use crate::float::rounding;
use crate::float::rounding::{power_of_two, round_parts};
use crate::float::{INFINITY, NAN, SIGN};
use vstd::arithmetic::power2::*;
use vstd::prelude::*;

verus! {

/// The exact value of `a * b + c` in units of 2^-298, for finite numbers.
pub open spec fn exact_fused(a: u32, b: u32, c: u32) -> int {
    float::value(a) * float::value(b) + float::value(c) * pow2(149)
}

/// The bits of `a * b + c`, rounded once.
pub open spec fn fused(a: u32, b: u32, c: u32) -> u32 {
    let negative = float::is_negative(a) != float::is_negative(b);
    if float::is_nan(a) || float::is_nan(b) || float::is_nan(c) {
        NAN
    } else if float::is_infinite(a) || float::is_infinite(b) {
        if float::is_zero(a) || float::is_zero(b) || (float::is_infinite(c) && float::is_negative(c)
            != negative) {
            NAN
        } else {
            float::with_sign(negative, 0x7F80_0000)
        }
    } else if float::is_infinite(c) {
        c
    } else if exact_fused(a, b, c) == 0 {
        float::with_sign(negative && float::is_negative(c), 0)
    } else {
        float::with_sign(
            exact_fused(a, b, c) < 0,
            rounding::round_to_magnitude(arith::abs(exact_fused(a, b, c)), pow2(149)),
        )
    }
}

/// `m * 2^p` with a sign.
spec fn term(negative: bool, m: nat, p: nat) -> int {
    if negative {
        -(m * pow2(p))
    } else {
        (m * pow2(p)) as int
    }
}

/// The rounded sum of two terms in units of 2^-298, the one with the larger
/// exponent first. It must not be zero.
fn round_sum(
    first_negative: bool,
    m: u64,
    p: u32,
    second_negative: bool,
    n: u64,
    q: u32,
) -> (r: u32)
    requires
        0 < m < 0x1_0000_0000_0000,
        n < 0x1_0000_0000_0000,
        q <= p <= 1000,
        term(first_negative, m as nat, p as nat) + term(second_negative, n as nat, q as nat) != 0,
    ensures
        ({
            let exact = term(first_negative, m as nat, p as nat) + term(
                second_negative,
                n as nat,
                q as nat,
            );
            r == float::with_sign(
                exact < 0,
                rounding::round_to_magnitude(arith::abs(exact), pow2(149)),
            )
        }),
{
    let ghost exact = term(first_negative, m as nat, p as nat) + term(
        second_negative,
        n as nat,
        q as nat,
    );
    let ghost num = arith::abs(exact);
    let ghost den = pow2(149);
    let gap: u32 = p - q;
    proof {
        lemma2_to64();
        lemma2_to64_rest();
        lemma_pow2_pos(149);
        lemma_pow2_pos(q as nat);
        lemma_pow2_pos(p as nat);
        lemma_pow2_adds(gap as nat, q as nat);
    }
    if gap <= 76 {
        let factor: u128 = power_of_two(gap);
        proof {
            rounding::lemma_pow2_monotone(gap as nat, 76);
            lemma_pow2_adds(38, 38);
            assert(0 <= m * factor < 0x1_0000_0000_0000 * 0x1000_0000_0000_0000_0000) by (nonlinear_arith)
                requires
                    0 <= m < 0x1_0000_0000_0000,
                    0 < factor <= 0x1000_0000_0000_0000_0000,
            ;
        }
        let large: u128 = m as u128 * factor;
        let small: u128 = n as u128;
        let same: bool = first_negative == second_negative;
        let total: u128 = if same {
            large + small
        } else if large >= small {
            large - small
        } else {
            small - large
        };
        let negative: bool = if same || large >= small {
            first_negative
        } else {
            second_negative
        };
        proof {
            let one = pow2(q as nat);
            assert(m * pow2(p as nat) == large * one) by (nonlinear_arith)
                requires
                    pow2(p as nat) == factor * one,
                    large == m * factor,
            ;
            assert((large + small) * one == large * one + small * one) by (nonlinear_arith);
            assert((large - small) * one == large * one - small * one) by (nonlinear_arith);
            assert((small - large) * one == small * one - large * one) by (nonlinear_arith);
            assert(total * one == num && negative == (exact < 0)) by {
                assert(total > 0 ==> total * one > 0) by (nonlinear_arith)
                    requires
                        one > 0,
                ;
                assert(total == 0 ==> total * one == 0) by (nonlinear_arith);
                assert(large * one >= 0 && small * one >= 0) by (nonlinear_arith)
                    requires
                        large >= 0,
                        small >= 0,
                        one > 0,
                ;
            }
            assert(total * (one * den) == num * den) by (nonlinear_arith)
                requires
                    total * one == num,
            ;
        }
        let mag: u32 = round_parts(total, q, 149, false, Ghost(num), Ghost(den));
        return signed(negative, mag);
    }
    // The second term is below one step of the first, taken 28 places on.
    let ghost one = pow2((p - 28) as nat);
    let ghost tail = n * pow2(q as nat);
    let lead: u128 = m as u128 * 0x1000_0000;
    proof {
        lemma_pow2_adds((p - 28) as nat, 28);
        lemma_pow2_pos((p - 28) as nat);
        lemma_pow2_adds(48, q as nat);
        rounding::lemma_pow2_monotone((48 + q) as nat, (p - 28) as nat);
        assert(tail < one) by (nonlinear_arith)
            requires
                tail == n * pow2(q as nat),
                n < 0x1_0000_0000_0000,
                pow2(q as nat) > 0,
                0x1_0000_0000_0000 * pow2(q as nat) <= one,
        ;
        assert(m * pow2(p as nat) == lead * one) by (nonlinear_arith)
            requires
                lead == m * 0x1000_0000,
                pow2(p as nat) == one * 0x1000_0000,
        ;
        assert(n > 0 ==> tail > 0) by (nonlinear_arith)
            requires
                tail == n * pow2(q as nat),
                pow2(q as nat) > 0,
        ;
        assert(n == 0 ==> tail == 0) by (nonlinear_arith)
            requires
                tail == n * pow2(q as nat),
        ;
        assert((lead + 1) * one == lead * one + one) by (nonlinear_arith);
        assert((lead - 1) * one == lead * one - one) by (nonlinear_arith);
        assert(lead * one >= one) by (nonlinear_arith)
            requires
                lead >= 1,
                one > 0,
        ;
    }
    let total: u128 = if n == 0 || first_negative == second_negative {
        lead
    } else {
        lead - 1
    };
    proof {
        let low = total * one;
        assert(n == 0 ==> low == num);
        assert(n > 0 ==> low < num < low + one);
        assert(total * (one * den) == low * den) by (nonlinear_arith)
            requires
                low == total * one,
        ;
        assert((total + 1) * (one * den) == (low + one) * den) by (nonlinear_arith)
            requires
                low == total * one,
        ;
        assert(low < num ==> low * den < num * den) by (nonlinear_arith)
            requires
                den > 0,
        ;
        assert(num < low + one ==> num * den < (low + one) * den) by (nonlinear_arith)
            requires
                den > 0,
        ;
    }
    let mag: u32 = round_parts(total, p - 28, 149, n > 0, Ghost(num), Ghost(den));
    signed(first_negative, mag)
}

/// What the product of two numbers and a third one are in units of 2^-298.
proof fn lemma_terms(a: u32, b: u32, c: u32)
    ensures
        ({
            let x = float::magnitude(a);
            let y = float::magnitude(b);
            let z = float::magnitude(c);
            let m = float::significand(x) * float::significand(y);
            &&& float::value(a) * float::value(b) == term(
                float::is_negative(a) != float::is_negative(b),
                m,
                float::exponent(x) + float::exponent(y),
            )
            &&& float::value(c) * pow2(149) == term(
                float::is_negative(c),
                float::significand(z),
                float::exponent(z) + 149,
            )
            &&& m < 0x1_0000_0000_0000
        }),
{
    let x = float::magnitude(a);
    let y = float::magnitude(b);
    let z = float::magnitude(c);
    let (mx, ex) = (float::significand(x), float::exponent(x));
    let (my, ey) = (float::significand(y), float::exponent(y));
    let (mz, ez) = (float::significand(z), float::exponent(z));
    lemma_pow2_adds(ex, ey);
    lemma_pow2_adds(ez, 149);
    assert((mx * pow2(ex)) * (my * pow2(ey)) == (mx * my) * (pow2(ex) * pow2(ey))) by (nonlinear_arith);
    assert((mz * pow2(ez)) * pow2(149) == mz * (pow2(ez) * pow2(149))) by (nonlinear_arith);
    let (ux, uy, uz) = (float::units(x) as int, float::units(y) as int, float::units(z) as int);
    assert((-ux) * uy == -(ux * uy)) by (nonlinear_arith);
    assert(ux * (-uy) == -(ux * uy)) by (nonlinear_arith);
    assert((-ux) * (-uy) == ux * uy) by (nonlinear_arith);
    assert((-uz) * pow2(149) == -(uz * pow2(149))) by (nonlinear_arith);
    assert(mx * my < 0x1_0000_0000_0000) by (nonlinear_arith)
        requires
            0 <= mx < 0x100_0000,
            0 <= my < 0x100_0000,
    ;
}

/// `a * b + c`, rounded once.
pub fn ffma(a: u32, b: u32, c: u32) -> (r: u32)
    ensures
        r == fused(a, b, c),
{
    let x: u32 = magnitude_of(a);
    let y: u32 = magnitude_of(b);
    let z: u32 = magnitude_of(c);
    let negative: bool = (a >= SIGN) != (b >= SIGN);
    if x > INFINITY || y > INFINITY || z > INFINITY {
        return NAN;
    }
    if x == INFINITY || y == INFINITY {
        if x == 0 || y == 0 || (z == INFINITY && (c >= SIGN) != negative) {
            return NAN;
        }
        return signed(negative, INFINITY);
    }
    if z == INFINITY {
        return c;
    }
    let mx: u32 = significand_of(x);
    let my: u32 = significand_of(y);
    let mz: u32 = significand_of(z);
    let p: u32 = exponent_of(x) + exponent_of(y);
    let q: u32 = exponent_of(z) + 149;
    proof {
        lemma_terms(a, b, c);
        lemma_pow2_pos(p as nat);
        lemma_pow2_pos(q as nat);
        assert(mx * my <= 0xFFFF_FFFF_FFFF) by (nonlinear_arith)
            requires
                0 <= mx < 0x100_0000,
                0 <= my < 0x100_0000,
        ;
    }
    let m: u64 = mx as u64 * my as u64;
    let n: u64 = mz as u64;
    let ghost left = term(negative, m as nat, p as nat);
    let ghost right = term(c >= SIGN, n as nat, q as nat);
    proof {
        assert(m == 0 ==> m * pow2(p as nat) == 0) by (nonlinear_arith);
        assert(n == 0 ==> n * pow2(q as nat) == 0) by (nonlinear_arith);
        assert(m > 0 ==> m * pow2(p as nat) > 0) by (nonlinear_arith)
            requires
                pow2(p as nat) > 0,
        ;
        assert(n > 0 ==> n * pow2(q as nat) > 0) by (nonlinear_arith)
            requires
                pow2(q as nat) > 0,
        ;
        assert(exact_fused(a, b, c) == left + right);
    }
    if m == 0 && n == 0 {
        return signed(negative && c >= SIGN, 0);
    }
    if n == 0 {
        assert(0 * pow2(0) == 0) by (nonlinear_arith);
        return round_sum(negative, m, p, negative, 0, 0);
    }
    if m == 0 {
        assert(0 * pow2(0) == 0) by (nonlinear_arith);
        return round_sum(c >= SIGN, n, q, c >= SIGN, 0, 0);
    }
    if cancels(m, p, n, q) && negative != (c >= SIGN) {
        return signed(false, 0);
    }
    if p >= q {
        round_sum(negative, m, p, c >= SIGN, n, q)
    } else {
        round_sum(c >= SIGN, n, q, negative, m, p)
    }
}

/// Whether two terms have the same size.
fn cancels(m: u64, p: u32, n: u64, q: u32) -> (r: bool)
    requires
        0 < m < 0x1_0000_0000_0000,
        0 < n < 0x1_0000_0000_0000,
        p <= 1000,
        q <= 1000,
    ensures
        r == (m * pow2(p as nat) == n * pow2(q as nat)),
{
    if p >= q {
        same_size(m, n, p - q, Ghost(q as nat))
    } else {
        same_size(n, m, q - p, Ghost(p as nat))
    }
}

/// Whether `m * 2^gap` is `n`.
fn same_size(m: u64, n: u64, gap: u32, Ghost(base): Ghost<nat>) -> (r: bool)
    requires
        0 < m < 0x1_0000_0000_0000,
        0 < n < 0x1_0000_0000_0000,
        gap <= 1000,
    ensures
        r == (m * pow2(gap as nat + base) == n * pow2(base)),
{
    proof {
        lemma2_to64_rest();
        lemma_pow2_adds(gap as nat, base);
        lemma_pow2_pos(base);
        let one = pow2(base);
        let f = pow2(gap as nat);
        assert(m * (f * one) == n * one <==> m * f == n) by (nonlinear_arith)
            requires
                one > 0,
        ;
    }
    if gap >= 48 {
        proof {
            rounding::lemma_pow2_monotone(48, gap as nat);
            assert(m * pow2(gap as nat) >= pow2(gap as nat)) by (nonlinear_arith)
                requires
                    m >= 1,
                    pow2(gap as nat) >= 0,
            ;
        }
        false
    } else {
        let f: u128 = power_of_two(gap);
        proof {
            rounding::lemma_pow2_monotone(gap as nat, 48);
            assert(m * f <= 0x1_0000_0000_0000 * 0x1_0000_0000_0000) by (nonlinear_arith)
                requires
                    0 <= m <= 0x1_0000_0000_0000,
                    0 <= f <= 0x1_0000_0000_0000,
            ;
        }
        m as u128 * f == n as u128
    }
}

/// Where the product is exact, multiplying and adding in one step gives what
/// two steps give.
pub proof fn law_fused_with_exact_product(a: u32, b: u32, c: u32)
    requires
        float::is_finite(a),
        float::is_finite(b),
        float::is_finite(c),
        float::is_finite(arith::product(a, b)),
        float::value(a) * float::value(b) == float::value(arith::product(a, b)) * pow2(149),
    ensures
        fused(a, b, c) == arith::sum(arith::product(a, b), c),
{
    let ab = arith::product(a, b);
    let s = float::value(ab) + float::value(c);
    let p = pow2(149);
    lemma_pow2_pos(149);
    assert(exact_fused(a, b, c) == s * p) by (nonlinear_arith)
        requires
            exact_fused(a, b, c) == float::value(ab) * p + float::value(c) * p,
            s == float::value(ab) + float::value(c),
    ;
    assert(s * p == 0 <==> s == 0) by (nonlinear_arith)
        requires
            p > 0,
    ;
    assert(s * p < 0 <==> s < 0) by (nonlinear_arith)
        requires
            p > 0,
    ;
    assert(arith::abs(s * p) == arith::abs(s) * p) by (nonlinear_arith)
        requires
            p > 0,
            s >= 0 ==> arith::abs(s) == s,
            s < 0 ==> arith::abs(s) == -s,
            s * p >= 0 ==> arith::abs(s * p) == s * p,
            s * p < 0 ==> arith::abs(s * p) == -(s * p),
    ;
    lemma_scaled_rounding(arith::abs(s), p);
}

/// Rounding a fraction does not depend on a common factor.
proof fn lemma_scaled_rounding(num: nat, k: nat)
    requires
        k > 0,
    ensures
        rounding::round_to_magnitude(num * k, k) == rounding::round_to_magnitude(num, 1),
{
    lemma_scaled_places(num, 1, k);
    assert(1 * k == k);
    let places = rounding::dropped_places(num, 1);
    let d = pow2(places);
    lemma_pow2_pos(places);
    assert(k * d == (1 * d) * k) by (nonlinear_arith);
    lemma_scaled_nearest(num, 1 * d, k);
}

proof fn lemma_scaled_places(num: nat, den: nat, k: nat)
    requires
        k > 0,
        den > 0,
    ensures
        rounding::dropped_places(num * k, den * k) == rounding::dropped_places(num, den),
    decreases num - den,
{
    assert(num * k < 0x100_0000 * (den * k) <==> num < 0x100_0000 * den) by (nonlinear_arith)
        requires
            k > 0,
    ;
    assert(den * k > 0) by (nonlinear_arith)
        requires
            den > 0,
            k > 0,
    ;
    if num >= 0x100_0000 * den {
        lemma_scaled_places(num, 2 * den, k);
        assert(2 * (den * k) == (2 * den) * k) by (nonlinear_arith);
    }
}

proof fn lemma_scaled_nearest(num: nat, den: nat, k: nat)
    requires
        k > 0,
        den > 0,
    ensures
        rounding::nearest_even(num * k, den * k) == rounding::nearest_even(num, den),
{
    vstd::arithmetic::div_mod::lemma_fundamental_div_mod(num as int, den as int);
    let q = num / den;
    let r = num % den;
    assert(num * k == q * (den * k) + r * k) by (nonlinear_arith)
        requires
            num == den * q + r,
    ;
    assert(r * k < den * k) by (nonlinear_arith)
        requires
            r < den,
            k > 0,
    ;
    assert(r * k >= 0) by (nonlinear_arith)
        requires
            r >= 0,
            k > 0,
    ;
    vstd::arithmetic::div_mod::lemma_fundamental_div_mod_converse(
        (num * k) as int,
        (den * k) as int,
        q as int,
        (r * k) as int,
    );
    assert(2 * (r * k) > den * k <==> 2 * r > den) by (nonlinear_arith)
        requires
            k > 0,
    ;
    assert(2 * (r * k) == den * k <==> 2 * r == den) by (nonlinear_arith)
        requires
            k > 0,
    ;
}

} // verus!
