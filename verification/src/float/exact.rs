//! Arithmetic that rounds nothing: numbers with few binary digits.
//!
//! Values are counted in units of 2^-149, so that one has 2^149 of them.

use crate::float;
use crate::float::arith;
use crate::float::float16;
use crate::float::order;
use crate::float::rounding;
use vstd::arithmetic::power2::*;
use vstd::prelude::*;

verus! {

/// Whether bits stand for exactly `n` times 2^p units.
pub open spec fn is_exactly(bits: u32, n: int, p: nat) -> bool {
    float::is_finite(bits) && float::value(bits) == n * pow2(p)
}

/// Whether bits are what an exact value rounds to: the nearest number, with the
/// sign of the value; a zero where the value is zero.
pub open spec fn is_nearest(bits: u32, exact: int) -> bool {
    if exact == 0 {
        float::is_zero(bits)
    } else {
        bits == float::with_sign(exact < 0, rounding::round_to_magnitude(arith::abs(exact), 1))
    }
}

/// The value of a finite half-precision number, in units of 2^-24.
pub open spec fn half_value(bits: u16) -> int {
    let u = float16::half_units((bits % 0x8000) as nat) as int;
    if bits >= 0x8000 {
        -u
    } else {
        u
    }
}

/// Digits of a finite half-precision number, and the power of two that they are
/// multiplied by.
spec fn half_digits(bits: u16) -> int {
    let mag = (bits % 0x8000) as int;
    let m = if mag < 0x400 {
        mag
    } else {
        mag % 0x400 + 0x400
    };
    if bits >= 0x8000 {
        -m
    } else {
        m
    }
}

spec fn half_places(bits: u16) -> nat {
    let mag = (bits % 0x8000) as nat;
    if mag < 0x400 {
        0
    } else {
        (mag / 0x400 - 1) as nat
    }
}

/// A finite half-precision number has few digits.
proof fn lemma_half_digits(bits: u16)
    requires
        bits % 0x8000 < 0x7C00,
    ensures
        -0x800 < half_digits(bits) < 0x800,
        half_places(bits) <= 30,
        half_value(bits) == half_digits(bits) * pow2(half_places(bits)),
        is_exactly(float16::of_half(bits), half_digits(bits), half_places(bits) + 125),
        is_exactly(float16::of_half(bits), half_value(bits), 125),
{
    lemma2_to64();
    float16::law_half_is_lossless(bits);
    let k = half_places(bits);
    lemma_pow2_adds(k, 125);
    let m = half_digits(bits);
    let mag = (bits % 0x8000) as nat;
    let u = float16::half_units(mag) as int;
    let a = if m < 0 {
        -m
    } else {
        m
    };
    assert(u == a * pow2(k)) by {
        if mag < 0x400 {
            assert(pow2(0) == 1);
            assert(a * 1 == a);
        }
    }
    assert((-a) * pow2(k) == -(a * pow2(k))) by (nonlinear_arith);
    assert((a * pow2(k)) * pow2(125) == a * pow2(k + 125)) by (nonlinear_arith)
        requires
            pow2(k + 125) == pow2(k) * pow2(125),
    ;
    assert((-a) * pow2(k + 125) == -(a * pow2(k + 125))) by (nonlinear_arith);
    assert((-u) * pow2(125) == -(u * pow2(125))) by (nonlinear_arith);
    arith::lemma_units_zero(float::magnitude(float16::of_half(bits)));
}

/// A product of few digits is not rounded.
pub proof fn lemma_product_exact(a: u32, n: int, p: nat, b: u32, m: int, r: nat)
    requires
        is_exactly(a, n, p),
        is_exactly(b, m, r),
        -0x100_0000 < n * m < 0x100_0000,
        149 + 23 <= p + r <= 149 + 200,
    ensures
        is_exactly(arith::product(a, b), n * m, (p + r - 149) as nat),
{
    let q = (p + r - 149) as nat;
    lemma_pow2_pos(149);
    lemma_pow2_pos(p);
    lemma_pow2_pos(r);
    lemma_pow2_pos(q);
    lemma_pow2_adds(p, r);
    lemma_pow2_adds(q, 149);
    let x = float::units(float::magnitude(a)) as int;
    let y = float::units(float::magnitude(b)) as int;
    let i = arith::abs(n) as int;
    let j = arith::abs(m) as int;
    let k = arith::abs(n * m);
    lemma_abs_times(n, pow2(p));
    lemma_abs_times(m, pow2(r));
    lemma_abs_product(n, m);
    assert(x == i * pow2(p) && y == j * pow2(r));
    assert(x * y == k * pow2(q) * pow2(149)) by (nonlinear_arith)
        requires
            x == i * pow2(p),
            y == j * pow2(r),
            k == i * j,
            pow2(p) * pow2(r) == pow2(q) * pow2(149),
    ;
    order::lemma_exact(k, q, pow2(149));
    lemma_abs_times(n * m, pow2(q));
    lemma_sign_times(n, pow2(p));
    lemma_sign_times(m, pow2(r));
    lemma_sign_times(n * m, pow2(q));
    lemma_sign_product(n, m);
    if n * m == 0 {
        assert(k * pow2(q) == 0) by (nonlinear_arith)
            requires
                k == 0,
        ;
    }
    assert(k * pow2(q) >= 0) by (nonlinear_arith)
        requires
            k >= 0,
            pow2(q) >= 0,
    ;
}

proof fn lemma_abs_times(n: int, k: nat)
    ensures
        arith::abs(n * k) == arith::abs(n) * k,
{
    assert((-n) * k == -(n * k)) by (nonlinear_arith);
    assert(n >= 0 ==> n * k >= 0) by (nonlinear_arith)
        requires
            k >= 0,
    ;
    assert(n <= 0 ==> n * k <= 0) by (nonlinear_arith)
        requires
            k >= 0,
    ;
}

proof fn lemma_abs_product(n: int, m: int)
    ensures
        arith::abs(n * m) == arith::abs(n) * arith::abs(m),
{
    if m >= 0 {
        lemma_abs_times(n, m as nat);
    } else {
        lemma_abs_times(n, (-m) as nat);
        assert(n * (-m) == -(n * m)) by (nonlinear_arith);
    }
}

proof fn lemma_sign_times(n: int, k: nat)
    requires
        k > 0,
    ensures
        n * k > 0 <==> n > 0,
        n * k < 0 <==> n < 0,
{
    assert(n > 0 ==> n * k > 0) by (nonlinear_arith)
        requires
            k > 0,
    ;
    assert(n < 0 ==> n * k < 0) by (nonlinear_arith)
        requires
            k > 0,
    ;
}

proof fn lemma_sign_product(n: int, m: int)
    ensures
        n * m < 0 <==> (n < 0 && m > 0) || (n > 0 && m < 0),
        n * m > 0 <==> (n < 0 && m < 0) || (n > 0 && m > 0),
{
    if m > 0 {
        lemma_sign_times(n, m as nat);
    } else if m < 0 {
        lemma_sign_times(n, (-m) as nat);
        assert(n * (-m) == -(n * m)) by (nonlinear_arith);
    }
}

/// The bits of an integer of at most 24 digits stand for it.
pub proof fn law_small_integers_are_exact(n: int)
    requires
        -0x100_0000 < n < 0x100_0000,
    ensures
        is_exactly(arith::of_integer(n), n, 149),
        float::is_negative(arith::of_integer(n)) == (n < 0),
{
    let k = arith::abs(n);
    order::lemma_exact(k, 149, 1);
    assert(k * pow2(149) * 1 == k * pow2(149));
    lemma_pow2_pos(149);
    lemma_abs_times(n, pow2(149));
    lemma_sign_times(n, pow2(149));
}

/// A half-precision number times integers of together at most twelve digits is
/// not rounded.
pub proof fn law_half_times_integer(h: u16, n: int)
    requires
        h % 0x8000 < 0x7C00,
        -0x1000 <= n <= 0x1000,
    ensures
        is_exactly(arith::product(float16::of_half(h), arith::of_integer(n)), half_value(h) * n, 125),
        is_exactly(arith::product(arith::of_integer(n), float16::of_half(h)), n * half_value(h), 125),
{
    lemma_half_digits(h);
    law_small_integers_are_exact(n);
    let m = half_digits(h);
    let k = half_places(h);
    lemma_digits_bound(m, n, 0x800, 0x1000);
    lemma_product_exact(float16::of_half(h), m, k + 125, arith::of_integer(n), n, 149);
    lemma_scaled_up(m, n, k, 125);
    order::law_order_of_two(float16::of_half(h), arith::of_integer(n));
    assert(half_value(h) * n == n * half_value(h)) by (nonlinear_arith);
}

/// A half-precision number times two integers of together at most twelve digits
/// is not rounded.
pub proof fn law_half_times_integers(h: u16, n: int, m: int)
    requires
        h % 0x8000 < 0x7C00,
        -0x1000 <= n <= 0x1000,
        -0x1000 <= n * m <= 0x1000,
        -0x1000 <= m <= 0x1000,
    ensures
        is_exactly(
            arith::product(
                arith::product(float16::of_half(h), arith::of_integer(n)),
                arith::of_integer(m),
            ),
            half_value(h) * n * m,
            125,
        ),
{
    lemma_half_digits(h);
    law_small_integers_are_exact(n);
    law_small_integers_are_exact(m);
    let d = half_digits(h);
    let k = half_places(h);
    lemma_digits_bound(d, n, 0x800, 0x1000);
    lemma_product_exact(float16::of_half(h), d, k + 125, arith::of_integer(n), n, 149);
    assert((d * n) * m == d * (n * m)) by (nonlinear_arith);
    lemma_digits_bound(d, n * m, 0x800, 0x1000);
    lemma_product_exact(
        arith::product(float16::of_half(h), arith::of_integer(n)),
        d * n,
        k + 125,
        arith::of_integer(m),
        m,
        149,
    );
    lemma_scaled_up(d, n * m, k, 125);
    assert(half_value(h) * n * m == half_value(h) * (n * m)) by (nonlinear_arith);
}

proof fn lemma_digits_bound(d: int, n: int, a: int, b: int)
    requires
        -a < d < a,
        -b <= n <= b,
        a > 0,
        b > 0,
    ensures
        -(a * b) < d * n < a * b,
{
    assert(-(a * b) < d * n < a * b) by (nonlinear_arith)
        requires
            -a < d < a,
            -b <= n <= b,
            a > 0,
            b > 0,
    ;
}

proof fn lemma_scaled_up(d: int, n: int, k: nat, p: nat)
    ensures
        (d * n) * pow2(k + p) == ((d * pow2(k)) * n) * pow2(p),
{
    lemma_pow2_adds(k, p);
    assert((d * n) * (pow2(k) * pow2(p)) == ((d * pow2(k)) * n) * pow2(p)) by (nonlinear_arith);
}

/// A finite half-precision number stands for its value.
pub proof fn law_half_is_exact(h: u16)
    requires
        h % 0x8000 < 0x7C00,
    ensures
        is_exactly(float16::of_half(h), half_value(h), 125),
{
    lemma_half_digits(h);
}

/// A difference of exact numbers is rounded once.
pub proof fn law_difference_rounds_once(a: u32, n: int, b: u32, m: int, p: nat)
    requires
        is_exactly(a, n, p),
        is_exactly(b, m, p),
    ensures
        is_nearest(arith::difference(a, b), (n - m) * pow2(p)),
{
    assert((n - m) * pow2(p) == n * pow2(p) - m * pow2(p)) by (nonlinear_arith);
}

/// A sum of exact numbers is rounded once.
pub proof fn law_sum_rounds_once(a: u32, n: int, b: u32, m: int, p: nat)
    requires
        is_exactly(a, n, p),
        is_exactly(b, m, p),
    ensures
        is_nearest(arith::sum(a, b), (n + m) * pow2(p)),
{
    assert((n + m) * pow2(p) == n * pow2(p) + m * pow2(p)) by (nonlinear_arith);
}

/// One half, a quarter, one and minus one, in units.
proof fn lemma_simple_fractions()
    ensures
        is_exactly(0x3F00_0000, 1, 148),
        is_exactly(0x3E80_0000, 1, 147),
        is_exactly(0x3F80_0000, 1, 149),
        is_exactly(0xBF80_0000, -1, 149),
{
    lemma2_to64();
    lemma_pow2_adds(23, 125);
    lemma_pow2_adds(23, 124);
    lemma_pow2_adds(23, 126);
    assert(float::exponent(0x3F00_0000) == 125 && float::significand(0x3F00_0000) == 0x80_0000);
    assert(float::exponent(0x3E80_0000) == 124 && float::significand(0x3E80_0000) == 0x80_0000);
    assert(float::exponent(0x3F80_0000) == 126 && float::significand(0x3F80_0000) == 0x80_0000);
}

/// A sum of few digits is not rounded.
proof fn lemma_sum_exact(a: u32, n: int, b: u32, m: int, p: nat)
    requires
        is_exactly(a, n, p),
        is_exactly(b, m, p),
        -0x100_0000 < n + m < 0x100_0000,
        23 <= p <= 200,
    ensures
        is_exactly(arith::sum(a, b), n + m, p),
{
    assert((n + m) * pow2(p) == n * pow2(p) + m * pow2(p)) by (nonlinear_arith);
    let k = arith::abs(n + m);
    order::lemma_exact(k, p, 1);
    assert(k * pow2(p) * 1 == k * pow2(p));
    lemma_pow2_pos(p);
    lemma_abs_times(n + m, pow2(p));
    lemma_sign_times(n + m, pow2(p));
    arith::lemma_units_zero(0);
}

/// A half-precision number times one half more than a small integer, times a
/// quarter, times a signed byte, with a sign, is not rounded.
pub proof fn law_half_eighths(d: u16, extra: int, v: int, minus: bool)
    requires
        d % 0x8000 < 0x7C00,
        0 <= extra < 16,
        -128 <= v < 128,
    ensures
        ({
            let scale = arith::product(
                arith::product(
                    float16::of_half(d),
                    arith::sum(0x3F00_0000, arith::of_integer(extra)),
                ),
                0x3E80_0000,
            );
            let sign = if minus {
                0xBF80_0000u32
            } else {
                0x3F80_0000u32
            };
            let value = half_value(d) * (2 * extra + 1) * v;
            is_exactly(
                arith::product(arith::product(scale, arith::of_integer(v)), sign),
                if minus {
                    -value
                } else {
                    value
                },
                122,
            )
        }),
{
    lemma_half_digits(d);
    let h = half_digits(d);
    let k = half_places(d);
    let n = 2 * extra + 1;
    let scale = arith::product(
        arith::product(float16::of_half(d), arith::sum(0x3F00_0000, arith::of_integer(extra))),
        0x3E80_0000,
    );
    lemma_eighths_scale(d, extra);
    lemma_digits_bound(h, n, 0x800, 32);
    lemma_signed_product(scale, h * n, k + 122, v, minus);
    let t = (h * n) * v;
    assert(t == h * (n * v)) by (nonlinear_arith)
        requires
            t == (h * n) * v,
    ;
    lemma_scaled_up(h, n * v, k, 122);
    let value = half_value(d) * n * v;
    assert(value == half_value(d) * (n * v)) by (nonlinear_arith)
        requires
            value == half_value(d) * n * v,
    ;
    assert((-t) * pow2(k + 122) == -(t * pow2(k + 122))) by (nonlinear_arith);
    assert((-value) * pow2(122) == -(value * pow2(122))) by (nonlinear_arith);
}

proof fn lemma_eighths_scale(d: u16, extra: int)
    requires
        d % 0x8000 < 0x7C00,
        0 <= extra < 16,
    ensures
        is_exactly(
            arith::product(
                arith::product(
                    float16::of_half(d),
                    arith::sum(0x3F00_0000, arith::of_integer(extra)),
                ),
                0x3E80_0000,
            ),
            half_digits(d) * (2 * extra + 1),
            half_places(d) + 122,
        ),
{
    lemma_simple_fractions();
    lemma_half_digits(d);
    law_small_integers_are_exact(extra);
    let h = half_digits(d);
    let k = half_places(d);
    let n = 2 * extra + 1;
    let whole = arith::of_integer(extra);
    assert(is_exactly(whole, 2 * extra, 148)) by {
        lemma_pow2_unfold(149);
        assert(extra * (2 * pow2(148)) == (2 * extra) * pow2(148)) by (nonlinear_arith);
    }
    lemma_sum_exact(0x3F00_0000, 1, whole, 2 * extra, 148);
    lemma_digits_bound(h, n, 0x800, 32);
    lemma_two_products(float16::of_half(d), h, k + 125, arith::sum(0x3F00_0000, whole), n);
}

proof fn lemma_two_products(a: u32, h: int, p: nat, b: u32, n: int)
    requires
        is_exactly(a, h, p),
        is_exactly(b, n, 148),
        -0x1_0000 < h * n < 0x1_0000,
        125 <= p <= 160,
    ensures
        is_exactly(arith::product(arith::product(a, b), 0x3E80_0000), h * n, (p - 3) as nat),
{
    lemma_simple_fractions();
    lemma_product_exact(a, h, p, b, n, 148);
    assert((h * n) * 1 == h * n);
    lemma_product_exact(arith::product(a, b), h * n, (p - 1) as nat, 0x3E80_0000, 1, 147);
}

proof fn lemma_signed_product(a: u32, m: int, p: nat, v: int, minus: bool)
    requires
        is_exactly(a, m, p),
        -0x1_0000 < m < 0x1_0000,
        122 <= p <= 160,
        -128 <= v < 128,
    ensures
        is_exactly(
            arith::product(
                arith::product(a, arith::of_integer(v)),
                if minus {
                    0xBF80_0000
                } else {
                    0x3F80_0000
                },
            ),
            if minus {
                -(m * v)
            } else {
                m * v
            },
            p,
        ),
{
    lemma_simple_fractions();
    law_small_integers_are_exact(v);
    lemma_digits_bound(m, v, 0x1_0000, 128);
    lemma_product_exact(a, m, p, arith::of_integer(v), v, 149);
    let last = arith::product(a, arith::of_integer(v));
    let t = m * v;
    assert(t * 1 == t && t * (-1) == -t);
    if minus {
        lemma_product_exact(last, t, p, 0xBF80_0000, -1, 149);
    } else {
        lemma_product_exact(last, t, p, 0x3F80_0000, 1, 149);
    }
}

} // verus!
