//! Rounding an exact magnitude to single precision.

use vstd::arithmetic::power2::*;
use vstd::prelude::*;

verus! {

/// The integer nearest to `num / den`, the even one of two that are as near.
pub open spec fn nearest_even(num: nat, den: nat) -> nat {
    let floor = num / den;
    let rest = num % den;
    if 2 * rest > den || (2 * rest == den && floor % 2 == 1) {
        floor + 1
    } else {
        floor
    }
}

/// The least `e` for which `num / (den * 2^e)` is below 2^24, the first
/// integer that does not fit a significand.
pub open spec fn dropped_places(num: nat, den: nat) -> nat
    decreases num - den,
{
    if den == 0 || num < 0x100_0000 * den {
        0
    } else {
        1 + dropped_places(num, 2 * den)
    }
}

/// The magnitude bits nearest to `num / den` units of 2^-149, with ties to
/// even and infinity for what is too large.
///
/// A magnitude with `e` dropped places and significand `m` has the bits
/// `e * 2^23 + m`, also where `m` is below the implicit bit (then `e` is 0) and
/// where rounding carried `m` up to 2^24.
pub open spec fn round_to_magnitude(num: nat, den: nat) -> nat {
    let places = dropped_places(num, den);
    let bits = places * 0x80_0000 + nearest_even(num, den * pow2(places));
    if bits > 0x7F80_0000 {
        0x7F80_0000
    } else {
        bits
    }
}

/// `dropped_places` is determined by the bounds that it is the least for.
pub proof fn lemma_dropped_places(num: nat, den: nat, places: nat)
    requires
        den > 0,
        num < 0x100_0000 * (den * pow2(places)),
        places > 0 ==> num >= 0x100_0000 * (den * pow2((places - 1) as nat)),
    ensures
        dropped_places(num, den) == places,
    decreases places,
{
    lemma2_to64();
    if places == 0 {
        assert(den * pow2(0) == den) by (nonlinear_arith)
            requires
                pow2(0) == 1,
        ;
    } else {
        let prior = (places - 1) as nat;
        lemma_pow2_unfold(places);
        lemma_pow2_pos(prior);
        assert(den * pow2(places) == (2 * den) * pow2(prior)) by (nonlinear_arith)
            requires
                pow2(places) == 2 * pow2(prior),
        ;
        assert(den * pow2(prior) >= den) by (nonlinear_arith)
            requires
                pow2(prior) >= 1,
                den > 0,
        ;
        if prior > 0 {
            let earlier = (prior - 1) as nat;
            lemma_pow2_unfold(prior);
            assert(den * pow2(prior) == (2 * den) * pow2(earlier)) by (nonlinear_arith)
                requires
                    pow2(prior) == 2 * pow2(earlier),
            ;
        }
        lemma_dropped_places(num, 2 * den, prior);
    }
}

/// What the larger powers of two are.
proof fn lemma_pow2_126()
    ensures
        pow2(126) == 0x4000_0000_0000_0000_0000_0000_0000_0000,
{
    lemma2_to64();
    lemma2_to64_rest();
    lemma_pow2_adds(63, 63);
    assert(0x8000_0000_0000_0000 * 0x8000_0000_0000_0000
        == 0x4000_0000_0000_0000_0000_0000_0000_0000);
}

/// A larger exponent gives a power at least as large.
pub proof fn lemma_pow2_monotone(a: nat, b: nat)
    requires
        a <= b,
    ensures
        pow2(a) <= pow2(b),
{
    if a < b {
        lemma_pow2_strictly_increases(a, b);
    }
}

/// Number of binary digits of `m`.
fn bit_length(m: u128) -> (len: u32)
    requires
        m < 0x4000_0000_0000_0000_0000_0000_0000_0000,
    ensures
        len <= 126,
        m < pow2(len as nat),
        m > 0 ==> len > 0 && m >= pow2((len - 1) as nat),
        m == 0 ==> len == 0,
{
    proof {
        lemma2_to64();
    }
    let mut power: u128 = 1;
    let mut len: u32 = 0;
    while power <= m
        invariant
            m < 0x4000_0000_0000_0000_0000_0000_0000_0000,
            len <= 126,
            power == pow2(len as nat),
            power > 0,
            len > 0 ==> m >= pow2((len - 1) as nat),
        decreases (if power <= m { m + 1 - power } else { 0 }),
    {
        proof {
            lemma_pow2_126();
            lemma_pow2_unfold((len + 1) as nat);
            if len >= 126 {
                lemma_pow2_monotone(126, len as nat);
            }
        }
        power = power * 2;
        len = len + 1;
    }
    proof {
        if len > 0 {
            lemma_pow2_pos((len - 1) as nat);
        }
    }
    len
}

/// Two to the power of `e`.
pub(crate) fn power_of_two(e: u32) -> (p: u128)
    requires
        e <= 126,
    ensures
        p == pow2(e as nat),
        p > 0,
{
    proof {
        lemma2_to64();
    }
    let mut p: u128 = 1;
    let mut i: u32 = 0;
    while i < e
        invariant
            i <= e <= 126,
            p == pow2(i as nat),
            p > 0,
        decreases e - i,
    {
        proof {
            lemma_pow2_126();
            lemma_pow2_unfold((i + 1) as nat);
            lemma_pow2_monotone((i + 1) as nat, 126);
        }
        p = p * 2;
        i = i + 1;
    }
    p
}

/// `q` and `r` are quotient and rest when they add up.
proof fn lemma_quotient(x: nat, d: nat, q: nat, r: nat)
    requires
        x == q * d + r,
        r < d,
    ensures
        x / d == q,
        x % d == r,
{
    vstd::arithmetic::div_mod::lemma_fundamental_div_mod_converse(x as int, d as int, q as int, r as int);
}

/// A common positive factor does not matter to an order.
proof fn lemma_cancel(a: int, b: int, c: int)
    requires
        c > 0,
    ensures
        a * c < b * c <==> a < b,
        a * c <= b * c <==> a <= b,
        a * c == b * c <==> a == b,
{
    assert(a < b ==> a * c < b * c) by (nonlinear_arith)
        requires
            c > 0,
    ;
    assert(b < a ==> b * c < a * c) by (nonlinear_arith)
        requires
            c > 0,
    ;
}

/// The length of `m` says how many places are dropped.
proof fn lemma_places(m: nat, p: nat, k: nat, len: nat, places: nat, num: nat, den: nat)
    requires
        den > 0,
        m > 0,
        len > 0,
        pow2((len - 1) as nat) <= m < pow2(len),
        m * (pow2(p) * den) <= num * pow2(k) < (m + 1) * (pow2(p) * den),
        len + p <= 24 + places + k,
        places > 0 ==> len + p == 24 + places + k,
    ensures
        dropped_places(num, den) == places,
        num < 0x100_0000 * (den * pow2(places)),
        places > 0 ==> num >= 0x80_0000 * (den * pow2(places)),
{
    lemma2_to64();
    lemma_pow2_pos(p);
    lemma_pow2_pos(k);
    let unit = pow2(p) * den;
    assert((m + 1) * unit <= pow2(len) * unit) by (nonlinear_arith)
        requires
            m + 1 <= pow2(len),
    ;
    // pow2(len) * pow2(p) <= 2^24 * pow2(places) * pow2(k)
    lemma_pow2_adds(len, p);
    lemma_pow2_adds(24, places);
    lemma_pow2_adds(24 + places, k);
    lemma_pow2_monotone(len + p, 24 + places + k);
    assert(pow2(len) * unit <= (0x100_0000 * (den * pow2(places))) * pow2(k)) by (nonlinear_arith)
        requires
            unit == pow2(p) * den,
            pow2(len) * pow2(p) <= (0x100_0000 * pow2(places)) * pow2(k),
    ;
    lemma_cancel(num as int, (0x100_0000 * (den * pow2(places))) as int, pow2(k) as int);
    if places > 0 {
        let prior = (places - 1) as nat;
        let lead = (len - 1) as nat;
        lemma_pow2_adds(lead, p);
        lemma_pow2_adds(24, prior);
        lemma_pow2_adds(24 + prior, k);
        assert(m * unit >= pow2(lead) * unit) by (nonlinear_arith)
            requires
                m >= pow2(lead),
        ;
        assert(pow2(lead) * unit == (0x100_0000 * (den * pow2(prior))) * pow2(k)) by (nonlinear_arith)
            requires
                unit == pow2(p) * den,
                pow2(lead) * pow2(p) == (0x100_0000 * pow2(prior)) * pow2(k),
        ;
        lemma_cancel((0x100_0000 * (den * pow2(prior))) as int, num as int, pow2(k) as int);
        lemma_pow2_unfold(places);
        assert(0x100_0000 * (den * pow2(prior)) == 0x80_0000 * (den * pow2(places)))
            by (nonlinear_arith)
            requires
                pow2(places) == 2 * pow2(prior),
        ;
    }
    lemma_dropped_places(num, den, places);
}

/// Cutting the low digits of `m` off rounds `num / den`.
proof fn lemma_cut(m: nat, p: nat, k: nat, places: nat, inexact: bool, num: nat, den: nat)
    requires
        den > 0,
        places + k > p,
        m * (pow2(p) * den) <= num * pow2(k),
        inexact ==> m * (pow2(p) * den) < num * pow2(k) < (m + 1) * (pow2(p) * den),
        !inexact ==> m * (pow2(p) * den) == num * pow2(k),
    ensures
        ({
            let step = pow2((places + k - p) as nat);
            let floor = m / step;
            let low = m % step;
            let half = step / 2;
            nearest_even(num, den * pow2(places)) == if low > half || (low == half && (inexact
                || floor % 2 == 1)) {
                floor + 1
            } else {
                floor
            }
        }),
{
    let cut = (places + k - p) as nat;
    let step = pow2(cut);
    let floor = m / step;
    let low = m % step;
    let unit = pow2(p) * den;
    let whole = den * pow2(places);
    lemma_pow2_pos(p);
    lemma_pow2_pos(k);
    lemma_pow2_pos(cut);
    lemma_pow2_pos(places);
    lemma_pow2_unfold(cut);
    vstd::arithmetic::div_mod::lemma_fundamental_div_mod(m as int, step as int);
    lemma_pow2_adds(cut, p);
    lemma_pow2_adds(places, k);
    assert(unit > 0) by (nonlinear_arith)
        requires
            unit == pow2(p) * den,
            pow2(p) > 0,
            den > 0,
    ;
    assert(step * unit == whole * pow2(k)) by (nonlinear_arith)
        requires
            unit == pow2(p) * den,
            whole == den * pow2(places),
            step * pow2(p) == pow2(places) * pow2(k),
    ;
    let scaled = num * pow2(k);
    let extra = (scaled - m * unit) as nat;
    assert((m + 1) * unit == m * unit + unit) by (nonlinear_arith);
    assert(extra < unit);
    assert(m * unit == floor * (step * unit) + low * unit) by (nonlinear_arith)
        requires
            m == step * floor + low,
    ;
    assert((low + 1) * unit <= step * unit) by (nonlinear_arith)
        requires
            low + 1 <= step,
    ;
    assert((low + 1) * unit == low * unit + unit) by (nonlinear_arith);
    assert(floor * (step * unit) == (floor * whole) * pow2(k)) by (nonlinear_arith)
        requires
            step * unit == whole * pow2(k),
    ;
    let rest = num - floor * whole;
    assert(rest * pow2(k) == low * unit + extra) by (nonlinear_arith)
        requires
            rest == num - floor * whole,
            num * pow2(k) == (floor * whole) * pow2(k) + low * unit + extra,
    ;
    lemma_cancel(0, rest, pow2(k) as int);
    assert(low * unit >= 0) by (nonlinear_arith);
    lemma_cancel(rest, whole as int, pow2(k) as int);
    lemma_quotient(num, whole, floor, rest as nat);
    let half = step / 2;
    assert(step == 2 * half);
    // Twice the rest against the whole is twice the low digits against a step.
    assert((2 * rest) * pow2(k) == 2 * (low * unit) + 2 * extra) by (nonlinear_arith)
        requires
            rest * pow2(k) == low * unit + extra,
    ;
    lemma_cancel(2 * rest, whole as int, pow2(k) as int);
    assert(step * unit == 2 * (half * unit)) by (nonlinear_arith)
        requires
            step == 2 * half,
    ;
    if low < half {
        assert((low + 1) * unit <= half * unit) by (nonlinear_arith)
            requires
                low + 1 <= half,
        ;
        assert(2 * rest < whole);
    } else if low > half {
        assert(low * unit >= (half + 1) * unit) by (nonlinear_arith)
            requires
                low >= half + 1,
        ;
        assert((half + 1) * unit == half * unit + unit) by (nonlinear_arith);
        assert(2 * rest > whole);
    }
}

/// Digits that all fit are kept.
proof fn lemma_shift(m: nat, p: nat, k: nat, places: nat, num: nat, den: nat)
    requires
        den > 0,
        places + k <= p,
        m * (pow2(p) * den) == num * pow2(k),
    ensures
        nearest_even(num, den * pow2(places)) == m * pow2((p - places - k) as nat),
{
    let shift = (p - places - k) as nat;
    let whole = den * pow2(places);
    lemma_pow2_pos(k);
    lemma_pow2_pos(places);
    lemma_pow2_adds(shift, places);
    lemma_pow2_adds(shift + places, k);
    assert(whole > 0) by (nonlinear_arith)
        requires
            whole == den * pow2(places),
            pow2(places) > 0,
            den > 0,
    ;
    assert(((m * pow2(shift)) * whole) * pow2(k) == m * (pow2(p) * den)) by (nonlinear_arith)
        requires
            whole == den * pow2(places),
            pow2(p) == (pow2(shift) * pow2(places)) * pow2(k),
    ;
    lemma_cancel(((m * pow2(shift)) * whole) as int, num as int, pow2(k) as int);
    lemma_quotient(num, whole, m * pow2(shift), 0);
}

/// Digits that are not cut off fit a significand.
proof fn lemma_shift_fits(m: nat, len: nat, shift: nat)
    requires
        m < pow2(len),
        len + shift <= 24,
    ensures
        m * pow2(shift) < 0x100_0000,
{
    lemma2_to64();
    lemma_pow2_pos(shift);
    lemma_pow2_adds(len, shift);
    lemma_pow2_monotone(len + shift, 24);
    assert(m * pow2(shift) < pow2(len) * pow2(shift)) by (nonlinear_arith)
        requires
            m < pow2(len),
            pow2(shift) > 0,
    ;
}

/// What a rounded significand can be.
pub proof fn lemma_significand_fits(num: nat, den: nat, least: nat, limit: nat)
    requires
        den > 0,
        least * den <= num < limit * den,
    ensures
        least <= nearest_even(num, den) <= limit,
{
    vstd::arithmetic::div_mod::lemma_fundamental_div_mod(num as int, den as int);
    let floor = num / den;
    let rest = num % den;
    if floor < least {
        assert((floor + 1) * den <= least * den) by (nonlinear_arith)
            requires
                floor + 1 <= least,
        ;
        assert((floor + 1) * den == den * floor + den) by (nonlinear_arith);
    }
    if floor >= limit {
        assert(den * floor >= limit * den) by (nonlinear_arith)
            requires
                floor >= limit,
        ;
    }
}

/// Rounds the exact magnitude `num / den` units of 2^-149, given as
/// `m * 2^p / 2^k` and, where `inexact`, a rest that is positive and below one
/// step of `m`.
pub(crate) fn round_parts(
    m: u128,
    p: u32,
    k: u32,
    inexact: bool,
    Ghost(num): Ghost<nat>,
    Ghost(den): Ghost<nat>,
) -> (mag: u32)
    requires
        m < 0x4000_0000_0000_0000_0000_0000_0000_0000,
        inexact ==> m >= 0x200_0000,
        p <= 0x1000,
        k <= 0x1000,
        den > 0,
        m * (pow2(p as nat) * den) <= num * pow2(k as nat),
        inexact ==> m * (pow2(p as nat) * den) < num * pow2(k as nat) < (m + 1) * (pow2(p as nat) * den),
        !inexact ==> m * (pow2(p as nat) * den) == num * pow2(k as nat),
    ensures
        mag == round_to_magnitude(num, den),
        mag <= 0x7F80_0000,
{
    if m == 0 {
        proof {
            lemma_pow2_pos(k as nat);
            lemma_cancel(0, num as int, pow2(k as nat) as int);
            lemma2_to64();
            lemma_quotient(0, den * pow2(0), 0, 0);
        }
        return 0;
    }
    let len: u32 = bit_length(m);
    // One past the exponent of the leading digit, shifted to be nonnegative.
    let top: u32 = len + p;
    let places: u32 = if top > k + 24 { top - k - 24 } else { 0 };
    let ghost whole = den * pow2(places as nat);
    proof {
        lemma2_to64();
        assert((m + 1) * (pow2(p as nat) * den) == m * (pow2(p as nat) * den) + pow2(p as nat) * den)
            by (nonlinear_arith);
        lemma_pow2_pos(p as nat);
        lemma_pow2_pos(places as nat);
        assert(pow2(p as nat) * den > 0) by (nonlinear_arith)
            requires
                pow2(p as nat) > 0,
                den > 0,
        ;
        assert(whole > 0) by (nonlinear_arith)
            requires
                whole == den * pow2(places as nat),
                pow2(places as nat) > 0,
                den > 0,
        ;
        lemma_places(m as nat, p as nat, k as nat, len as nat, places as nat, num, den);
        lemma_significand_fits(num, whole, 0, 0x100_0000);
        if places > 0 {
            lemma_significand_fits(num, whole, 0x80_0000, 0x100_0000);
        }
        if inexact && len < 26 {
            lemma_pow2_monotone(len as nat, 25);
        }
    }
    let significand: u128;
    if places + k > p {
        let cut: u32 = places + k - p;
        proof {
            lemma_cut(m as nat, p as nat, k as nat, places as nat, inexact, num, den);
        }
        if cut >= 127 {
            significand = 0;
            proof {
                lemma_pow2_126();
                lemma_pow2_unfold(cut as nat);
                lemma_pow2_monotone(126, (cut - 1) as nat);
                lemma_quotient(m as nat, pow2(cut as nat), 0, m as nat);
            }
        } else {
            let step: u128 = power_of_two(cut);
            let floor: u128 = m / step;
            let low: u128 = m % step;
            let half: u128 = step / 2;
            if low > half || (low == half && (inexact || floor % 2 == 1)) {
                significand = floor + 1;
            } else {
                significand = floor;
            }
        }
    } else {
        let shift: u32 = p - places - k;
        proof {
            lemma_shift(m as nat, p as nat, k as nat, places as nat, num, den);
            lemma_shift_fits(m as nat, len as nat, shift as nat);
        }
        significand = m * power_of_two(shift);
    }
    assert(significand == nearest_even(num, whole));
    if places >= 254 {
        return 0x7F80_0000;
    }
    let bits: u32 = places * 0x80_0000 + significand as u32;
    if bits > 0x7F80_0000 {
        0x7F80_0000
    } else {
        bits
    }
}

} // verus!
