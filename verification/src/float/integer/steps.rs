//! Between which integers a number lies.

use crate::float;
use crate::float::arith;
use crate::float::bounds;
use crate::float::integer;
use crate::float::order;
use vstd::arithmetic::power2::*;
use vstd::prelude::*;

verus! {

/// A magnitude that is no integer is below 2^23.
proof fn lemma_broken_is_small(mag: nat)
    requires
        mag < 0x7F80_0000,
        integer::broken(mag),
    ensures
        integer::whole(mag) < 0x80_0000,
{
    lemma2_to64();
    let e = float::exponent(mag);
    let m = float::significand(mag);
    lemma_pow2_pos(149);
    if e >= 149 {
        lemma_pow2_adds((e - 149) as nat, 149);
        let k = m * pow2((e - 149) as nat);
        assert(m * pow2(e) == k * pow2(149)) by (nonlinear_arith)
            requires
                pow2(e) == pow2((e - 149) as nat) * pow2(149),
                k == m * pow2((e - 149) as nat),
        ;
        vstd::arithmetic::div_mod::lemma_mod_multiples_basic(k as int, pow2(149) as int);
    } else {
        float::rounding::lemma_pow2_monotone(e, 148);
        lemma_pow2_unfold(149);
        assert(m * pow2(e) < 0x80_0000 * pow2(149)) by (nonlinear_arith)
            requires
                m < 0x100_0000,
                pow2(e) <= pow2(148),
                pow2(149) == 2 * pow2(148),
                pow2(148) > 0,
        ;
        let w = integer::whole(mag);
        vstd::arithmetic::div_mod::lemma_fundamental_div_mod(
            float::units(mag) as int,
            pow2(149) as int,
        );
        assert(w < 0x80_0000) by (nonlinear_arith)
            requires
                pow2(149) * w <= float::units(mag),
                float::units(mag) < 0x80_0000 * pow2(149),
                pow2(149) > 0,
        ;
    }
}

/// What the bits of the whole part, and of one more, stand for.
proof fn lemma_whole(mag: nat)
    requires
        mag < 0x7F80_0000,
    ensures
        ({
            let w = integer::whole(mag);
            let a = arith::of_integer(w as int);
            let b = arith::of_integer((w + 1) as int);
            &&& a < 0x7F80_0000
            &&& float::units(a as nat) == w * pow2(149)
            &&& integer::broken(mag) ==> b < 0x7F80_0000 && float::units(b as nat) == (w + 1)
                * pow2(149)
            &&& w * pow2(149) <= float::units(mag)
            &&& float::units(mag) < w * pow2(149) + pow2(149)
            &&& !integer::broken(mag) <==> float::units(mag) == w * pow2(149)
        }),
{
    let w = integer::whole(mag);
    lemma_pow2_pos(149);
    vstd::arithmetic::div_mod::lemma_fundamental_div_mod(
        float::units(mag) as int,
        pow2(149) as int,
    );
    assert(pow2(149) * w == w * pow2(149)) by (nonlinear_arith);
    if integer::broken(mag) {
        lemma_broken_is_small(mag);
        order::lemma_exact(w, 149, 1);
        order::lemma_exact(w + 1, 149, 1);
        assert(w * pow2(149) * 1 == w * pow2(149));
        assert((w + 1) * pow2(149) * 1 == (w + 1) * pow2(149));
    } else {
        order::law_rounding_keeps_numbers(mag, 1);
        assert(float::units(mag) * 1 == float::units(mag));
    }
}

/// The floor of a finite number is an integer, not above it and less than one
/// below it.
pub proof fn law_floor(a: u32) -> (n: int)
    requires
        float::is_finite(a),
    ensures
        float::is_finite(integer::floored(a)),
        float::value(integer::floored(a)) == n * bounds::one(),
        n * bounds::one() <= float::value(a),
        float::value(a) < n * bounds::one() + bounds::one(),
{
    let mag = float::magnitude(a);
    let w = integer::whole(mag) as int;
    let one = bounds::one();
    lemma_whole(mag);
    assert((w + 1) * one == w * one + one) by (nonlinear_arith);
    assert((-w) * one == -(w * one)) by (nonlinear_arith);
    assert((-(w + 1)) * one == -((w + 1) * one)) by (nonlinear_arith);
    lemma_pow2_pos(149);
    if float::is_negative(a) && integer::broken(mag) {
        -(w + 1)
    } else if float::is_negative(a) {
        -w
    } else {
        w
    }
}

/// The ceiling of a finite number is an integer, not below it and less than one
/// above it.
pub proof fn law_ceiling(a: u32) -> (n: int)
    requires
        float::is_finite(a),
    ensures
        float::is_finite(integer::ceiled(a)),
        float::value(integer::ceiled(a)) == n * bounds::one(),
        float::value(a) <= n * bounds::one(),
        n * bounds::one() - bounds::one() < float::value(a),
{
    let mag = float::magnitude(a);
    let w = integer::whole(mag) as int;
    let one = bounds::one();
    lemma_whole(mag);
    assert((w + 1) * one == w * one + one) by (nonlinear_arith);
    assert((-w) * one == -(w * one)) by (nonlinear_arith);
    lemma_pow2_pos(149);
    if !float::is_negative(a) && integer::broken(mag) {
        w + 1
    } else if float::is_negative(a) {
        -w
    } else {
        w
    }
}

} // verus!
