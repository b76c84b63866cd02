//! What the small number formats hold, and where ties go.

use crate::cpu::ops::dsv4_quant;
use crate::cpu::ops::dsv4_quant::{
    Format, FP4_AMAX_FLOOR, FP4_GROUP, FP8_E4M3_MAX, FP8_KV_AMAX_FLOOR, FP8_KV_GROUP,
    HADAMARD128_DIM,
};
use crate::float;
use crate::float::arith;
use crate::float::bounds;
use crate::float::order;
use crate::float::small;
use vstd::arithmetic::power2::*;
use vstd::prelude::*;

verus! {

/// The largest number of the 4-bit format is six and that of the 8-bit format
/// 448, which is what a group is scaled for.
pub proof fn law_limits()
    ensures
        float::value(dsv4_quant::e2m1().bits_of(dsv4_quant::e2m1().max as nat)) == 6
            * bounds::one(),
        dsv4_quant::e2m1().limit == 6,
        float::value(dsv4_quant::e4m3().bits_of(dsv4_quant::e4m3().max as nat)) == 448
            * bounds::one(),
        dsv4_quant::e4m3().limit == 448,
        float::value(FP8_E4M3_MAX) == 448 * bounds::one(),
{
    lemma2_to64();
    small::lemma_code_exact(7, 2, 1);
    small::lemma_code_exact(126, 8, 9);
    assert(small::code_value(7, 2, 1) == 12 * pow2(148)) by {
        assert(small::small_units(7, 2) == 3 * pow2(2));
    }
    assert(small::code_value(126, 8, 9) == 0x3_8000 * pow2(140)) by {
        assert(small::small_units(126, 8) == 14 * pow2(14));
    }
    lemma_pow2_adds(1, 148);
    lemma_pow2_adds(9, 140);
    assert(pow2(149) == 2 * pow2(148));
    assert(pow2(149) == 512 * pow2(140));
    assert(dsv4_quant::e2m1().max as nat == 7 && dsv4_quant::e4m3().max as nat == 126);
    let a = dsv4_quant::e2m1().bits_of(dsv4_quant::e2m1().max as nat);
    let b = dsv4_quant::e4m3().bits_of(dsv4_quant::e4m3().max as nat);
    assert(float::magnitude(a) == a && float::magnitude(b) == b);
    assert(float::value(a) == 12 * pow2(148));
    assert(float::value(b) == 0x3_8000 * pow2(140));
    let one = bounds::one();
    assert(one == 2 * pow2(148));
    assert(one == 512 * pow2(140));
    assert(6 * one == 12 * pow2(148)) by (nonlinear_arith)
        requires
            one == 2 * pow2(148),
    ;
    assert(448 * one == 0x3_8000 * pow2(140)) by (nonlinear_arith)
        requires
            one == 512 * pow2(140),
    ;
    assert(float::units(0x43E0_0000) == 0xE0_0000 * pow2(134)) by {
        assert(float::exponent(0x43E0_0000) == 134 && float::significand(0x43E0_0000) == 0xE0_0000);
    }
    lemma_pow2_adds(15, 134);
}

/// A 4-bit group is scaled for at least six times the smallest normal number, an
/// 8-bit group for at least a ten-thousandth; groups have 32 and 64 numbers.
pub proof fn law_floors()
    ensures
        float::value(FP4_AMAX_FLOOR) == 6 * 0x80_0000,
        dsv4_quant::e2m1().floor == FP4_AMAX_FLOOR,
        0x100_0000 * bounds::size(10000 * float::value(FP8_KV_AMAX_FLOOR) - bounds::one())
            <= bounds::one(),
        dsv4_quant::e4m3().floor == FP8_KV_AMAX_FLOOR,
        FP4_GROUP == 32,
        FP8_KV_GROUP == 64,
        HADAMARD128_DIM == 128,
{
    lemma2_to64();
    lemma2_to64_rest();
    assert(float::units(0x01C0_0000) == 0xC0_0000 * pow2(2)) by {
        assert(float::exponent(0x01C0_0000) == 2 && float::significand(0x01C0_0000) == 0xC0_0000);
    }
    assert(float::units(0x38D1_B717) == 0xD1_B717 * pow2(112)) by {
        assert(float::exponent(0x38D1_B717) == 112 && float::significand(0x38D1_B717) == 0xD1_B717);
    }
    lemma_pow2_adds(112, 37);
    lemma_pow2_pos(112);
}

/// A magnitude that lies in the middle between two neighbouring numbers of a
/// format goes to the one with the even code.
pub proof fn law_ties(f: Format, code: nat, x: nat)
    requires
        f.wf(),
        code < f.max,
        2 * x == small::code_value(code, f.h as nat, f.places as nat) + small::code_value(
            code + 1,
            f.h as nat,
            f.places as nat,
        ),
    ensures
        f.nearest(x) == if code % 2 == 0 {
            code
        } else {
            code + 1
        },
{
    let h = f.h as nat;
    let places = f.places as nat;
    let max = f.max as nat;
    let even = if code % 2 == 0 {
        code
    } else {
        code + 1
    };
    let low = small::code_value(code, h, places);
    let high = small::code_value(code + 1, h, places);
    small::lemma_values_increase(code, code + 1, h, places);
    assert forall|k: nat|
        #![trigger small::distance(x, k, h, places)]
        k <= max implies small::distance(x, even, h, places) <= small::distance(x, k, h, places)
        && (k != even && small::distance(x, even, h, places) == small::distance(x, k, h, places)
        ==> even % 2 == 0) by {
        if k < code {
            small::lemma_values_increase(k, code, h, places);
        } else if k > code + 1 {
            small::lemma_values_increase(code + 1, k, h, places);
        }
    }
    assert(small::is_nearest(x, even, h, places, max));
    lemma_nearest(f, x);
    small::law_nearest_is_unique(x, even, f.nearest(x), h, places, max);
}

/// Every magnitude has a nearest code: where two are as near, they are
/// neighbours, and one of them is even.
proof fn lemma_nearest_exists(x: nat, h: nat, places: nat, max: nat) -> (code: nat)
    requires
        h == 8 || h == 2,
        places <= 10,
    ensures
        small::is_nearest(x, code, h, places, max),
    decreases max,
{
    if max == 0 {
        0
    } else {
        let c = lemma_nearest_exists(x, h, places, (max - 1) as nat);
        let (near, far) = (
            small::distance(x, c, h, places),
            small::distance(x, max, h, places),
        );
        small::lemma_values_increase(c, max, h, places);
        if near == far && c < max - 1 {
            small::lemma_values_increase(c, (max - 1) as nat, h, places);
            small::lemma_values_increase((max - 1) as nat, max, h, places);
            assert(small::distance(x, (max - 1) as nat, h, places) < near);
        }
        if far < near || far == near && c % 2 == 1 {
            max
        } else {
            c
        }
    }
}

/// The nearest code of a magnitude is one.
pub proof fn lemma_nearest(f: Format, x: nat)
    requires
        f.wf(),
    ensures
        small::is_nearest(x, f.nearest(x), f.h as nat, f.places as nat, f.max as nat),
{
    let code = lemma_nearest_exists(x, f.h as nat, f.places as nat, f.max as nat);
}

/// What a magnitude becomes is at least as near to it as every other number of
/// the format, and has its sign.
pub proof fn law_snapped_is_nearest(f: Format, x: u32, other: nat)
    requires
        f.wf(),
        float::is_finite(x),
        other <= f.max,
    ensures
        ({
            let r = f.snapped(x);
            let near = float::value(f.bits_of(other));
            let size = bounds::size(float::value(x));
            &&& bounds::size(bounds::size(float::value(r)) - size) <= bounds::size(near - size)
            &&& float::value(x) >= 0 ==> float::value(r) >= 0
            &&& float::value(x) <= 0 ==> float::value(r) <= 0
        }),
{
    let h = f.h as nat;
    let places = f.places as nat;
    let u = float::units(float::magnitude(x));
    let code = f.nearest(u);
    lemma_nearest(f, u);
    small::lemma_code_exact(code, h, places);
    small::lemma_code_exact(other, h, places);
    assert(small::distance(u, code, h, places) <= small::distance(u, other, h, places));
    assert(small::distance(u, code, h, places) <= small::distance(u, 0, h, places));
    assert(small::code_value(0, h, places) == 0) by (nonlinear_arith)
        requires
            small::code_value(0, h, places) == small::small_units(0, h) * pow2(
                (149 - places) as nat,
            ),
            small::small_units(0, h) == 0,
    ;
    arith::lemma_units_zero(0);
    arith::lemma_units_zero(float::magnitude(x));
    order::law_order_of_values(x, 0);
}

/// The groups of a row do not depend on each other: where two rows agree on a
/// group, so do what becomes of it.
pub proof fn law_groups_apart(f: Format, a: Seq<u32>, b: Seq<u32>, group: nat, i: int)
    requires
        group > 0,
        a.len() == b.len(),
        a.len() % group == 0,
        0 <= i < a.len(),
        forall|k: int|
            0 <= k < a.len() && k / (group as int) == i / (group as int) ==> #[trigger] a[k] == b[k],
    ensures
        dsv4_quant::rounded_row(f, a, group)[i] == dsv4_quant::rounded_row(f, b, group)[i],
{
    let g = group as int;
    let q = i / g;
    let n = a.len() as int;
    vstd::arithmetic::div_mod::lemma_fundamental_div_mod(n, g);
    vstd::arithmetic::div_mod::lemma_fundamental_div_mod(i, g);
    vstd::arithmetic::div_mod::lemma_div_pos_is_pos(i, g);
    assert(q < n / g) by (nonlinear_arith)
        requires
            g * q <= i,
            i < g * (n / g),
            g > 0,
    ;
    assert((q + 1) * g <= n) by (nonlinear_arith)
        requires
            q + 1 <= n / g,
            n == g * (n / g),
            g > 0,
    ;
    assert((q + 1) * g == q * g + g) by (nonlinear_arith);
    assert(0 <= q * g) by (nonlinear_arith)
        requires
            q >= 0,
            g > 0,
    ;
    let x = dsv4_quant::group_of(a, group, q);
    let y = dsv4_quant::group_of(b, group, q);
    assert forall|k: int| 0 <= k < g implies x[k] == y[k] by {
        vstd::arithmetic::div_mod::lemma_fundamental_div_mod_converse(q * g + k, g, q, k);
        assert(a[q * g + k] == b[q * g + k]);
    }
    assert(x =~= y);
}

} // verus!
