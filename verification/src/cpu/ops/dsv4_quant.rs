//! Round trips through small number formats.
//!
//! A model that was trained with its activations rounded to four or eight bits
//! wants them rounded in use, too. The kernels here round numbers to such a
//! format and back: a group of numbers shares a power of two as its scale, the
//! least with which every number of the group is in range.

use crate::buffer::{copied, copied_from, overwrite, write_at};
use crate::cpu::error::Error;
use crate::float;
use crate::float::arith;
use crate::float::arith::{fadd, fdiv, fmul, fsub, magnitude_of, nan, signed};
use crate::float::fold;
use crate::float::fold::{highest_of, magnitudes_of, scale};
use crate::float::order;
use crate::float::order::flt;
use crate::float::small;
use crate::float::small::{code_bits, nearest_code};
use crate::float::INFINITY;
use vstd::arithmetic::power2::*;
use vstd::prelude::*;

verus! {

/// Width of a row that the Hadamard transform takes.
pub const HADAMARD128_DIM: usize = 128;

/// Numbers of a group with a scale of its own, 4-bit format.
pub const FP4_GROUP: usize = 32;

/// Numbers of a group with a scale of its own, 8-bit format.
pub const FP8_KV_GROUP: usize = 64;

/// Largest number of the 8-bit format, 448, as bits.
pub const FP8_E4M3_MAX: u32 = 0x43E0_0000;

/// One over the square root of 128, as bits.
pub const HADAMARD128_NORM: u32 = 0x3DB5_04F3;

/// Least magnitude that a 4-bit group is scaled for, as bits.
pub const FP4_AMAX_FLOOR: u32 = 0x01C0_0000;

/// Least magnitude that an 8-bit group is scaled for, as bits.
pub const FP8_KV_AMAX_FLOOR: u32 = 0x38D1_B717;

/// A small number format.
#[derive(Clone, Copy)]
pub struct Format {
    /// Codes of the smallest binade; the format has that many per binade.
    pub h: u32,
    /// Binary places of the smallest step.
    pub places: u32,
    /// Largest code.
    pub max: u32,
    /// The number that the largest code stands for.
    pub limit: u32,
    /// Least magnitude that a group is scaled for, as bits.
    pub floor: u32,
}

/// The 4-bit format: two exponent digits and one significand digit.
pub open spec fn e2m1() -> Format {
    Format { h: 2, places: 1, max: 7, limit: 6, floor: FP4_AMAX_FLOOR }
}

/// The 8-bit format: four exponent digits and three significand digits.
pub open spec fn e4m3() -> Format {
    Format { h: 8, places: 9, max: 126, limit: 448, floor: FP8_KV_AMAX_FLOOR }
}

impl Format {
    /// Whether it is one of the two formats.
    pub open spec fn wf(self) -> bool {
        self == e2m1() || self == e4m3()
    }

    /// The code nearest to `x` units of 2^-149.
    pub open spec fn nearest(self, x: nat) -> nat {
        choose|code: nat|
            small::is_nearest(x, code, self.h as nat, self.places as nat, self.max as nat)
    }

    /// The bits of a code.
    pub open spec fn bits_of(self, code: nat) -> u32 {
        arith::of_dyadic(
            small::small_units(code, self.h as nat) as int,
            self.places as nat,
        )
    }

    /// The number of the format nearest to `x`, with its sign; the largest one
    /// for what is no number.
    pub open spec fn snapped(self, x: u32) -> u32 {
        if float::is_nan(x) {
            self.bits_of(self.max as nat)
        } else {
            float::with_sign(
                order::less(x, 0),
                self.bits_of(self.nearest(float::units(float::magnitude(x)))) as nat,
            )
        }
    }

    /// Whether the largest number of the format times `2^e` reaches a
    /// magnitude.
    pub open spec fn reaches(self, mag: nat, e: int) -> bool {
        float::units(mag) <= self.limit * pow2((149 + e) as nat)
    }

    /// Whether `2^e` is the scale of a group with a largest magnitude: the
    /// least with which the format reaches it.
    pub open spec fn is_scale(self, mag: nat, e: int) -> bool {
        &&& -126 <= e <= 127
        &&& mag >= 0x7F80_0000 ==> e == 127
        &&& mag < 0x7F80_0000 ==> self.reaches(mag, e) && (e > -126 ==> !self.reaches(mag, e - 1))
    }

    /// The largest magnitude of a group, as far as it is scaled for.
    pub open spec fn reach_of(self, group: Seq<u32>) -> u32 {
        let top = fold::highest(fold::magnitudes(group), 0);
        if order::less(top, self.floor) {
            self.floor
        } else {
            top
        }
    }

    /// The exponent of the scale of a group.
    pub open spec fn exponent_of(self, group: Seq<u32>) -> int {
        choose|e: int| self.is_scale(self.reach_of(group) as nat, e)
    }

    /// A group after its round trip.
    pub open spec fn rounded(self, group: Seq<u32>) -> Seq<u32> {
        let s = power_bits(self.exponent_of(group));
        Seq::new(
            group.len(),
            |i: int| arith::product(self.snapped(arith::quotient(group[i], s)), s),
        )
    }
}

/// The bits of `2^e`.
pub open spec fn power_bits(e: int) -> u32 {
    ((e + 127) * 0x80_0000) as u32
}

/// The groups of a row, each after its round trip.
pub open spec fn rounded_row(f: Format, row: Seq<u32>, group: nat) -> Seq<u32> {
    Seq::new(
        row.len(),
        |i: int| f.rounded(group_of(row, group, i / (group as int)))[i % (group as int)],
    )
}

/// The `g`-th group of a row.
pub open spec fn group_of(row: Seq<u32>, group: nat, g: int) -> Seq<u32> {
    row.subrange(g * group, (g + 1) * group)
}

/// The 4-bit format.
fn format_e2m1() -> (f: Format)
    ensures
        f == e2m1(),
{
    Format { h: 2, places: 1, max: 7, limit: 6, floor: FP4_AMAX_FLOOR }
}

/// The 8-bit format.
fn format_e4m3() -> (f: Format)
    ensures
        f == e4m3(),
{
    Format { h: 8, places: 9, max: 126, limit: 448, floor: FP8_KV_AMAX_FLOOR }
}

/// What a 4-bit code stands for, the sign left out.
pub fn e2m1fn_value(i: u32) -> (r: u32)
    ensures
        r == e2m1().bits_of((i % 8) as nat),
{
    code_bits(i % 8, 2, 1)
}

/// What an 8-bit code stands for, the sign left out.
pub fn e4m3fn_value(i: u32) -> (r: u32)
    ensures
        r == e4m3().bits_of((i % 128) as nat),
{
    code_bits(i % 128, 8, 9)
}

/// The number of a format nearest to `x`.
fn snap(f: Format, x: u32) -> (r: u32)
    requires
        f.wf(),
    ensures
        r == f.snapped(x),
{
    if nan(x) {
        return code_bits(f.max, f.h, f.places);
    }
    let mag: u32 = magnitude_of(x);
    let code: u32 = nearest_code(mag, f.h, f.places, f.max);
    proof {
        let u = float::units(mag as nat);
        small::law_nearest_is_unique(
            u,
            code as nat,
            f.nearest(u),
            f.h as nat,
            f.places as nat,
            f.max as nat,
        );
    }
    signed(flt(x, 0), code_bits(code, f.h, f.places))
}

/// The 8-bit number nearest to `x`, with its sign.
pub fn e4m3fn_dequant(x: u32) -> (r: u32)
    ensures
        r == e4m3().snapped(x),
{
    snap(format_e4m3(), x)
}

/// The 4-bit number nearest to `x`, with its sign.
pub fn e2m1fn_dequant(x: u32) -> (r: u32)
    ensures
        r == e2m1().snapped(x),
{
    snap(format_e2m1(), x)
}

/// A number times a power of two. The exponent is brought into the range of
/// normal numbers.
pub fn libm_ldexpf(x: u32, n: i32) -> (r: u32)
    ensures
        r == arith::product(
            x,
            power_bits(
                if n < -126 {
                    -126
                } else if n > 127 {
                    127
                } else {
                    n as int
                },
            ),
        ),
{
    let e: i32 = if n < -126 {
        -126
    } else if n > 127 {
        127
    } else {
        n
    };
    fmul(x, (e + 127) as u32 * 0x80_0000)
}

/// One butterfly stage: pairs of numbers `stride` apart become their sum and
/// their difference.
pub open spec fn butterfly(x: Seq<u32>, stride: int) -> Seq<u32> {
    Seq::new(
        x.len(),
        |i: int|
            if (i / stride) % 2 == 0 {
                arith::sum(x[i], x[i + stride])
            } else {
                arith::difference(x[i - stride], x[i])
            },
    )
}

/// The Hadamard transform of 128 numbers.
pub open spec fn transformed(x: Seq<u32>) -> Seq<u32> {
    let a = butterfly(butterfly(butterfly(x, 1), 2), 4);
    let b = butterfly(butterfly(butterfly(butterfly(a, 8), 16), 32), 64);
    fold::scaled(b, HADAMARD128_NORM)
}

/// Where the partner of a number lies.
proof fn lemma_partner(i: int, stride: int, blocks: int)
    requires
        0 <= i < 128,
        stride > 0,
        stride * blocks == 128,
        blocks % 2 == 0,
    ensures
        (i / stride) % 2 == 0 ==> i + stride < 128,
        (i / stride) % 2 != 0 ==> i >= stride,
{
    let q = i / stride;
    vstd::arithmetic::div_mod::lemma_fundamental_div_mod(i, stride);
    assert(q < blocks) by (nonlinear_arith)
        requires
            stride * q <= i,
            i < 128,
            stride * blocks == 128,
            stride > 0,
    ;
    assert(q >= 0) by (nonlinear_arith)
        requires
            i == stride * q + i % stride,
            0 <= i,
            i % stride < stride,
            stride > 0,
    ;
    if q % 2 == 0 {
        assert(stride * (q + 2) <= stride * blocks) by (nonlinear_arith)
            requires
                q + 2 <= blocks,
                stride > 0,
        ;
        assert(stride * (q + 2) == stride * q + 2 * stride) by (nonlinear_arith);
    } else {
        assert(stride * q >= stride) by (nonlinear_arith)
            requires
                q >= 1,
                stride > 0,
        ;
    }
}

/// One butterfly stage.
fn butterfly_of(x: &Vec<u32>, stride: usize) -> (r: Vec<u32>)
    requires
        x@.len() == HADAMARD128_DIM,
        stride == 1 || stride == 2 || stride == 4 || stride == 8 || stride == 16 || stride == 32
            || stride == 64,
    ensures
        r@ == butterfly(x@, stride as int),
        r@.len() == HADAMARD128_DIM,
{
    let mut r: Vec<u32> = Vec::new();
    let ghost blocks: int = if stride == 1 {
        128
    } else if stride == 2 {
        64
    } else if stride == 4 {
        32
    } else if stride == 8 {
        16
    } else if stride == 16 {
        8
    } else if stride == 32 {
        4
    } else {
        2
    };
    for i in 0..HADAMARD128_DIM
        invariant
            x@.len() == HADAMARD128_DIM,
            0 < stride <= 64,
            stride * blocks == 128,
            blocks % 2 == 0,
            r@ =~= butterfly(x@, stride as int).take(i as int),
    {
        proof {
            lemma_partner(i as int, stride as int, blocks);
        }
        if (i / stride) % 2 == 0 {
            r.push(fadd(x[i], x[i + stride]));
        } else {
            r.push(fsub(x[i - stride], x[i]));
        }
    }
    assert(r@ =~= butterfly(x@, stride as int));
    r
}

/// Applies the Hadamard transform to 128 numbers in place.
pub fn hadamard128_inplace(x: &mut [u32]) -> (res: Result<(), Error>)
    ensures
        old(x)@.len() != HADAMARD128_DIM ==> {
            &&& final(x)@ == old(x)@
            &&& res == Err::<(), Error>(
                Error::ShapeMismatch("hadamard128_inplace: x must have length 128"),
            )
        },
        old(x)@.len() == HADAMARD128_DIM ==> {
            &&& final(x)@ == transformed(old(x)@)
            &&& res is Ok
        },
{
    if x.len() != HADAMARD128_DIM {
        return Err(Error::ShapeMismatch("hadamard128_inplace: x must have length 128"));
    }
    let s0: Vec<u32> = copied(x);
    let s1: Vec<u32> = butterfly_of(&s0, 1);
    let s2: Vec<u32> = butterfly_of(&s1, 2);
    let s3: Vec<u32> = butterfly_of(&s2, 4);
    let s4: Vec<u32> = butterfly_of(&s3, 8);
    let s5: Vec<u32> = butterfly_of(&s4, 16);
    let s6: Vec<u32> = butterfly_of(&s5, 32);
    let s7: Vec<u32> = butterfly_of(&s6, 64);
    let out: Vec<u32> = scale(s7.as_slice(), HADAMARD128_NORM);
    overwrite(x, out.as_slice());
    Ok(())
}

/// The reach of a format grows with the exponent.
proof fn lemma_reach_grows(f: Format, mag: nat, a: int, b: int)
    requires
        -149 <= a <= b,
        f.reaches(mag, a),
    ensures
        f.reaches(mag, b),
{
    float::rounding::lemma_pow2_monotone((149 + a) as nat, (149 + b) as nat);
    assert(f.limit * pow2((149 + a) as nat) <= f.limit * pow2((149 + b) as nat)) by (nonlinear_arith)
        requires
            pow2((149 + a) as nat) <= pow2((149 + b) as nat),
            f.limit >= 0,
    ;
}

/// A group has one scale.
pub proof fn law_scale_is_unique(f: Format, mag: nat, a: int, b: int)
    requires
        f.is_scale(mag, a),
        f.is_scale(mag, b),
    ensures
        a == b,
{
    if mag < 0x7F80_0000 {
        if a < b {
            lemma_reach_grows(f, mag, a, b - 1);
        } else if b < a {
            lemma_reach_grows(f, mag, b, a - 1);
        }
    }
}

/// What the largest number of a format times a power of two is, as bits.
proof fn lemma_limit(f: Format, e: int)
    requires
        f.wf(),
        -127 <= e,
        f.limit == 6 ==> e <= 125,
        f.limit == 448 ==> e <= 119,
    ensures
        ({
            let top = if f.limit == 6 {
                (e + 129) * 0x80_0000 + 0x40_0000
            } else {
                (e + 135) * 0x80_0000 + 0x60_0000
            };
            &&& top < 0x7F80_0000
            &&& float::units(top as nat) == f.limit * pow2((149 + e) as nat)
        }),
{
    lemma2_to64();
    if f.limit == 6 {
        let top = (e + 129) * 0x80_0000 + 0x40_0000;
        assert(top / 0x80_0000 == e + 129);
        assert(top % 0x80_0000 == 0x40_0000);
        assert(float::exponent(top as nat) == e + 128);
        assert(float::significand(top as nat) == 0xC0_0000);
        lemma_pow2_adds((e + 128) as nat, 21);
        assert(0xC0_0000 * pow2((e + 128) as nat) == 6 * pow2((149 + e) as nat)) by (nonlinear_arith)
            requires
                pow2((149 + e) as nat) == pow2((e + 128) as nat) * 0x20_0000,
        ;
    } else {
        let top = (e + 135) * 0x80_0000 + 0x60_0000;
        assert(top / 0x80_0000 == e + 135);
        assert(top % 0x80_0000 == 0x60_0000);
        assert(float::exponent(top as nat) == e + 134);
        assert(float::significand(top as nat) == 0xE0_0000);
        lemma_pow2_adds((e + 134) as nat, 15);
        assert(0xE0_0000 * pow2((e + 134) as nat) == 448 * pow2((149 + e) as nat)) by (nonlinear_arith)
            requires
                pow2((149 + e) as nat) == pow2((e + 134) as nat) * 0x8000,
        ;
    }
}

/// The exponent of the scale for a largest magnitude.
fn scale_exponent(f: Format, mag: u32) -> (e: i32)
    requires
        f.wf(),
        f.floor <= mag <= INFINITY,
    ensures
        f.is_scale(mag as nat, e as int),
{
    if mag == INFINITY {
        return 127;
    }
    let (shift, half): (i32, u32) = if f.limit == 6 {
        (129, 0x40_0000)
    } else {
        (135, 0x60_0000)
    };
    let field: i32 = (mag / 0x80_0000) as i32;
    let e: i32 = if mag % 0x80_0000 <= half {
        field - shift
    } else {
        field - shift + 1
    };
    proof {
        let top = ((e + shift) * 0x80_0000 + half) as nat;
        let prior = ((e - 1 + shift) * 0x80_0000 + half) as nat;
        assert(prior < mag <= top);
        crate::float::order::lemma_units_increase(prior, mag as nat);
        lemma_limit(f, e - 1);
        if e <= 119 || (e <= 125 && f.limit == 6) {
            lemma_limit(f, e as int);
            if mag < top {
                crate::float::order::lemma_units_increase(mag as nat, top);
            }
        } else {
            lemma_high(f, mag as nat, e as int);
        }
    }
    e
}

/// A finite magnitude is in reach where the scale is at the upper end.
proof fn lemma_high(f: Format, mag: nat, e: int)
    requires
        f.wf(),
        mag < 0x7F80_0000,
        e > 118,
        f.limit == 6 ==> mag <= (e + 129) * 0x80_0000 + 0x40_0000,
        f.limit == 448 ==> mag <= (e + 135) * 0x80_0000 + 0x60_0000,
    ensures
        f.reaches(mag, e),
{
    lemma2_to64();
    let p = float::exponent(mag);
    let m = float::significand(mag);
    lemma_pow2_pos(p);
    if f.limit == 6 {
        let top = (e + 129) * 0x80_0000 + 0x40_0000;
        assert(p <= e + 128);
        lemma_pow2_adds((e + 128) as nat, 21);
        if p == e + 128 {
            assert(m <= 0xC0_0000);
            assert(m * pow2(p) <= 6 * pow2((149 + e) as nat)) by (nonlinear_arith)
                requires
                    m <= 0xC0_0000,
                    pow2((149 + e) as nat) == pow2(p) * 0x20_0000,
                    pow2(p) > 0,
            ;
        } else {
            float::rounding::lemma_pow2_monotone(p, (e + 127) as nat);
            lemma_pow2_unfold((e + 128) as nat);
            assert(m * pow2(p) <= 6 * pow2((149 + e) as nat)) by (nonlinear_arith)
                requires
                    0 <= m < 0x100_0000,
                    0 < pow2(p) <= pow2((e + 127) as nat),
                    pow2((e + 128) as nat) == 2 * pow2((e + 127) as nat),
                    pow2((149 + e) as nat) == pow2((e + 128) as nat) * 0x20_0000,
            ;
        }
    } else {
        assert(p <= e + 134);
        lemma_pow2_adds((e + 134) as nat, 15);
        if p == e + 134 {
            assert(m <= 0xE0_0000);
            assert(m * pow2(p) <= 448 * pow2((149 + e) as nat)) by (nonlinear_arith)
                requires
                    m <= 0xE0_0000,
                    pow2((149 + e) as nat) == pow2(p) * 0x8000,
                    pow2(p) > 0,
            ;
        } else {
            float::rounding::lemma_pow2_monotone(p, (e + 133) as nat);
            lemma_pow2_unfold((e + 134) as nat);
            assert(m * pow2(p) <= 448 * pow2((149 + e) as nat)) by (nonlinear_arith)
                requires
                    0 <= m < 0x100_0000,
                    0 < pow2(p) <= pow2((e + 133) as nat),
                    pow2((e + 134) as nat) == 2 * pow2((e + 133) as nat),
                    pow2((149 + e) as nat) == pow2((e + 134) as nat) * 0x8000,
            ;
        }
    }
}

/// The highest of magnitudes is a magnitude.
proof fn lemma_highest_magnitude(group: Seq<u32>)
    ensures
        fold::highest(fold::magnitudes(group), 0) <= 0x7F80_0000,
{
    fold::law_highest(fold::magnitudes(group), 0);
    let h = fold::highest(fold::magnitudes(group), 0);
    if h != 0 {
        let k = choose|k: int| 0 <= k < fold::magnitudes(group).len() && fold::magnitudes(group)[k] == h;
        assert(h < 0x8000_0000);
    }
}

/// A group after its round trip.
fn round_group(f: Format, group: &[u32]) -> (r: Vec<u32>)
    requires
        f.wf(),
    ensures
        r@ == f.rounded(group@),
        r@.len() == group@.len(),
{
    let n: usize = group.len();
    let sizes: Vec<u32> = magnitudes_of(group);
    let top: u32 = highest_of(sizes.as_slice(), 0);
    proof {
        lemma_highest_magnitude(group@);
    }
    let reach: u32 = if flt(top, f.floor) {
        f.floor
    } else {
        top
    };
    let e: i32 = scale_exponent(f, reach);
    proof {
        law_scale_is_unique(f, reach as nat, e as int, f.exponent_of(group@));
    }
    let s: u32 = (e + 127) as u32 * 0x80_0000;
    let mut r: Vec<u32> = Vec::new();
    for i in 0..n
        invariant
            n == group@.len(),
            f.wf(),
            s == power_bits(f.exponent_of(group@)),
            r@ =~= f.rounded(group@).take(i as int),
    {
        r.push(fmul(snap(f, fdiv(group[i], s)), s));
    }
    assert(r@ =~= f.rounded(group@));
    r
}

/// Sends the first `n` numbers of a row on their round trip, group by group.
fn round_row(f: Format, x: &mut [u32], n: usize, group: usize)
    requires
        f.wf(),
        0 < group,
        n % group == 0,
        n <= old(x)@.len(),
    ensures
        final(x)@.len() == old(x)@.len(),
        final(x)@.take(n as int) == rounded_row(f, old(x)@.take(n as int), group as nat),
        final(x)@.skip(n as int) == old(x)@.skip(n as int),
{
    let len: usize = x.len();
    let ghost before = x@;
    let ghost want = rounded_row(f, before.take(n as int), group as nat);
    let mut at: usize = 0;
    let ghost mut g: int = 0;
    assert(group * 0 == 0) by (nonlinear_arith);
    while at < n
        invariant
            f.wf(),
            0 < group,
            n % group == 0,
            n <= len,
            len == before.len(),
            x@.len() == len,
            at <= n,
            at == g * group,
            g >= 0,
            want == rounded_row(f, before.take(n as int), group as nat),
            forall|i: int| 0 <= i < at ==> x@[i] == #[trigger] want[i],
            forall|i: int| at <= i < len ==> x@[i] == before[i],
        decreases n - at,
    {
        proof {
            let q = n as int / group as int;
            vstd::arithmetic::div_mod::lemma_fundamental_div_mod(n as int, group as int);
            assert((g + 1) * group == g * group + group) by (nonlinear_arith);
            assert(g + 1 <= q) by (nonlinear_arith)
                requires
                    g * group < group * q,
                    group > 0,
            ;
            assert((g + 1) * group <= group * q) by (nonlinear_arith)
                requires
                    g + 1 <= q,
                    group > 0,
            ;
        }
        let part: Vec<u32> = copied_from(x, at, group);
        let ghost mine = group_of(before.take(n as int), group as nat, g);
        assert(part@ =~= mine);
        let out: Vec<u32> = round_group(f, part.as_slice());
        let ghost mid = x@;
        write_at(x, at, out.as_slice());
        proof {
            assert forall|i: int| 0 <= i < at + group implies x@[i] == #[trigger] want[i] by {
                if i >= at {
                    let k = i - at;
                    vstd::arithmetic::div_mod::lemma_fundamental_div_mod_converse(
                        i,
                        group as int,
                        g,
                        k,
                    );
                }
            }
            g = g + 1;
        }
        at = at + group;
    }
    assert(x@.take(n as int) =~= want);
    assert(x@.skip(n as int) =~= before.skip(n as int));
}

/// Sends a row on a round trip through the 4-bit format, in groups of 32.
pub fn fp4_act_quantize_row_inplace(x: &mut [u32]) -> (res: Result<(), Error>)
    ensures
        old(x)@.len() == 0 || old(x)@.len() % (FP4_GROUP as nat) != 0 ==> {
            &&& final(x)@ == old(x)@
            &&& res == Err::<(), Error>(
                Error::ShapeMismatch(
                    "fp4_act_quantize_row_inplace: length must be a positive multiple of 32",
                ),
            )
        },
        old(x)@.len() > 0 && old(x)@.len() % (FP4_GROUP as nat) == 0 ==> {
            &&& final(x)@ == rounded_row(e2m1(), old(x)@, FP4_GROUP as nat)
            &&& res is Ok
        },
{
    let n: usize = x.len();
    if n == 0 || n % FP4_GROUP != 0 {
        return Err(
            Error::ShapeMismatch(
                "fp4_act_quantize_row_inplace: length must be a positive multiple of 32",
            ),
        );
    }
    let ghost before = x@;
    round_row(format_e2m1(), x, n, FP4_GROUP);
    assert(before.take(n as int) =~= before);
    assert(x@.take(n as int) =~= x@);
    Ok(())
}

/// Sends all but the last `n_rot` numbers of a row on a round trip through the
/// 8-bit format, in groups of 64.
pub fn fp8_kv_quantize_row_inplace(x: &mut [u32], head_dim: usize, n_rot: usize) -> (res: Result<
    (),
    Error,
>)
    ensures
        final(x)@.len() == old(x)@.len(),
        old(x)@.len() != head_dim ==> {
            &&& final(x)@ == old(x)@
            &&& res == Err::<(), Error>(
                Error::ShapeMismatch("fp8_kv_quantize_row_inplace: x.len() != head_dim"),
            )
        },
        old(x)@.len() == head_dim && n_rot > head_dim ==> {
            &&& final(x)@ == old(x)@
            &&& res == Err::<(), Error>(
                Error::ShapeMismatch("fp8_kv_quantize_row_inplace: n_rot > head_dim"),
            )
        },
        old(x)@.len() == head_dim && n_rot <= head_dim && (n_rot == head_dim || (head_dim - n_rot)
            % FP8_KV_GROUP as int != 0) ==> {
            &&& final(x)@ == old(x)@
            &&& res == Err::<(), Error>(
                Error::ShapeMismatch(
                    "fp8_kv_quantize_row_inplace: (head_dim - n_rot) must be a positive multiple of 64",
                ),
            )
        },
        old(x)@.len() == head_dim && n_rot < head_dim && (head_dim - n_rot) % FP8_KV_GROUP as int
            == 0 ==> {
            &&& final(x)@.take(head_dim - n_rot) == rounded_row(
                e4m3(),
                old(x)@.take(head_dim - n_rot),
                FP8_KV_GROUP as nat,
            )
            &&& final(x)@.skip(head_dim - n_rot) == old(x)@.skip(head_dim - n_rot)
            &&& res is Ok
        },
{
    if x.len() != head_dim {
        return Err(Error::ShapeMismatch("fp8_kv_quantize_row_inplace: x.len() != head_dim"));
    }
    if n_rot > head_dim {
        return Err(Error::ShapeMismatch("fp8_kv_quantize_row_inplace: n_rot > head_dim"));
    }
    let n_nope: usize = head_dim - n_rot;
    if n_nope == 0 || n_nope % FP8_KV_GROUP != 0 {
        return Err(
            Error::ShapeMismatch(
                "fp8_kv_quantize_row_inplace: (head_dim - n_rot) must be a positive multiple of 64",
            ),
        );
    }
    round_row(format_e4m3(), x, n_nope, FP8_KV_GROUP);
    Ok(())
}

/// An indexer row after the Hadamard transform and the 4-bit round trip.
#[verifier::opaque]
pub open spec fn indexer_row(x: Seq<u32>) -> Seq<u32> {
    rounded_row(e2m1(), transformed(x), FP4_GROUP as nat)
}

/// Applies the Hadamard transform and the 4-bit round trip to an indexer row.
pub fn indexer_qat_row_inplace(x: &mut [u32]) -> (res: Result<(), Error>)
    ensures
        final(x)@.len() == old(x)@.len(),
        old(x)@.len() != HADAMARD128_DIM ==> {
            &&& final(x)@ == old(x)@
            &&& res == Err::<(), Error>(
                Error::ShapeMismatch("indexer_qat_row_inplace: expects 128-wide indexer rows"),
            )
        },
        old(x)@.len() == HADAMARD128_DIM ==> {
            &&& final(x)@ == indexer_row(old(x)@)
            &&& res is Ok
        },
{
    if x.len() != HADAMARD128_DIM {
        return Err(Error::ShapeMismatch("indexer_qat_row_inplace: expects 128-wide indexer rows"));
    }
    proof {
        reveal(indexer_row);
    }
    match hadamard128_inplace(x) {
        Err(e) => {
            return Err(e);
        },
        Ok(_) => {},
    }
    fp4_act_quantize_row_inplace(x)
}

/// Applies `indexer_qat_row_inplace` to each of several rows.
pub fn indexer_qat_rows_inplace(x: &mut [u32], rows: usize) -> (res: Result<(), Error>)
    ensures
        rows * HADAMARD128_DIM > usize::MAX ==> {
            &&& final(x)@ == old(x)@
            &&& res == Err::<(), Error>(
                Error::ShapeMismatch("indexer_qat_rows_inplace: rows * 128 overflows"),
            )
        },
        rows * HADAMARD128_DIM <= usize::MAX && old(x)@.len() != rows * HADAMARD128_DIM ==> {
            &&& final(x)@ == old(x)@
            &&& res == Err::<(), Error>(
                Error::ShapeMismatch("indexer_qat_rows_inplace: x.len() must equal rows * 128"),
            )
        },
        rows * HADAMARD128_DIM <= usize::MAX && old(x)@.len() == rows * HADAMARD128_DIM ==> {
            &&& res is Ok
            &&& final(x)@.len() == old(x)@.len()
            &&& forall|r: int|
                0 <= r < rows ==> #[trigger] group_of(final(x)@, HADAMARD128_DIM as nat, r)
                    == indexer_row(group_of(old(x)@, HADAMARD128_DIM as nat, r))
        },
{
    let expected: usize = match rows.checked_mul(HADAMARD128_DIM) {
        None => {
            return Err(Error::ShapeMismatch("indexer_qat_rows_inplace: rows * 128 overflows"));
        },
        Some(n) => n,
    };
    if x.len() != expected {
        return Err(
            Error::ShapeMismatch("indexer_qat_rows_inplace: x.len() must equal rows * 128"),
        );
    }
    let ghost before = x@;
    for r in 0..rows
        invariant
            expected == rows * HADAMARD128_DIM,
            before.len() == expected,
            x@.len() == expected,
            forall|k: int|
                0 <= k < r ==> #[trigger] group_of(x@, HADAMARD128_DIM as nat, k) == indexer_row(
                    group_of(before, HADAMARD128_DIM as nat, k),
                ),
            forall|i: int| r * HADAMARD128_DIM <= i < expected ==> x@[i] == before[i],
    {
        let at: usize = r * HADAMARD128_DIM;
        let mut row: Vec<u32> = copied_from(x, at, HADAMARD128_DIM);
        assert(row@ =~= group_of(before, HADAMARD128_DIM as nat, r as int));
        match indexer_qat_row_inplace(row.as_mut_slice()) {
            Err(e) => {
                return Err(e);
            },
            Ok(_) => {},
        }
        let ghost mid = x@;
        write_at(x, at, row.as_slice());
        assert forall|k: int| 0 <= k < r + 1 implies #[trigger] group_of(
            x@,
            HADAMARD128_DIM as nat,
            k,
        ) == indexer_row(group_of(before, HADAMARD128_DIM as nat, k)) by {
            if k < r {
                assert(group_of(x@, HADAMARD128_DIM as nat, k) =~= group_of(
                    mid,
                    HADAMARD128_DIM as nat,
                    k,
                ));
            } else {
                assert(group_of(x@, HADAMARD128_DIM as nat, k) =~= row@);
            }
        }
    }
    Ok(())
}

/// A number of a format stays as it is on a round trip.
pub proof fn law_codes_stay(f: Format, code: nat, negative: bool)
    requires
        f.wf(),
        code <= f.max,
        negative ==> code > 0,
    ensures
        f.snapped(float::with_sign(negative, f.bits_of(code) as nat)) == float::with_sign(
            negative,
            f.bits_of(code) as nat,
        ),
{
    let h = f.h as nat;
    let places = f.places as nat;
    small::lemma_code_exact(code, h, places);
    let bits = f.bits_of(code);
    let x = float::with_sign(negative, bits as nat);
    let u = float::units(bits as nat);
    assert(float::magnitude(x) == bits);
    small::law_codes_are_kept(code, h, places, f.max as nat);
    small::law_nearest_is_unique(u, code, f.nearest(u), h, places, f.max as nat);
    arith::lemma_units_zero(bits as nat);
    lemma_positive_code(code, h, places);
}

proof fn lemma_positive_code(code: nat, h: nat, places: nat)
    requires
        h == 8 || h == 2,
        places <= 10,
    ensures
        code > 0 ==> small::code_value(code, h, places) > 0,
{
    if code > 0 {
        small::lemma_codes_increase(0, code, h);
        lemma_pow2_pos((149 - places) as nat);
        let u = small::small_units(code, h);
        let p = pow2((149 - places) as nat);
        assert(u * p > 0) by (nonlinear_arith)
            requires
                u > 0,
                p > 0,
        ;
    }
}

} // verus!
