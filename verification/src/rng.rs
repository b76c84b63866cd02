//! The random number generator of the sampler, `xoshiro256**`.

pub mod seeding;

use crate::float;
use crate::float::arith;
use crate::float::arith::from_dyadic;
use crate::float::fold::ONE;
use crate::float::order;
use vstd::arithmetic::power2::*;
use vstd::prelude::*;

verus! {

/// A generator with 256 bits of state. Equal states give equal sequences.
#[derive(Debug, Clone, Copy)]
pub struct Xoshiro256StarStar {
    pub s0: u64,
    pub s1: u64,
    pub s2: u64,
    pub s3: u64,
}

/// The number that the `splitmix64` generator makes of a counter.
pub open spec fn mixed(x: u64) -> u64 {
    let a = (x ^ (x >> 30)).wrapping_mul(0xBF58_476D_1CE4_E5B9);
    let b = (a ^ (a >> 27)).wrapping_mul(0x94D0_49BB_1331_11EB);
    b ^ (b >> 31)
}

/// The counter of the `splitmix64` generator after one more step.
pub open spec fn counted(x: u64) -> u64 {
    x.wrapping_add(0x9E37_79B9_7F4A_7C15)
}

/// The state that a seed gives: four numbers in a row of a `splitmix64`
/// generator, but never all zero.
pub open spec fn seeded(seed: u64) -> Xoshiro256StarStar {
    let a = counted(seed);
    let b = counted(a);
    let c = counted(b);
    let d = counted(c);
    let r = Xoshiro256StarStar { s0: mixed(a), s1: mixed(b), s2: mixed(c), s3: mixed(d) };
    if r.s0 == 0 && r.s1 == 0 && r.s2 == 0 && r.s3 == 0 {
        Xoshiro256StarStar { s0: 1, ..r }
    } else {
        r
    }
}

impl Xoshiro256StarStar {
    /// The number that the state yields.
    pub open spec fn output(self) -> u64 {
        let x = self.s1.wrapping_mul(5);
        ((x << 7) | (x >> 57)).wrapping_mul(9)
    }

    /// The state after one more number.
    pub open spec fn stepped(self) -> Xoshiro256StarStar {
        let two = self.s2 ^ self.s0;
        let three = self.s3 ^ self.s1;
        Xoshiro256StarStar {
            s0: self.s0 ^ three,
            s1: self.s1 ^ two,
            s2: two ^ (self.s1 << 17),
            s3: (three << 45) | (three >> 19),
        }
    }

    /// The fraction that the state yields: the top 24 bits of its number, over
    /// 2^24.
    pub open spec fn fraction(self) -> u32 {
        arith::of_dyadic((self.output() >> 40) as int, 24)
    }

    /// Whether every bit of the state is zero.
    pub open spec fn is_zero(self) -> bool {
        self.s0 == 0 && self.s1 == 0 && self.s2 == 0 && self.s3 == 0
    }

    /// A generator with the state that a seed gives.
    pub fn from_seed(seed: u64) -> (r: Self)
        ensures
            r == seeded(seed),
    {
        let a: u64 = seed.wrapping_add(0x9E37_79B9_7F4A_7C15);
        let b: u64 = a.wrapping_add(0x9E37_79B9_7F4A_7C15);
        let c: u64 = b.wrapping_add(0x9E37_79B9_7F4A_7C15);
        let d: u64 = c.wrapping_add(0x9E37_79B9_7F4A_7C15);
        let s0: u64 = mix(a);
        let s1: u64 = mix(b);
        let s2: u64 = mix(c);
        let s3: u64 = mix(d);
        if s0 == 0 && s1 == 0 && s2 == 0 && s3 == 0 {
            Xoshiro256StarStar { s0: 1, s1, s2, s3 }
        } else {
            Xoshiro256StarStar { s0, s1, s2, s3 }
        }
    }

    /// The next number.
    pub fn next_u64(&mut self) -> (r: u64)
        ensures
            r == old(self).output(),
            *final(self) == old(self).stepped(),
    {
        let x: u64 = self.s1.wrapping_mul(5);
        let result: u64 = ((x << 7) | (x >> 57)).wrapping_mul(9);
        let t: u64 = self.s1 << 17;
        let two: u64 = self.s2 ^ self.s0;
        let three: u64 = self.s3 ^ self.s1;
        self.s1 = self.s1 ^ two;
        self.s0 = self.s0 ^ three;
        self.s2 = two ^ t;
        self.s3 = (three << 45) | (three >> 19);
        result
    }

    /// The next fraction, from zero up to one but never one.
    pub fn next_f32(&mut self) -> (r: u32)
        ensures
            r == old(self).fraction(),
            *final(self) == old(self).stepped(),
    {
        let x: u64 = self.next_u64();
        from_dyadic(x >> 40, 24)
    }
}

/// The number that the `splitmix64` generator makes of a counter.
fn mix(x: u64) -> (r: u64)
    ensures
        r == mixed(x),
{
    let a: u64 = (x ^ (x >> 30)).wrapping_mul(0xBF58_476D_1CE4_E5B9);
    let b: u64 = (a ^ (a >> 27)).wrapping_mul(0x94D0_49BB_1331_11EB);
    b ^ (b >> 31)
}

/// The state is never all zero: a seed gives none such, and no step leads to
/// one.
pub proof fn law_state_is_never_zero(seed: u64, r: Xoshiro256StarStar)
    requires
        !r.is_zero(),
    ensures
        !seeded(seed).is_zero(),
        !r.stepped().is_zero(),
{
    let (a, b, c, d) = (r.s0, r.s1, r.s2, r.s3);
    assert((a ^ (d ^ b)) == 0 && (b ^ (c ^ a)) == 0 && ((c ^ a) ^ (b << 17)) == 0 && (((d ^ b)
        << 45) | ((d ^ b) >> 19)) == 0 ==> a == 0 && b == 0 && c == 0 && d == 0) by (bit_vector);
}

/// Fractions lie from zero up to one, and are never one.
pub proof fn law_fraction_is_below_one(r: Xoshiro256StarStar)
    ensures
        float::is_finite(r.fraction()),
        order::at_most(0, r.fraction()),
        order::less(r.fraction(), ONE),
{
    lemma2_to64();
    let x = r.output();
    assert(x >> 40 < 0x100_0000u64) by (bit_vector);
    let n = (x >> 40) as nat;
    lemma_pow2_adds(125, 24);
    lemma_pow2_adds(23, 126);
    lemma_pow2_adds(24, 125);
    lemma_pow2_pos(125);
    let den = pow2(24);
    assert(n * pow2(149) == n * pow2(125) * den) by (nonlinear_arith)
        requires
            pow2(149) == pow2(125) * den,
    ;
    order::lemma_exact(n, 125, den);
    assert(n * pow2(125) < 0x100_0000 * pow2(125)) by (nonlinear_arith)
        requires
            n < 0x100_0000,
            pow2(125) > 0,
    ;
    assert(float::units(0x3F80_0000) == pow2(149)) by {
        assert(float::exponent(0x3F80_0000) == 126);
        assert(float::significand(0x3F80_0000) == 0x80_0000);
    }
    assert(float::units(0) == 0) by (nonlinear_arith)
        requires
            float::units(0) == float::significand(0) * pow2(float::exponent(0)),
            float::significand(0) == 0,
    ;
    order::law_order_of_values(r.fraction(), ONE);
    order::law_order_of_values(0, r.fraction());
}

} // verus!
