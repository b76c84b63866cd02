//! Where the state of a generator comes from, read backwards.

use crate::float;
use crate::float::bounds;
use crate::float::order;
use crate::rng;
use crate::rng::Xoshiro256StarStar;
use vstd::arithmetic::power2::*;
use vstd::prelude::*;

verus! {

/// The counter that the `splitmix64` generator made a number of.
pub open spec fn unmixed(y: u64) -> u64 {
    let b = (y ^ (y >> 31)) ^ (y >> 62);
    let a = b.wrapping_mul(0x3196_42B2_D24D_8EC3);
    let c = (a ^ (a >> 27)) ^ (a >> 54);
    let d = c.wrapping_mul(0x96DE_1B17_3F11_9089);
    (d ^ (d >> 30)) ^ (d >> 60)
}

/// A product with a factor and its inverse is the number again.
proof fn lemma_times_inverse(a: u64, c: u64, d: u64, q: int)
    requires
        c * d == q * 0x1_0000_0000_0000_0000 + 1,
    ensures
        a.wrapping_mul(c).wrapping_mul(d) == a,
{
    let m = 0x1_0000_0000_0000_0000int;
    let x = a as int;
    vstd::arithmetic::div_mod::lemma_mul_mod_noop_left(x * c, d as int, m);
    assert((x * c) * d == x * (c * d)) by (nonlinear_arith);
    assert(x * (q * m + 1) == (x * q) * m + x) by (nonlinear_arith);
    vstd::arithmetic::div_mod::lemma_fundamental_div_mod_converse((x * q) * m + x, m, x * q, x);
}

/// What is folded onto itself once comes back by folding it twice.
proof fn lemma_unfold_31(x: u64)
    ensures
        ((x ^ (x >> 31)) ^ ((x ^ (x >> 31)) >> 31)) ^ ((x ^ (x >> 31)) >> 62) == x,
{
    assert(((x ^ (x >> 31)) ^ ((x ^ (x >> 31)) >> 31)) ^ ((x ^ (x >> 31)) >> 62) == x)
        by (bit_vector);
}

proof fn lemma_unfold_27(x: u64)
    ensures
        ((x ^ (x >> 27)) ^ ((x ^ (x >> 27)) >> 27)) ^ ((x ^ (x >> 27)) >> 54) == x,
{
    assert(((x ^ (x >> 27)) ^ ((x ^ (x >> 27)) >> 27)) ^ ((x ^ (x >> 27)) >> 54) == x)
        by (bit_vector);
}

proof fn lemma_unfold_30(x: u64)
    ensures
        ((x ^ (x >> 30)) ^ ((x ^ (x >> 30)) >> 30)) ^ ((x ^ (x >> 30)) >> 60) == x,
{
    assert(((x ^ (x >> 30)) ^ ((x ^ (x >> 30)) >> 30)) ^ ((x ^ (x >> 30)) >> 60) == x)
        by (bit_vector);
}

/// The number made of a counter gives the counter back.
pub proof fn law_mixing_is_undone(x: u64)
    ensures
        unmixed(rng::mixed(x)) == x,
{
    let p = x ^ (x >> 30);
    let a = p.wrapping_mul(0xBF58_476D_1CE4_E5B9);
    let q = a ^ (a >> 27);
    let b = q.wrapping_mul(0x94D0_49BB_1331_11EB);
    lemma_unfold_31(b);
    lemma_times_inverse(q, 0x94D0_49BB_1331_11EB, 0x3196_42B2_D24D_8EC3, 0x1cd336eda85f1453);
    lemma_unfold_27(a);
    lemma_times_inverse(p, 0xBF58_476D_1CE4_E5B9, 0x96DE_1B17_3F11_9089, 0x70c3bca78f27f46c);
    lemma_unfold_30(x);
}

/// The four numbers of a state come from four counters in a row, the seed and
/// one to four times the golden ratio, unless all four are zero.
pub proof fn law_state_of_a_seed(seed: u64)
    ensures
        ({
            let r = rng::seeded(seed);
            let m = 0x1_0000_0000_0000_0000int;
            let step = 0x9E37_79B9_7F4A_7C15int;
            &&& unmixed(r.s1) == (seed + 2 * step) % m
            &&& unmixed(r.s2) == (seed + 3 * step) % m
            &&& unmixed(r.s3) == (seed + 4 * step) % m
            &&& unmixed(r.s0) == (seed + step) % m || r.s0 == 1 && r.s1 == 0 && r.s2 == 0 && r.s3
                == 0
        }),
{
    let a = rng::counted(seed);
    let b = rng::counted(a);
    let c = rng::counted(b);
    let d = rng::counted(c);
    assert(unmixed(rng::mixed(a)) == a) by {
        law_mixing_is_undone(a);
    }
    assert(unmixed(rng::mixed(b)) == b) by {
        law_mixing_is_undone(b);
    }
    assert(unmixed(rng::mixed(c)) == c) by {
        law_mixing_is_undone(c);
    }
    assert(unmixed(rng::mixed(d)) == d) by {
        law_mixing_is_undone(d);
    }
    lemma_counters(seed);
}

/// The counters after a seed.
proof fn lemma_counters(seed: u64)
    ensures
        ({
            let a = rng::counted(seed);
            let b = rng::counted(a);
            let c = rng::counted(b);
            let m = 0x1_0000_0000_0000_0000int;
            let step = 0x9E37_79B9_7F4A_7C15int;
            &&& a == (seed + step) % m
            &&& b == (seed + 2 * step) % m
            &&& c == (seed + 3 * step) % m
            &&& rng::counted(c) == (seed + 4 * step) % m
        }),
{
    lemma_counted(seed as int, seed);
    let step = 0x9E37_79B9_7F4A_7C15int;
    let a = rng::counted(seed);
    lemma_counted(seed + step, a);
    let b = rng::counted(a);
    lemma_counted(seed + 2 * step, b);
    lemma_counted(seed + 3 * step, rng::counted(b));
}

proof fn lemma_counted(x: int, y: u64)
    requires
        y == x % 0x1_0000_0000_0000_0000,
    ensures
        rng::counted(y) == (x + 0x9E37_79B9_7F4A_7C15) % 0x1_0000_0000_0000_0000,
{
    let m = 0x1_0000_0000_0000_0000int;
    let step = 0x9E37_79B9_7F4A_7C15int;
    vstd::arithmetic::div_mod::lemma_add_mod_noop(x, step, m);
    assert(step % m == step);
    assert(rng::counted(y) == (y + step) % m);
}

/// A fraction is the top 24 bits of the number that the state yields, over 2^24.
pub proof fn law_fraction(r: Xoshiro256StarStar)
    ensures
        float::value(r.fraction()) * 0x100_0000 == (r.output() as int / 0x100_0000_0000)
            * bounds::one(),
{
    lemma2_to64();
    let x = r.output();
    assert(x >> 40 < 0x100_0000u64 && x >> 40 == x / 0x100_0000_0000u64) by (bit_vector);
    let n = (x >> 40) as nat;
    lemma_pow2_adds(125, 24);
    lemma_pow2_pos(125);
    let den = pow2(24);
    assert(n * pow2(149) == n * pow2(125) * den) by (nonlinear_arith)
        requires
            pow2(149) == pow2(125) * den,
    ;
    order::lemma_exact(n, 125, den);
    assert((n * pow2(125)) * 0x100_0000 == n * pow2(149)) by (nonlinear_arith)
        requires
            pow2(149) == pow2(125) * 0x100_0000,
    ;
}

/// The state before a step.
pub open spec fn unstepped(r: Xoshiro256StarStar) -> Xoshiro256StarStar {
    let three = (r.s3 << 19) | (r.s3 >> 45);
    let z = r.s2 ^ r.s1;
    let one = ((z ^ (z << 17)) ^ (z << 34)) ^ (z << 51);
    let zero = r.s0 ^ three;
    Xoshiro256StarStar { s0: zero, s1: one, s2: (r.s1 ^ one) ^ zero, s3: three ^ one }
}

/// A step can be taken back.
pub proof fn law_step_is_undone(r: Xoshiro256StarStar)
    ensures
        unstepped(r.stepped()) == r,
{
    let (a, b, c, d) = (r.s0, r.s1, r.s2, r.s3);
    let two = c ^ a;
    let three = d ^ b;
    let t = (three << 45) | (three >> 19);
    assert((t << 19) | (t >> 45) == three) by (bit_vector)
        requires
            t == (three << 45) | (three >> 19),
    ;
    let x = b ^ two;
    let y = two ^ (b << 17);
    let z = y ^ x;
    assert(((z ^ (z << 17)) ^ (z << 34)) ^ (z << 51) == b) by (bit_vector)
        requires
            x == b ^ two,
            y == two ^ (b << 17),
            z == y ^ x,
    ;
    assert((a ^ three) ^ three == a) by (bit_vector);
    assert((x ^ b) ^ a == c) by (bit_vector)
        requires
            x == b ^ two,
            two == c ^ a,
    ;
    assert(three ^ b == d) by (bit_vector)
        requires
            three == d ^ b,
    ;
}

/// The second part of the state can be read off the number that it yields.
pub proof fn law_output_is_undone(r: Xoshiro256StarStar)
    ensures
        ({
            let y = r.output().wrapping_mul(0x8E38_E38E_38E3_8E39);
            ((y << 57) | (y >> 7)).wrapping_mul(0xCCCC_CCCC_CCCC_CCCD) == r.s1
        }),
{
    let x = r.s1.wrapping_mul(5);
    let t = (x << 7) | (x >> 57);
    lemma_times_inverse(t, 9, 0x8E38_E38E_38E3_8E39, 5);
    assert((t << 57) | (t >> 7) == x) by (bit_vector)
        requires
            t == (x << 7) | (x >> 57),
    ;
    lemma_times_inverse(r.s1, 5, 0xCCCC_CCCC_CCCC_CCCD, 4);
}

} // verus!
