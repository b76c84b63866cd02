//! What blocks are made of: a block that is packed from scales and digits
//! decodes to the numbers that these stand for.
//!
//! Values are counted in units of 2^-149. A half-precision number is a whole
//! number of 2^-24, which are 2^125 units.

use crate::float::arith;
use crate::float::exact;
use crate::float::float16;
use crate::gguf::dequant;
use crate::gguf::dequant::iq2_xxs;
use crate::gguf::dequant::iq2_xxs::Iq2XxsBlock;
use crate::gguf::dequant::q2_k;
use crate::gguf::dequant::q2_k::Q2KBlock;
use crate::gguf::dequant::q4_0;
use crate::gguf::dequant::q4_0::{Q4_0Block, Q4_1Block};
use crate::gguf::dequant::q4_k;
use crate::gguf::dequant::q4_k::Q4KBlock;
use crate::gguf::dequant::q5_k;
use crate::gguf::dequant::q5_k::Q5KBlock;
use crate::gguf::dequant::q6_k;
use crate::gguf::dequant::q6_k::Q6KBlock;
use crate::gguf::dequant::q8_0::Q8_0Block;
use crate::gguf::dequant::q8_k::Q8KBlock;
use crate::gguf::dequant::Block;
use crate::gguf::reader;
use crate::gguf::tensor::GgmlType;
use vstd::arithmetic::power2::*;
use vstd::prelude::*;

verus! {

/// Whether half-precision bits are finite.
pub open spec fn finite_half(h: u16) -> bool {
    h % 0x8000 < 0x7C00
}

/// Whether `n` digits are all below `base`.
pub open spec fn are_digits(q: Seq<u8>, n: nat, base: int) -> bool {
    q.len() == n && forall|i: int| 0 <= i < n ==> #[trigger] q[i] < base
}

/// A byte with two digits of four bits.
pub open spec fn byte_of_two(low: u8, high: u8) -> u8 {
    (low + 16 * high) as u8
}

/// A byte with four digits of two bits, the first one lowest.
pub open spec fn byte_of_four(a: int, b: int, c: int, d: int) -> u8 {
    (a + 4 * b + 16 * c + 64 * d) as u8
}

/// A byte with eight binary digits, the first one lowest.
pub open spec fn byte_of_bits(b: spec_fn(int) -> int) -> u8 {
    (b(0) + 2 * b(1) + 4 * b(2) + 8 * b(3) + 16 * b(4) + 32 * b(5) + 64 * b(6) + 128 * b(7)) as u8
}

/// The two bytes of half-precision bits.
pub open spec fn half_bytes(h: u16) -> Seq<u8> {
    seq![(h % 0x100) as u8, (h / 0x100) as u8]
}

/// A signed byte in two's complement.
pub open spec fn byte_of_signed(v: int) -> u8 {
    if v < 0 {
        (v + 256) as u8
    } else {
        v as u8
    }
}

proof fn lemma_half_at(block: Seq<u8>, at: int, h: u16)
    requires
        block[at] == half_bytes(h)[0],
        block[at + 1] == half_bytes(h)[1],
    ensures
        dequant::half_at(block, at) == float16::of_half(h),
{
    assert(h % 0x100 + 0x100 * (h / 0x100) == h);
}

proof fn lemma_two(low: u8, high: u8)
    requires
        low < 16,
        high < 16,
    ensures
        byte_of_two(low, high) % 16 == low,
        byte_of_two(low, high) / 16 == high,
{
}

proof fn lemma_four(a: int, b: int, c: int, d: int, k: int)
    requires
        0 <= a < 4,
        0 <= b < 4,
        0 <= c < 4,
        0 <= d < 4,
        0 <= k < 4,
    ensures
        dequant::two_bits(byte_of_four(a, b, c, d), k) == if k == 0 {
            a
        } else if k == 1 {
            b
        } else if k == 2 {
            c
        } else {
            d
        },
{
    lemma2_to64();
    let v = byte_of_four(a, b, c, d) as int;
    assert(v == a + 4 * b + 16 * c + 64 * d);
    if k == 0 {
        assert(v / 1 % 4 == a);
    } else if k == 1 {
        assert(v / 4 % 4 == b);
    } else if k == 2 {
        assert(v / 16 % 4 == c);
    } else {
        assert(v / 64 % 4 == d);
    }
}

proof fn lemma_bits(b: spec_fn(int) -> int, k: int)
    requires
        forall|j: int| 0 <= j < 8 ==> 0 <= #[trigger] b(j) < 2,
        0 <= k < 8,
    ensures
        dequant::bit(byte_of_bits(b), k) == b(k),
{
    lemma2_to64();
    assert(0 <= b(0) < 2 && 0 <= b(1) < 2 && 0 <= b(2) < 2 && 0 <= b(3) < 2 && 0 <= b(4) < 2 && 0
        <= b(5) < 2 && 0 <= b(6) < 2 && 0 <= b(7) < 2);
    let v = byte_of_bits(b) as int;
    assert(v == b(0) + 2 * b(1) + 4 * b(2) + 8 * b(3) + 16 * b(4) + 32 * b(5) + 64 * b(6) + 128 * b(
        7,
    ));
    if k == 0 {
        assert(v / 1 % 2 == b(0));
    } else if k == 1 {
        assert(v / 2 % 2 == b(1));
    } else if k == 2 {
        assert(v / 4 % 2 == b(2));
    } else if k == 3 {
        assert(v / 8 % 2 == b(3));
    } else if k == 4 {
        assert(v / 16 % 2 == b(4));
    } else if k == 5 {
        assert(v / 32 % 2 == b(5));
    } else if k == 6 {
        assert(v / 64 % 2 == b(6));
    } else {
        assert(v / 128 % 2 == b(7));
    }
}

proof fn lemma_signed(v: int)
    requires
        -128 <= v < 128,
    ensures
        dequant::signed_value(byte_of_signed(v)) == v,
{
}

/// A Q4_0 block: a scale, then byte `j` with digits `j` and `16 + j`.
pub open spec fn q4_0_block(d: u16, q: Seq<u8>) -> Seq<u8> {
    half_bytes(d) + Seq::new(16, |j: int| byte_of_two(q[j], q[16 + j]))
}

/// A Q4_0 block decodes to its digits, less eight, times the scale.
#[verifier::rlimit(60)]
#[verifier::spinoff_prover]
pub proof fn law_q4_0(d: u16, q: Seq<u8>, i: int)
    requires
        finite_half(d),
        are_digits(q, 32, 16),
        0 <= i < 32,
    ensures
        q4_0_block(d, q).len() == Q4_0Block.bytes(),
        Q4_0Block.elements() == 32,
        exact::is_exactly(
            Q4_0Block.element(q4_0_block(d, q), i),
            (q[i] - 8) * exact::half_value(d),
            125,
        ),
{
    let block = q4_0_block(d, q);
    lemma_half_at(block, 0, d);
    assert(q4_0::digits_of(block, 2, i) == q[i]) by {
        let j = i % 16;
        assert(q[j] < 16 && q[16 + j] < 16);
        lemma_two(q[j], q[16 + j]);
        assert(block[2 + j] == byte_of_two(q[j], q[16 + j]));
    }
    assert(q[i] < 16);
    assert(Q4_0Block.element(block, i) == arith::product(
        arith::of_integer(q[i] - 8),
        float16::of_half(d),
    ));
    exact::law_half_times_integer(d, q[i] - 8);
}

/// A Q4_1 block: a scale, a minimum, then byte `j` with digits `j` and `16 + j`.
pub open spec fn q4_1_block(d: u16, m: u16, q: Seq<u8>) -> Seq<u8> {
    half_bytes(d) + half_bytes(m) + Seq::new(16, |j: int| byte_of_two(q[j], q[16 + j]))
}

/// A Q4_1 block decodes to its digits times the scale and the minimum, rounded
/// once.
#[verifier::rlimit(60)]
#[verifier::spinoff_prover]
pub proof fn law_q4_1(d: u16, m: u16, q: Seq<u8>, i: int)
    requires
        finite_half(d),
        finite_half(m),
        are_digits(q, 32, 16),
        0 <= i < 32,
    ensures
        q4_1_block(d, m, q).len() == Q4_1Block.bytes(),
        Q4_1Block.elements() == 32,
        exact::is_nearest(
            Q4_1Block.element(q4_1_block(d, m, q), i),
            (q[i] * exact::half_value(d) + exact::half_value(m)) * pow2(125),
        ),
{
    let block = q4_1_block(d, m, q);
    lemma_half_at(block, 0, d);
    lemma_half_at(block, 2, m);
    assert(q4_0::digits_of(block, 4, i) == q[i]) by {
        let j = i % 16;
        assert(q[j] < 16 && q[16 + j] < 16);
        lemma_two(q[j], q[16 + j]);
        assert(block[4 + j] == byte_of_two(q[j], q[16 + j]));
    }
    assert(q[i] < 16);
    assert(Q4_1Block.element(block, i) == arith::sum(
        arith::product(arith::of_integer(q[i] as int), float16::of_half(d)),
        float16::of_half(m),
    ));
    lemma_offset_digit(d, m, q[i] as int);
}

proof fn lemma_offset_digit(d: u16, m: u16, q: int)
    requires
        finite_half(d),
        finite_half(m),
        0 <= q < 16,
    ensures
        exact::is_nearest(
            arith::sum(
                arith::product(arith::of_integer(q), float16::of_half(d)),
                float16::of_half(m),
            ),
            (q * exact::half_value(d) + exact::half_value(m)) * pow2(125),
        ),
{
    exact::law_half_times_integer(d, q);
    exact::law_half_is_exact(m);
    exact::law_sum_rounds_once(
        arith::product(arith::of_integer(q), float16::of_half(d)),
        q * exact::half_value(d),
        float16::of_half(m),
        exact::half_value(m),
        125,
    );
}

/// A Q8_0 block: a scale, then the signed bytes.
pub open spec fn q8_0_block(d: u16, v: Seq<int>) -> Seq<u8> {
    half_bytes(d) + Seq::new(32, |j: int| byte_of_signed(v[j]))
}

/// A Q8_0 block decodes to its signed bytes times the scale.
#[verifier::rlimit(60)]
#[verifier::spinoff_prover]
pub proof fn law_q8_0(d: u16, v: Seq<int>, i: int)
    requires
        finite_half(d),
        v.len() == 32,
        -128 <= v[i] < 128,
        0 <= i < 32,
    ensures
        q8_0_block(d, v).len() == Q8_0Block.bytes(),
        Q8_0Block.elements() == 32,
        exact::is_exactly(
            Q8_0Block.element(q8_0_block(d, v), i),
            v[i] * exact::half_value(d),
            125,
        ),
{
    let block = q8_0_block(d, v);
    lemma_half_at(block, 0, d);
    assert(block[2 + i] == byte_of_signed(v[i]));
    lemma_signed(v[i]);
    exact::law_half_times_integer(d, v[i]);
}

/// A Q8_K block: a single-precision scale, the signed bytes, and 32 bytes of
/// sums that decoding leaves alone.
pub open spec fn q8_k_block(d: u32, v: Seq<int>, sums: Seq<u8>) -> Seq<u8> {
    seq![
        (d % 0x100) as u8,
        (d / 0x100 % 0x100) as u8,
        (d / 0x1_0000 % 0x100) as u8,
        (d / 0x100_0000) as u8,
    ] + Seq::new(256, |j: int| byte_of_signed(v[j])) + sums
}

proof fn lemma_four_bytes(d: u32)
    ensures
        d % 0x100 + 0x100 * (d / 0x100 % 0x100) + 0x1_0000 * (d / 0x1_0000 % 0x100) + 0x100_0000 * (d
            / 0x100_0000) == d,
{
}

/// A Q8_K block decodes to its signed bytes times the scale, rounded once.
#[verifier::rlimit(60)]
#[verifier::spinoff_prover]
pub proof fn law_q8_k(d: u32, v: Seq<int>, sums: Seq<u8>, i: int)
    requires
        v.len() == 256,
        sums.len() == 32,
        -128 <= v[i] < 128,
        0 <= i < 256,
    ensures
        q8_k_block(d, v, sums).len() == Q8KBlock.bytes(),
        Q8KBlock.elements() == 256,
        Q8KBlock.element(q8_k_block(d, v, sums), i) == arith::product(d, arith::of_integer(v[i])),
        exact::is_exactly(arith::of_integer(v[i]), v[i], 149),
{
    let block = q8_k_block(d, v, sums);
    assert(block[4 + i] == byte_of_signed(v[i]));
    lemma_signed(v[i]);
    assert(block[0] + 0x100 * block[1] + 0x1_0000 * block[2] + 0x100_0000 * block[3] == d) by {
        assert(block[0] == d % 0x100);
        assert(block[1] == d / 0x100 % 0x100);
        assert(block[2] == d / 0x1_0000 % 0x100);
        assert(block[3] == d / 0x100_0000);
        lemma_four_bytes(d);
    }
    exact::law_small_integers_are_exact(v[i]);
}

/// A Q4_K block: scales for scales and minimums, these packed, then byte
/// `32 * c + l` with digits `64 * c + l` and `64 * c + 32 + l`.
pub open spec fn q4_k_block(d: u16, m: u16, sc: Seq<u8>, mn: Seq<u8>, q: Seq<u8>) -> Seq<u8> {
    half_bytes(d) + half_bytes(m) + dequant::pack(sc, mn) + Seq::new(
        128,
        |b: int| byte_of_two(q[b / 32 * 64 + b % 32], q[b / 32 * 64 + 32 + b % 32]),
    )
}

/// What digits, the scale and the minimum of their sub-block and the scales of
/// these stand for.
pub open spec fn scaled_digit(d: u16, m: u16, sc: int, mn: int, q: int) -> int {
    (exact::half_value(d) * sc * q - exact::half_value(m) * mn) * pow2(125)
}

proof fn lemma_scaled_digit(d: u16, m: u16, sc: int, mn: int, q: int)
    requires
        finite_half(d),
        finite_half(m),
        0 <= sc < 64,
        0 <= mn < 64,
        0 <= q < 32,
    ensures
        exact::is_nearest(
            arith::difference(
                arith::product(
                    arith::product(float16::of_half(d), arith::of_integer(sc)),
                    arith::of_integer(q),
                ),
                arith::product(float16::of_half(m), arith::of_integer(mn)),
            ),
            scaled_digit(d, m, sc, mn, q),
        ),
{
    assert(0 <= sc * q <= 63 * 31) by (nonlinear_arith)
        requires
            0 <= sc < 64,
            0 <= q < 32,
    ;
    exact::law_half_times_integers(d, sc, q);
    exact::law_half_times_integer(m, mn);
    exact::law_difference_rounds_once(
        arith::product(
            arith::product(float16::of_half(d), arith::of_integer(sc)),
            arith::of_integer(q),
        ),
        exact::half_value(d) * sc * q,
        arith::product(float16::of_half(m), arith::of_integer(mn)),
        exact::half_value(m) * mn,
        125,
    );
}

/// Element `i` of a Q4_K block is digit `i` times the scale of sub-block
/// `i / 32`, less its minimum, rounded once.
#[verifier::rlimit(60)]
#[verifier::spinoff_prover]
pub proof fn law_q4_k(d: u16, m: u16, sc: Seq<u8>, mn: Seq<u8>, q: Seq<u8>, i: int)
    requires
        finite_half(d),
        finite_half(m),
        are_digits(sc, 8, 64),
        are_digits(mn, 8, 64),
        are_digits(q, 256, 16),
        0 <= i < 256,
    ensures
        q4_k_block(d, m, sc, mn, q).len() == Q4KBlock.bytes(),
        Q4KBlock.elements() == 256,
        exact::is_nearest(
            Q4KBlock.element(q4_k_block(d, m, sc, mn, q), i),
            scaled_digit(d, m, sc[i / 32] as int, mn[i / 32] as int, q[i] as int),
        ),
{
    let block = q4_k_block(d, m, sc, mn, q);
    lemma_half_at(block, 0, d);
    lemma_half_at(block, 2, m);
    assert(block.subrange(4, 16) =~= dequant::pack(sc, mn));
    dequant::law_scales_round_trip(sc, mn, i / 32);
    assert(q4_k::digits_of(block, i) == q[i]) by {
        let b = i / 64 * 32 + i % 32;
        let low = i / 64 * 64 + i % 32;
        assert(0 <= b < 128 && b / 32 == i / 64 && b % 32 == i % 32);
        assert(q[low] < 16 && q[low + 32] < 16);
        assert(block[16 + b] == byte_of_two(q[low], q[low + 32]));
        lemma_two(q[low], q[low + 32]);
        assert(i == low || i == low + 32);
    }
    assert(q[i] < 16);
    assert(sc[i / 32] < 64 && mn[i / 32] < 64);
    lemma_scaled_digit(d, m, sc[i / 32] as int, mn[i / 32] as int, q[i] as int);
}

/// A Q5_K block: as Q4_K, with byte `l` of the fifth digits before the others:
/// its bit `s` belongs to element `32 * s + l`.
pub open spec fn q5_k_block(d: u16, m: u16, sc: Seq<u8>, mn: Seq<u8>, q: Seq<u8>) -> Seq<u8> {
    half_bytes(d) + half_bytes(m) + dequant::pack(sc, mn) + Seq::new(
        32,
        |l: int| byte_of_bits(|s: int| (q[32 * s + l] / 16) as int),
    ) + Seq::new(
        128,
        |b: int|
            byte_of_two(q[b / 32 * 64 + b % 32] % 16, q[b / 32 * 64 + 32 + b % 32] % 16),
    )
}

proof fn lemma_five_digits(d: u16, m: u16, sc: Seq<u8>, mn: Seq<u8>, q: Seq<u8>, i: int)
    requires
        are_digits(q, 256, 32),
        0 <= i < 256,
    ensures
        q5_k::digits_of(q5_k_block(d, m, sc, mn, q), i) == q[i],
{
    let block = q5_k_block(d, m, sc, mn, q);
    let l = i % 32;
    let fifth = |s: int| (q[32 * s + l] / 16) as int;
    assert(block[16 + l] == byte_of_bits(fifth));
    assert forall|s: int| 0 <= s < 8 implies 0 <= #[trigger] fifth(s) < 2 by {
        assert(q[32 * s + l] < 32);
    }
    lemma_bits(fifth, i / 32);
    assert(32 * (i / 32) + l == i);
    let b = i / 64 * 32 + l;
    let low = i / 64 * 64 + l;
    assert(0 <= b < 128 && b / 32 == i / 64 && b % 32 == l);
    assert(block[48 + b] == byte_of_two(q[low] % 16, q[low + 32] % 16));
    lemma_two(q[low] % 16, q[low + 32] % 16);
    assert(i == low || i == low + 32);
    assert(q[i] % 16 + 16 * (q[i] / 16) == q[i]);
}

/// Element `i` of a Q5_K block is digit `i` times the scale of sub-block
/// `i / 32`, less its minimum, rounded once.
#[verifier::rlimit(60)]
#[verifier::spinoff_prover]
pub proof fn law_q5_k(d: u16, m: u16, sc: Seq<u8>, mn: Seq<u8>, q: Seq<u8>, i: int)
    requires
        finite_half(d),
        finite_half(m),
        are_digits(sc, 8, 64),
        are_digits(mn, 8, 64),
        are_digits(q, 256, 32),
        0 <= i < 256,
    ensures
        q5_k_block(d, m, sc, mn, q).len() == Q5KBlock.bytes(),
        Q5KBlock.elements() == 256,
        exact::is_nearest(
            Q5KBlock.element(q5_k_block(d, m, sc, mn, q), i),
            scaled_digit(d, m, sc[i / 32] as int, mn[i / 32] as int, q[i] as int),
        ),
{
    let block = q5_k_block(d, m, sc, mn, q);
    lemma_half_at(block, 0, d);
    lemma_half_at(block, 2, m);
    assert(block.subrange(4, 16) =~= dequant::pack(sc, mn));
    dequant::law_scales_round_trip(sc, mn, i / 32);
    lemma_five_digits(d, m, sc, mn, q, i);
    assert(q[i] < 32);
    assert(sc[i / 32] < 64 && mn[i / 32] < 64);
    lemma_scaled_digit(d, m, sc[i / 32] as int, mn[i / 32] as int, q[i] as int);
}

/// A Q2_K block: bytes with the scale and the minimum of each sub-block of 16,
/// then byte `32 * h + l` with digits `128 * h + l` and those 32, 64 and 96
/// behind it, then scales for scales and minimums.
pub open spec fn q2_k_block(d: u16, m: u16, sc: Seq<u8>, mn: Seq<u8>, q: Seq<u8>) -> Seq<u8> {
    Seq::new(16, |s: int| byte_of_two(sc[s], mn[s])) + Seq::new(
        64,
        |b: int|
            byte_of_four(
                q[b / 32 * 128 + b % 32] as int,
                q[b / 32 * 128 + 32 + b % 32] as int,
                q[b / 32 * 128 + 64 + b % 32] as int,
                q[b / 32 * 128 + 96 + b % 32] as int,
            ),
    ) + half_bytes(d) + half_bytes(m)
}

/// Element `i` of a Q2_K block is digit `i` times the scale of sub-block
/// `i / 16`, less its minimum, rounded once.
#[verifier::rlimit(60)]
#[verifier::spinoff_prover]
pub proof fn law_q2_k(d: u16, m: u16, sc: Seq<u8>, mn: Seq<u8>, q: Seq<u8>, i: int)
    requires
        finite_half(d),
        finite_half(m),
        are_digits(sc, 16, 16),
        are_digits(mn, 16, 16),
        are_digits(q, 256, 4),
        0 <= i < 256,
    ensures
        q2_k_block(d, m, sc, mn, q).len() == Q2KBlock.bytes(),
        Q2KBlock.elements() == 256,
        exact::is_nearest(
            Q2KBlock.element(q2_k_block(d, m, sc, mn, q), i),
            scaled_digit(d, m, sc[i / 16] as int, mn[i / 16] as int, q[i] as int),
        ),
{
    let block = q2_k_block(d, m, sc, mn, q);
    lemma_half_at(block, 80, d);
    lemma_half_at(block, 82, m);
    let s = i / 16;
    assert(sc[s] < 16 && mn[s] < 16);
    assert(block[s] == byte_of_two(sc[s], mn[s]));
    lemma_two(sc[s], mn[s]);
    assert(q2_k::digits_of(block, i) == q[i]) by {
        let b = i / 128 * 32 + i % 32;
        let low = i / 128 * 128 + i % 32;
        assert(0 <= b < 64 && b / 32 == i / 128 && b % 32 == i % 32);
        assert(q[low] < 4 && q[low + 32] < 4 && q[low + 64] < 4 && q[low + 96] < 4);
        assert(block[16 + b] == byte_of_four(
            q[low] as int,
            q[low + 32] as int,
            q[low + 64] as int,
            q[low + 96] as int,
        ));
        lemma_four(
            q[low] as int,
            q[low + 32] as int,
            q[low + 64] as int,
            q[low + 96] as int,
            i % 128 / 32,
        );
        assert(i == low + 32 * (i % 128 / 32));
    }
    assert(q[i] < 4);
    lemma_scaled_digit(d, m, sc[s] as int, mn[s] as int, q[i] as int);
}

/// A Q6_K block: for each half of 128 elements byte `l` and `32 + l` with the
/// low four bits of elements `l` and `64 + l`, and of `32 + l` and `96 + l`; the
/// upper two bits of these four in a byte of their own; signed scales of
/// sub-blocks of 16; a scale for these.
pub open spec fn q6_k_block(d: u16, sc: Seq<int>, q: Seq<u8>) -> Seq<u8> {
    Seq::new(
        128,
        |b: int|
            byte_of_two(q[b / 64 * 128 + b % 64] % 16, q[b / 64 * 128 + 64 + b % 64] % 16),
    ) + Seq::new(
        64,
        |b: int|
            byte_of_four(
                (q[b / 32 * 128 + b % 32] / 16) as int,
                (q[b / 32 * 128 + 32 + b % 32] / 16) as int,
                (q[b / 32 * 128 + 64 + b % 32] / 16) as int,
                (q[b / 32 * 128 + 96 + b % 32] / 16) as int,
            ),
    ) + Seq::new(16, |s: int| byte_of_signed(sc[s])) + half_bytes(d)
}

/// Element `i` of a Q6_K block is digit `i`, less 32, times the scale of
/// sub-block `i / 16` and the scale of the block.
#[verifier::rlimit(60)]
#[verifier::spinoff_prover]
pub proof fn law_q6_k(d: u16, sc: Seq<int>, q: Seq<u8>, i: int)
    requires
        finite_half(d),
        sc.len() == 16,
        -128 <= sc[i / 16] < 128,
        are_digits(q, 256, 64),
        0 <= i < 256,
    ensures
        q6_k_block(d, sc, q).len() == Q6KBlock.bytes(),
        Q6KBlock.elements() == 256,
        exact::is_exactly(
            Q6KBlock.element(q6_k_block(d, sc, q), i),
            exact::half_value(d) * sc[i / 16] * (q[i] - 32),
            125,
        ),
{
    let block = q6_k_block(d, sc, q);
    lemma_half_at(block, 208, d);
    let s = sc[i / 16];
    assert(block[192 + i / 16] == byte_of_signed(s));
    lemma_signed(s);
    assert(q6_k::centred(block, i) == q[i] - 32) by {
        let half = i / 128;
        let row = i % 128 / 32;
        let l = i % 32;
        let b = half * 64 + row % 2 * 32 + l;
        assert(0 <= b < 128 && b / 64 == half && b % 64 == row % 2 * 32 + l);
        let low = half * 128 + row % 2 * 32 + l;
        assert(i == low || i == low + 64);
        assert(block[b] == byte_of_two(q[low] % 16, q[low + 64] % 16));
        lemma_two(q[low] % 16, q[low + 64] % 16);
        let c = half * 32 + l;
        let first = half * 128 + l;
        assert(0 <= c < 64 && c / 32 == half && c % 32 == l);
        assert(q[first] < 64 && q[first + 32] < 64 && q[first + 64] < 64 && q[first + 96] < 64);
        assert(block[128 + c] == byte_of_four(
            (q[first] / 16) as int,
            (q[first + 32] / 16) as int,
            (q[first + 64] / 16) as int,
            (q[first + 96] / 16) as int,
        ));
        lemma_four(
            (q[first] / 16) as int,
            (q[first + 32] / 16) as int,
            (q[first + 64] / 16) as int,
            (q[first + 96] / 16) as int,
            row,
        );
        assert(i == first + 32 * row);
        assert(q[i] % 16 + 16 * (q[i] / 16) == q[i]);
    }
    assert(q[i] < 64);
    let n = q[i] - 32;
    assert(-0x1000 <= s * n <= 0x1000) by (nonlinear_arith)
        requires
            -128 <= s < 128,
            -32 <= n < 32,
    ;
    exact::law_half_times_integers(d, s, n);
}

/// The 32 bits of a sub-group: four sign indices of seven bits and an extra
/// digit of four.
pub open spec fn group_word(signs: Seq<u8>, extra: int) -> nat {
    (signs[0] + 0x80 * signs[1] + 0x4000 * signs[2] + 0x20_0000 * signs[3] + 0x1000_0000 * extra) as nat
}

/// An IQ2_XXS block: a scale, then for each of eight sub-groups four grid
/// indices and the word of their signs.
pub open spec fn iq2_xxs_block(d: u16, grids: Seq<u8>, signs: Seq<u8>, extra: Seq<u8>) -> Seq<u8> {
    half_bytes(d) + Seq::new(
        64,
        |b: int|
            {
                let g = b / 8;
                let w = group_word(signs.subrange(4 * g, 4 * g + 4), extra[g] as int);
                if b % 8 < 4 {
                    grids[4 * g + b % 8]
                } else if b % 8 == 4 {
                    (w % 0x100) as u8
                } else if b % 8 == 5 {
                    (w / 0x100 % 0x100) as u8
                } else if b % 8 == 6 {
                    (w / 0x1_0000 % 0x100) as u8
                } else {
                    (w / 0x100_0000) as u8
                }
            },
    )
}

/// Whether sign `j` of eight is negative: bit `j` of the index, and for the last
/// one whether the others are odd in number.
pub open spec fn is_minus(index: u8, j: int) -> bool {
    if j < 7 {
        dequant::bit(index, j) == 1
    } else {
        (dequant::bit(index, 0) + dequant::bit(index, 1) + dequant::bit(index, 2) + dequant::bit(
            index,
            3,
        ) + dequant::bit(index, 4) + dequant::bit(index, 5) + dequant::bit(index, 6)) % 2 == 1
    }
}

/// The signs of an index are its bits, and one more that evens them out.
proof fn lemma_minus(index: u8, j: int)
    requires
        index < 128,
        0 <= j < 8,
    ensures
        (dequant::bit(iq2_xxs::signs_of(index), j) != 0) == is_minus(index, j),
{
    lemma2_to64();
    let v = iq2_xxs::signs_of(index) as int;
    let k = index as int;
    assert(v == k || v == k + 128);
    if j == 0 {
        assert(v / 1 % 2 == k / 1 % 2);
    } else if j == 1 {
        assert(v / 2 % 2 == k / 2 % 2);
    } else if j == 2 {
        assert(v / 4 % 2 == k / 4 % 2);
    } else if j == 3 {
        assert(v / 8 % 2 == k / 8 % 2);
    } else if j == 4 {
        assert(v / 16 % 2 == k / 16 % 2);
    } else if j == 5 {
        assert(v / 32 % 2 == k / 32 % 2);
    } else if j == 6 {
        assert(v / 64 % 2 == k / 64 % 2);
    } else {
        assert(v / 128 % 2 == v / 128);
    }
}

/// The word of a sub-group gives back its signs and its extra digit.
proof fn lemma_word(signs: Seq<u8>, extra: int, l: int)
    requires
        are_digits(signs, 4, 128),
        0 <= extra < 16,
        0 <= l < 4,
    ensures
        group_word(signs, extra) < 0x1_0000_0000,
        iq2_xxs::sign_index(group_word(signs, extra), l) == signs[l],
        group_word(signs, extra) / 0x1000_0000 == extra,
{
    lemma2_to64();
    let w = group_word(signs, extra) as int;
    let (a, b, c, d) = (signs[0] as int, signs[1] as int, signs[2] as int, signs[3] as int);
    assert(a < 128 && b < 128 && c < 128 && d < 128);
    assert(w == a + 0x80 * b + 0x4000 * c + 0x20_0000 * d + 0x1000_0000 * extra);
    lemma_base_128(a, b, c, d, extra);
}

/// The digits of a number to base 128.
#[verifier::spinoff_prover]
proof fn lemma_base_128(a: int, b: int, c: int, d: int, e: int)
    requires
        0 <= a < 128,
        0 <= b < 128,
        0 <= c < 128,
        0 <= d < 128,
        0 <= e,
    ensures
        ({
            let w = a + 0x80 * b + 0x4000 * c + 0x20_0000 * d + 0x1000_0000 * e;
            &&& w / 1 % 128 == a
            &&& w / 0x80 % 128 == b
            &&& w / 0x4000 % 128 == c
            &&& w / 0x20_0000 % 128 == d
            &&& w / 0x1000_0000 == e
        }),
{
    let w = a + 0x80 * b + 0x4000 * c + 0x20_0000 * d + 0x1000_0000 * e;
    let x = b + 0x80 * c + 0x4000 * d + 0x20_0000 * e;
    let y = c + 0x80 * d + 0x4000 * e;
    let z = d + 0x80 * e;
    vstd::arithmetic::div_mod::lemma_fundamental_div_mod_converse(w, 0x80, x, a);
    vstd::arithmetic::div_mod::lemma_fundamental_div_mod_converse(x, 0x80, y, b);
    vstd::arithmetic::div_mod::lemma_fundamental_div_mod_converse(y, 0x80, z, c);
    vstd::arithmetic::div_mod::lemma_fundamental_div_mod_converse(z, 0x80, e, d);
    vstd::arithmetic::div_mod::lemma_div_denominator(w, 0x80, 0x80);
    vstd::arithmetic::div_mod::lemma_div_denominator(w, 0x4000, 0x80);
    vstd::arithmetic::div_mod::lemma_div_denominator(w, 0x20_0000, 0x80);
    assert(w / 1 == w);
}

proof fn lemma_word_bytes(w: nat)
    requires
        w < 0x1_0000_0000,
    ensures
        w % 0x100 + 0x100 * (w / 0x100 % 0x100) + 0x1_0000 * (w / 0x1_0000 % 0x100) + 0x100_0000 * (w
            / 0x100_0000) == w,
{
    let a = w / 0x100;
    let b = w / 0x1_0000;
    let c = w / 0x100_0000;
    vstd::arithmetic::div_mod::lemma_div_denominator(w as int, 0x100, 0x100);
    vstd::arithmetic::div_mod::lemma_div_denominator(w as int, 0x1_0000, 0x100);
    assert(b == a / 0x100);
    assert(c == b / 0x100);
}

/// A byte of a little-endian number is the byte at its place.
proof fn lemma_grid_byte(bytes: Seq<u8>, j: int)
    requires
        bytes.len() == 8,
        0 <= j < 8,
    ensures
        reader::le_value(bytes) / pow2((8 * j) as nat) % 256 == bytes[j],
{
    lemma_le_digit(bytes, j);
}

proof fn lemma_le_digit(bytes: Seq<u8>, j: int)
    requires
        0 <= j < bytes.len(),
    ensures
        reader::le_value(bytes) / pow2((8 * j) as nat) % 256 == bytes[j],
    decreases j,
{
    lemma2_to64();
    let v = reader::le_value(bytes) as int;
    let rest = reader::le_value(bytes.drop_first()) as int;
    assert(v == bytes[0] + 256 * rest);
    if j == 0 {
        assert(v / 1 % 256 == bytes[0]);
    } else {
        let p = pow2((8 * (j - 1)) as nat) as int;
        lemma_le_digit(bytes.drop_first(), j - 1);
        lemma_pow2_adds(8, (8 * (j - 1)) as nat);
        lemma_pow2_pos((8 * (j - 1)) as nat);
        vstd::arithmetic::div_mod::lemma_div_denominator(v, 256, p);
        assert(v / 256 == rest);
        assert(bytes.drop_first()[j - 1] == bytes[j]);
    }
}

/// Element `i` of an IQ2_XXS block: byte `i % 8` of the grid entry of its
/// pattern, with its sign, times the scale of the block, times one half more
/// than the extra digit of its sub-group, times a quarter. In eighths.
#[verifier::rlimit(60)]
#[verifier::spinoff_prover]
pub proof fn law_iq2_xxs(
    grid: &[u64; 256],
    d: u16,
    grids: Seq<u8>,
    signs: Seq<u8>,
    extra: Seq<u8>,
    entry: Seq<u8>,
    i: int,
)
    requires
        finite_half(d),
        grids.len() == 32,
        are_digits(signs, 32, 128),
        are_digits(extra, 8, 16),
        entry.len() == 8,
        0 <= i < 256,
        grid@[grids[i / 8] as int] == reader::le_value(entry),
    ensures
        iq2_xxs_block(d, grids, signs, extra).len() == (Iq2XxsBlock { grid }).bytes(),
        (Iq2XxsBlock { grid }).elements() == 256,
        ({
            let value = exact::half_value(d) * (2 * extra[i / 32] + 1) * dequant::signed_value(
                entry[i % 8],
            );
            exact::is_exactly(
                (Iq2XxsBlock { grid }).element(iq2_xxs_block(d, grids, signs, extra), i),
                if is_minus(signs[i / 8], i % 8) {
                    -value
                } else {
                    value
                },
                122,
            )
        }),
{
    let block = iq2_xxs_block(d, grids, signs, extra);
    let g = i / 32;
    let l = i % 32 / 8;
    let j = i % 8;
    assert(4 * g + l == i / 8);
    let four = signs.subrange(4 * g, 4 * g + 4);
    let w = group_word(four, extra[g] as int);
    assert(extra[g] < 16);
    assert(are_digits(four, 4, 128)) by {
        assert forall|k: int| 0 <= k < 4 implies #[trigger] four[k] < 128 by {
            assert(signs[4 * g + k] < 128);
        }
    }
    lemma_word(four, extra[g] as int, l);
    lemma_half_at(block, 0, d);
    assert(iq2_xxs::packed_of(block, g) == w) by {
        lemma_word_bytes(w);
        assert(block[2 + (8 * g + 4)] == w % 0x100);
        assert(block[2 + (8 * g + 5)] == w / 0x100 % 0x100);
        assert(block[2 + (8 * g + 6)] == w / 0x1_0000 % 0x100);
        assert(block[2 + (8 * g + 7)] == w / 0x100_0000);
    }
    assert(block[2 + 8 * g + l] == grids[i / 8]) by {
        assert((8 * g + l) / 8 == g && (8 * g + l) % 8 == l);
        assert(block[2 + (8 * g + l)] == grids[4 * g + l]);
    }
    lemma_grid_byte(entry, j);
    assert(signs[i / 8] < 128);
    assert(four[l] == signs[i / 8]);
    lemma_minus(signs[i / 8], j);
    let v = dequant::signed_value(entry[j]);
    lemma_pattern(d, extra[g] as int, v, is_minus(signs[i / 8], j));
}

/// A half-precision scale times a few digits, in eighths.
proof fn lemma_pattern(d: u16, extra: int, v: int, minus: bool)
    requires
        finite_half(d),
        0 <= extra < 16,
        -128 <= v < 128,
    ensures
        ({
            let scale = arith::product(
                arith::product(
                    float16::of_half(d),
                    arith::sum(iq2_xxs::HALF, arith::of_integer(extra)),
                ),
                iq2_xxs::QUARTER,
            );
            let sign = if minus {
                iq2_xxs::MINUS_ONE
            } else {
                iq2_xxs::ONE
            };
            let value = exact::half_value(d) * (2 * extra + 1) * v;
            exact::is_exactly(
                arith::product(arith::product(scale, arith::of_integer(v)), sign),
                if minus {
                    -value
                } else {
                    value
                },
                122,
            )
        }),
{
    exact::law_half_eighths(d, extra, v, minus);
}

/// The blocks have the numbers of bytes that their types say.
pub proof fn law_block_sizes(
    d: u16,
    m: u16,
    f: u32,
    q: Seq<u8>,
    v: Seq<int>,
    sc: Seq<u8>,
    mn: Seq<u8>,
    sums: Seq<u8>,
)
    requires
        sums.len() == 32,
    ensures
        q4_0_block(d, q).len() == GgmlType::Q4_0.bytes(),
        q4_1_block(d, m, q).len() == GgmlType::Q4_1.bytes(),
        q8_0_block(d, v).len() == GgmlType::Q8_0.bytes(),
        q8_k_block(f, v, sums).len() == GgmlType::Q8_K.bytes(),
        q4_k_block(d, m, sc, mn, q).len() == GgmlType::Q4_K.bytes(),
        q5_k_block(d, m, sc, mn, q).len() == GgmlType::Q5_K.bytes(),
        q2_k_block(d, m, sc, mn, q).len() == GgmlType::Q2_K.bytes(),
        q6_k_block(d, v, q).len() == GgmlType::Q6_K.bytes(),
        iq2_xxs_block(d, q, sc, mn).len() == GgmlType::IQ2_XXS.bytes(),
{
}

} // verus!
