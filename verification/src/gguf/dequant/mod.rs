//! Decoding tensor data to single precision.
//!
//! Data is a row of blocks. What a format does is said by what element `i` of a
//! block decodes to; numbers are bits, see [`crate::float`].

pub mod float;
pub mod fp8_e4m3;
pub mod iq2_xxs;
pub mod packing;
pub mod q2_k;
pub mod q4_0;
pub mod q4_k;
pub mod q5_k;
pub mod q6_k;
pub mod q8_0;
pub mod q8_k;

use crate::gguf::error::{Error, ErrorView};
use crate::gguf::reader;
use crate::gguf::tensor::GgmlType;
use vstd::arithmetic::power2::*;
use vstd::prelude::*;

verus! {

/// A format of blocks.
pub trait Block {
    /// Elements of a block.
    spec fn elements(&self) -> nat;

    /// Bytes of a block.
    spec fn bytes(&self) -> nat;

    /// The bits that element `i` of a block decodes to.
    spec fn element(&self, block: Seq<u8>, i: int) -> u32;

    /// Elements of a block.
    fn element_count(&self) -> (n: usize)
        ensures
            n == self.elements(),
            1 <= n <= 256,
    ;

    /// Bytes of a block.
    fn byte_count(&self) -> (n: usize)
        ensures
            n == self.bytes(),
            1 <= n <= 292,
            n <= 4 * self.elements(),
    ;

    /// Decodes a block.
    fn decode(&self, block: &[u8]) -> (out: Vec<u32>)
        requires
            block@.len() == self.bytes(),
        ensures
            out@ == Seq::new(self.elements(), |i: int| self.element(block@, i)),
    ;
}

/// Why `src_len` bytes are not the data of `dst_len` elements, if they are not:
/// only whole blocks are decoded, and there must be as many of them as hold the
/// elements.
pub open spec fn layout_error(src_len: nat, dst_len: nat, elements: nat, bytes: nat) -> Option<
    ErrorView,
> {
    let blocks = (dst_len + elements - 1) as nat / elements;
    if dst_len % elements != 0 || src_len != blocks * bytes {
        Some(ErrorView::DequantSizeMismatch { src_bytes: src_len, expected_bytes: blocks * bytes })
    } else {
        None
    }
}

/// The bytes of block `b`.
pub open spec fn block_of(src: Seq<u8>, b: int, bytes: nat) -> Seq<u8> {
    src.subrange(b * bytes, b * bytes + bytes)
}

/// What `n` elements decode to.
pub open spec fn decoded<B: Block>(format: B, src: Seq<u8>, n: nat) -> Seq<u32> {
    Seq::new(
        n,
        |i: int|
            format.element(
                block_of(src, i / format.elements() as int, format.bytes()),
                i % format.elements() as int,
            ),
    )
}

/// What decoding a row of blocks does: the error and `dst` as it was, or the
/// elements.
pub open spec fn decodes<B: Block>(
    format: B,
    src: Seq<u8>,
    before: Seq<u32>,
    after: Seq<u32>,
    r: Result<(), Error>,
) -> bool {
    match layout_error(src.len(), before.len(), format.elements(), format.bytes()) {
        Some(e) => r is Err && r->Err_0@ == e && after == before,
        None => r is Ok && after == decoded(format, src, before.len()),
    }
}

/// Checks that there are as many bytes as whole blocks of the elements have.
fn check_block_layout(src_len: usize, dst_len: usize, elements: usize, bytes: usize) -> (r: Result<
    usize,
    Error,
>)
    requires
        dst_len <= usize::MAX / 8,
        1 <= elements <= 256,
        1 <= bytes <= 292,
        bytes <= 4 * elements,
    ensures
        match layout_error(src_len as nat, dst_len as nat, elements as nat, bytes as nat) {
            Some(e) => r is Err && r->Err_0@ == e,
            None => r is Ok && r->Ok_0 * elements == dst_len && r->Ok_0 * bytes == src_len,
        },
{
    let whole: usize = dst_len / elements;
    let rest: usize = dst_len % elements;
    let blocks: usize = if rest == 0 {
        whole
    } else {
        whole + 1
    };
    proof {
        let e = elements as int;
        vstd::arithmetic::div_mod::lemma_fundamental_div_mod(dst_len as int, e);
        assert(e * whole == whole * e) by (nonlinear_arith);
        assert((whole + 1) * e == whole * e + e) by (nonlinear_arith);
        if rest == 0 {
            vstd::arithmetic::div_mod::lemma_fundamental_div_mod_converse(
                dst_len + e - 1,
                e,
                whole as int,
                e - 1,
            );
        } else {
            vstd::arithmetic::div_mod::lemma_fundamental_div_mod_converse(
                dst_len + e - 1,
                e,
                whole + 1,
                rest - 1,
            );
        }
        assert(whole * bytes <= 4 * (whole * e)) by (nonlinear_arith)
            requires
                bytes <= 4 * e,
                whole >= 0,
        ;
        assert(blocks * bytes <= whole * bytes + bytes) by (nonlinear_arith)
            requires
                blocks <= whole + 1,
                bytes >= 0,
        ;
        assert(blocks * bytes >= 0) by (nonlinear_arith);
    }
    let expected: usize = blocks * bytes;
    if rest != 0 || src_len != expected {
        return Err(Error::DequantSizeMismatch { src_bytes: src_len, expected_bytes: expected });
    }
    Ok(blocks)
}

/// Decodes a row of blocks.
pub fn decode_blocks<B: Block>(format: &B, src: &[u8], dst: &mut [u32]) -> (r: Result<(), Error>)
    requires
        old(dst)@.len() <= usize::MAX / 8,
    ensures
        decodes(*format, src@, old(dst)@, final(dst)@, r),
{
    let elements: usize = format.element_count();
    let bytes: usize = format.byte_count();
    let blocks: usize = match check_block_layout(src.len(), dst.len(), elements, bytes) {
        Ok(n) => n,
        Err(e) => return Err(e),
    };
    let src_len: usize = src.len();
    let n: usize = dst.len();
    let ghost expected = decoded(*format, src@, n as nat);
    let mut b: usize = 0;
    let mut src_at: usize = 0;
    let mut dst_at: usize = 0;
    while b < blocks
        invariant
            b <= blocks,
            n == dst@.len(),
            src_len == src@.len(),
            elements == format.elements(),
            bytes == format.bytes(),
            1 <= elements <= 256,
            1 <= bytes <= 292,
            blocks * elements == n,
            blocks * bytes == src@.len(),
            src_at == b * bytes,
            dst_at == b * elements,
            expected == decoded(*format, src@, n as nat),
            forall|i: int| 0 <= i < dst_at ==> dst@[i] == expected[i],
        decreases blocks - b,
    {
        proof {
            assert((b + 1) * bytes == b * bytes + bytes) by (nonlinear_arith);
            assert((b + 1) * elements == b * elements + elements) by (nonlinear_arith);
            assert((b + 1) * bytes <= blocks * bytes) by (nonlinear_arith)
                requires
                    b + 1 <= blocks,
                    bytes >= 0,
            ;
            assert((b + 1) * elements <= blocks * elements) by (nonlinear_arith)
                requires
                    b + 1 <= blocks,
                    elements >= 0,
            ;
        }
        let block: &[u8] = vstd::slice::slice_subrange(src, src_at, src_at + bytes);
        assert(block@ == block_of(src@, b as int, format.bytes()));
        let out: Vec<u32> = format.decode(block);
        let mut i: usize = 0;
        while i < elements
            invariant
                i <= elements,
                n == dst@.len(),
                elements == format.elements(),
                elements >= 1,
                dst_at == b * elements,
                dst_at + elements <= n,
                expected == decoded(*format, src@, n as nat),
                block@ == block_of(src@, b as int, format.bytes()),
                out@ == Seq::new(format.elements(), |i: int| format.element(block@, i)),
                forall|j: int| 0 <= j < dst_at + i ==> dst@[j] == expected[j],
            decreases elements - i,
        {
            proof {
                let at = dst_at + i;
                vstd::arithmetic::div_mod::lemma_fundamental_div_mod_converse(
                    at as int,
                    elements as int,
                    b as int,
                    i as int,
                );
                assert(expected[at as int] == out@[i as int]);
            }
            dst[dst_at + i] = out[i];
            i = i + 1;
        }
        src_at = src_at + bytes;
        dst_at = dst_at + elements;
        b = b + 1;
    }
    assert(dst@ =~= expected);
    Ok(())
}

/// A byte as two's complement.
pub open spec fn signed_value(b: u8) -> int {
    reader::twos_complement(b as nat, 0x80)
}

/// A byte as two's complement.
pub(crate) fn signed_byte(b: u8) -> (v: i64)
    ensures
        v == signed_value(b),
        -128 <= v <= 127,
{
    if b < 0x80 {
        b as i64
    } else {
        b as i64 - 0x100
    }
}

/// Bit `k` of a byte.
pub open spec fn bit(b: u8, k: int) -> u8 {
    (b as nat / pow2(k as nat) % 2) as u8
}

/// Digit `k` of a byte to base four.
pub open spec fn two_bits(b: u8, k: int) -> u8 {
    (b as nat / pow2((2 * k) as nat) % 4) as u8
}

/// Bit `k` of a byte.
pub(crate) fn bit_of(b: u8, k: usize) -> (r: u8)
    requires
        k < 8,
    ensures
        r == bit(b, k as int),
        r < 2,
{
    proof {
        lemma2_to64();
        assert(b as nat / 1 == b as nat);
    }
    match k {
        0 => b % 2,
        1 => b / 2 % 2,
        2 => b / 4 % 2,
        3 => b / 8 % 2,
        4 => b / 16 % 2,
        5 => b / 32 % 2,
        6 => b / 64 % 2,
        _ => b / 128,
    }
}

/// Digit `k` of a byte to base four.
pub(crate) fn two_bits_of(b: u8, k: usize) -> (r: u8)
    requires
        k < 4,
    ensures
        r == two_bits(b, k as int),
        r < 4,
{
    proof {
        lemma2_to64();
        assert(b as nat / 1 == b as nat);
    }
    match k {
        0 => b % 4,
        1 => b / 4 % 4,
        2 => b / 16 % 4,
        _ => b / 64,
    }
}

/// The half-precision bits at an offset of a block.
pub open spec fn half_at(block: Seq<u8>, at: int) -> u32 {
    crate::float::float16::of_half((block[at] + 0x100 * block[at + 1]) as u16)
}

/// The half-precision number at an offset of a block.
pub(crate) fn read_half(block: &[u8], at: usize) -> (r: u32)
    requires
        at + 2 <= block@.len(),
    ensures
        r == half_at(block@, at as int),
{
    crate::float::float16::from_half(block[at] as u16 + 0x100 * block[at + 1] as u16)
}

/// The 6-bit scale of sub-block `j` in packed scales: the low digits of a byte
/// for the first four, four low and two high digits of two bytes for the rest.
pub open spec fn packed_scale(q: Seq<u8>, j: int) -> nat {
    if j < 4 {
        (q[j] % 64) as nat
    } else {
        (q[j + 4] % 16 + 16 * (q[j - 4] / 64)) as nat
    }
}

/// The 6-bit minimum of sub-block `j` in packed scales.
pub open spec fn packed_min(q: Seq<u8>, j: int) -> nat {
    if j < 4 {
        (q[j + 4] % 64) as nat
    } else {
        (q[j + 4] / 16 + 16 * (q[j] / 64)) as nat
    }
}

/// Extract the 6-bit scale and minimum of sub-block `j` from packed scales.
pub fn q4_k_scale_min(j: usize, q: &[u8; 12]) -> (r: (u8, u8))
    requires
        j < 8,
    ensures
        r.0 == packed_scale(q@, j as int),
        r.1 == packed_min(q@, j as int),
        r.0 < 64,
        r.1 < 64,
{
    if j < 4 {
        (q[j] % 64, q[j + 4] % 64)
    } else {
        (q[j + 4] % 16 + 16 * (q[j - 4] / 64), q[j + 4] / 16 + 16 * (q[j] / 64))
    }
}

/// Eight scales and minimums in twelve bytes.
pub open spec fn pack(sc: Seq<u8>, m: Seq<u8>) -> Seq<u8> {
    Seq::new(
        12,
        |i: int|
            if i < 4 {
                (sc[i] + 64 * (sc[i + 4] / 16)) as u8
            } else if i < 8 {
                (m[i - 4] + 64 * (m[i] / 16)) as u8
            } else {
                (sc[i - 4] % 16 + 16 * (m[i - 4] % 16)) as u8
            },
    )
}

/// Scales and minimums of six digits are read back from where they are packed.
pub proof fn law_scales_round_trip(sc: Seq<u8>, m: Seq<u8>, j: int)
    requires
        sc.len() == 8,
        m.len() == 8,
        forall|i: int| 0 <= i < 8 ==> #[trigger] sc[i] < 64,
        forall|i: int| 0 <= i < 8 ==> #[trigger] m[i] < 64,
        0 <= j < 8,
    ensures
        packed_scale(pack(sc, m), j) == sc[j],
        packed_min(pack(sc, m), j) == m[j],
{
    let q = pack(sc, m);
    if j < 4 {
        assert(sc[j] < 64 && sc[j + 4] < 64 && m[j] < 64 && m[j + 4] < 64);
        lemma_packed(sc[j], sc[j + 4]);
        lemma_packed(m[j], m[j + 4]);
        assert(q[j] == sc[j] + 64 * (sc[j + 4] / 16));
        assert(q[j + 4] == m[j] + 64 * (m[j + 4] / 16));
    } else {
        assert(sc[j] < 64 && sc[j - 4] < 64 && m[j] < 64 && m[j - 4] < 64);
        lemma_packed(sc[j - 4], sc[j]);
        lemma_packed(m[j - 4], m[j]);
        assert(q[j - 4] == sc[j - 4] + 64 * (sc[j] / 16));
        assert(q[j] == m[j - 4] + 64 * (m[j] / 16));
        assert(q[j + 4] == sc[j] % 16 + 16 * (m[j] % 16));
    }
}

/// Six digits of one number and the upper two of another in a byte.
proof fn lemma_packed(a: u8, b: u8)
    requires
        a < 64,
        b < 64,
    ensures
        a + 64 * (b / 16) < 256,
        (a + 64 * (b / 16)) % 64 == a,
        (a + 64 * (b / 16)) / 64 == b / 16,
{
}

/// What decoding data of a type does.
pub open spec fn dispatched(
    dtype: GgmlType,
    src: Seq<u8>,
    before: Seq<u32>,
    after: Seq<u32>,
    r: Result<(), Error>,
) -> bool {
    match dtype {
        GgmlType::F32 => decodes(float::SingleBlock, src, before, after, r),
        GgmlType::F16 => decodes(float::HalfBlock, src, before, after, r),
        GgmlType::BF16 => decodes(float::BrainBlock, src, before, after, r),
        GgmlType::Q4_0 => decodes(q4_0::Q4_0Block, src, before, after, r),
        GgmlType::Q4_1 => decodes(q4_0::Q4_1Block, src, before, after, r),
        GgmlType::Q4_K => decodes(q4_k::Q4KBlock, src, before, after, r),
        GgmlType::Q5_K => decodes(q5_k::Q5KBlock, src, before, after, r),
        GgmlType::Q6_K => decodes(q6_k::Q6KBlock, src, before, after, r),
        GgmlType::Q8_0 => decodes(q8_0::Q8_0Block, src, before, after, r),
        _ => r is Err && r->Err_0@ == ErrorView::UnsupportedDequant(dtype.label()) && after
            == before,
    }
}

/// Decode `src`, the data of a tensor, into `dst`, whose length is the number
/// of elements.
pub fn dequant_to_f32(dtype: GgmlType, src: &[u8], dst: &mut [u32]) -> (r: Result<(), Error>)
    requires
        dtype.decodable() ==> old(dst)@.len() <= usize::MAX / 8,
    ensures
        dispatched(dtype, src@, old(dst)@, final(dst)@, r),
{
    match dtype {
        GgmlType::F32 => float::dequant_f32(src, dst),
        GgmlType::F16 => float::dequant_f16(src, dst),
        GgmlType::BF16 => float::dequant_bf16(src, dst),
        GgmlType::Q4_0 => q4_0::dequant_q4_0(src, dst),
        GgmlType::Q4_1 => q4_0::dequant_q4_1(src, dst),
        GgmlType::Q4_K => q4_k::dequant_q4_k(src, dst),
        GgmlType::Q5_K => q5_k::dequant_q5_k(src, dst),
        GgmlType::Q6_K => q6_k::dequant_q6_k(src, dst),
        GgmlType::Q8_0 => q8_0::dequant_q8_0(src, dst),
        _ => Err(Error::UnsupportedDequant(dtype.name())),
    }
}

/// The types that are decoded are those that say they can be.
pub proof fn law_decodable(dtype: GgmlType, src: Seq<u8>, before: Seq<u32>, after: Seq<u32>)
    ensures
        !dtype.decodable() ==> !dispatched(dtype, src, before, after, Ok(())),
        dtype.decodable() && src.len() == 0 && before.len() == 0 && after.len() == 0 ==> dispatched(
            dtype,
            src,
            before,
            after,
            Ok(()),
        ),
{
    if dtype.decodable() && src.len() == 0 && before.len() == 0 && after.len() == 0 {
        assert(after =~= Seq::<u32>::empty());
        assert(decoded(float::SingleBlock, src, 0) =~= after);
        assert(decoded(float::HalfBlock, src, 0) =~= after);
        assert(decoded(float::BrainBlock, src, 0) =~= after);
        assert(decoded(q4_0::Q4_0Block, src, 0) =~= after);
        assert(decoded(q4_0::Q4_1Block, src, 0) =~= after);
        assert(decoded(q4_k::Q4KBlock, src, 0) =~= after);
        assert(decoded(q5_k::Q5KBlock, src, 0) =~= after);
        assert(decoded(q6_k::Q6KBlock, src, 0) =~= after);
        assert(decoded(q8_0::Q8_0Block, src, 0) =~= after);
    }
}

/// Decoding is refused as unsupported exactly for the types that say they
/// cannot be decoded, whatever the lengths; the name of the type is given, and
/// nothing is written.
pub proof fn law_unsupported(
    dtype: GgmlType,
    src: Seq<u8>,
    before: Seq<u32>,
    after: Seq<u32>,
    r: Result<(), Error>,
)
    requires
        dispatched(dtype, src, before, after, r),
    ensures
        (r is Err && r->Err_0@ is UnsupportedDequant) <==> !dtype.decodable(),
        !dtype.decodable() ==> r->Err_0@ == ErrorView::UnsupportedDequant(dtype.label()) && after
            == before,
{
}

/// Blocks decode one by one, in their order: what whole blocks decode to, and
/// then what those behind them do.
pub proof fn law_blocks_in_order<B: Block>(format: B, a: Seq<u8>, na: nat, b: Seq<u8>, nb: nat)
    requires
        format.elements() > 0,
        na % format.elements() == 0,
        nb % format.elements() == 0,
        a.len() == na / format.elements() * format.bytes(),
        b.len() == nb / format.elements() * format.bytes(),
    ensures
        decoded(format, a + b, na + nb) == decoded(format, a, na) + decoded(format, b, nb),
{
    let e = format.elements() as int;
    let w = format.bytes();
    let blocks = na as int / e;
    vstd::arithmetic::div_mod::lemma_fundamental_div_mod(na as int, e);
    vstd::arithmetic::div_mod::lemma_fundamental_div_mod(nb as int, e);
    let all = decoded(format, a + b, na + nb);
    let want = decoded(format, a, na) + decoded(format, b, nb);
    assert forall|i: int| 0 <= i < na + nb implies #[trigger] all[i] == want[i] by {
        if i < na {
            lemma_block_inside(i, e, blocks, w);
            assert(block_of(a + b, i / e, w) =~= block_of(a, i / e, w));
        } else {
            let j = i - na;
            vstd::arithmetic::div_mod::lemma_fundamental_div_mod(j, e);
            assert(i == e * (blocks + j / e) + j % e) by (nonlinear_arith)
                requires
                    i == na + j,
                    na == e * blocks,
                    j == e * (j / e) + j % e,
            ;
            assert(e * (blocks + j / e) == (blocks + j / e) * e) by (nonlinear_arith);
            vstd::arithmetic::div_mod::lemma_fundamental_div_mod_converse(
                i,
                e,
                blocks + j / e,
                j % e,
            );
            assert((blocks + j / e) * w == blocks * w + (j / e) * w) by (nonlinear_arith);
            lemma_block_inside(j, e, nb as int / e, w);
            assert(block_of(a + b, i / e, w) =~= block_of(b, j / e, w));
        }
    }
    assert(all =~= want);
}

/// The block of an element lies inside of the data.
proof fn lemma_block_inside(i: int, e: int, blocks: int, w: nat)
    requires
        e > 0,
        0 <= i < e * blocks,
    ensures
        0 <= i / e < blocks,
        0 <= (i / e) * w,
        (i / e) * w + w <= blocks * w,
{
    vstd::arithmetic::div_mod::lemma_fundamental_div_mod(i, e);
    vstd::arithmetic::div_mod::lemma_div_pos_is_pos(i, e);
    let q = i / e;
    assert(q < blocks) by (nonlinear_arith)
        requires
            e * q <= i,
            i < e * blocks,
            e > 0,
    ;
    assert(0 <= q * w && q * w + w <= blocks * w) by (nonlinear_arith)
        requires
            0 <= q,
            q + 1 <= blocks,
            w >= 0,
    ;
}

/// Single-precision data are the bits in little-endian order; a brain
/// floating-point number has the upper half of the bits of its value.
pub proof fn law_plain_numbers(x: u32, h: u16)
    requires
        h % 0x8000 <= 0x7F80,
    ensures
        float::SingleBlock.element(reader::le_bytes(x as nat, 4), 0) == x,
        float::BrainBlock.element(reader::le_bytes(h as nat, 2), 0) / 0x1_0000 == h,
        float::BrainBlock.element(reader::le_bytes(h as nat, 2), 0) % 0x1_0000 == 0,
        float::HalfBlock.element(reader::le_bytes(h as nat, 2), 0)
            == crate::float::float16::of_half(h),
{
    reveal_with_fuel(reader::le_bytes, 5);
    let b = reader::le_bytes(x as nat, 4);
    assert(b[0] == x % 256 && b[1] == x / 256 % 256 && b[2] == x / 256 / 256 % 256 && b[3] == x / 256
        / 256 / 256 % 256);
    let c = reader::le_bytes(h as nat, 2);
    assert(c[0] == h % 256 && c[1] == h / 256 % 256);
    assert(c[0] + 0x100 * c[1] == h);
}

/// Bytes of a type decode as blocks of that type.
pub proof fn law_each_type_as_itself(
    dtype: GgmlType,
    src: Seq<u8>,
    before: Seq<u32>,
    after: Seq<u32>,
)
    requires
        dispatched(dtype, src, before, after, Ok(())),
    ensures
        after.len() == before.len(),
        dtype == GgmlType::F32 ==> after == decoded(float::SingleBlock, src, after.len()),
        dtype == GgmlType::F16 ==> after == decoded(float::HalfBlock, src, after.len()),
        dtype == GgmlType::BF16 ==> after == decoded(float::BrainBlock, src, after.len()),
        dtype == GgmlType::Q4_0 ==> after == decoded(q4_0::Q4_0Block, src, after.len()),
        dtype == GgmlType::Q4_1 ==> after == decoded(q4_0::Q4_1Block, src, after.len()),
        dtype == GgmlType::Q4_K ==> after == decoded(q4_k::Q4KBlock, src, after.len()),
        dtype == GgmlType::Q5_K ==> after == decoded(q5_k::Q5KBlock, src, after.len()),
        dtype == GgmlType::Q6_K ==> after == decoded(q6_k::Q6KBlock, src, after.len()),
        dtype == GgmlType::Q8_0 ==> after == decoded(q8_0::Q8_0Block, src, after.len()),
{
}

} // verus!
