//! The format Q5_K: eight sub-blocks of 32 elements of five binary digits.
//!
//! As Q4_K, with 32 bytes before the digit bytes: bit `s` of byte `l` is the
//! fifth digit of element `l` of sub-block `s`.

use crate::float::arith;
use crate::float::arith::{fmul, from_u64, fsub};
use crate::gguf::dequant;
use crate::gguf::dequant::{bit_of, decode_blocks, q4_k_scale_min, read_half, Block};
use crate::gguf::error::Error;
use vstd::prelude::*;

verus! {

/// Elements of a block.
pub const ELEMENTS_PER_BLOCK: usize = 256;

/// Bytes of a block: two scales, the packed scales, the fifth digits and the others.
pub const BYTES_PER_BLOCK: usize = 176;

/// The five digits of element `i`.
pub open spec fn digits_of(block: Seq<u8>, i: int) -> nat {
    let byte = block[48 + i / 64 * 32 + i % 32];
    let low = if i / 32 % 2 == 0 {
        byte % 16
    } else {
        byte / 16
    };
    (low + 16 * dequant::bit(block[16 + i % 32], i / 32)) as nat
}

/// The five digits of element `i`.
fn digits(block: &[u8], i: usize) -> (q: u8)
    requires
        block@.len() == BYTES_PER_BLOCK,
        i < ELEMENTS_PER_BLOCK,
    ensures
        q == digits_of(block@, i as int),
{
    let byte: u8 = block[48 + i / 64 * 32 + i % 32];
    let low: u8 = if i / 32 % 2 == 0 {
        byte % 16
    } else {
        byte / 16
    };
    low + 16 * bit_of(block[16 + i % 32], i / 32)
}

/// Digits times the scale of the sub-block, less its minimum.
pub struct Q5KBlock;

impl Block for Q5KBlock {
    open spec fn elements(&self) -> nat {
        ELEMENTS_PER_BLOCK as nat
    }

    open spec fn bytes(&self) -> nat {
        BYTES_PER_BLOCK as nat
    }

    open spec fn element(&self, block: Seq<u8>, i: int) -> u32 {
        let sub = i / 32;
        let scales = block.subrange(4, 16);
        let q = digits_of(block, i);
        arith::difference(
            arith::product(
                arith::product(
                    dequant::half_at(block, 0),
                    arith::of_integer(dequant::packed_scale(scales, sub) as int),
                ),
                arith::of_integer(q as int),
            ),
            arith::product(
                dequant::half_at(block, 2),
                arith::of_integer(dequant::packed_min(scales, sub) as int),
            ),
        )
    }

    fn element_count(&self) -> (n: usize) {
        ELEMENTS_PER_BLOCK
    }

    fn byte_count(&self) -> (n: usize) {
        BYTES_PER_BLOCK
    }

    fn decode(&self, block: &[u8]) -> (out: Vec<u32>) {
        let d: u32 = read_half(block, 0);
        let dmin: u32 = read_half(block, 2);
        let scales: [u8; 12] = [
            block[4], block[5], block[6], block[7], block[8], block[9], block[10], block[11], block[12],
            block[13], block[14], block[15],
        ];
        assert(scales@ =~= block@.subrange(4, 16));
        let mut out: Vec<u32> = Vec::new();
        let mut i: usize = 0;
        while i < ELEMENTS_PER_BLOCK
            invariant
                i <= ELEMENTS_PER_BLOCK,
                block@.len() == BYTES_PER_BLOCK,
                d == dequant::half_at(block@, 0),
                dmin == dequant::half_at(block@, 2),
                scales@ == block@.subrange(4, 16),
                out@.len() == i,
                forall|j: int| 0 <= j < i ==> #[trigger] out@[j] == self.element(block@, j),
            decreases ELEMENTS_PER_BLOCK - i,
        {
            let (sc, m): (u8, u8) = q4_k_scale_min(i / 32, &scales);
            let q: u8 = digits(block, i);
            let scale: u32 = fmul(d, from_u64(sc as u64));
            let least: u32 = fmul(dmin, from_u64(m as u64));
            out.push(fsub(fmul(scale, from_u64(q as u64)), least));
            i = i + 1;
        }
        assert(out@ =~= Seq::new(self.elements(), |i: int| self.element(block@, i)));
        out
    }
}

/// Decode Q5_K.
pub fn dequant_q5_k(src: &[u8], dst: &mut [u32]) -> (r: Result<(), Error>)
    requires
        old(dst)@.len() <= usize::MAX / 8,
    ensures
        dequant::decodes(Q5KBlock, src@, old(dst)@, final(dst)@, r),
{
    decode_blocks(&Q5KBlock, src, dst)
}

} // verus!
