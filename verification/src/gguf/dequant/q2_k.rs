//! The format Q2_K: sixteen sub-blocks of 16 elements of two binary digits.
//!
//! A block has a byte for each sub-block with a scale in its low and a minimum
//! in its high digits, 64 digit bytes, and half-precision scales for scales and
//! minimums. A half of a block has 128 elements in four rows of 32; row `k` is
//! the digit `k` to base four of the 32 bytes of the half.

use crate::float::arith;
use crate::float::arith::{fmul, from_u64, fsub};
use crate::gguf::dequant;
use crate::gguf::dequant::{decode_blocks, read_half, two_bits_of, Block};
use crate::gguf::error::Error;
use vstd::prelude::*;

verus! {

/// Elements of a block.
pub const ELEMENTS_PER_BLOCK: usize = 256;

/// Bytes of a block: the scales of the sub-blocks, the digits and two scales.
pub const BYTES_PER_BLOCK: usize = 84;

/// The two digits of element `i`.
pub open spec fn digits_of(block: Seq<u8>, i: int) -> u8 {
    dequant::two_bits(block[16 + i / 128 * 32 + i % 32], i % 128 / 32)
}

/// Digits times the scale of the sub-block, less its minimum.
pub struct Q2KBlock;

impl Block for Q2KBlock {
    open spec fn elements(&self) -> nat {
        ELEMENTS_PER_BLOCK as nat
    }

    open spec fn bytes(&self) -> nat {
        BYTES_PER_BLOCK as nat
    }

    open spec fn element(&self, block: Seq<u8>, i: int) -> u32 {
        let scales = block[i / 16];
        arith::difference(
            arith::product(
                arith::product(dequant::half_at(block, 80), arith::of_integer((scales % 16) as int)),
                arith::of_integer(digits_of(block, i) as int),
            ),
            arith::product(dequant::half_at(block, 82), arith::of_integer((scales / 16) as int)),
        )
    }

    fn element_count(&self) -> (n: usize) {
        ELEMENTS_PER_BLOCK
    }

    fn byte_count(&self) -> (n: usize) {
        BYTES_PER_BLOCK
    }

    fn decode(&self, block: &[u8]) -> (out: Vec<u32>) {
        let d: u32 = read_half(block, 80);
        let dmin: u32 = read_half(block, 82);
        let mut out: Vec<u32> = Vec::new();
        let mut i: usize = 0;
        while i < ELEMENTS_PER_BLOCK
            invariant
                i <= ELEMENTS_PER_BLOCK,
                block@.len() == BYTES_PER_BLOCK,
                d == dequant::half_at(block@, 80),
                dmin == dequant::half_at(block@, 82),
                out@.len() == i,
                forall|j: int| 0 <= j < i ==> #[trigger] out@[j] == self.element(block@, j),
            decreases ELEMENTS_PER_BLOCK - i,
        {
            let scales: u8 = block[i / 16];
            let q: u8 = two_bits_of(block[16 + i / 128 * 32 + i % 32], i % 128 / 32);
            let scale: u32 = fmul(d, from_u64((scales % 16) as u64));
            let least: u32 = fmul(dmin, from_u64((scales / 16) as u64));
            out.push(fsub(fmul(scale, from_u64(q as u64)), least));
            i = i + 1;
        }
        assert(out@ =~= Seq::new(self.elements(), |i: int| self.element(block@, i)));
        out
    }
}

/// Decode Q2_K.
pub fn dequant_q2_k(src: &[u8], dst: &mut [u32]) -> (r: Result<(), Error>)
    requires
        old(dst)@.len() <= usize::MAX / 8,
    ensures
        dequant::decodes(Q2KBlock, src@, old(dst)@, final(dst)@, r),
{
    decode_blocks(&Q2KBlock, src, dst)
}

} // verus!
