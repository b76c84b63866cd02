//! The format Q8_K: a single-precision scale, 256 signed bytes and sums that
//! decoding does not need.

use crate::float::arith;
use crate::float::arith::{fmul, from_i64};
use crate::gguf::dequant;
use crate::gguf::dequant::{decode_blocks, signed_byte, Block};
use crate::gguf::error::Error;
use vstd::prelude::*;

verus! {

/// Elements of a block.
pub const ELEMENTS_PER_BLOCK: usize = 256;

/// Bytes of a block: the scale, the quants and sixteen sums of two bytes.
pub const BYTES_PER_BLOCK: usize = 292;

/// Signed bytes times the scale.
pub struct Q8KBlock;

impl Block for Q8KBlock {
    open spec fn elements(&self) -> nat {
        ELEMENTS_PER_BLOCK as nat
    }

    open spec fn bytes(&self) -> nat {
        BYTES_PER_BLOCK as nat
    }

    open spec fn element(&self, block: Seq<u8>, i: int) -> u32 {
        arith::product(
            (block[0] + 0x100 * block[1] + 0x1_0000 * block[2] + 0x100_0000 * block[3]) as u32,
            arith::of_integer(dequant::signed_value(block[4 + i])),
        )
    }

    fn element_count(&self) -> (n: usize) {
        ELEMENTS_PER_BLOCK
    }

    fn byte_count(&self) -> (n: usize) {
        BYTES_PER_BLOCK
    }

    fn decode(&self, block: &[u8]) -> (out: Vec<u32>) {
        let d: u32 = block[0] as u32 + 0x100 * block[1] as u32 + 0x1_0000 * block[2] as u32
            + 0x100_0000 * block[3] as u32;
        let mut out: Vec<u32> = Vec::new();
        let mut i: usize = 0;
        while i < ELEMENTS_PER_BLOCK
            invariant
                i <= ELEMENTS_PER_BLOCK,
                block@.len() == BYTES_PER_BLOCK,
                d == (block@[0] + 0x100 * block@[1] + 0x1_0000 * block@[2] + 0x100_0000 * block@[3]) as u32,
                out@.len() == i,
                forall|j: int| 0 <= j < i ==> #[trigger] out@[j] == self.element(block@, j),
            decreases ELEMENTS_PER_BLOCK - i,
        {
            out.push(fmul(d, from_i64(signed_byte(block[4 + i]))));
            i = i + 1;
        }
        assert(out@ =~= Seq::new(self.elements(), |i: int| self.element(block@, i)));
        out
    }
}

/// Decode Q8_K.
pub fn dequant_q8_k(src: &[u8], dst: &mut [u32]) -> (r: Result<(), Error>)
    requires
        old(dst)@.len() <= usize::MAX / 8,
    ensures
        dequant::decodes(Q8KBlock, src@, old(dst)@, final(dst)@, r),
{
    decode_blocks(&Q8KBlock, src, dst)
}

} // verus!
