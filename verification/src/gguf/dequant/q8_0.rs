//! The format Q8_0: a half-precision scale and 32 signed bytes.

use crate::float::arith;
use crate::float::arith::{fmul, from_i64};
use crate::gguf::dequant;
use crate::gguf::dequant::{decode_blocks, read_half, signed_byte, Block};
use crate::gguf::error::Error;
use vstd::prelude::*;

verus! {

/// Elements of a block.
pub const ELEMENTS_PER_BLOCK: usize = 32;

/// Bytes of a block: the scale and the quants.
pub const BYTES_PER_BLOCK: usize = 34;

/// Signed bytes times the scale.
pub struct Q8_0Block;

impl Block for Q8_0Block {
    open spec fn elements(&self) -> nat {
        ELEMENTS_PER_BLOCK as nat
    }

    open spec fn bytes(&self) -> nat {
        BYTES_PER_BLOCK as nat
    }

    open spec fn element(&self, block: Seq<u8>, i: int) -> u32 {
        arith::product(
            arith::of_integer(dequant::signed_value(block[2 + i])),
            dequant::half_at(block, 0),
        )
    }

    fn element_count(&self) -> (n: usize) {
        ELEMENTS_PER_BLOCK
    }

    fn byte_count(&self) -> (n: usize) {
        BYTES_PER_BLOCK
    }

    fn decode(&self, block: &[u8]) -> (out: Vec<u32>) {
        let d: u32 = read_half(block, 0);
        let mut out: Vec<u32> = Vec::new();
        let mut i: usize = 0;
        while i < ELEMENTS_PER_BLOCK
            invariant
                i <= ELEMENTS_PER_BLOCK,
                block@.len() == BYTES_PER_BLOCK,
                d == dequant::half_at(block@, 0),
                out@.len() == i,
                forall|j: int| 0 <= j < i ==> #[trigger] out@[j] == self.element(block@, j),
            decreases ELEMENTS_PER_BLOCK - i,
        {
            out.push(fmul(from_i64(signed_byte(block[2 + i])), d));
            i = i + 1;
        }
        assert(out@ =~= Seq::new(self.elements(), |i: int| self.element(block@, i)));
        out
    }
}

/// Decode Q8_0.
pub fn dequant_q8_0(src: &[u8], dst: &mut [u32]) -> (r: Result<(), Error>)
    requires
        old(dst)@.len() <= usize::MAX / 8,
    ensures
        dequant::decodes(Q8_0Block, src@, old(dst)@, final(dst)@, r),
{
    decode_blocks(&Q8_0Block, src, dst)
}

} // verus!
