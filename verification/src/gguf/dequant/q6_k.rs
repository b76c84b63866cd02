//! The format Q6_K: sixteen sub-blocks of 16 elements of six binary digits,
//! each with a signed scale.
//!
//! A half of a block has 128 elements in four rows of 32. Rows 0 and 2 have
//! their four low digits in the first 32 digit bytes of the half, rows 1 and 3
//! in the next 32; rows 0 and 1 in the low digits of a byte, rows 2 and 3 in the
//! high ones. The two high digits of row `s` are the digit `s` to base four of
//! the byte of its column.

use crate::float::arith;
use crate::float::arith::{fmul, from_i64};
use crate::gguf::dequant;
use crate::gguf::dequant::{decode_blocks, read_half, signed_byte, two_bits_of, Block};
use crate::gguf::error::Error;
use vstd::prelude::*;

verus! {

/// Elements of a block.
pub const ELEMENTS_PER_BLOCK: usize = 256;

/// Bytes of a block: low digits, high digits, the scales of the sub-blocks and a scale.
pub const BYTES_PER_BLOCK: usize = 210;

/// Element `i` before scaling, which is centred at zero.
pub open spec fn centred(block: Seq<u8>, i: int) -> int {
    let half = i / 128;
    let row = i % 128 / 32;
    let column = i % 32;
    let byte = block[half * 64 + row % 2 * 32 + column];
    let low = if row < 2 {
        byte % 16
    } else {
        byte / 16
    };
    low + 16 * dequant::two_bits(block[128 + half * 32 + column], row) - 32
}

/// The scale of the sub-block of element `i`.
pub open spec fn scale_of(block: Seq<u8>, i: int) -> int {
    dequant::signed_value(block[192 + i / 16])
}

/// Element `i` before scaling.
fn read_centred(block: &[u8], i: usize) -> (q: i64)
    requires
        block@.len() == BYTES_PER_BLOCK,
        i < ELEMENTS_PER_BLOCK,
    ensures
        q == centred(block@, i as int),
{
    let half: usize = i / 128;
    let row: usize = i % 128 / 32;
    let column: usize = i % 32;
    let byte: u8 = block[half * 64 + row % 2 * 32 + column];
    let low: u8 = if row < 2 {
        byte % 16
    } else {
        byte / 16
    };
    let high: u8 = two_bits_of(block[128 + half * 32 + column], row);
    low as i64 + 16 * high as i64 - 32
}

/// Centred digits times the scale of the sub-block.
pub struct Q6KBlock;

impl Block for Q6KBlock {
    open spec fn elements(&self) -> nat {
        ELEMENTS_PER_BLOCK as nat
    }

    open spec fn bytes(&self) -> nat {
        BYTES_PER_BLOCK as nat
    }

    open spec fn element(&self, block: Seq<u8>, i: int) -> u32 {
        arith::product(
            arith::product(dequant::half_at(block, 208), arith::of_integer(scale_of(block, i))),
            arith::of_integer(centred(block, i)),
        )
    }

    fn element_count(&self) -> (n: usize) {
        ELEMENTS_PER_BLOCK
    }

    fn byte_count(&self) -> (n: usize) {
        BYTES_PER_BLOCK
    }

    fn decode(&self, block: &[u8]) -> (out: Vec<u32>) {
        let d: u32 = read_half(block, 208);
        let mut out: Vec<u32> = Vec::new();
        let mut i: usize = 0;
        while i < ELEMENTS_PER_BLOCK
            invariant
                i <= ELEMENTS_PER_BLOCK,
                block@.len() == BYTES_PER_BLOCK,
                d == dequant::half_at(block@, 208),
                out@.len() == i,
                forall|j: int| 0 <= j < i ==> #[trigger] out@[j] == self.element(block@, j),
            decreases ELEMENTS_PER_BLOCK - i,
        {
            let scale: u32 = fmul(d, from_i64(signed_byte(block[192 + i / 16])));
            out.push(fmul(scale, from_i64(read_centred(block, i))));
            i = i + 1;
        }
        assert(out@ =~= Seq::new(self.elements(), |i: int| self.element(block@, i)));
        out
    }
}

/// Decode Q6_K.
pub fn dequant_q6_k(src: &[u8], dst: &mut [u32]) -> (r: Result<(), Error>)
    requires
        old(dst)@.len() <= usize::MAX / 8,
    ensures
        dequant::decodes(Q6KBlock, src@, old(dst)@, final(dst)@, r),
{
    decode_blocks(&Q6KBlock, src, dst)
}

} // verus!
