//! The formats Q4_0 and Q4_1: 32 elements of four binary digits with a
//! half-precision scale and, in Q4_1, a half-precision minimum.
//!
//! Byte `j` of the sixteen digit bytes holds element `j` in its low digits and
//! element `j + 16` in its high ones.

use crate::float::arith;
use crate::float::arith::{fadd, fmul, from_i64};
use crate::gguf::dequant;
use crate::gguf::dequant::{decode_blocks, read_half, Block};
use crate::gguf::error::Error;
use vstd::prelude::*;

verus! {

/// Elements of a block.
pub const ELEMENTS_PER_BLOCK: usize = 32;

/// Bytes of a Q4_0 block: the scale and the digits.
pub const Q4_0_BYTES: usize = 18;

/// Bytes of a Q4_1 block: the scale, the minimum and the digits.
pub const Q4_1_BYTES: usize = 20;

/// The four digits of element `i`, whose bytes start at `at`.
pub open spec fn digits_of(block: Seq<u8>, at: int, i: int) -> u8 {
    if i < 16 {
        block[at + i] % 16
    } else {
        block[at + i - 16] / 16
    }
}

/// The four digits of element `i`.
fn digits(block: &[u8], at: usize, i: usize) -> (q: u8)
    requires
        at + 16 <= block.len(),
        i < 32,
    ensures
        q == digits_of(block@, at as int, i as int),
        q < 16,
{
    if i < 16 {
        block[at + i] % 16
    } else {
        block[at + (i - 16)] / 16
    }
}

/// Digits less eight, times the scale.
pub struct Q4_0Block;

impl Block for Q4_0Block {
    open spec fn elements(&self) -> nat {
        ELEMENTS_PER_BLOCK as nat
    }

    open spec fn bytes(&self) -> nat {
        Q4_0_BYTES as nat
    }

    open spec fn element(&self, block: Seq<u8>, i: int) -> u32 {
        arith::product(arith::of_integer(digits_of(block, 2, i) - 8), dequant::half_at(block, 0))
    }

    fn element_count(&self) -> (n: usize) {
        ELEMENTS_PER_BLOCK
    }

    fn byte_count(&self) -> (n: usize) {
        Q4_0_BYTES
    }

    fn decode(&self, block: &[u8]) -> (out: Vec<u32>) {
        let d: u32 = read_half(block, 0);
        let mut out: Vec<u32> = Vec::new();
        let mut i: usize = 0;
        while i < ELEMENTS_PER_BLOCK
            invariant
                i <= ELEMENTS_PER_BLOCK,
                block@.len() == Q4_0_BYTES,
                d == dequant::half_at(block@, 0),
                out@.len() == i,
                forall|j: int| 0 <= j < i ==> #[trigger] out@[j] == self.element(block@, j),
            decreases ELEMENTS_PER_BLOCK - i,
        {
            let q: i64 = digits(block, 2, i) as i64 - 8;
            out.push(fmul(from_i64(q), d));
            i = i + 1;
        }
        assert(out@ =~= Seq::new(self.elements(), |i: int| self.element(block@, i)));
        out
    }
}

/// Decode Q4_0.
pub fn dequant_q4_0(src: &[u8], dst: &mut [u32]) -> (r: Result<(), Error>)
    requires
        old(dst)@.len() <= usize::MAX / 8,
    ensures
        dequant::decodes(Q4_0Block, src@, old(dst)@, final(dst)@, r),
{
    decode_blocks(&Q4_0Block, src, dst)
}

/// Digits times the scale, plus the minimum.
pub struct Q4_1Block;

impl Block for Q4_1Block {
    open spec fn elements(&self) -> nat {
        ELEMENTS_PER_BLOCK as nat
    }

    open spec fn bytes(&self) -> nat {
        Q4_1_BYTES as nat
    }

    open spec fn element(&self, block: Seq<u8>, i: int) -> u32 {
        arith::sum(
            arith::product(
                arith::of_integer(digits_of(block, 4, i) as int),
                dequant::half_at(block, 0),
            ),
            dequant::half_at(block, 2),
        )
    }

    fn element_count(&self) -> (n: usize) {
        ELEMENTS_PER_BLOCK
    }

    fn byte_count(&self) -> (n: usize) {
        Q4_1_BYTES
    }

    fn decode(&self, block: &[u8]) -> (out: Vec<u32>) {
        let d: u32 = read_half(block, 0);
        let m: u32 = read_half(block, 2);
        let mut out: Vec<u32> = Vec::new();
        let mut i: usize = 0;
        while i < ELEMENTS_PER_BLOCK
            invariant
                i <= ELEMENTS_PER_BLOCK,
                block@.len() == Q4_1_BYTES,
                d == dequant::half_at(block@, 0),
                m == dequant::half_at(block@, 2),
                out@.len() == i,
                forall|j: int| 0 <= j < i ==> #[trigger] out@[j] == self.element(block@, j),
            decreases ELEMENTS_PER_BLOCK - i,
        {
            let q: i64 = digits(block, 4, i) as i64;
            out.push(fadd(fmul(from_i64(q), d), m));
            i = i + 1;
        }
        assert(out@ =~= Seq::new(self.elements(), |i: int| self.element(block@, i)));
        out
    }
}

/// Decode Q4_1.
pub fn dequant_q4_1(src: &[u8], dst: &mut [u32]) -> (r: Result<(), Error>)
    requires
        old(dst)@.len() <= usize::MAX / 8,
    ensures
        dequant::decodes(Q4_1Block, src@, old(dst)@, final(dst)@, r),
{
    decode_blocks(&Q4_1Block, src, dst)
}

} // verus!
