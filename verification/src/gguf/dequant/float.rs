//! The floating-point formats: single, half and brain.

use crate::float::float16;
use crate::float::float16::{from_brain, from_half};
use crate::gguf::dequant;
use crate::gguf::dequant::{decode_blocks, Block};
use crate::gguf::error::Error;
use vstd::prelude::*;

verus! {

/// One single-precision number.
pub struct SingleBlock;

impl Block for SingleBlock {
    open spec fn elements(&self) -> nat {
        1usize as nat
    }

    open spec fn bytes(&self) -> nat {
        4usize as nat
    }

    open spec fn element(&self, block: Seq<u8>, i: int) -> u32 {
        (block[0] + 0x100 * block[1] + 0x1_0000 * block[2] + 0x100_0000 * block[3]) as u32
    }

    fn element_count(&self) -> (n: usize) {
        1usize
    }

    fn byte_count(&self) -> (n: usize) {
        4usize
    }

    fn decode(&self, block: &[u8]) -> (out: Vec<u32>) {
        let mut out: Vec<u32> = Vec::new();
        let mut i: usize = 0;
        while i < 1usize
            invariant
                i <= 1usize,
                block@.len() == 4usize,
                out@.len() == i,
                forall|j: int| 0 <= j < i ==> #[trigger] out@[j] == self.element(block@, j),
            decreases 1usize - i,
        {
            out.push(
                block[0] as u32 + 0x100 * block[1] as u32 + 0x1_0000 * block[2] as u32 + 0x100_0000
                    * block[3] as u32,
            );
            i = i + 1;
        }
        assert(out@ =~= Seq::new(self.elements(), |i: int| self.element(block@, i)));
        out
    }
}

/// Copy little-endian single-precision numbers.
pub fn dequant_f32(src: &[u8], dst: &mut [u32]) -> (r: Result<(), Error>)
    requires
        old(dst)@.len() <= usize::MAX / 8,
    ensures
        dequant::decodes(SingleBlock, src@, old(dst)@, final(dst)@, r),
{
    decode_blocks(&SingleBlock, src, dst)
}

/// One half-precision number.
pub struct HalfBlock;

impl Block for HalfBlock {
    open spec fn elements(&self) -> nat {
        1usize as nat
    }

    open spec fn bytes(&self) -> nat {
        2usize as nat
    }

    open spec fn element(&self, block: Seq<u8>, i: int) -> u32 {
        float16::of_half((block[0] + 0x100 * block[1]) as u16)
    }

    fn element_count(&self) -> (n: usize) {
        1usize
    }

    fn byte_count(&self) -> (n: usize) {
        2usize
    }

    fn decode(&self, block: &[u8]) -> (out: Vec<u32>) {
        let mut out: Vec<u32> = Vec::new();
        let mut i: usize = 0;
        while i < 1usize
            invariant
                i <= 1usize,
                block@.len() == 2usize,
                out@.len() == i,
                forall|j: int| 0 <= j < i ==> #[trigger] out@[j] == self.element(block@, j),
            decreases 1usize - i,
        {
            out.push(from_half(block[0] as u16 + 0x100 * block[1] as u16));
            i = i + 1;
        }
        assert(out@ =~= Seq::new(self.elements(), |i: int| self.element(block@, i)));
        out
    }
}

/// Decode little-endian half-precision numbers; every one is a single-precision number.
pub fn dequant_f16(src: &[u8], dst: &mut [u32]) -> (r: Result<(), Error>)
    requires
        old(dst)@.len() <= usize::MAX / 8,
    ensures
        dequant::decodes(HalfBlock, src@, old(dst)@, final(dst)@, r),
{
    decode_blocks(&HalfBlock, src, dst)
}

/// One brain floating-point number.
pub struct BrainBlock;

impl Block for BrainBlock {
    open spec fn elements(&self) -> nat {
        1usize as nat
    }

    open spec fn bytes(&self) -> nat {
        2usize as nat
    }

    open spec fn element(&self, block: Seq<u8>, i: int) -> u32 {
        float16::of_brain((block[0] + 0x100 * block[1]) as u16)
    }

    fn element_count(&self) -> (n: usize) {
        1usize
    }

    fn byte_count(&self) -> (n: usize) {
        2usize
    }

    fn decode(&self, block: &[u8]) -> (out: Vec<u32>) {
        let mut out: Vec<u32> = Vec::new();
        let mut i: usize = 0;
        while i < 1usize
            invariant
                i <= 1usize,
                block@.len() == 2usize,
                out@.len() == i,
                forall|j: int| 0 <= j < i ==> #[trigger] out@[j] == self.element(block@, j),
            decreases 1usize - i,
        {
            out.push(from_brain(block[0] as u16 + 0x100 * block[1] as u16));
            i = i + 1;
        }
        assert(out@ =~= Seq::new(self.elements(), |i: int| self.element(block@, i)));
        out
    }
}

/// Decode little-endian brain floating-point numbers; every one is a single-precision number.
pub fn dequant_bf16(src: &[u8], dst: &mut [u32]) -> (r: Result<(), Error>)
    requires
        old(dst)@.len() <= usize::MAX / 8,
    ensures
        dequant::decodes(BrainBlock, src@, old(dst)@, final(dst)@, r),
{
    decode_blocks(&BrainBlock, src, dst)
}

} // verus!
