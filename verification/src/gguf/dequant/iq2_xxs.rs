//! The format IQ2_XXS: eight sub-groups of 32 elements, each four patterns of
//! eight elements out of a grid.
//!
//! A block has a half-precision scale and eight bytes for each sub-group: four
//! indices into the grid, and four bytes with four sign indices of seven binary
//! digits and, on top, four digits that the scale grows by. A grid entry holds
//! eight signed bytes. The grid of 256 entries is an argument.

use crate::float::arith;
use crate::float::arith::{fadd, fmul, from_i64, from_u64};
use crate::gguf::dequant;
use crate::gguf::dequant::{bit_of, decode_blocks, read_half, signed_byte, Block};
use crate::gguf::error::Error;
use vstd::arithmetic::power2::*;
use vstd::prelude::*;

verus! {

/// Elements of a block.
pub const ELEMENTS_PER_BLOCK: usize = 256;

/// Bytes of a block: the scale and eight bytes for each sub-group.
pub const BYTES_PER_BLOCK: usize = 66;

/// The value of each bit of a byte.
pub const KMASK_IQ2XS: [u8; 8] = [1, 2, 4, 8, 16, 32, 64, 128];

/// One half, as bits.
pub const HALF: u32 = 0x3F00_0000;

/// One quarter, as bits.
pub const QUARTER: u32 = 0x3E80_0000;

/// One, as bits.
pub const ONE: u32 = 0x3F80_0000;

/// Minus one, as bits.
pub const MINUS_ONE: u32 = 0xBF80_0000;

/// The eight signs of a sign index of seven digits: its digits, and one more
/// that makes the number of ones even.
pub open spec fn signs_of(index: u8) -> u8 {
    let ones = dequant::bit(index, 0) + dequant::bit(index, 1) + dequant::bit(index, 2)
        + dequant::bit(index, 3) + dequant::bit(index, 4) + dequant::bit(index, 5) + dequant::bit(
        index,
        6,
    );
    (index + 128 * (ones % 2)) as u8
}

/// The last four bytes of sub-group `g` as a number.
pub open spec fn packed_of(block: Seq<u8>, g: int) -> nat {
    (block[6 + 8 * g] + 0x100 * block[7 + 8 * g] + 0x1_0000 * block[8 + 8 * g] + 0x100_0000 * block[9
        + 8 * g]) as nat
}

/// The sign index of pattern `l` of a sub-group: digit `l` to base 128.
pub open spec fn sign_index(packed: nat, l: int) -> u8 {
    (packed / pow2((7 * l) as nat) % 128) as u8
}

/// The signed byte `j` of a grid entry.
pub open spec fn grid_byte(entry: u64, j: int) -> u8 {
    (entry as nat / pow2((8 * j) as nat) % 256) as u8
}

/// The scale of a sub-group: the block's scale times one half more than the
/// extra digits, times a quarter.
pub open spec fn group_scale(block: Seq<u8>, g: int) -> u32 {
    let extra = packed_of(block, g) / 0x1000_0000;
    arith::product(
        arith::product(dequant::half_at(block, 0), arith::sum(HALF, arith::of_integer(extra as int))),
        QUARTER,
    )
}

/// The eight signs of a sign index.
pub fn sign_byte(index: u8) -> (s: u8)
    requires
        index < 128,
    ensures
        s == signs_of(index),
{
    let ones: u8 = bit_of(index, 0) + bit_of(index, 1) + bit_of(index, 2) + bit_of(index, 3) + bit_of(
        index,
        4,
    ) + bit_of(index, 5) + bit_of(index, 6);
    index + 128 * (ones % 2)
}

/// Patterns out of a grid, with their signs, times the scale of the sub-group.
pub struct Iq2XxsBlock<'a> {
    /// The grid.
    pub grid: &'a [u64; 256],
}

impl<'a> Block for Iq2XxsBlock<'a> {
    open spec fn elements(&self) -> nat {
        ELEMENTS_PER_BLOCK as nat
    }

    open spec fn bytes(&self) -> nat {
        BYTES_PER_BLOCK as nat
    }

    open spec fn element(&self, block: Seq<u8>, i: int) -> u32 {
        let g = i / 32;
        let l = i % 32 / 8;
        let j = i % 8;
        let entry = self.grid@[block[2 + 8 * g + l] as int];
        let signs = signs_of(sign_index(packed_of(block, g), l));
        let sign = if dequant::bit(signs, j) != 0 {
            MINUS_ONE
        } else {
            ONE
        };
        arith::product(
            arith::product(
                group_scale(block, g),
                arith::of_integer(dequant::signed_value(grid_byte(entry, j))),
            ),
            sign,
        )
    }

    fn element_count(&self) -> (n: usize) {
        ELEMENTS_PER_BLOCK
    }

    fn byte_count(&self) -> (n: usize) {
        BYTES_PER_BLOCK
    }

    fn decode(&self, block: &[u8]) -> (out: Vec<u32>) {
        let d: u32 = read_half(block, 0);
        let mut out: Vec<u32> = Vec::new();
        let mut i: usize = 0;
        while i < ELEMENTS_PER_BLOCK
            invariant
                i <= ELEMENTS_PER_BLOCK,
                block@.len() == BYTES_PER_BLOCK,
                d == dequant::half_at(block@, 0),
                out@.len() == i,
                forall|j: int| 0 <= j < i ==> #[trigger] out@[j] == self.element(block@, j),
            decreases ELEMENTS_PER_BLOCK - i,
        {
            let g: usize = i / 32;
            let l: usize = i % 32 / 8;
            let j: usize = i % 8;
            let at: usize = 2 + 8 * g;
            let packed: u32 = block[at + 4] as u32 + 0x100 * block[at + 5] as u32 + 0x1_0000
                * block[at + 6] as u32 + 0x100_0000 * block[at + 7] as u32;
            let scale: u32 = fmul(
                fmul(d, fadd(HALF, from_u64((packed / 0x1000_0000) as u64))),
                QUARTER,
            );
            let entry: u64 = self.grid[block[at + l] as usize];
            let byte: u8 = read_grid_byte(entry, j);
            let signs: u8 = sign_byte(read_sign_index(packed, l));
            let sign: u32 = if signs / KMASK_IQ2XS[j] % 2 != 0 {
                MINUS_ONE
            } else {
                ONE
            };
            proof {
                lemma2_to64();
                assert(signs as nat / 1 == signs as nat);
                assert(dequant::bit(signs, j as int) == signs / KMASK_IQ2XS@[j as int] % 2);
            }
            out.push(fmul(fmul(scale, from_i64(signed_byte(byte))), sign));
            i = i + 1;
        }
        assert(out@ =~= Seq::new(self.elements(), |i: int| self.element(block@, i)));
        out
    }
}

/// The sign index of pattern `l` of a sub-group.
fn read_sign_index(packed: u32, l: usize) -> (s: u8)
    requires
        l < 4,
    ensures
        s == sign_index(packed as nat, l as int),
        s < 128,
{
    proof {
        lemma2_to64();
        assert(packed as nat / 1 == packed as nat);
    }
    match l {
        0 => (packed % 128) as u8,
        1 => (packed / 0x80 % 128) as u8,
        2 => (packed / 0x4000 % 128) as u8,
        _ => (packed / 0x20_0000 % 128) as u8,
    }
}

/// The byte `j` of a grid entry.
fn read_grid_byte(entry: u64, j: usize) -> (b: u8)
    requires
        j < 8,
    ensures
        b == grid_byte(entry, j as int),
{
    proof {
        lemma2_to64();
        lemma2_to64_rest();
        assert(entry as nat / 1 == entry as nat);
    }
    match j {
        0 => (entry % 256) as u8,
        1 => (entry / 0x100 % 256) as u8,
        2 => (entry / 0x1_0000 % 256) as u8,
        3 => (entry / 0x100_0000 % 256) as u8,
        4 => (entry / 0x1_0000_0000 % 256) as u8,
        5 => (entry / 0x100_0000_0000 % 256) as u8,
        6 => (entry / 0x1_0000_0000_0000 % 256) as u8,
        _ => (entry / 0x100_0000_0000_0000) as u8,
    }
}

/// Decode IQ2_XXS with a grid.
pub fn dequant_iq2_xxs(src: &[u8], dst: &mut [u32], grid: &[u64; 256]) -> (r: Result<(), Error>)
    requires
        old(dst)@.len() <= usize::MAX / 8,
    ensures
        dequant::decodes((Iq2XxsBlock { grid }), src@, old(dst)@, final(dst)@, r),
{
    decode_blocks(&Iq2XxsBlock { grid }, src, dst)
}

} // verus!
