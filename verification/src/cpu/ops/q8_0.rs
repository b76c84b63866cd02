//! Matrix products on blocks of 32 signed bytes with a common scale.
//!
//! Weights are stored in such blocks. Activations are brought into the same
//! form, so that a product of two blocks is an integer times two scales.

use crate::buffer::{is_product, overwrite};
use crate::cpu::capability::SimdTier;
use crate::cpu::error::Error;
use crate::float;
use crate::float::arith;
use crate::float::arith::{fadd, fdiv, finite, fmul, from_i64};
use crate::float::fold;
use crate::float::fold::{highest_of, magnitudes_of, ONE};
use crate::float::fused;
use crate::float::fused::ffma;
use crate::float::integer;
use crate::float::integer::to_byte;
use crate::float::order;
use crate::float::order::feq;
use crate::gguf::dequant;
use crate::gguf::dequant::read_half;
use vstd::arithmetic::power2::*;
use vstd::prelude::*;
use vstd::slice::slice_subrange;

verus! {

/// Numbers of a block.
pub const Q8_0_BLOCK: usize = 32;

/// Bytes of a block: the scale and the signed bytes.
pub const Q8_0_BLOCK_BYTES: usize = 34;

/// The largest signed byte, 127, as bits.
pub const BYTE_MAX: u32 = 0x42FE_0000;

/// How many blocks `n` numbers take.
pub open spec fn blocks_of(n: int) -> int {
    (n + 31) / 32
}

/// How many numbers of the last block are in use, or of a block before it.
pub open spec fn lanes_of(n: int, b: int) -> int {
    if n - 32 * b < 32 {
        n - 32 * b
    } else {
        32
    }
}

/// The numbers of block `b`.
pub open spec fn block_at(x: Seq<u32>, b: int) -> Seq<u32> {
    x.subrange(32 * b, 32 * b + lanes_of(x.len() as int, b))
}

/// Whether every number is finite.
pub open spec fn all_finite(s: Seq<u32>) -> bool {
    forall|i: int| 0 <= i < s.len() ==> float::is_finite(#[trigger] s[i])
}

/// The scale of a block: the largest magnitude over 127.
pub open spec fn scale_of(block: Seq<u32>) -> u32 {
    arith::quotient(fold::highest(fold::magnitudes(block), 0), BYTE_MAX)
}

/// One over the scale of a block; zero if the scale is zero.
pub open spec fn inverse_of(block: Seq<u32>) -> u32 {
    if order::same(scale_of(block), 0) {
        0
    } else {
        arith::quotient(ONE, scale_of(block))
    }
}

/// The signed byte of the `i`-th number of a block; zero past its end.
pub open spec fn byte_of(block: Seq<u32>, i: int) -> i8 {
    if i < block.len() {
        integer::as_byte(arith::product(block[i], inverse_of(block))) as i8
    } else {
        0
    }
}

/// The signed bytes of the blocks of a row.
pub open spec fn quantized(x: Seq<u32>) -> Seq<i8> {
    Seq::new(
        (32 * blocks_of(x.len() as int)) as nat,
        |k: int| byte_of(block_at(x, k / 32), k % 32),
    )
}

/// The scales of the blocks of a row.
pub open spec fn scales(x: Seq<u32>) -> Seq<u32> {
    Seq::new(blocks_of(x.len() as int) as nat, |b: int| scale_of(block_at(x, b)))
}

/// Whether block `b` is the first that holds a number that is not finite.
pub open spec fn first_bad(x: Seq<u32>, b: int) -> bool {
    &&& 0 <= b < blocks_of(x.len() as int)
    &&& !all_finite(block_at(x, b))
    &&& forall|c: int| 0 <= c < b ==> all_finite(#[trigger] block_at(x, c))
}

/// How many blocks `n` numbers take.
fn block_count(n: usize) -> (b: usize)
    ensures
        b == blocks_of(n as int),
        b <= usize::MAX / 32 + 1,
{
    if n % 32 == 0 {
        n / 32
    } else {
        n / 32 + 1
    }
}

/// The scale and the signed bytes of a block; nothing if a number of it is not
/// finite.
fn quantize_block(block: &[u32]) -> (r: Option<(u32, Vec<i8>)>)
    requires
        block@.len() <= 32,
    ensures
        r is Some <==> all_finite(block@),
        r matches Some(p) ==> {
            &&& p.0 == scale_of(block@)
            &&& p.1@ == Seq::new(32, |i: int| byte_of(block@, i))
        },
{
    let n: usize = block.len();
    for i in 0..n
        invariant
            n == block@.len(),
            forall|k: int| 0 <= k < i ==> float::is_finite(#[trigger] block@[k]),
    {
        if !finite(block[i]) {
            return None;
        }
    }
    let mags: Vec<u32> = magnitudes_of(block);
    let d: u32 = fdiv(highest_of(mags.as_slice(), 0), BYTE_MAX);
    let id: u32 = if feq(d, 0) {
        0
    } else {
        fdiv(ONE, d)
    };
    let mut bytes: Vec<i8> = Vec::new();
    for i in 0..32usize
        invariant
            n == block@.len(),
            n <= 32,
            id == inverse_of(block@),
            bytes@ =~= Seq::new(i as nat, |k: int| byte_of(block@, k)),
    {
        if i < n {
            bytes.push(to_byte(fmul(block[i], id)));
        } else {
            bytes.push(0);
        }
    }
    Some((d, bytes))
}

/// Brings a row of activations into blocks. The last block is filled up with
/// zeros.
pub fn quantize_q8_0_activation(x: &[u32], xq: &mut [i8], scale: &mut [u32]) -> (res: Result<
    (),
    Error,
>)
    ensures
        final(xq)@.len() == old(xq)@.len(),
        final(scale)@.len() == old(scale)@.len(),
        old(xq)@.len() != 32 * blocks_of(x@.len() as int) ==> {
            &&& final(xq)@ == old(xq)@
            &&& final(scale)@ == old(scale)@
            &&& res == Err::<(), Error>(
                Error::ShapeMismatch("quantize_q8_0: xq length must be ceil(n/32)*32"),
            )
        },
        old(xq)@.len() == 32 * blocks_of(x@.len() as int) && old(scale)@.len() != blocks_of(
            x@.len() as int,
        ) ==> {
            &&& final(xq)@ == old(xq)@
            &&& final(scale)@ == old(scale)@
            &&& res == Err::<(), Error>(
                Error::ShapeMismatch("quantize_q8_0: scale length must be ceil(n/32)"),
            )
        },
        old(xq)@.len() == 32 * blocks_of(x@.len() as int) && old(scale)@.len() == blocks_of(
            x@.len() as int,
        ) ==> {
            &&& all_finite(x@) ==> {
                &&& res is Ok
                &&& final(xq)@ == quantized(x@)
                &&& final(scale)@ == scales(x@)
            }
            &&& !all_finite(x@) ==> {
                &&& res == Err::<(), Error>(Error::NonFiniteInput("quantize_q8_0: activation"))
                &&& exists|b: int| #[trigger]
                    first_bad(x@, b) && final(xq)@ == Seq::new(
                        old(xq)@.len(),
                        |k: int|
                            if k < 32 * b {
                                quantized(x@)[k]
                            } else {
                                old(xq)@[k]
                            },
                    ) && final(scale)@ == Seq::new(
                        old(scale)@.len(),
                        |c: int|
                            if c < b {
                                scales(x@)[c]
                            } else {
                                old(scale)@[c]
                            },
                    )
            }
        },
{
    let n: usize = x.len();
    let blocks: usize = block_count(n);
    let bytes: usize = xq.len();
    if blocks > usize::MAX / 32 || bytes != 32 * blocks {
        return Err(Error::ShapeMismatch("quantize_q8_0: xq length must be ceil(n/32)*32"));
    }
    if scale.len() != blocks {
        return Err(Error::ShapeMismatch("quantize_q8_0: scale length must be ceil(n/32)"));
    }
    let ghost was = xq@;
    let ghost were = scale@;
    for b in 0..blocks
        invariant
            n == x@.len(),
            blocks == blocks_of(n as int),
            bytes == 32 * blocks,
            was == old(xq)@,
            were == old(scale)@,
            was.len() == bytes,
            were.len() == blocks,
            xq@.len() == bytes,
            scale@.len() == blocks,
            forall|c: int| 0 <= c < b ==> all_finite(#[trigger] block_at(x@, c)),
            forall|k: int|
                0 <= k < bytes ==> #[trigger] xq@[k] == if k < 32 * b {
                    quantized(x@)[k]
                } else {
                    was[k]
                },
            forall|c: int|
                0 <= c < blocks ==> #[trigger] scale@[c] == if c < b {
                    scales(x@)[c]
                } else {
                    were[c]
                },
    {
        let i0: usize = b * 32;
        let bn: usize = if n - i0 < 32 {
            n - i0
        } else {
            32
        };
        let part: &[u32] = slice_subrange(x, i0, i0 + bn);
        assert(part@ =~= block_at(x@, b as int));
        match quantize_block(part) {
            None => {
                proof {
                    assert(first_bad(x@, b as int));
                    let bad = choose|i: int|
                        0 <= i < part@.len() && !float::is_finite(#[trigger] part@[i]);
                    assert(!float::is_finite(x@[i0 + bad]));
                    assert(xq@ =~= Seq::new(
                        bytes as nat,
                        |k: int|
                            if k < 32 * b {
                                quantized(x@)[k]
                            } else {
                                was[k]
                            },
                    ));
                    assert(scale@ =~= Seq::new(
                        blocks as nat,
                        |c: int|
                            if c < b {
                                scales(x@)[c]
                            } else {
                                were[c]
                            },
                    ));
                }
                return Err(Error::NonFiniteInput("quantize_q8_0: activation"));
            },
            Some((d, quants)) => {
                scale[b] = d;
                for i in 0..32usize
                    invariant
                        n == x@.len(),
                        b < blocks,
                        blocks == blocks_of(n as int),
                        bytes == 32 * blocks,
                        i0 == 32 * b,
                        xq@.len() == bytes,
                        quants@ == Seq::new(32, |i: int| byte_of(block_at(x@, b as int), i)),
                        forall|k: int|
                            0 <= k < bytes ==> #[trigger] xq@[k] == if k < 32 * b + i {
                                quantized(x@)[k]
                            } else {
                                was[k]
                            },
                {
                    xq[i0 + i] = quants[i];
                    assert((32 * b + i) / 32 == b);
                    assert((32 * b + i) % 32 == i);
                }
            },
        }
    }
    proof {
        assert forall|i: int| 0 <= i < n implies float::is_finite(#[trigger] x@[i]) by {
            let b = i / 32;
            assert(all_finite(block_at(x@, b)));
            assert(block_at(x@, b)[i - 32 * b] == x@[i]);
        }
        assert(xq@ =~= quantized(x@));
        assert(scale@ =~= scales(x@));
    }
    Ok(())
}

/// The `t`-th of rows of `width` numbers.
pub open spec fn row_at<T>(s: Seq<T>, width: nat, t: int) -> Seq<T> {
    s.subrange(t * width, (t + 1) * width)
}

/// A row lies inside of what holds it.
pub proof fn lemma_row_inside(rows: nat, width: nat, t: int)
    requires
        0 <= t < rows,
    ensures
        0 <= t * width,
        (t + 1) * width == t * width + width,
        (t + 1) * width <= rows * width,
{
    assert(0 <= t * width) by (nonlinear_arith)
        requires
            0 <= t,
            0 <= width,
    ;
    assert((t + 1) * width == t * width + width) by (nonlinear_arith);
    assert((t + 1) * width <= rows * width) by (nonlinear_arith)
        requires
            t + 1 <= rows,
            0 <= width,
    ;
}

/// Writing one row leaves the rows before it as they are.
proof fn lemma_rows_apart<T>(a: Seq<T>, b: Seq<T>, width: nat, t: int, r: int)
    requires
        0 <= r < t,
        a.len() == b.len(),
        (t + 1) * width <= a.len(),
        forall|k: int| 0 <= k < t * width ==> a[k] == b[k],
    ensures
        row_at(a, width, r) == row_at(b, width, r),
{
    lemma_row_inside((t + 1) as nat, width, r);
    assert((r + 1) * width <= t * width) by (nonlinear_arith)
        requires
            r + 1 <= t,
            0 <= width,
    ;
    assert(row_at(a, width, r) =~= row_at(b, width, r));
}

/// Brings rows of activations into blocks, row after row. Where a row holds a
/// number that is not finite, the rows are left in an unspecified state. Rows
/// of no numbers at all are not to be asked for.
pub fn quantize_q8_0_batch(
    x: &[u32],
    xq: &mut [i8],
    scale: &mut [u32],
    n_tok: usize,
    in_dim: usize,
) -> (res: Result<(), Error>)
    requires
        in_dim == 0 ==> x@.len() > 0 || old(xq)@.len() > 0 || old(scale)@.len() > 0,
    ensures
        final(xq)@.len() == old(xq)@.len(),
        final(scale)@.len() == old(scale)@.len(),
        x@.len() != n_tok * in_dim ==> {
            &&& final(xq)@ == old(xq)@
            &&& final(scale)@ == old(scale)@
            &&& res == Err::<(), Error>(
                Error::ShapeMismatch("quantize_q8_0_batch: x must be n_tok*in_dim"),
            )
        },
        x@.len() == n_tok * in_dim && old(xq)@.len() != n_tok * blocks_of(in_dim as int) * 32 ==> {
            &&& final(xq)@ == old(xq)@
            &&& final(scale)@ == old(scale)@
            &&& res == Err::<(), Error>(
                Error::ShapeMismatch("quantize_q8_0_batch: xq must be n_tok*blocks*32"),
            )
        },
        x@.len() == n_tok * in_dim && old(xq)@.len() == n_tok * blocks_of(in_dim as int) * 32 && old(
            scale)@.len() != n_tok * blocks_of(in_dim as int) ==> {
            &&& final(xq)@ == old(xq)@
            &&& final(scale)@ == old(scale)@
            &&& res == Err::<(), Error>(
                Error::ShapeMismatch("quantize_q8_0_batch: scale must be n_tok*blocks"),
            )
        },
        x@.len() == n_tok * in_dim && old(xq)@.len() == n_tok * blocks_of(in_dim as int) * 32 && old(
            scale)@.len() == n_tok * blocks_of(in_dim as int) ==> {
            &&& all_finite(x@) ==> {
                &&& res is Ok
                &&& forall|t: int|
                    0 <= t < n_tok ==> #[trigger] row_at(
                        final(xq)@,
                        (32 * blocks_of(in_dim as int)) as nat,
                        t,
                    ) == quantized(row_at(x@, in_dim as nat, t))
                &&& forall|t: int|
                    0 <= t < n_tok ==> #[trigger] row_at(
                        final(scale)@,
                        blocks_of(in_dim as int) as nat,
                        t,
                    ) == scales(row_at(x@, in_dim as nat, t))
            }
            &&& !all_finite(x@) ==> res == Err::<(), Error>(
                Error::NonFiniteInput("quantize_q8_0: activation"),
            )
        },
{
    let blocks: usize = block_count(in_dim);
    assert(n_tok * in_dim * 1 == n_tok * in_dim);
    if !is_product(x.len(), n_tok, in_dim, 1) {
        return Err(Error::ShapeMismatch("quantize_q8_0_batch: x must be n_tok*in_dim"));
    }
    if !is_product(xq.len(), n_tok, blocks, 32) {
        return Err(Error::ShapeMismatch("quantize_q8_0_batch: xq must be n_tok*blocks*32"));
    }
    assert(n_tok * blocks * 1 == n_tok * blocks);
    if !is_product(scale.len(), n_tok, blocks, 1) {
        return Err(Error::ShapeMismatch("quantize_q8_0_batch: scale must be n_tok*blocks"));
    }
    let bytes: usize = xq.len();
    let count: usize = scale.len();
    let len: usize = x.len();
    assert(in_dim == 0 ==> n_tok * in_dim == 0 && n_tok * blocks == 0 && n_tok * blocks * 32 == 0)
        by (nonlinear_arith)
        requires
            in_dim == 0 ==> blocks == 0,
    ;
    let ghost bw = (32 * blocks) as nat;
    assert(bytes == n_tok * bw) by (nonlinear_arith)
        requires
            bytes == n_tok * blocks * 32,
            bw == 32 * blocks,
    ;
    for t in 0..n_tok
        invariant
            0 < in_dim,
            blocks == blocks_of(in_dim as int),
            bw == 32 * blocks,
            bytes == n_tok * bw,
            bytes == n_tok * blocks * 32,
            count == n_tok * blocks,
            len == n_tok * in_dim,
            x@.len() == len,
            old(xq)@.len() == bytes,
            old(scale)@.len() == count,
            xq@.len() == bytes,
            scale@.len() == count,
            forall|r: int| 0 <= r < t ==> all_finite(#[trigger] row_at(x@, in_dim as nat, r)),
            forall|r: int|
                0 <= r < t ==> #[trigger] row_at(xq@, bw, r) == quantized(
                    row_at(x@, in_dim as nat, r),
                ),
            forall|r: int|
                0 <= r < t ==> #[trigger] row_at(scale@, blocks as nat, r) == scales(
                    row_at(x@, in_dim as nat, r),
                ),
    {
        proof {
            lemma_row_inside(n_tok as nat, in_dim as nat, t as int);
            lemma_row_inside(n_tok as nat, bw, t as int);
            lemma_row_inside(n_tok as nat, blocks as nat, t as int);
            assert(t * bw == (t * blocks) * 32) by (nonlinear_arith)
                requires
                    bw == 32 * blocks,
            ;
        }
        let x_row: &[u32] = slice_subrange(x, t * in_dim, t * in_dim + in_dim);
        assert(x_row@ =~= row_at(x@, in_dim as nat, t as int));
        let mut q_row: Vec<i8> = Vec::new();
        let width: usize = 32 * blocks;
        for i in 0..width
            invariant
                q_row@.len() == i,
        {
            q_row.push(0);
        }
        let mut s_row: Vec<u32> = crate::buffer::filled(blocks, 0);
        match quantize_q8_0_activation(x_row, q_row.as_mut_slice(), s_row.as_mut_slice()) {
            Err(e) => {
                proof {
                    let i = choose|i: int|
                        0 <= i < x_row@.len() && !float::is_finite(#[trigger] x_row@[i]);
                    assert(!float::is_finite(x@[t * in_dim + i]));
                }
                return Err(e);
            },
            Ok(_) => {},
        }
        let ghost mid = xq@;
        let ghost mids = scale@;
        let at: usize = t * width;
        for i in 0..width
            invariant
                width == bw,
                at == t * bw,
                at + width <= bytes,
                mid.len() == bytes,
                xq@.len() == bytes,
                q_row@.len() == width,
                forall|k: int|
                    0 <= k < bytes ==> #[trigger] xq@[k] == if at <= k < at + i {
                        q_row@[k - at]
                    } else {
                        mid[k]
                    },
        {
            xq[at + i] = q_row[i];
        }
        crate::buffer::write_at(scale, t * blocks, s_row.as_slice());
        proof {
            assert(row_at(xq@, bw, t as int) =~= q_row@);
            assert(row_at(scale@, blocks as nat, t as int) =~= s_row@);
            assert forall|r: int| 0 <= r < t + 1 implies #[trigger] row_at(xq@, bw, r) == quantized(
                row_at(x@, in_dim as nat, r),
            ) by {
                if r < t {
                    lemma_rows_apart(xq@, mid, bw, t as int, r);
                }
            }
            assert forall|r: int| 0 <= r < t + 1 implies #[trigger] row_at(
                scale@,
                blocks as nat,
                r,
            ) == scales(row_at(x@, in_dim as nat, r)) by {
                if r < t {
                    lemma_rows_apart(scale@, mids, blocks as nat, t as int, r);
                }
            }
        }
    }
    proof {
        assert forall|i: int| 0 <= i < len implies float::is_finite(#[trigger] x@[i]) by {
            let d = in_dim as int;
            let t = i / d;
            vstd::arithmetic::div_mod::lemma_fundamental_div_mod(i, d);
            assert(t < n_tok) by (nonlinear_arith)
                requires
                    d * t <= i,
                    i < n_tok * d,
                    d > 0,
            ;
            vstd::arithmetic::div_mod::lemma_div_pos_is_pos(i, d);
            lemma_row_inside(n_tok as nat, in_dim as nat, t);
            assert(d * t == t * d) by (nonlinear_arith);
            assert(all_finite(row_at(x@, in_dim as nat, t)));
            assert(row_at(x@, in_dim as nat, t)[i - t * in_dim] == x@[i]);
        }
    }
    Ok(())
}

/// Bytes read as signed ones: `bytemuck::cast_slice` from `u8` to `i8`. It
/// keeps the length, and each byte keeps its bits, read as two's complement.
#[verifier::external_body]
fn signed_bytes(bytes: &[u8]) -> (r: &[i8])
    ensures
        r@.len() == bytes@.len(),
        forall|i: int|
            0 <= i < bytes@.len() ==> #[trigger] r@[i] == dequant::signed_value(bytes@[i]),
{
    bytemuck::cast_slice(bytes)
}

/// The scale of the stored block `b`; zero where it is not finite.
pub open spec fn weight_scale(row: Seq<u8>, b: int) -> u32 {
    let s = dequant::half_at(row, 34 * b);
    if float::is_finite(s) {
        s
    } else {
        0
    }
}

/// The product of the `i`-th signed bytes of two blocks.
pub open spec fn lane(row: Seq<u8>, xq: Seq<i8>, b: int, i: int) -> int {
    dequant::signed_value(row[34 * b + 2 + i]) * xq[32 * b + i]
}

/// The products of the first `n` signed bytes of two blocks, added up.
pub open spec fn block_dot(row: Seq<u8>, xq: Seq<i8>, b: int, n: nat) -> int
    decreases n,
{
    if n == 0 {
        0
    } else {
        block_dot(row, xq, b, (n - 1) as nat) + lane(row, xq, b, n - 1)
    }
}

/// What the first `n` blocks of a stored row and of an activation contribute
/// to their product, added up block by block.
pub open spec fn row_dot(row: Seq<u8>, xq: Seq<i8>, xscale: Seq<u32>, in_dim: int, n: nat) -> u32
    decreases n,
{
    if n == 0 {
        0
    } else {
        let b = n - 1;
        arith::sum(
            row_dot(row, xq, xscale, in_dim, (n - 1) as nat),
            arith::product(
                arith::product(weight_scale(row, b), xscale[b]),
                arith::of_integer(block_dot(row, xq, b, lanes_of(in_dim, b) as nat)),
            ),
        )
    }
}

/// Four adjacent products, from the `i`-th on.
pub open spec fn four(row: Seq<u8>, xq: Seq<i8>, b: int, i: int) -> int {
    lane(row, xq, b, i) + lane(row, xq, b, i + 1) + lane(row, xq, b, i + 2) + lane(
        row,
        xq,
        b,
        i + 3,
    )
}

/// What the `j`-th of four adders makes of a block: two times four products.
pub open spec fn quarter_dot(row: Seq<u8>, xq: Seq<i8>, b: int, j: int) -> int {
    four(row, xq, b, 4 * j) + four(row, xq, b, 16 + 4 * j)
}

/// What the `j`-th of four adders holds after `k` blocks, every other one from
/// `first` on, multiplying and adding in one step.
pub open spec fn strand(
    row: Seq<u8>,
    xq: Seq<i8>,
    xscale: Seq<u32>,
    first: int,
    k: nat,
    j: int,
) -> u32
    decreases k,
{
    if k == 0 {
        0
    } else {
        let b = first + 2 * (k - 1);
        fused::fused(
            arith::of_integer(quarter_dot(row, xq, b, j)),
            arith::product(weight_scale(row, b), xscale[b]),
            strand(row, xq, xscale, first, (k - 1) as nat, j),
        )
    }
}

/// What the `j`-th of four adders holds in the end, the even and the odd blocks
/// together.
pub open spec fn adder(row: Seq<u8>, xq: Seq<i8>, xscale: Seq<u32>, blocks: int, j: int) -> u32 {
    arith::sum(
        strand(row, xq, xscale, 0, ((blocks + 1) / 2) as nat, j),
        strand(row, xq, xscale, 1, (blocks / 2) as nat, j),
    )
}

/// The product of a stored row and an activation, added up by four adders,
/// where every block is in full use.
pub open spec fn paired_dot(row: Seq<u8>, xq: Seq<i8>, xscale: Seq<u32>, in_dim: int) -> u32 {
    let blocks = blocks_of(in_dim);
    if in_dim % 32 == 0 {
        arith::sum(
            arith::sum(
                adder(row, xq, xscale, blocks, 0),
                adder(row, xq, xscale, blocks, 1),
            ),
            arith::sum(
                adder(row, xq, xscale, blocks, 2),
                adder(row, xq, xscale, blocks, 3),
            ),
        )
    } else {
        row_dot(row, xq, xscale, in_dim, blocks as nat)
    }
}

/// The product of a stored row and an activation with an instruction set.
pub open spec fn tier_dot(
    tier: SimdTier,
    row: Seq<u8>,
    xq: Seq<i8>,
    xscale: Seq<u32>,
    in_dim: int,
) -> u32 {
    if tier == SimdTier::Neon {
        paired_dot(row, xq, xscale, in_dim)
    } else {
        row_dot(row, xq, xscale, in_dim, blocks_of(in_dim) as nat)
    }
}

/// Whether a stored row and an activation have as many blocks as `in_dim`
/// numbers take.
pub open spec fn fits(row: Seq<u8>, xq: Seq<i8>, xscale: Seq<u32>, in_dim: int) -> bool {
    &&& row.len() == 34 * blocks_of(in_dim)
    &&& xq.len() == 32 * blocks_of(in_dim)
    &&& xscale.len() == blocks_of(in_dim)
}

/// The scale of a stored block; zero where it is not finite.
fn block_scale_finite(row: &[u8], b: usize) -> (s: u32)
    requires
        34 * (b + 1) <= row@.len(),
    ensures
        s == weight_scale(row@, b as int),
{
    let len: usize = row.len();
    let s: u32 = read_half(row, 34 * b);
    if finite(s) {
        s
    } else {
        0
    }
}

/// The product of two signed bytes is small.
proof fn lemma_lane(row: Seq<u8>, xq: Seq<i8>, b: int, i: int)
    ensures
        -0x4000 <= lane(row, xq, b, i) <= 0x4000,
{
    let w = dequant::signed_value(row[34 * b + 2 + i]);
    let v = xq[32 * b + i];
    assert(-0x4000 <= w * v <= 0x4000) by (nonlinear_arith)
        requires
            -128 <= w <= 127,
            -128 <= v <= 127,
    ;
}

/// The product of two signed bytes.
fn lane_of(wq: &[i8], xq: &[i8], b: usize, i: usize, Ghost(row): Ghost<Seq<u8>>) -> (p: i32)
    requires
        i < 32,
        wq@.len() == 32,
        32 * (b + 1) <= xq@.len(),
        forall|k: int| 0 <= k < 32 ==> #[trigger] wq@[k] == dequant::signed_value(row[34 * b + 2 + k]),
    ensures
        p == lane(row, xq@, b as int, i as int),
        -0x4000 <= p <= 0x4000,
{
    let len: usize = xq.len();
    proof {
        lemma_lane(row, xq@, b as int, i as int);
    }
    wq[i] as i32 * xq[32 * b + i] as i32
}

/// The signed bytes of a stored block.
fn weight_bytes(row: &[u8], b: usize) -> (wq: &[i8])
    requires
        34 * (b + 1) <= row@.len(),
    ensures
        wq@.len() == 32,
        forall|k: int| 0 <= k < 32 ==> #[trigger] wq@[k] == dequant::signed_value(row@[34 * b + 2 + k]),
{
    let len: usize = row.len();
    signed_bytes(slice_subrange(row, 34 * b + 2, 34 * b + 34))
}

/// The products of the signed bytes in use of two blocks, added up.
fn dot_block(row: &[u8], xq: &[i8], b: usize, n: usize) -> (dot: i32)
    requires
        n <= 32,
        34 * (b + 1) <= row@.len(),
        32 * (b + 1) <= xq@.len(),
    ensures
        dot == block_dot(row@, xq@, b as int, n as nat),
        -0x8_0000 <= dot <= 0x8_0000,
{
    let wq: &[i8] = weight_bytes(row, b);
    let mut dot: i32 = 0;
    for i in 0..n
        invariant
            n <= 32,
            32 * (b + 1) <= xq@.len(),
            wq@.len() == 32,
            forall|k: int|
                0 <= k < 32 ==> #[trigger] wq@[k] == dequant::signed_value(row@[34 * b + 2 + k]),
            dot == block_dot(row@, xq@, b as int, i as nat),
            -0x4000 * i <= dot <= 0x4000 * i,
    {
        dot = dot + lane_of(wq, xq, b, i, Ghost(row@));
    }
    dot
}

/// The product of a stored row and an activation, block by block.
pub fn dot_q8_0_row_scalar(row: &[u8], xq: &[i8], xscale: &[u32], in_dim: usize) -> (r: u32)
    requires
        fits(row@, xq@, xscale@, in_dim as int),
    ensures
        r == row_dot(row@, xq@, xscale@, in_dim as int, blocks_of(in_dim as int) as nat),
{
    let blocks: usize = block_count(in_dim);
    let mut acc: u32 = 0;
    for b in 0..blocks
        invariant
            blocks == blocks_of(in_dim as int),
            fits(row@, xq@, xscale@, in_dim as int),
            acc == row_dot(row@, xq@, xscale@, in_dim as int, b as nat),
    {
        let left: usize = in_dim - b * 32;
        let bn: usize = if left < 32 {
            left
        } else {
            32
        };
        let wscale: u32 = block_scale_finite(row, b);
        let dot: i32 = dot_block(row, xq, b, bn);
        acc = fadd(acc, fmul(fmul(wscale, xscale[b]), from_i64(dot as i64)));
    }
    acc
}

/// The product of a stored row and an activation with 512-bit vectors. A vector
/// holds a whole block and adds up integers, so the result is that of
/// `dot_q8_0_row_scalar`.
pub fn dot_q8_0_row_avx512(row: &[u8], xq: &[i8], xscale: &[u32], in_dim: usize) -> (r: u32)
    requires
        fits(row@, xq@, xscale@, in_dim as int),
    ensures
        r == row_dot(row@, xq@, xscale@, in_dim as int, blocks_of(in_dim as int) as nat),
{
    dot_q8_0_row_scalar(row, xq, xscale, in_dim)
}

/// What the `j`-th of four adders makes of a block.
fn quarter_of(row: &[u8], xq: &[i8], b: usize, j: usize) -> (q: i32)
    requires
        j < 4,
        34 * (b + 1) <= row@.len(),
        32 * (b + 1) <= xq@.len(),
    ensures
        q == quarter_dot(row@, xq@, b as int, j as int),
        -0x2_0000 <= q <= 0x2_0000,
{
    let wq: &[i8] = weight_bytes(row, b);
    let low: i32 = lane_of(wq, xq, b, 4 * j, Ghost(row@)) + lane_of(
        wq,
        xq,
        b,
        4 * j + 1,
        Ghost(row@),
    ) + lane_of(wq, xq, b, 4 * j + 2, Ghost(row@)) + lane_of(wq, xq, b, 4 * j + 3, Ghost(row@));
    let high: i32 = lane_of(wq, xq, b, 16 + 4 * j, Ghost(row@)) + lane_of(
        wq,
        xq,
        b,
        16 + 4 * j + 1,
        Ghost(row@),
    ) + lane_of(wq, xq, b, 16 + 4 * j + 2, Ghost(row@)) + lane_of(
        wq,
        xq,
        b,
        16 + 4 * j + 3,
        Ghost(row@),
    );
    low + high
}

/// What the `j`-th of four adders holds after every other block.
fn strand_of(
    row: &[u8],
    xq: &[i8],
    xscale: &[u32],
    first: usize,
    count: usize,
    j: usize,
    in_dim: usize,
) -> (r: u32)
    requires
        j < 4,
        first <= 1,
        fits(row@, xq@, xscale@, in_dim as int),
        first + 2 * count <= blocks_of(in_dim as int) + 1,
    ensures
        r == strand(row@, xq@, xscale@, first as int, count as nat, j as int),
{
    let blocks: usize = xscale.len();
    let bytes: usize = row.len();
    let mut acc: u32 = 0;
    for k in 0..count
        invariant
            j < 4,
            first <= 1,
            blocks == blocks_of(in_dim as int),
            bytes == row@.len(),
            bytes == 34 * blocks,
            fits(row@, xq@, xscale@, in_dim as int),
            first + 2 * count <= blocks + 1,
            acc == strand(row@, xq@, xscale@, first as int, k as nat, j as int),
    {
        let b: usize = first + 2 * k;
        let q: i32 = quarter_of(row, xq, b, j);
        let s: u32 = fmul(block_scale_finite(row, b), xscale[b]);
        acc = ffma(from_i64(q as i64), s, acc);
    }
    acc
}

/// The product of a stored row and an activation with 128-bit vectors of four
/// adders, the even and the odd blocks apart. Its rounding differs from that of
/// `dot_q8_0_row_scalar`.
pub fn dot_q8_0_row_neon(row: &[u8], xq: &[i8], xscale: &[u32], in_dim: usize) -> (r: u32)
    requires
        fits(row@, xq@, xscale@, in_dim as int),
    ensures
        r == paired_dot(row@, xq@, xscale@, in_dim as int),
{
    if in_dim % 32 != 0 {
        return dot_q8_0_row_scalar(row, xq, xscale, in_dim);
    }
    let blocks: usize = block_count(in_dim);
    let mut sums: Vec<u32> = Vec::new();
    for j in 0..4usize
        invariant
            blocks == blocks_of(in_dim as int),
            blocks <= usize::MAX / 32 + 1,
            fits(row@, xq@, xscale@, in_dim as int),
            sums@.len() == j,
            forall|i: int|
                0 <= i < j ==> #[trigger] sums@[i] == adder(
                    row@,
                    xq@,
                    xscale@,
                    blocks as int,
                    i,
                ),
    {
        let even: u32 = strand_of(row, xq, xscale, 0, (blocks + 1) / 2, j, in_dim);
        let odd: u32 = strand_of(row, xq, xscale, 1, blocks / 2, j, in_dim);
        sums.push(fadd(even, odd));
    }
    fadd(fadd(sums[0], sums[1]), fadd(sums[2], sums[3]))
}

/// The product of a stored row and an activation with an instruction set.
fn dot_q8_0_row_dispatch(
    row: &[u8],
    xq: &[i8],
    xscale: &[u32],
    in_dim: usize,
    tier: SimdTier,
) -> (r: u32)
    requires
        fits(row@, xq@, xscale@, in_dim as int),
    ensures
        r == tier_dot(tier, row@, xq@, xscale@, in_dim as int),
{
    match tier {
        SimdTier::Neon => dot_q8_0_row_neon(row, xq, xscale, in_dim),
        SimdTier::Avx512 => dot_q8_0_row_avx512(row, xq, xscale, in_dim),
        _ => dot_q8_0_row_scalar(row, xq, xscale, in_dim),
    }
}

/// The products of stored rows and activations: for each activation in turn,
/// its product with each row.
pub open spec fn batch_product(
    weights: Seq<u8>,
    xq: Seq<i8>,
    xscale: Seq<u32>,
    n_tok: int,
    in_dim: int,
    out_dim: int,
    tier: SimdTier,
) -> Seq<u32> {
    let blocks = blocks_of(in_dim);
    Seq::new(
        (n_tok * out_dim) as nat,
        |k: int|
            tier_dot(
                tier,
                row_at(weights, (34 * blocks) as nat, k % out_dim),
                row_at(xq, (32 * blocks) as nat, k / out_dim),
                row_at(xscale, blocks as nat, k / out_dim),
                in_dim,
            ),
    )
}

/// The product of row `o` of the weights and activation `t`.
fn product_at(
    weights: &[u8],
    xq: &[i8],
    xscale: &[u32],
    in_dim: usize,
    blocks: usize,
    o: usize,
    t: usize,
    tier: SimdTier,
    Ghost(rows): Ghost<nat>,
    Ghost(toks): Ghost<nat>,
) -> (r: u32)
    requires
        blocks == blocks_of(in_dim as int),
        o < rows,
        t < toks,
        weights@.len() == rows * blocks * 34,
        xq@.len() == toks * blocks * 32,
        xscale@.len() == toks * blocks,
    ensures
        r == tier_dot(
            tier,
            row_at(weights@, (34 * blocks) as nat, o as int),
            row_at(xq@, (32 * blocks) as nat, t as int),
            row_at(xscale@, blocks as nat, t as int),
            in_dim as int,
        ),
{
    let wlen: usize = weights.len();
    let qlen: usize = xq.len();
    let slen: usize = xscale.len();
    proof {
        let bw = (34 * blocks) as nat;
        let bq = (32 * blocks) as nat;
        lemma_row_inside(rows, bw, o as int);
        lemma_row_inside(toks, bq, t as int);
        lemma_row_inside(toks, blocks as nat, t as int);
        assert(rows * bw == rows * blocks * 34) by (nonlinear_arith)
            requires
                bw == 34 * blocks,
        ;
        assert(toks * bq == toks * blocks * 32) by (nonlinear_arith)
            requires
                bq == 32 * blocks,
        ;
    }
    let at: usize = o * (34 * blocks);
    let w_row: &[u8] = slice_subrange(weights, at, at + 34 * blocks);
    let qt: usize = t * (32 * blocks);
    let xq_row: &[i8] = slice_subrange(xq, qt, qt + 32 * blocks);
    let st: usize = t * blocks;
    let xs_row: &[u32] = slice_subrange(xscale, st, st + blocks);
    assert(w_row@ =~= row_at(weights@, (34 * blocks) as nat, o as int));
    assert(xq_row@ =~= row_at(xq@, (32 * blocks) as nat, t as int));
    assert(xs_row@ =~= row_at(xscale@, blocks as nat, t as int));
    dot_q8_0_row_dispatch(w_row, xq_row, xs_row, in_dim, tier)
}

/// Multiplies stored rows and activations.
pub fn matmul_q8_0_batch(
    out: &mut [u32],
    weights: &[u8],
    xq: &[i8],
    xscale: &[u32],
    n_tok: usize,
    in_dim: usize,
    out_dim: usize,
    tier: SimdTier,
) -> (res: Result<(), Error>)
    requires
        out_dim == 0 ==> weights@.len() > 0 || old(out)@.len() > 0 || xq@.len() != n_tok * blocks_of(
            in_dim as int,
        ) * 32 || xscale@.len() != n_tok * blocks_of(in_dim as int),
    ensures
        final(out)@.len() == old(out)@.len(),
        weights@.len() != out_dim * blocks_of(in_dim as int) * 34 ==> {
            &&& final(out)@ == old(out)@
            &&& res == Err::<(), Error>(
                Error::ShapeMismatch("matmul_q8_0_batch: weights must be out_dim*blocks*34"),
            )
        },
        weights@.len() == out_dim * blocks_of(in_dim as int) * 34 && xq@.len() != n_tok * blocks_of(
            in_dim as int,
        ) * 32 ==> {
            &&& final(out)@ == old(out)@
            &&& res == Err::<(), Error>(
                Error::ShapeMismatch("matmul_q8_0_batch: xq must be n_tok*blocks*32"),
            )
        },
        weights@.len() == out_dim * blocks_of(in_dim as int) * 34 && xq@.len() == n_tok * blocks_of(
            in_dim as int,
        ) * 32 && xscale@.len() != n_tok * blocks_of(in_dim as int) ==> {
            &&& final(out)@ == old(out)@
            &&& res == Err::<(), Error>(
                Error::ShapeMismatch("matmul_q8_0_batch: xscale must be n_tok*blocks"),
            )
        },
        weights@.len() == out_dim * blocks_of(in_dim as int) * 34 && xq@.len() == n_tok * blocks_of(
            in_dim as int,
        ) * 32 && xscale@.len() == n_tok * blocks_of(in_dim as int) && old(out)@.len() != n_tok
            * out_dim ==> {
            &&& final(out)@ == old(out)@
            &&& res == Err::<(), Error>(
                Error::ShapeMismatch("matmul_q8_0_batch: out must be n_tok*out_dim"),
            )
        },
        weights@.len() == out_dim * blocks_of(in_dim as int) * 34 && xq@.len() == n_tok * blocks_of(
            in_dim as int,
        ) * 32 && xscale@.len() == n_tok * blocks_of(in_dim as int) && old(out)@.len() == n_tok
            * out_dim ==> {
            &&& res is Ok
            &&& final(out)@ == batch_product(
                weights@,
                xq@,
                xscale@,
                n_tok as int,
                in_dim as int,
                out_dim as int,
                tier,
            )
        },
{
    let blocks: usize = block_count(in_dim);
    if !is_product(weights.len(), out_dim, blocks, 34) {
        return Err(Error::ShapeMismatch("matmul_q8_0_batch: weights must be out_dim*blocks*34"));
    }
    if !is_product(xq.len(), n_tok, blocks, 32) {
        return Err(Error::ShapeMismatch("matmul_q8_0_batch: xq must be n_tok*blocks*32"));
    }
    assert(n_tok * blocks * 1 == n_tok * blocks);
    if !is_product(xscale.len(), n_tok, blocks, 1) {
        return Err(Error::ShapeMismatch("matmul_q8_0_batch: xscale must be n_tok*blocks"));
    }
    assert(n_tok * out_dim * 1 == n_tok * out_dim);
    if !is_product(out.len(), n_tok, out_dim, 1) {
        return Err(Error::ShapeMismatch("matmul_q8_0_batch: out must be n_tok*out_dim"));
    }
    assert(out_dim == 0 ==> n_tok * out_dim == 0 && out_dim * blocks * 34 == 0)
        by (nonlinear_arith);
    let ghost want = batch_product(
        weights@,
        xq@,
        xscale@,
        n_tok as int,
        in_dim as int,
        out_dim as int,
        tier,
    );
    let total: usize = out.len();
    let mut r: Vec<u32> = Vec::new();
    for k in 0..total
        invariant
            0 < out_dim,
            blocks == blocks_of(in_dim as int),
            total == n_tok * out_dim,
            weights@.len() == out_dim * blocks * 34,
            xq@.len() == n_tok * blocks * 32,
            xscale@.len() == n_tok * blocks,
            want == batch_product(
                weights@,
                xq@,
                xscale@,
                n_tok as int,
                in_dim as int,
                out_dim as int,
                tier,
            ),
            r@ =~= want.take(k as int),
    {
        let t: usize = k / out_dim;
        let o: usize = k % out_dim;
        proof {
            vstd::arithmetic::div_mod::lemma_fundamental_div_mod(k as int, out_dim as int);
            assert(t < n_tok) by (nonlinear_arith)
                requires
                    out_dim * t <= k,
                    k < n_tok * out_dim,
                    out_dim > 0,
            ;
        }
        let p: u32 = product_at(
            weights,
            xq,
            xscale,
            in_dim,
            blocks,
            o,
            t,
            tier,
            Ghost(out_dim as nat),
            Ghost(n_tok as nat),
        );
        r.push(p);
    }
    assert(r@ =~= want);
    overwrite(out, r.as_slice());
    Ok(())
}

/// Zeros stay zero: their scale is zero, and so are their bytes.
pub proof fn law_zeros_stay(block: Seq<u32>, i: int)
    requires
        forall|k: int| 0 <= k < block.len() ==> float::is_zero(#[trigger] block[k]),
        0 <= i,
    ensures
        float::is_zero(scale_of(block)),
        byte_of(block, i) == 0,
{
    let mags = fold::magnitudes(block);
    let top = fold::highest(mags, 0);
    fold::law_highest(mags, 0);
    if top != 0 {
        let k = choose|k: int| 0 <= k < mags.len() && mags[k] == top;
        assert(mags[k] == float::magnitude(block[k]));
    }
    arith::lemma_units_zero(0);
    arith::lemma_units_zero(float::magnitude(BYTE_MAX));
    order::law_rounding_keeps_numbers(0, float::units(float::magnitude(BYTE_MAX)));
    assert(0 * pow2(149) == 0 && 0 * float::units(float::magnitude(BYTE_MAX)) == 0)
        by (nonlinear_arith);
    if i < block.len() {
        let p = arith::product(block[i], 0);
        order::law_times_zero(block[i], 0);
        lemma_pow2_pos(149);
        assert(integer::nearest(p) == 0);
    }
}

/// The bytes that fill up the last block of a row are zero.
pub proof fn law_padding_is_zero(x: Seq<u32>, k: int)
    requires
        x.len() <= k < 32 * blocks_of(x.len() as int),
    ensures
        quantized(x)[k] == 0,
{
    let n = x.len() as int;
    let b = k / 32;
    assert(32 * b < n <= 32 * b + k % 32);
    assert(block_at(x, b).len() == n - 32 * b);
}

/// A block whose stored scale is not finite adds nothing to a product.
pub proof fn law_bad_scale_adds_nothing(
    row: Seq<u8>,
    xq: Seq<i8>,
    xscale: Seq<u32>,
    in_dim: int,
    n: nat,
)
    requires
        n > 0,
        !float::is_finite(dequant::half_at(row, 34 * (n - 1))),
        float::is_finite(xscale[n - 1]),
        0 < lanes_of(in_dim, n - 1),
        !float::is_nan(row_dot(row, xq, xscale, in_dim, (n - 1) as nat)),
    ensures
        order::same(
            row_dot(row, xq, xscale, in_dim, n),
            row_dot(row, xq, xscale, in_dim, (n - 1) as nat),
        ),
{
    let b = n - 1;
    let lanes = lanes_of(in_dim, b) as nat;
    let dot = block_dot(row, xq, b, lanes);
    lemma_block_dot(row, xq, b, lanes);
    lemma_small_integer(dot);
    let scale = arith::product(weight_scale(row, b), xscale[b]);
    order::law_times_zero(xscale[b], 0);
    order::law_order_of_two(xscale[b], 0);
    order::law_times_zero(arith::of_integer(dot), scale);
    order::law_order_of_two(arith::of_integer(dot), scale);
    order::law_adding_zero(
        row_dot(row, xq, xscale, in_dim, (n - 1) as nat),
        arith::product(scale, arith::of_integer(dot)),
    );
}

proof fn lemma_block_dot(row: Seq<u8>, xq: Seq<i8>, b: int, n: nat)
    ensures
        -0x4000 * n <= block_dot(row, xq, b, n) <= 0x4000 * n,
    decreases n,
{
    if n > 0 {
        lemma_block_dot(row, xq, b, (n - 1) as nat);
        lemma_lane(row, xq, b, n - 1);
    }
}

/// The bits of an integer below 2^20 stand for a finite number.
proof fn lemma_small_integer(n: int)
    requires
        -0x10_0000 <= n <= 0x10_0000,
    ensures
        float::is_finite(arith::of_integer(n)),
{
    lemma2_to64();
    let mag = 0x4980_0000nat;
    assert(float::exponent(mag) == 146);
    assert(float::significand(mag) == 0x80_0000);
    lemma_pow2_adds(23, 146);
    lemma_pow2_adds(20, 149);
    assert(float::units(mag) == 0x10_0000 * pow2(149));
    let num = arith::abs(n) * pow2(149);
    assert(num <= float::units(mag)) by (nonlinear_arith)
        requires
            num == arith::abs(n) * pow2(149),
            arith::abs(n) <= 0x10_0000,
            float::units(mag) == 0x10_0000 * pow2(149),
    ;
    order::law_rounding_keeps_bounds(num, 1, mag);
}

} // verus!
