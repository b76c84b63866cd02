//! Matrix products with weights in a block format and plain activations.

use crate::buffer::{filled, is_product, overwrite};
use crate::cpu::capability::SimdTier;
use crate::cpu::error::Error;
use crate::cpu::ops::q8_0;
use crate::float::fold;
use crate::float::fold::dot_of;
use crate::gguf::dequant;
use crate::gguf;
use crate::gguf::dequant::dequant_to_f32;
use crate::gguf::dequant::iq2_xxs::dequant_iq2_xxs;
use crate::gguf::dequant::q2_k::dequant_q2_k;
use crate::gguf::tensor::GgmlType;
use vstd::prelude::*;
use vstd::slice::slice_subrange;

verus! {

/// Whether weights of a type can be multiplied.
pub open spec fn multiplies(dtype: GgmlType) -> bool {
    dtype == GgmlType::Q4_K || dtype == GgmlType::Q2_K || dtype == GgmlType::IQ2_XXS || dtype
        == GgmlType::Q4_0 || dtype == GgmlType::Q8_0
}

/// Whether a row of `in_dim` weights takes whole blocks.
pub open spec fn aligned(dtype: GgmlType, in_dim: int) -> bool {
    in_dim % (dtype.elements() as int) == 0
}

/// Bytes of a row of `in_dim` weights.
pub open spec fn row_bytes(dtype: GgmlType, in_dim: int) -> int {
    in_dim / (dtype.elements() as int) * dtype.bytes()
}

/// The numbers of a row of weights. IQ2_XXS takes them from a grid.
pub open spec fn row_numbers(dtype: GgmlType, row: Seq<u8>, n: nat, grid: &[u64; 256]) -> Seq<u32> {
    match dtype {
        GgmlType::Q4_0 => dequant::decoded(dequant::q4_0::Q4_0Block, row, n),
        GgmlType::Q4_K => dequant::decoded(dequant::q4_k::Q4KBlock, row, n),
        GgmlType::Q8_0 => dequant::decoded(dequant::q8_0::Q8_0Block, row, n),
        GgmlType::Q2_K => dequant::decoded(dequant::q2_k::Q2KBlock, row, n),
        _ => dequant::decoded((dequant::iq2_xxs::Iq2XxsBlock { grid }), row, n),
    }
}

/// The product of a row of weights and an activation.
pub open spec fn row_product(
    dtype: GgmlType,
    row: Seq<u8>,
    x: Seq<u32>,
    grid: &[u64; 256],
) -> u32 {
    fold::dot(row_numbers(dtype, row, x.len(), grid), x, x.len())
}

/// The products of rows of weights and activations: for each activation in
/// turn, its product with each row.
pub open spec fn all_products(
    dtype: GgmlType,
    weights: Seq<u8>,
    x: Seq<u32>,
    n_tok: int,
    in_dim: int,
    out_dim: int,
    grid: &[u64; 256],
) -> Seq<u32> {
    Seq::new(
        (n_tok * out_dim) as nat,
        |k: int|
            row_product(
                dtype,
                q8_0::row_at(weights, row_bytes(dtype, in_dim) as nat, k % out_dim),
                q8_0::row_at(x, in_dim as nat, k / out_dim),
                grid,
            ),
    )
}

/// A row of whole blocks has no fault.
proof fn lemma_whole_blocks(dtype: GgmlType, n: nat)
    requires
        multiplies(dtype),
        aligned(dtype, n as int),
    ensures
        0 <= row_bytes(dtype, n as int),
        dequant::layout_error(
            row_bytes(dtype, n as int) as nat,
            n,
            dtype.elements() as nat,
            dtype.bytes() as nat,
        ) is None,
{
    let e = dtype.elements() as int;
    vstd::arithmetic::div_mod::lemma_div_pos_is_pos(n as int, e);
    assert(n as int / e * dtype.bytes() >= 0) by (nonlinear_arith)
        requires
            n as int / e >= 0,
            dtype.bytes() >= 0,
    ;
}

/// Decodes a row of weights.
fn decode_row(dtype: GgmlType, row: &[u8], w: &mut [u32], grid: &[u64; 256])
    requires
        multiplies(dtype),
        aligned(dtype, old(w)@.len() as int),
        row@.len() == row_bytes(dtype, old(w)@.len() as int),
        old(w)@.len() <= usize::MAX / 8,
    ensures
        final(w)@ == row_numbers(dtype, row@, old(w)@.len(), grid),
{
    proof {
        lemma_whole_blocks(dtype, w@.len());
    }
    let _: Result<(), gguf::error::Error> = match dtype {
        GgmlType::Q2_K => dequant_q2_k(row, w),
        GgmlType::IQ2_XXS => dequant_iq2_xxs(row, w, grid),
        _ => dequant_to_f32(dtype, row, w),
    };
}

/// The product of a row of weights and an activation.
fn multiply_row(dtype: GgmlType, row: &[u8], x: &[u32], grid: &[u64; 256]) -> (r: u32)
    requires
        multiplies(dtype),
        aligned(dtype, x@.len() as int),
        row@.len() == row_bytes(dtype, x@.len() as int),
        x@.len() <= usize::MAX / 8,
    ensures
        r == row_product(dtype, row@, x@, grid),
{
    let n: usize = x.len();
    let mut w: Vec<u32> = filled(n, 0);
    decode_row(dtype, row, w.as_mut_slice(), grid);
    let d: u32 = dot_of(w.as_slice(), 0, x, 0, n);
    assert(w@.subrange(0, 0 + n) =~= w@);
    assert(x@.subrange(0, 0 + n) =~= x@);
    d
}

/// Whether the lengths fit together.
pub open spec fn shaped(
    dtype: GgmlType,
    weights: nat,
    x: nat,
    out: nat,
    n_tok: int,
    in_dim: int,
    out_dim: int,
) -> bool {
    &&& multiplies(dtype)
    &&& aligned(dtype, in_dim)
    &&& weights == out_dim * row_bytes(dtype, in_dim)
    &&& x == n_tok * in_dim
    &&& out == n_tok * out_dim
}

/// Multiplies rows of weights in a block format and activations. The grid is
/// that of IQ2_XXS; no other type looks at it. Rows of no products at all are
/// not to be asked for.
pub fn matmul_quant_f32(
    out: &mut [u32],
    weights: &[u8],
    x: &[u32],
    n_tok: usize,
    in_dim: usize,
    out_dim: usize,
    dtype: GgmlType,
    tier: SimdTier,
    grid: &[u64; 256],
) -> (res: Result<(), Error>)
    requires
        x@.len() <= usize::MAX / 8,
        out_dim == 0 ==> !shaped(
            dtype,
            weights@.len(),
            x@.len(),
            old(out)@.len(),
            n_tok as int,
            in_dim as int,
            out_dim as int,
        ),
    ensures
        final(out)@.len() == old(out)@.len(),
        !multiplies(dtype) ==> {
            &&& final(out)@ == old(out)@
            &&& res == Err::<(), Error>(
                Error::ShapeMismatch("matmul_quant_f32: unsupported dtype for MoE expert matmul"),
            )
        },
        multiplies(dtype) && !aligned(dtype, in_dim as int) ==> {
            &&& final(out)@ == old(out)@
            &&& res == Err::<(), Error>(
                (Error::NotBlockAligned {
                    what: "in_dim",
                    actual: in_dim,
                    block: dtype.elements() as usize,
                }),
            )
        },
        multiplies(dtype) && aligned(dtype, in_dim as int) && weights@.len() != out_dim
            * row_bytes(dtype, in_dim as int) ==> {
            &&& final(out)@ == old(out)@
            &&& res == Err::<(), Error>(
                Error::ShapeMismatch(
                    "matmul_quant_f32: weights must be out_dim * (in_dim / block_elem * block_bytes)",
                ),
            )
        },
        multiplies(dtype) && aligned(dtype, in_dim as int) && weights@.len() == out_dim
            * row_bytes(dtype, in_dim as int) && x@.len() != n_tok * in_dim ==> {
            &&& final(out)@ == old(out)@
            &&& res == Err::<(), Error>(
                Error::ShapeMismatch("matmul_quant_f32: x must be n_tok * in_dim"),
            )
        },
        multiplies(dtype) && aligned(dtype, in_dim as int) && weights@.len() == out_dim
            * row_bytes(dtype, in_dim as int) && x@.len() == n_tok * in_dim && old(out)@.len()
            != n_tok * out_dim ==> {
            &&& final(out)@ == old(out)@
            &&& res == Err::<(), Error>(
                Error::ShapeMismatch("matmul_quant_f32: out must be n_tok * out_dim"),
            )
        },
        shaped(
            dtype,
            weights@.len(),
            x@.len(),
            old(out)@.len(),
            n_tok as int,
            in_dim as int,
            out_dim as int,
        ) ==> {
            &&& res is Ok
            &&& final(out)@ == all_products(
                dtype,
                weights@,
                x@,
                n_tok as int,
                in_dim as int,
                out_dim as int,
                grid,
            )
        },
{
    match dtype {
        GgmlType::Q4_K
        | GgmlType::Q2_K
        | GgmlType::IQ2_XXS
        | GgmlType::Q4_0
        | GgmlType::Q8_0 => {},
        _ => {
            return Err(
                Error::ShapeMismatch("matmul_quant_f32: unsupported dtype for MoE expert matmul"),
            );
        },
    }
    let elems: usize = dtype.block_elements() as usize;
    let block: usize = dtype.block_bytes() as usize;
    if in_dim % elems != 0 {
        return Err(Error::NotBlockAligned { what: "in_dim", actual: in_dim, block: elems });
    }
    let blocks: usize = in_dim / elems;
    assert(out_dim * (blocks * block) == out_dim * blocks * block) by (nonlinear_arith);
    if !is_product(weights.len(), out_dim, blocks, block) {
        return Err(
            Error::ShapeMismatch(
                "matmul_quant_f32: weights must be out_dim * (in_dim / block_elem * block_bytes)",
            ),
        );
    }
    assert(n_tok * in_dim * 1 == n_tok * in_dim);
    if !is_product(x.len(), n_tok, in_dim, 1) {
        return Err(Error::ShapeMismatch("matmul_quant_f32: x must be n_tok * in_dim"));
    }
    assert(n_tok * out_dim * 1 == n_tok * out_dim);
    if !is_product(out.len(), n_tok, out_dim, 1) {
        return Err(Error::ShapeMismatch("matmul_quant_f32: out must be n_tok * out_dim"));
    }
    let total: usize = out.len();
    let wlen: usize = weights.len();
    assert(blocks * block <= wlen) by (nonlinear_arith)
        requires
            wlen == out_dim * (blocks * block),
            out_dim > 0,
            blocks * block >= 0,
    ;
    let stride: usize = blocks * block;
    let xlen: usize = x.len();
    let ghost want = all_products(
        dtype,
        weights@,
        x@,
        n_tok as int,
        in_dim as int,
        out_dim as int,
        grid,
    );
    let mut r: Vec<u32> = Vec::new();
    for k in 0..total
        invariant
            0 < out_dim,
            xlen <= usize::MAX / 8,
            multiplies(dtype),
            aligned(dtype, in_dim as int),
            stride == row_bytes(dtype, in_dim as int),
            total == n_tok * out_dim,
            wlen == out_dim * stride,
            xlen == n_tok * in_dim,
            weights@.len() == wlen,
            x@.len() == xlen,
            want == all_products(
                dtype,
                weights@,
                x@,
                n_tok as int,
                in_dim as int,
                out_dim as int,
                grid,
            ),
            r@ =~= want.take(k as int),
    {
        let t: usize = k / out_dim;
        let o: usize = k % out_dim;
        proof {
            vstd::arithmetic::div_mod::lemma_fundamental_div_mod(k as int, out_dim as int);
            assert(t < n_tok) by (nonlinear_arith)
                requires
                    out_dim * t <= k,
                    k < n_tok * out_dim,
                    out_dim > 0,
            ;
            q8_0::lemma_row_inside(out_dim as nat, stride as nat, o as int);
            q8_0::lemma_row_inside(n_tok as nat, in_dim as nat, t as int);
        }
        let wt: usize = o * stride;
        let xt: usize = t * in_dim;
        let w_row: &[u8] = slice_subrange(weights, wt, wt + stride);
        let x_row: &[u32] = slice_subrange(x, xt, xt + in_dim);
        assert(w_row@ =~= q8_0::row_at(weights@, stride as nat, o as int));
        assert(x_row@ =~= q8_0::row_at(x@, in_dim as nat, t as int));
        r.push(multiply_row(dtype, w_row, x_row, grid));
    }
    assert(r@ =~= want);
    overwrite(out, r.as_slice());
    Ok(())
}

} // verus!
