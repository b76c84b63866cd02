//! How near the products of stored rows and activations are to exact ones.

use crate::cpu::capability::SimdTier;
use crate::cpu::ops::q8_0;
use crate::cpu::ops::quant_matmul;
use crate::float;
use crate::float::arith;
use crate::float::bounds;
use crate::float::exact;
use crate::float::fold;
use crate::float::fused;
use crate::float::sums;
use crate::gguf::dequant;
use crate::gguf::tensor::GgmlType;
use vstd::prelude::*;

verus! {

/// A byte as two's complement.
pub open spec fn signed(b: u8) -> int {
    if b < 128 {
        b as int
    } else {
        b - 256
    }
}

/// The product of the `i`-th signed bytes of block `b` of a stored row and of an
/// activation. A stored block has two bytes of scale and 32 of numbers.
pub open spec fn byte_product(row: Seq<u8>, xq: Seq<i8>, b: int, i: int) -> int {
    signed(row[34 * b + 2 + i]) * xq[32 * b + i]
}

/// The products of the first `n` signed bytes of a block, added up.
pub open spec fn block_sum(row: Seq<u8>, xq: Seq<i8>, b: int, n: nat) -> int
    decreases n,
{
    if n == 0 {
        0
    } else {
        block_sum(row, xq, b, (n - 1) as nat) + byte_product(row, xq, b, n - 1)
    }
}

/// The scale of a stored block, in units; zero where it is not finite.
pub open spec fn stored_scale(row: Seq<u8>, b: int) -> int {
    let bits = (row[34 * b] + 256 * row[34 * b + 1]) as u16;
    if bits % 0x8000 < 0x7C00 {
        exact::half_value(bits) * vstd::arithmetic::power2::pow2(125)
    } else {
        0
    }
}

/// How many numbers of block `b` are in use.
pub open spec fn used(in_dim: int, b: int) -> nat {
    if in_dim - 32 * b < 32 {
        (in_dim - 32 * b) as nat
    } else {
        32
    }
}

/// The scales of two blocks times the sum of the products of their bytes.
pub open spec fn block_value(
    row: Seq<u8>,
    xq: Seq<i8>,
    xscale: Seq<u32>,
    in_dim: int,
    b: int,
) -> int {
    stored_scale(row, b) * float::value(xscale[b]) * block_sum(row, xq, b, used(in_dim, b))
}

/// The exact product of the first `n` blocks.
pub open spec fn exact_product(
    row: Seq<u8>,
    xq: Seq<i8>,
    xscale: Seq<u32>,
    in_dim: int,
    n: nat,
) -> int
    decreases n,
{
    if n == 0 {
        0
    } else {
        exact_product(row, xq, xscale, in_dim, (n - 1) as nat) + block_value(
            row,
            xq,
            xscale,
            in_dim,
            n - 1,
        )
    }
}

/// The most that the first `n` blocks could give: their scales times 2^19.
pub open spec fn most_product(row: Seq<u8>, xscale: Seq<u32>, n: nat) -> int
    decreases n,
{
    if n == 0 {
        0
    } else {
        most_product(row, xscale, (n - 1) as nat) + bounds::size(
            stored_scale(row, n - 1) * float::value(xscale[n - 1]),
        ) * 0x8_0000
    }
}

proof fn lemma_block_sum(row: Seq<u8>, xq: Seq<i8>, b: int, n: nat)
    ensures
        q8_0::block_dot(row, xq, b, n) == block_sum(row, xq, b, n),
        -0x4000 * n <= block_sum(row, xq, b, n) <= 0x4000 * n,
    decreases n,
{
    if n > 0 {
        lemma_block_sum(row, xq, b, (n - 1) as nat);
        let x = signed(row[34 * b + 2 + (n - 1)]);
        let y = xq[32 * b + (n - 1)] as int;
        assert(-0x4000 <= x * y <= 0x4000) by (nonlinear_arith)
            requires
                -128 <= x <= 127,
                -128 <= y <= 127,
        ;
    }
}

proof fn lemma_scale(row: Seq<u8>, b: int)
    ensures
        float::is_finite(q8_0::weight_scale(row, b)),
        float::value(q8_0::weight_scale(row, b)) == stored_scale(row, b),
{
    let bits = (row[34 * b] + 256 * row[34 * b + 1]) as u16;
    arith::lemma_units_zero(0);
    if bits % 0x8000 < 0x7C00 {
        exact::law_half_is_exact(bits);
    } else {
        assert(!float::is_finite(dequant::half_at(row, 34 * b)));
    }
}

/// A small integer times a rounded product is near to the exact one.
proof fn lemma_scaled(p: int, x: int, d: int, one: int)
    requires
        one > 0,
        -0x8_0000 <= d <= 0x8_0000,
        0x100_0000 * bounds::size(p * one - x) <= bounds::size(x) + 0x80_0000 * one,
    ensures
        0x100_0000 * bounds::size(p * d * one - x * d) <= bounds::size(x) * 0x8_0000 + 0x400_0000_0000
            * one,
        bounds::size(p * d * one) <= 2 * (bounds::size(x) * 0x8_0000) + 0x8_0000 * one,
        bounds::size(x * d) <= bounds::size(x) * 0x8_0000,
{
    let e = p * one - x;
    let z = bounds::size(x);
    let m = bounds::size(d);
    assert(p * d * one - x * d == e * d) by (nonlinear_arith)
        requires
            e == p * one - x,
    ;
    assert(bounds::size(e * d) == bounds::size(e) * m) by (nonlinear_arith)
        requires
            m == bounds::size(d),
    ;
    assert((0x100_0000 * bounds::size(e)) * m <= (z + 0x80_0000 * one) * 0x8_0000) by (nonlinear_arith)
        requires
            0 <= 0x100_0000 * bounds::size(e) <= z + 0x80_0000 * one,
            0 <= m <= 0x8_0000,
    ;
    assert((0x100_0000 * bounds::size(e)) * m == 0x100_0000 * (bounds::size(e) * m))
        by (nonlinear_arith);
    assert((z + 0x80_0000 * one) * 0x8_0000 == z * 0x8_0000 + 0x400_0000_0000 * one)
        by (nonlinear_arith);
    assert(bounds::size(x * d) <= z * 0x8_0000) by {
        assert(bounds::size(x * d) == z * m) by (nonlinear_arith)
            requires
                m == bounds::size(d),
                z == bounds::size(x),
        ;
        assert(z * m <= z * 0x8_0000) by (nonlinear_arith)
            requires
                z >= 0,
                m <= 0x8_0000,
        ;
    }
}

/// One more block adds one more rounding of all that is there so far.
proof fn lemma_step(t: int, f: int, x: int, s: int, y: int, z: int, n: int, one: int)
    requires
        0 <= n < 0x1000,
        one > 0,
        s >= 0,
        z >= 0,
        bounds::size(x) <= s,
        bounds::size(y) <= z,
        0x100_0000 * bounds::size(t * one - x) <= (2 * n + 3) * s + 0x2000_0000_0000 * (n * one),
        0x100_0000 * bounds::size(f * one - (t * one + y)) <= bounds::size(t * one) + 5 * z
            + 0x1000_0000_0000 * one,
    ensures
        0x100_0000 * bounds::size(f * one - (x + y)) <= (2 * (n + 1) + 3) * (s + z)
            + 0x2000_0000_0000 * ((n + 1) * one),
{
    assert((2 * n + 3) * s <= 0x3000 * s) by (nonlinear_arith)
        requires
            n < 0x1000,
            s >= 0,
    ;
    assert(n * one <= 0x1000 * one) by (nonlinear_arith)
        requires
            n < 0x1000,
            one > 0,
    ;
    assert((n + 1) * one == n * one + one) by (nonlinear_arith);
    assert((2 * (n + 1) + 3) * (s + z) == (2 * n + 3) * s + 2 * s + (2 * n + 5) * z)
        by (nonlinear_arith);
    assert((2 * n + 5) * z >= 5 * z) by (nonlinear_arith)
        requires
            n >= 0,
            z >= 0,
    ;
    let e = bounds::size(t * one - x);
    assert(e <= s + 0x2_0000_0000 * one);
    let total = bounds::size(f * one - (x + y));
    assert(total <= bounds::size(f * one - (t * one + y)) + e);
    assert(bounds::size(t * one) <= s + e);
}

/// Whether `r` is near to the exact product of `n` blocks.
pub open spec fn is_near(
    r: u32,
    row: Seq<u8>,
    xq: Seq<i8>,
    xscale: Seq<u32>,
    in_dim: int,
    n: nat,
    most: int,
) -> bool {
    0x100_0000 * bounds::size(
        float::value(r) * bounds::one() - exact_product(row, xq, xscale, in_dim, n),
    ) <= (2 * n + 3) * most + 0x2000_0000_0000 * (n * bounds::one())
}

/// The scales and the sum of a block, as far as the size of their product goes.
proof fn lemma_block_value(
    row: Seq<u8>,
    xq: Seq<i8>,
    xscale: Seq<u32>,
    in_dim: int,
    b: int,
)
    requires
        32 * b <= in_dim,
    ensures
        bounds::size(block_value(row, xq, xscale, in_dim, b)) <= bounds::size(
            stored_scale(row, b) * float::value(xscale[b]),
        ) * 0x8_0000,
        -0x8_0000 <= block_sum(row, xq, b, used(in_dim, b)) <= 0x8_0000,
{
    let n = used(in_dim, b);
    lemma_block_sum(row, xq, b, n);
    let x = stored_scale(row, b) * float::value(xscale[b]);
    let d = block_sum(row, xq, b, n);
    let m = bounds::size(d);
    assert(-0x8_0000 <= d <= 0x8_0000);
    assert(bounds::size(x * d) == bounds::size(x) * m) by (nonlinear_arith)
        requires
            m == bounds::size(d),
    ;
    assert(bounds::size(x) * m <= bounds::size(x) * 0x8_0000) by (nonlinear_arith)
        requires
            bounds::size(x) >= 0,
            m <= 0x8_0000,
    ;
}

proof fn lemma_most(
    row: Seq<u8>,
    xq: Seq<i8>,
    xscale: Seq<u32>,
    in_dim: int,
    n: nat,
)
    requires
        32 * n <= in_dim + 31,
    ensures
        bounds::size(exact_product(row, xq, xscale, in_dim, n)) <= most_product(row, xscale, n),
    decreases n,
{
    if n > 0 {
        lemma_most(row, xq, xscale, in_dim, (n - 1) as nat);
        lemma_block_value(row, xq, xscale, in_dim, n - 1);
    }
}

/// The product of a stored row and an activation, block after block, is near to
/// the exact product of the scales and the sums of the products of the bytes.
pub proof fn law_row_product(
    row: Seq<u8>,
    xq: Seq<i8>,
    xscale: Seq<u32>,
    in_dim: int,
    n: nat,
)
    requires
        n <= 0x1000,
        32 * n <= in_dim + 31,
        float::is_finite(q8_0::row_dot(row, xq, xscale, in_dim, n)),
    ensures
        is_near(
            q8_0::row_dot(row, xq, xscale, in_dim, n),
            row,
            xq,
            xscale,
            in_dim,
            n,
            most_product(row, xscale, n),
        ),
    decreases n,
{
    sums::lemma_one();
    arith::lemma_units_zero(0);
    let one = bounds::one();
    if n == 0 {
        assert(0 * one == 0) by (nonlinear_arith);
    } else {
        let m = (n - 1) as nat;
        let b = n - 1;
        let before = q8_0::row_dot(row, xq, xscale, in_dim, m);
        let d = block_sum(row, xq, b, used(in_dim, b));
        let w = q8_0::weight_scale(row, b);
        let p = arith::product(w, xscale[b]);
        let t = arith::product(p, arith::of_integer(d));
        let after = q8_0::row_dot(row, xq, xscale, in_dim, n);
        lemma_block_value(row, xq, xscale, in_dim, b);
        lemma_block_sum(row, xq, b, used(in_dim, b));
        assert(after == arith::sum(before, t));
        bounds::law_sum_error(before, t);
        bounds::law_product_error(p, arith::of_integer(d));
        bounds::law_product_error(w, xscale[b]);
        lemma_scale(row, b);
        exact::law_small_integers_are_exact(d);
        law_row_product(row, xq, xscale, in_dim, m);
        lemma_most(row, xq, xscale, in_dim, m);
        let x = stored_scale(row, b) * float::value(xscale[b]);
        lemma_term(
            float::value(before),
            float::value(p),
            float::value(t),
            float::value(after),
            x,
            d,
            one,
        );
        lemma_step(
            float::value(before),
            float::value(after),
            exact_product(row, xq, xscale, in_dim, m),
            most_product(row, xscale, m),
            block_value(row, xq, xscale, in_dim, b),
            bounds::size(x) * 0x8_0000,
            m as int,
            one,
        );
    }
}

/// A rounded product of scales and a sum, added to what is there.
proof fn lemma_term(b: int, p: int, t: int, f: int, x: int, d: int, one: int)
    requires
        one > 0x1000_0000_0000_0000,
        -0x8_0000 <= d <= 0x8_0000,
        0x100_0000 * bounds::size(p * one - x) <= bounds::size(x) + 0x80_0000 * one,
        0x100_0000 * bounds::size(t * one - p * (d * one)) <= bounds::size(p * (d * one))
            + 0x80_0000 * one,
        0x100_0000 * bounds::size(f - (b + t)) <= bounds::size(b + t),
    ensures
        0x100_0000 * bounds::size(f * one - (b * one + x * d)) <= bounds::size(b * one) + 5 * (
        bounds::size(x) * 0x8_0000) + 0x1000_0000_0000 * one,
{
    let z = bounds::size(x) * 0x8_0000;
    lemma_scaled(p, x, d, one);
    assert(p * (d * one) == p * d * one) by (nonlinear_arith);
    let pd = p * d * one;
    let to = t * one;
    let bo = b * one;
    let fo = f * one;
    assert(0x100_0000 * bounds::size(fo - (bo + to)) <= bounds::size(bo) + bounds::size(to)) by {
        let e = f - (b + t);
        assert(fo - (bo + to) == e * one) by (nonlinear_arith)
            requires
                e == f - (b + t),
                fo == f * one,
                bo == b * one,
                to == t * one,
        ;
        assert(bounds::size(e * one) == bounds::size(e) * one) by (nonlinear_arith)
            requires
                one > 0,
        ;
        assert(bounds::size(bo) == bounds::size(b) * one) by (nonlinear_arith)
            requires
                one > 0,
                bo == b * one,
        ;
        assert(bounds::size(to) == bounds::size(t) * one) by (nonlinear_arith)
            requires
                one > 0,
                to == t * one,
        ;
        assert((0x100_0000 * bounds::size(e)) * one <= (bounds::size(b) + bounds::size(t)) * one)
            by (nonlinear_arith)
            requires
                0x100_0000 * bounds::size(e) <= bounds::size(b) + bounds::size(t),
                one > 0,
        ;
        assert((0x100_0000 * bounds::size(e)) * one == 0x100_0000 * (bounds::size(e) * one))
            by (nonlinear_arith);
        assert((bounds::size(b) + bounds::size(t)) * one == bounds::size(b) * one + bounds::size(t)
            * one) by (nonlinear_arith);
    }
    assert(bounds::size(to) <= 2 * bounds::size(pd) + one);
    assert(0x100_0000 * bounds::size(to - x * d) <= 3 * z + 0x480_0000_0000 * one);
    assert(bounds::size(to) <= z + z + 0x8_0001 * one);
}

/// Four adjacent products of a block.
pub open spec fn four_sum(row: Seq<u8>, xq: Seq<i8>, b: int, i: int) -> int {
    byte_product(row, xq, b, i) + byte_product(row, xq, b, i + 1) + byte_product(row, xq, b, i + 2)
        + byte_product(row, xq, b, i + 3)
}

proof fn lemma_byte_product(row: Seq<u8>, xq: Seq<i8>, b: int, i: int)
    ensures
        q8_0::lane(row, xq, b, i) == byte_product(row, xq, b, i),
        -0x4000 <= byte_product(row, xq, b, i) <= 0x4000,
{
    let x = signed(row[34 * b + 2 + i]);
    let y = xq[32 * b + i] as int;
    assert(-0x4000 <= x * y <= 0x4000) by (nonlinear_arith)
        requires
            -128 <= x <= 127,
            -128 <= y <= 127,
    ;
}

proof fn lemma_four(row: Seq<u8>, xq: Seq<i8>, b: int, i: int)
    ensures
        q8_0::four(row, xq, b, i) == four_sum(row, xq, b, i),
        -0x1_0000 <= four_sum(row, xq, b, i) <= 0x1_0000,
{
    lemma_byte_product(row, xq, b, i);
    lemma_byte_product(row, xq, b, i + 1);
    lemma_byte_product(row, xq, b, i + 2);
    lemma_byte_product(row, xq, b, i + 3);
}

proof fn lemma_next_four(row: Seq<u8>, xq: Seq<i8>, b: int, n: nat)
    ensures
        block_sum(row, xq, b, n + 4) == block_sum(row, xq, b, n) + four_sum(row, xq, b, n as int),
{
    reveal_with_fuel(block_sum, 5);
}

/// The four quarters of a block make up its sum.
proof fn lemma_quarters(row: Seq<u8>, xq: Seq<i8>, b: int)
    ensures
        q8_0::quarter_dot(row, xq, b, 0) + q8_0::quarter_dot(row, xq, b, 1) + q8_0::quarter_dot(
            row,
            xq,
            b,
            2,
        ) + q8_0::quarter_dot(row, xq, b, 3) == block_sum(row, xq, b, 32),
{
    lemma_four(row, xq, b, 0);
    lemma_four(row, xq, b, 4);
    lemma_four(row, xq, b, 8);
    lemma_four(row, xq, b, 12);
    lemma_four(row, xq, b, 16);
    lemma_four(row, xq, b, 20);
    lemma_four(row, xq, b, 24);
    lemma_four(row, xq, b, 28);
    assert(block_sum(row, xq, b, 0) == 0);
    lemma_next_four(row, xq, b, 0);
    lemma_next_four(row, xq, b, 4);
    lemma_next_four(row, xq, b, 8);
    lemma_next_four(row, xq, b, 12);
    lemma_next_four(row, xq, b, 16);
    lemma_next_four(row, xq, b, 20);
    lemma_next_four(row, xq, b, 24);
    lemma_next_four(row, xq, b, 28);
}

/// What an adder would hold without rounding.
spec fn exact_strand(
    row: Seq<u8>,
    xq: Seq<i8>,
    xscale: Seq<u32>,
    first: int,
    k: nat,
    j: int,
) -> int
    decreases k,
{
    if k == 0 {
        0
    } else {
        let b = first + 2 * (k - 1);
        exact_strand(row, xq, xscale, first, (k - 1) as nat, j) + stored_scale(row, b)
            * float::value(xscale[b]) * q8_0::quarter_dot(row, xq, b, j)
    }
}

/// The most that an adder could hold.
spec fn most_strand(row: Seq<u8>, xscale: Seq<u32>, first: int, k: nat) -> int
    decreases k,
{
    if k == 0 {
        0
    } else {
        let b = first + 2 * (k - 1);
        most_strand(row, xscale, first, (k - 1) as nat) + bounds::size(
            stored_scale(row, b) * float::value(xscale[b]),
        ) * 0x8_0000
    }
}

proof fn lemma_quarter(row: Seq<u8>, xq: Seq<i8>, b: int, j: int)
    ensures
        -0x8_0000 <= q8_0::quarter_dot(row, xq, b, j) <= 0x8_0000,
{
    lemma_four(row, xq, b, 4 * j);
    lemma_four(row, xq, b, 16 + 4 * j);
}

proof fn lemma_most_strand(
    row: Seq<u8>,
    xq: Seq<i8>,
    xscale: Seq<u32>,
    first: int,
    k: nat,
    j: int,
)
    ensures
        bounds::size(exact_strand(row, xq, xscale, first, k, j)) <= most_strand(
            row,
            xscale,
            first,
            k,
        ),
    decreases k,
{
    if k > 0 {
        lemma_most_strand(row, xq, xscale, first, (k - 1) as nat, j);
        let b = first + 2 * (k - 1);
        let x = stored_scale(row, b) * float::value(xscale[b]);
        let d = q8_0::quarter_dot(row, xq, b, j);
        lemma_quarter(row, xq, b, j);
        let m = bounds::size(d);
        assert(bounds::size(x * d) == bounds::size(x) * m) by (nonlinear_arith)
            requires
                m == bounds::size(d),
        ;
        assert(bounds::size(x) * m <= bounds::size(x) * 0x8_0000) by (nonlinear_arith)
            requires
                bounds::size(x) >= 0,
                m <= 0x8_0000,
        ;
    }
}

proof fn lemma_strand(
    row: Seq<u8>,
    xq: Seq<i8>,
    xscale: Seq<u32>,
    first: int,
    k: nat,
    j: int,
)
    requires
        k <= 0x1000,
        float::is_finite(q8_0::strand(row, xq, xscale, first, k, j)),
    ensures
        0x100_0000 * bounds::size(
            float::value(q8_0::strand(row, xq, xscale, first, k, j)) * bounds::one()
                - exact_strand(row, xq, xscale, first, k, j),
        ) <= (2 * k + 3) * most_strand(row, xscale, first, k) + 0x2000_0000_0000 * (k
            * bounds::one()),
    decreases k,
{
    sums::lemma_one();
    arith::lemma_units_zero(0);
    let one = bounds::one();
    if k == 0 {
        assert(0 * one == 0) by (nonlinear_arith);
    } else {
        let m = (k - 1) as nat;
        let b = first + 2 * (k - 1);
        let before = q8_0::strand(row, xq, xscale, first, m, j);
        let after = q8_0::strand(row, xq, xscale, first, k, j);
        let d = q8_0::quarter_dot(row, xq, b, j);
        let w = q8_0::weight_scale(row, b);
        let p = arith::product(w, xscale[b]);
        lemma_quarter(row, xq, b, j);
        assert(after == fused::fused(arith::of_integer(d), p, before));
        sums::law_fused_error(arith::of_integer(d), p, before);
        bounds::law_product_error(w, xscale[b]);
        lemma_scale(row, b);
        exact::law_small_integers_are_exact(d);
        lemma_strand(row, xq, xscale, first, m, j);
        lemma_most_strand(row, xq, xscale, first, m, j);
        let x = stored_scale(row, b) * float::value(xscale[b]);
        lemma_fused_term(float::value(before), float::value(p), float::value(after), x, d, one);
        lemma_scaled(float::value(p), x, d, one);
        lemma_step(
            float::value(before),
            float::value(after),
            exact_strand(row, xq, xscale, first, m, j),
            most_strand(row, xscale, first, m),
            x * d,
            bounds::size(x) * 0x8_0000,
            m as int,
            one,
        );
    }
}

proof fn lemma_fused_term(b: int, p: int, f: int, x: int, d: int, one: int)
    requires
        one > 0x1000_0000_0000_0000,
        -0x8_0000 <= d <= 0x8_0000,
        0x100_0000 * bounds::size(p * one - x) <= bounds::size(x) + 0x80_0000 * one,
        0x100_0000 * bounds::size(f * one - ((d * one) * p + b * one)) <= bounds::size(
            (d * one) * p + b * one,
        ) + 0x80_0000 * one,
    ensures
        0x100_0000 * bounds::size(f * one - (b * one + x * d)) <= bounds::size(b * one) + 5 * (
        bounds::size(x) * 0x8_0000) + 0x1000_0000_0000 * one,
{
    lemma_scaled(p, x, d, one);
    assert((d * one) * p == p * d * one) by (nonlinear_arith);
}

/// The adders together hold the exact product, and each no more than the most
/// that the whole row could give.
proof fn lemma_strands(row: Seq<u8>, xq: Seq<i8>, xscale: Seq<u32>, in_dim: int, n: nat)
    requires
        32 * n <= in_dim,
    ensures
        ({
            let e = ((n + 1) / 2) as nat;
            let o = (n / 2) as nat;
            &&& exact_strand(row, xq, xscale, 0, e, 0) + exact_strand(row, xq, xscale, 1, o, 0)
                + exact_strand(row, xq, xscale, 0, e, 1) + exact_strand(row, xq, xscale, 1, o, 1)
                + exact_strand(row, xq, xscale, 0, e, 2) + exact_strand(row, xq, xscale, 1, o, 2)
                + exact_strand(row, xq, xscale, 0, e, 3) + exact_strand(row, xq, xscale, 1, o, 3)
                == exact_product(row, xq, xscale, in_dim, n)
            &&& 0 <= most_strand(row, xscale, 0, e) <= most_product(row, xscale, n)
            &&& 0 <= most_strand(row, xscale, 1, o) <= most_product(row, xscale, n)
        }),
    decreases n,
{
    if n > 0 {
        let m = (n - 1) as nat;
        lemma_strands(row, xq, xscale, in_dim, m);
        let b = n - 1;
        lemma_quarters(row, xq, b);
        let x = stored_scale(row, b) * float::value(xscale[b]);
        let (q0, q1, q2, q3) = (
            q8_0::quarter_dot(row, xq, b, 0),
            q8_0::quarter_dot(row, xq, b, 1),
            q8_0::quarter_dot(row, xq, b, 2),
            q8_0::quarter_dot(row, xq, b, 3),
        );
        assert(x * (q0 + q1 + q2 + q3) == x * q0 + x * q1 + x * q2 + x * q3) by (nonlinear_arith);
        assert(used(in_dim, b) == 32);
        if n % 2 == 1 {
            assert(((n + 1) / 2) as nat == ((m + 1) / 2) as nat + 1);
            assert((n / 2) as nat == (m / 2) as nat);
            assert(2 * (((n + 1) / 2) - 1) == b);
        } else {
            assert(((n + 1) / 2) as nat == ((m + 1) / 2) as nat);
            assert((n / 2) as nat == (m / 2) as nat + 1);
            assert(1 + 2 * ((n / 2) - 1) == b);
        }
    }
}

/// Adding two rounded numbers.
proof fn lemma_join(a: u32, b: u32, x: int, y: int, k: int, m: int)
    requires
        float::is_finite(arith::sum(a, b)),
        k >= 0,
        m >= 0,
        0x100_0000 * bounds::size(float::value(a) * bounds::one() - x) <= k,
        0x100_0000 * bounds::size(float::value(b) * bounds::one() - y) <= k,
        bounds::size(float::value(a) * bounds::one()) <= m,
        bounds::size(float::value(b) * bounds::one()) <= m,
    ensures
        0x100_0000 * bounds::size(float::value(arith::sum(a, b)) * bounds::one() - (x + y)) <= 2 * k
            + 2 * m,
        bounds::size(float::value(arith::sum(a, b)) * bounds::one()) <= 4 * m,
{
    bounds::law_sum_error(a, b);
    sums::lemma_one();
    let one = bounds::one();
    let s = float::value(arith::sum(a, b));
    let e = s - (float::value(a) + float::value(b));
    let t = float::value(a) + float::value(b);
    assert(s * one == e * one + float::value(a) * one + float::value(b) * one) by (nonlinear_arith)
        requires
            e == s - (float::value(a) + float::value(b)),
    ;
    assert(t * one == float::value(a) * one + float::value(b) * one) by (nonlinear_arith)
        requires
            t == float::value(a) + float::value(b),
    ;
    assert(bounds::size(e * one) == bounds::size(e) * one) by (nonlinear_arith)
        requires
            one > 0,
    ;
    assert(bounds::size(t * one) == bounds::size(t) * one) by (nonlinear_arith)
        requires
            one > 0,
    ;
    assert((0x100_0000 * bounds::size(e)) * one <= bounds::size(t) * one) by (nonlinear_arith)
        requires
            0x100_0000 * bounds::size(e) <= bounds::size(t),
            one > 0,
    ;
    assert((0x100_0000 * bounds::size(e)) * one == 0x100_0000 * (bounds::size(e) * one))
        by (nonlinear_arith);
}

/// What the rounding of a strand leaves open, and how large it can be.
proof fn lemma_strand_bounds(
    row: Seq<u8>,
    xq: Seq<i8>,
    xscale: Seq<u32>,
    in_dim: int,
    n: nat,
    first: int,
    k: nat,
    j: int,
)
    requires
        n <= 0x1000,
        k <= n,
        float::is_finite(q8_0::strand(row, xq, xscale, first, k, j)),
        0 <= most_strand(row, xscale, first, k) <= most_product(row, xscale, n),
    ensures
        ({
            let r = float::value(q8_0::strand(row, xq, xscale, first, k, j)) * bounds::one();
            let most = most_product(row, xscale, n);
            let open = (2 * n + 3) * most + 0x2000_0000_0000 * (n * bounds::one());
            &&& 0x100_0000 * bounds::size(r - exact_strand(row, xq, xscale, first, k, j)) <= open
            &&& bounds::size(r) <= 2 * most + 0x4_0000_0000 * bounds::one()
        }),
{
    lemma_strand(row, xq, xscale, first, k, j);
    lemma_most_strand(row, xq, xscale, first, k, j);
    sums::lemma_one();
    let one = bounds::one();
    let s = most_strand(row, xscale, first, k);
    let most = most_product(row, xscale, n);
    assert((2 * k + 3) * s <= (2 * n + 3) * most) by (nonlinear_arith)
        requires
            0 <= k <= n,
            0 <= s <= most,
    ;
    assert(k * one <= n * one) by (nonlinear_arith)
        requires
            k <= n,
            one > 0,
    ;
    assert((2 * n + 3) * most <= 0x3000 * most) by (nonlinear_arith)
        requires
            n <= 0x1000,
            most >= 0,
    ;
    assert(n * one <= 0x1000 * one) by (nonlinear_arith)
        requires
            n <= 0x1000,
            one > 0,
    ;
}

/// The product of a stored row and an activation, added up by four adders, is
/// near to the same exact product.
pub proof fn law_paired_product(row: Seq<u8>, xq: Seq<i8>, xscale: Seq<u32>, n: nat)
    requires
        n <= 0x1000,
        float::is_finite(q8_0::paired_dot(row, xq, xscale, 32 * n as int)),
    ensures
        ({
            let most = most_product(row, xscale, n);
            let one = bounds::one();
            0x100_0000 * bounds::size(
                float::value(q8_0::paired_dot(row, xq, xscale, 32 * n as int)) * one - exact_product(
                    row,
                    xq,
                    xscale,
                    32 * n as int,
                    n,
                ),
            ) <= (16 * n + 136) * most + 0x1_0000_0000_0000 * ((n + 1) * one)
        }),
{
    let in_dim = 32 * n as int;
    assert(in_dim % 32 == 0 && q8_0::blocks_of(in_dim) == n);
    let e = ((n + 1) / 2) as nat;
    let o = (n / 2) as nat;
    lemma_strands(row, xq, xscale, in_dim, n);
    let a0 = q8_0::adder(row, xq, xscale, n as int, 0);
    let a1 = q8_0::adder(row, xq, xscale, n as int, 1);
    let a2 = q8_0::adder(row, xq, xscale, n as int, 2);
    let a3 = q8_0::adder(row, xq, xscale, n as int, 3);
    let u = arith::sum(a0, a1);
    let v = arith::sum(a2, a3);
    let r = arith::sum(u, v);
    assert(q8_0::paired_dot(row, xq, xscale, in_dim) == r);
    bounds::law_sum_error(u, v);
    bounds::law_sum_error(a0, a1);
    bounds::law_sum_error(a2, a3);
    let most = most_product(row, xscale, n);
    let one = bounds::one();
    sums::lemma_one();
    let k = (2 * n + 3) * most + 0x2000_0000_0000 * (n * one);
    let m = 2 * most + 0x4_0000_0000 * one;
    assert((2 * n + 3) * most >= 0) by (nonlinear_arith)
        requires
            most >= 0,
    ;
    assert(n * one >= 0) by (nonlinear_arith)
        requires
            one > 0,
    ;
    lemma_adder(row, xq, xscale, in_dim, n, 0, k, m);
    lemma_adder(row, xq, xscale, in_dim, n, 1, k, m);
    lemma_adder(row, xq, xscale, in_dim, n, 2, k, m);
    lemma_adder(row, xq, xscale, in_dim, n, 3, k, m);
    let x0 = exact_strand(row, xq, xscale, 0, e, 0) + exact_strand(row, xq, xscale, 1, o, 0);
    let x1 = exact_strand(row, xq, xscale, 0, e, 1) + exact_strand(row, xq, xscale, 1, o, 1);
    let x2 = exact_strand(row, xq, xscale, 0, e, 2) + exact_strand(row, xq, xscale, 1, o, 2);
    let x3 = exact_strand(row, xq, xscale, 0, e, 3) + exact_strand(row, xq, xscale, 1, o, 3);
    lemma_join(a0, a1, x0, x1, 2 * k + 2 * m, 4 * m);
    lemma_join(a2, a3, x2, x3, 2 * k + 2 * m, 4 * m);
    lemma_join(u, v, x0 + x1, x2 + x3, 4 * k + 12 * m, 16 * m);
    assert((16 * n + 136) * most == 8 * ((2 * n + 3) * most) + 112 * most) by (nonlinear_arith);
    assert((n + 1) * one == n * one + one) by (nonlinear_arith);
}

proof fn lemma_adder(
    row: Seq<u8>,
    xq: Seq<i8>,
    xscale: Seq<u32>,
    in_dim: int,
    n: nat,
    j: int,
    k: int,
    m: int,
)
    requires
        n <= 0x1000,
        32 * n <= in_dim,
        float::is_finite(q8_0::adder(row, xq, xscale, n as int, j)),
        k == (2 * n + 3) * most_product(row, xscale, n) + 0x2000_0000_0000 * (n * bounds::one()),
        m == 2 * most_product(row, xscale, n) + 0x4_0000_0000 * bounds::one(),
        k >= 0,
        m >= 0,
    ensures
        ({
            let a = float::value(q8_0::adder(row, xq, xscale, n as int, j)) * bounds::one();
            let x = exact_strand(row, xq, xscale, 0, ((n + 1) / 2) as nat, j) + exact_strand(
                row,
                xq,
                xscale,
                1,
                (n / 2) as nat,
                j,
            );
            &&& 0x100_0000 * bounds::size(a - x) <= 2 * k + 2 * m
            &&& bounds::size(a) <= 4 * m
        }),
{
    let e = ((n + 1) / 2) as nat;
    let o = (n / 2) as nat;
    lemma_strands(row, xq, xscale, in_dim, n);
    let a = q8_0::strand(row, xq, xscale, 0, e, j);
    let b = q8_0::strand(row, xq, xscale, 1, o, j);
    assert(q8_0::adder(row, xq, xscale, n as int, j) == arith::sum(a, b));
    bounds::law_sum_error(a, b);
    lemma_strand_bounds(row, xq, xscale, in_dim, n, 0, e, j);
    lemma_strand_bounds(row, xq, xscale, in_dim, n, 1, o, j);
    lemma_join(
        a,
        b,
        exact_strand(row, xq, xscale, 0, e, j),
        exact_strand(row, xq, xscale, 1, o, j),
        k,
        m,
    );
}

/// The product of row `o` and activation `t` stands at place `t * out_dim + o`,
/// and is made of the bytes and scales of that row and that activation.
pub proof fn law_batch_places(
    weights: Seq<u8>,
    xq: Seq<i8>,
    xscale: Seq<u32>,
    n_tok: nat,
    in_dim: nat,
    out_dim: nat,
    tier: SimdTier,
    t: int,
    o: int,
)
    requires
        0 <= t < n_tok,
        0 <= o < out_dim,
    ensures
        ({
            let n = (in_dim + 31) / 32;
            let all = q8_0::batch_product(
                weights,
                xq,
                xscale,
                n_tok as int,
                in_dim as int,
                out_dim as int,
                tier,
            );
            &&& 0 <= t * out_dim + o < all.len()
            &&& all[t * out_dim + o] == q8_0::tier_dot(
                tier,
                weights.subrange(o * (34 * n), (o + 1) * (34 * n)),
                xq.subrange(t * (32 * n), (t + 1) * (32 * n)),
                xscale.subrange(t * n, (t + 1) * n),
                in_dim as int,
            )
        }),
{
    lemma_place(n_tok, out_dim, t, o);
}

proof fn lemma_place(n_tok: nat, out_dim: nat, t: int, o: int)
    requires
        0 <= t < n_tok,
        0 <= o < out_dim,
    ensures
        0 <= t * out_dim + o < n_tok * out_dim,
        (t * out_dim + o) / (out_dim as int) == t,
        (t * out_dim + o) % (out_dim as int) == o,
{
    assert(t * out_dim >= 0) by (nonlinear_arith)
        requires
            t >= 0,
    ;
    assert((t + 1) * out_dim <= n_tok * out_dim) by (nonlinear_arith)
        requires
            t + 1 <= n_tok,
    ;
    assert((t + 1) * out_dim == t * out_dim + out_dim) by (nonlinear_arith);
    vstd::arithmetic::div_mod::lemma_fundamental_div_mod_converse(
        t * out_dim + o,
        out_dim as int,
        t,
        o,
    );
}

/// The product of row `o` of block weights and activation `t` is near to the
/// exact product of the numbers of that row and that activation.
pub proof fn law_quant_product(
    dtype: GgmlType,
    weights: Seq<u8>,
    x: Seq<u32>,
    n_tok: nat,
    in_dim: nat,
    out_dim: nat,
    grid: &[u64; 256],
    t: int,
    o: int,
)
    requires
        0 <= t < n_tok,
        0 <= o < out_dim,
        in_dim <= 0x10_0000,
        x.len() == n_tok * in_dim,
        float::is_finite(
            quant_matmul::all_products(
                dtype,
                weights,
                x,
                n_tok as int,
                in_dim as int,
                out_dim as int,
                grid,
            )[t * out_dim + o],
        ),
    ensures
        ({
            let bytes = in_dim as int / (dtype.elements() as int) * dtype.bytes();
            let row = weights.subrange(o * bytes, (o + 1) * bytes);
            let w = quant_matmul::row_numbers(dtype, row, in_dim, grid);
            let a = Seq::new(in_dim, |i: int| x[t * in_dim + i]);
            let r = quant_matmul::all_products(
                dtype,
                weights,
                x,
                n_tok as int,
                in_dim as int,
                out_dim as int,
                grid,
            )[t * out_dim + o];
            0x100_0000 * bounds::size(
                float::value(r) * bounds::one() - sums::exact_dot(w, a, in_dim),
            ) <= (2 * in_dim + 1) * sums::dot_size(w, a, in_dim) + 0x100_0000 * (in_dim
                * bounds::one())
        }),
{
    let bytes = in_dim as int / (dtype.elements() as int) * dtype.bytes();
    let row = weights.subrange(o * bytes, (o + 1) * bytes);
    let w = quant_matmul::row_numbers(dtype, row, in_dim, grid);
    let a = Seq::new(in_dim, |i: int| x[t * in_dim + i]);
    lemma_quant_place(dtype, weights, x, n_tok, in_dim, out_dim, grid, t, o);
    sums::law_dot_error(w, a, in_dim);
}

#[verifier::spinoff_prover]
proof fn lemma_quant_place(
    dtype: GgmlType,
    weights: Seq<u8>,
    x: Seq<u32>,
    n_tok: nat,
    in_dim: nat,
    out_dim: nat,
    grid: &[u64; 256],
    t: int,
    o: int,
)
    requires
        0 <= t < n_tok,
        0 <= o < out_dim,
        x.len() == n_tok * in_dim,
    ensures
        ({
            let bytes = in_dim as int / (dtype.elements() as int) * dtype.bytes();
            let row = weights.subrange(o * bytes, (o + 1) * bytes);
            let a = Seq::new(in_dim, |i: int| x[t * in_dim + i]);
            quant_matmul::all_products(
                dtype,
                weights,
                x,
                n_tok as int,
                in_dim as int,
                out_dim as int,
                grid,
            )[t * out_dim + o] == fold::dot(
                quant_matmul::row_numbers(dtype, row, in_dim, grid),
                a,
                in_dim,
            )
        }),
{
    lemma_place(n_tok, out_dim, t, o);
    let e = dtype.elements() as int;
    let per = dtype.bytes() as int;
    let blocks = in_dim as int / e;
    let a = Seq::new(in_dim, |i: int| x[t * in_dim + i]);
    q8_0::lemma_row_inside(n_tok, in_dim, t);
    assert(q8_0::row_at(x, in_dim, t) =~= a);
    assert(e > 0);
    vstd::arithmetic::div_mod::lemma_div_pos_is_pos(in_dim as int, e);
    assert(blocks * per >= 0) by (nonlinear_arith)
        requires
            blocks >= 0,
            per >= 0,
    ;
    let bytes = blocks * per;
    assert(quant_matmul::row_bytes(dtype, in_dim as int) == bytes);
    assert(q8_0::row_at(weights, bytes as nat, o) == weights.subrange(o * bytes, (o + 1) * bytes));
}

/// Every instruction set but that of ARM gives the very same product, and that
/// one too where the last block is not in full use.
pub proof fn law_tiers_alike(
    a: SimdTier,
    b: SimdTier,
    row: Seq<u8>,
    xq: Seq<i8>,
    xscale: Seq<u32>,
    in_dim: int,
)
    requires
        in_dim % 32 != 0 || a != SimdTier::Neon && b != SimdTier::Neon,
    ensures
        q8_0::tier_dot(a, row, xq, xscale, in_dim) == q8_0::tier_dot(b, row, xq, xscale, in_dim),
{
}

} // verus!
