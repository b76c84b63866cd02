//! What the indexer's scores are, said of rows, queries and weights.

use crate::float;
use crate::float::arith;
use crate::float::bounds;
use crate::float::fold;
use crate::float::order;
use crate::float::sums;
use crate::kvcache::dsv4::indexer;
use vstd::prelude::*;

verus! {

/// The exact product of a row and head `h` of a query, over the first `n` places.
pub open spec fn head_product(row: Seq<u32>, q: Seq<u32>, h: int, n: nat) -> int
    decreases n,
{
    if n == 0 {
        0
    } else {
        head_product(row, q, h, (n - 1) as nat) + float::value(row[n - 1]) * float::value(
            q[128 * h + (n - 1)],
        )
    }
}

/// The sizes of the terms of that product.
pub open spec fn head_size(row: Seq<u32>, q: Seq<u32>, h: int, n: nat) -> int
    decreases n,
{
    if n == 0 {
        0
    } else {
        head_size(row, q, h, (n - 1) as nat) + bounds::size(
            float::value(row[n - 1]) * float::value(q[128 * h + (n - 1)]),
        )
    }
}

/// A number, zero where it is not positive.
pub open spec fn positive(d: u32) -> u32 {
    if order::less(0, d) {
        d
    } else {
        0
    }
}

proof fn lemma_head(row: Seq<u32>, q: Seq<u32>, h: int, n: nat)
    requires
        0 <= h,
        n <= 128,
        128 * (h + 1) <= q.len(),
    ensures
        sums::exact_dot(row, indexer::head_of(q, h), n) == head_product(row, q, h, n),
        sums::dot_size(row, indexer::head_of(q, h), n) == head_size(row, q, h, n),
    decreases n,
{
    if n > 0 {
        lemma_head(row, q, h, (n - 1) as nat);
        assert(indexer::head_of(q, h)[n - 1] == q[128 * h + (n - 1)]);
    }
}

/// The products of a row with the heads, as far as they are positive.
pub open spec fn heads(row: Seq<u32>, q: Seq<u32>) -> Seq<u32> {
    Seq::new(64, |h: int| positive(fold::dot(row, indexer::head_of(q, h), 128)))
}

/// Adding a zero keeps a number that is not minus zero.
proof fn lemma_adding_zero(x: u32, zero: u32)
    requires
        !float::is_nan(x),
        x != float::SIGN,
        float::is_zero(zero),
    ensures
        arith::sum(x, zero) == x,
{
    order::law_adding_zero(x, zero);
    arith::lemma_units_zero(float::magnitude(x));
    arith::lemma_units_zero(0);
}

/// A finite sum is minus zero only where both numbers are.
proof fn lemma_no_minus_zero(a: u32, b: u32)
    requires
        a != float::SIGN,
        float::is_finite(a),
        float::is_finite(b),
    ensures
        arith::sum(a, b) != float::SIGN,
{
    arith::lemma_units_zero(float::magnitude(a));
    arith::lemma_units_zero(float::magnitude(b));
    arith::lemma_units_zero(0);
    let exact = float::value(a) + float::value(b);
    if exact < 0 {
        order::lemma_units_of_parts(0, 1);
        vstd::arithmetic::power2::lemma2_to64();
        assert(float::units(1) * 1 == 1);
        order::law_rounding_reaches(arith::abs(exact), 1, 1);
    }
}

proof fn lemma_score(row: Seq<u32>, q: Seq<u32>, w: Seq<u32>, n: nat)
    requires
        n <= 64,
        q.len() == 64 * 128,
        w.len() == 64,
        forall|h: int| 0 <= h < 64 ==> float::is_finite(#[trigger] w[h]),
        float::is_finite(indexer::score(row, q, w, n)),
    ensures
        indexer::score(row, q, w, n) == fold::dot(heads(row, q), w, n),
        indexer::score(row, q, w, n) != float::SIGN,
    decreases n,
{
    if n > 0 {
        let m = (n - 1) as nat;
        let before = indexer::score(row, q, w, m);
        let d = fold::dot(row, indexer::head_of(q, n - 1), 128);
        assert(heads(row, q)[n - 1] == positive(d));
        assert(float::is_finite(w[n - 1]));
        if order::less(0, d) {
            let p = arith::product(d, w[n - 1]);
            bounds::law_sum_error(before, p);
            lemma_score(row, q, w, m);
            lemma_no_minus_zero(before, p);
        } else {
            lemma_score(row, q, w, m);
            let zero = arith::product(0, w[n - 1]);
            order::law_times_zero(w[n - 1], 0);
            order::law_order_of_two(w[n - 1], 0);
            lemma_adding_zero(before, zero);
        }
    }
}

/// The score of a row is the sum over the heads of its product with the head,
/// zero where that is negative, times the weight of the head.
pub proof fn law_score(row: Seq<u32>, q: Seq<u32>, w: Seq<u32>, h: int) -> (d: Seq<u32>)
    requires
        row.len() == 128,
        q.len() == 64 * 128,
        w.len() == 64,
        forall|h: int| 0 <= h < 64 ==> float::is_finite(#[trigger] w[h]),
        float::is_finite(indexer::score(row, q, w, 64)),
        0 <= h < 64,
    ensures
        d.len() == 64,
        float::is_finite(d[h]) ==> 0x100_0000 * bounds::size(
            float::value(d[h]) * bounds::one() - head_product(row, q, h, 128),
        ) <= 257 * head_size(row, q, h, 128) + 0x100_0000 * (128 * bounds::one()),
        0x100_0000 * bounds::size(
            float::value(indexer::score(row, q, w, 64)) * bounds::one() - sums::exact_dot(
                d.map_values(|x: u32| positive(x)),
                w,
                64,
            ),
        ) <= 129 * sums::dot_size(d.map_values(|x: u32| positive(x)), w, 64) + 0x100_0000 * (64
            * bounds::one()),
{
    let d = Seq::new(64, |h: int| fold::dot(row, indexer::head_of(q, h), 128));
    assert(d.map_values(|x: u32| positive(x)) =~= heads(row, q));
    lemma_score(row, q, w, 64);
    sums::law_dot_error(heads(row, q), w, 64);
    if float::is_finite(d[h]) {
        assert(d[h] == fold::dot(row, indexer::head_of(q, h), 128));
        sums::law_dot_error(row, indexer::head_of(q, h), 128);
        lemma_head(row, q, h, 128);
    }
    d
}

/// Row `c` of the rows is scored by its own 128 numbers.
pub proof fn law_scores(rows: Seq<u32>, q: Seq<u32>, w: Seq<u32>, n: nat, c: int)
    requires
        rows.len() == n * 128,
        0 <= c < n,
    ensures
        indexer::scores(rows, q, w, n).len() == n,
        indexer::scores(rows, q, w, n)[c] == indexer::score(
            Seq::new(128, |d: int| rows[128 * c + d]),
            q,
            w,
            64,
        ),
{
    assert(128 * c + 128 <= n * 128) by (nonlinear_arith)
        requires
            c + 1 <= n,
    ;
    assert(indexer::row_of(rows, c) =~= Seq::new(128, |d: int| rows[128 * c + d]));
}

/// The number under the root of the scale of the weights is that of the heads
/// times their width.
pub proof fn law_lanes()
    ensures
        float::value(indexer::LANES) == 64 * 128 * bounds::one(),
{
    vstd::arithmetic::power2::lemma2_to64();
    vstd::arithmetic::power2::lemma_pow2_adds(139, 23);
    vstd::arithmetic::power2::lemma_pow2_adds(13, 149);
    assert(float::units(0x4600_0000) == 0x80_0000 * vstd::arithmetic::power2::pow2(139)) by {
        assert(float::exponent(0x4600_0000) == 139 && float::significand(0x4600_0000) == 0x80_0000);
    }
}

} // verus!
