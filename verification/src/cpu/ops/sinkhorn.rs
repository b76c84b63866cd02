//! Mix weights of hyper-connections.
//!
//! A token runs through several residual streams. A layer gates each stream
//! before and after it, and redistributes the streams by a matrix whose rows
//! and columns add up to one. The matrix comes out of alternating
//! normalisations of the rows and the columns.

use crate::buffer::overwrite;
use crate::cpu::capability::SimdTier;
use crate::cpu::error::Error;
use crate::cpu::ops::scalar;
use crate::cpu::ops::scalar::sigmoid;
use crate::float;
use crate::float::arith;
use crate::float::arith::{fadd, fdiv, fmul};
use crate::float::fold;
use crate::float::fold::{highest_of, lower, total_of, NEG_INF, ONE};
use crate::float::function;
use crate::float::order;
use crate::float::weights;
use vstd::prelude::*;

verus! {

/// Usual number of streams.
pub const N_HC: usize = 4;

/// Usual number of rounds.
pub const N_HC_SINKHORN_ITER: usize = 20;

/// Two, as bits.
pub const TWO: u32 = 0x4000_0000;

/// The logit at `k`: the mix there times a scale, and the base there.
pub open spec fn logit(mix: Seq<u32>, base: Seq<u32>, scale: u32, k: int) -> u32 {
    arith::sum(arith::product(mix[k], scale), base[k])
}

/// The gates before the layer.
pub open spec fn pre_gates(
    mix: Seq<u32>,
    base: Seq<u32>,
    scale: u32,
    n: nat,
    eps: u32,
    exp: spec_fn(u32) -> u32,
) -> Seq<u32> {
    Seq::new(
        n,
        |i: int| arith::sum(scalar::logistic(logit(mix, base, scale, i), exp), eps),
    )
}

/// The gates after the layer.
pub open spec fn post_gates(
    mix: Seq<u32>,
    base: Seq<u32>,
    scale: u32,
    n: nat,
    exp: spec_fn(u32) -> u32,
) -> Seq<u32> {
    Seq::new(
        n,
        |i: int| arith::product(TWO, scalar::logistic(logit(mix, base, scale, n + i), exp)),
    )
}

/// The logits of the matrix, row after row.
pub open spec fn matrix_logits(mix: Seq<u32>, base: Seq<u32>, scale: u32, n: nat) -> Seq<u32> {
    Seq::new(n * n, |k: int| logit(mix, base, scale, 2 * n + k))
}

/// Row `d` of a matrix.
pub open spec fn row(m: Seq<u32>, n: nat, d: int) -> Seq<u32> {
    Seq::new(n, |s: int| m[d * n + s])
}

/// Column `s` of a matrix.
pub open spec fn column(m: Seq<u32>, n: nat, s: int) -> Seq<u32> {
    Seq::new(n, |d: int| m[d * n + s])
}

/// The softmax of each row of a matrix, with `eps` added to each entry.
pub open spec fn soft_rows(
    m: Seq<u32>,
    n: nat,
    eps: u32,
    exp: spec_fn(u32) -> u32,
) -> Seq<u32> {
    Seq::new(n * n, |k: int| soft_row(row(m, n, k / (n as int)), eps, exp)[k % (n as int)])
}

/// The softmax of a row, with `eps` added to each entry.
pub open spec fn soft_row(r: Seq<u32>, eps: u32, exp: spec_fn(u32) -> u32) -> Seq<u32> {
    let w = weights::of_scores(r, fold::highest(r, NEG_INF), exp);
    let inverse = arith::quotient(ONE, fold::total(w));
    Seq::new(r.len(), |s: int| arith::sum(arith::product(w[s], inverse), eps))
}

/// One over the sum of a line of a matrix and `eps`.
pub open spec fn inverse_sum(line: Seq<u32>, eps: u32) -> u32 {
    arith::quotient(ONE, arith::sum(fold::total(line), eps))
}

/// Each row divided by its sum.
pub open spec fn even_rows(m: Seq<u32>, n: nat, eps: u32) -> Seq<u32> {
    Seq::new(
        n * n,
        |k: int| arith::product(m[k], inverse_sum(row(m, n, k / (n as int)), eps)),
    )
}

/// Each column divided by its sum.
pub open spec fn even_columns(m: Seq<u32>, n: nat, eps: u32) -> Seq<u32> {
    Seq::new(
        n * n,
        |k: int| arith::product(m[k], inverse_sum(column(m, n, k % (n as int)), eps)),
    )
}

/// A matrix after some rounds of normalising its rows and then its columns.
pub open spec fn evened(m: Seq<u32>, n: nat, eps: u32, rounds: nat) -> Seq<u32>
    decreases rounds,
{
    if rounds == 0 {
        m
    } else {
        even_columns(even_rows(evened(m, n, eps, (rounds - 1) as nat), n, eps), n, eps)
    }
}

/// The matrix of a token. The first round starts with a softmax.
pub open spec fn mixing(
    logits: Seq<u32>,
    n: nat,
    iters: nat,
    eps: u32,
    exp: spec_fn(u32) -> u32,
) -> Seq<u32> {
    evened(
        even_columns(soft_rows(logits, n, eps, exp), n, eps),
        n,
        eps,
        if iters == 0 {
            0
        } else {
            (iters - 1) as nat
        },
    )
}

/// The mix weights of a token: the gates before, the gates after, the matrix.
pub open spec fn split(
    mix: Seq<u32>,
    base: Seq<u32>,
    scale: Seq<u32>,
    n: nat,
    iters: nat,
    eps: u32,
    exp: spec_fn(u32) -> u32,
) -> Seq<u32> {
    pre_gates(mix, base, scale[0], n, eps, exp) + post_gates(mix, base, scale[1], n, exp) + mixing(
        matrix_logits(mix, base, scale[2], n),
        n,
        iters,
        eps,
        exp,
    )
}

/// Entry `s` of row `d` lies inside the matrix.
pub proof fn lemma_inside(n: nat, d: int, s: int)
    requires
        0 <= d < n,
        0 <= s < n,
    ensures
        0 <= d * n + s < n * n,
        (d * n + s) / (n as int) == d,
        (d * n + s) % (n as int) == s,
{
    assert(0 <= d * n) by (nonlinear_arith)
        requires
            0 <= d,
            0 <= n,
    ;
    assert((d + 1) * n <= n * n) by (nonlinear_arith)
        requires
            d + 1 <= n,
            0 <= n,
    ;
    assert((d + 1) * n == d * n + n) by (nonlinear_arith);
    vstd::arithmetic::div_mod::lemma_fundamental_div_mod_converse(d * n + s, n as int, d, s);
}

/// Where an entry lies.
proof fn lemma_place(n: nat, k: int)
    requires
        0 <= k < n * n,
    ensures
        0 <= k / (n as int) < n,
        0 <= k % (n as int) < n,
        k == (k / (n as int)) * n + k % (n as int),
{
    assert(n > 0) by (nonlinear_arith)
        requires
            n * n > 0,
            n >= 0,
    ;
    vstd::arithmetic::div_mod::lemma_fundamental_div_mod(k, n as int);
    let q = k / (n as int);
    assert(q < n) by (nonlinear_arith)
        requires
            n * q <= k,
            k < n * n,
            n > 0,
    ;
    vstd::arithmetic::div_mod::lemma_div_pos_is_pos(k, n as int);
    assert(n * q == q * n) by (nonlinear_arith);
}

/// A row of a matrix.
fn row_of(m: &Vec<u32>, n: usize, d: usize) -> (r: Vec<u32>)
    requires
        n <= 16,
        m@.len() == n * n,
        d < n,
    ensures
        r@ == row(m@, n as nat, d as int),
{
    let mut r: Vec<u32> = Vec::new();
    for s in 0..n
        invariant
            n <= 16,
            m@.len() == n * n,
            d < n,
            r@ =~= row(m@, n as nat, d as int).take(s as int),
    {
        proof {
            lemma_inside(n as nat, d as int, s as int);
            assert(d * n <= 256) by (nonlinear_arith)
                requires
                    d <= 16,
                    n <= 16,
            ;
        }
        r.push(m[d * n + s]);
    }
    assert(r@ =~= row(m@, n as nat, d as int));
    r
}

/// A column of a matrix.
fn column_of(m: &Vec<u32>, n: usize, s: usize) -> (r: Vec<u32>)
    requires
        n <= 16,
        m@.len() == n * n,
        s < n,
    ensures
        r@ == column(m@, n as nat, s as int),
{
    let mut r: Vec<u32> = Vec::new();
    for d in 0..n
        invariant
            n <= 16,
            m@.len() == n * n,
            s < n,
            r@ =~= column(m@, n as nat, s as int).take(d as int),
    {
        proof {
            lemma_inside(n as nat, d as int, s as int);
            assert(d * n <= 256) by (nonlinear_arith)
                requires
                    d <= 16,
                    n <= 16,
            ;
        }
        r.push(m[d * n + s]);
    }
    assert(r@ =~= column(m@, n as nat, s as int));
    r
}

/// Divides each row by its sum.
fn normalize_rows(m: &Vec<u32>, n: usize, eps: u32) -> (r: Vec<u32>)
    requires
        n <= 16,
        m@.len() == n * n,
    ensures
        r@ == even_rows(m@, n as nat, eps),
        r@.len() == n * n,
{
    let mut inverses: Vec<u32> = Vec::new();
    for d in 0..n
        invariant
            n <= 16,
            m@.len() == n * n,
            inverses@.len() == d,
            forall|i: int|
                0 <= i < d ==> #[trigger] inverses@[i] == inverse_sum(row(m@, n as nat, i), eps),
    {
        let line: Vec<u32> = row_of(m, n, d);
        inverses.push(fdiv(ONE, fadd(total_of(line.as_slice()), eps)));
    }
    let mut r: Vec<u32> = Vec::new();
    let len: usize = m.len();
    for k in 0..len
        invariant
            n <= 16,
            len == n * n,
            m@.len() == len,
            inverses@.len() == n,
            forall|i: int|
                0 <= i < n ==> #[trigger] inverses@[i] == inverse_sum(row(m@, n as nat, i), eps),
            r@ =~= even_rows(m@, n as nat, eps).take(k as int),
    {
        proof {
            lemma_place(n as nat, k as int);
        }
        r.push(fmul(m[k], inverses[k / n]));
    }
    assert(r@ =~= even_rows(m@, n as nat, eps));
    r
}

/// Divides each column by its sum.
fn normalize_columns(m: &Vec<u32>, n: usize, eps: u32) -> (r: Vec<u32>)
    requires
        n <= 16,
        m@.len() == n * n,
    ensures
        r@ == even_columns(m@, n as nat, eps),
        r@.len() == n * n,
{
    let mut inverses: Vec<u32> = Vec::new();
    for s in 0..n
        invariant
            n <= 16,
            m@.len() == n * n,
            inverses@.len() == s,
            forall|i: int|
                0 <= i < s ==> #[trigger] inverses@[i] == inverse_sum(column(m@, n as nat, i), eps),
    {
        let line: Vec<u32> = column_of(m, n, s);
        inverses.push(fdiv(ONE, fadd(total_of(line.as_slice()), eps)));
    }
    let mut r: Vec<u32> = Vec::new();
    let len: usize = m.len();
    for k in 0..len
        invariant
            n <= 16,
            len == n * n,
            m@.len() == len,
            inverses@.len() == n,
            forall|i: int|
                0 <= i < n ==> #[trigger] inverses@[i] == inverse_sum(column(m@, n as nat, i), eps),
            r@ =~= even_columns(m@, n as nat, eps).take(k as int),
    {
        proof {
            lemma_place(n as nat, k as int);
        }
        r.push(fmul(m[k], inverses[k % n]));
    }
    assert(r@ =~= even_columns(m@, n as nat, eps));
    r
}

/// The softmax of a row, with `eps` added to each entry.
fn soften_row<F: Fn(u32) -> u32>(r: &Vec<u32>, eps: u32, exp: &F) -> (out: Vec<u32>)
    requires
        function::total(exp),
    ensures
        out@.len() == r@.len(),
        forall|g: spec_fn(u32) -> u32| #[trigger]
            function::computes(exp, g) ==> out@ == soft_row(r@, eps, g),
{
    let top: u32 = highest_of(r.as_slice(), NEG_INF);
    let below: Vec<u32> = lower(r.as_slice(), top);
    let w: Vec<u32> = function::apply(exp, below.as_slice());
    let inverse: u32 = fdiv(ONE, total_of(w.as_slice()));
    let mut out: Vec<u32> = Vec::new();
    let n: usize = w.len();
    for s in 0..n
        invariant
            n == w@.len(),
            out@.len() == s,
            forall|i: int|
                0 <= i < s ==> #[trigger] out@[i] == arith::sum(
                    arith::product(w@[i], inverse),
                    eps,
                ),
    {
        out.push(fadd(fmul(w[s], inverse), eps));
    }
    assert forall|g: spec_fn(u32) -> u32| #[trigger] function::computes(exp, g) implies out@
        == soft_row(r@, eps, g) by {
        assert(w@ == weights::of_scores(r@, top, g));
        assert(out@ =~= soft_row(r@, eps, g));
    }
    out
}

/// The softmax of each row of a matrix.
fn soften_rows<F: Fn(u32) -> u32>(m: &Vec<u32>, n: usize, eps: u32, exp: &F) -> (r: Vec<u32>)
    requires
        function::total(exp),
        0 < n <= 16,
        m@.len() == n * n,
    ensures
        r@.len() == n * n,
        forall|g: spec_fn(u32) -> u32| #[trigger]
            function::computes(exp, g) ==> r@ == soft_rows(m@, n as nat, eps, g),
{
    let mut rows: Vec<Vec<u32>> = Vec::new();
    for d in 0..n
        invariant
            function::total(exp),
            n <= 16,
            m@.len() == n * n,
            rows@.len() == d,
            forall|i: int| 0 <= i < d ==> #[trigger] rows@[i]@.len() == n,
            forall|g: spec_fn(u32) -> u32| #[trigger]
                function::computes(exp, g) ==> forall|i: int|
                    0 <= i < d ==> (#[trigger] rows@[i])@ == soft_row(
                        row(m@, n as nat, i),
                        eps,
                        g,
                    ),
    {
        let line: Vec<u32> = row_of(m, n, d);
        rows.push(soften_row(&line, eps, exp));
    }
    let mut r: Vec<u32> = Vec::new();
    let len: usize = m.len();
    for k in 0..len
        invariant
            0 < n <= 16,
            len == n * n,
            rows@.len() == n,
            forall|i: int| 0 <= i < n ==> #[trigger] rows@[i]@.len() == n,
            r@.len() == k,
            forall|i: int|
                0 <= i < k ==> #[trigger] r@[i] == rows@[i / (n as int)]@[i % (n as int)],
    {
        proof {
            lemma_place(n as nat, k as int);
        }
        let line: &Vec<u32> = &rows[k / n];
        r.push(line[k % n]);
    }
    assert forall|g: spec_fn(u32) -> u32| #[trigger] function::computes(exp, g) implies r@
        == soft_rows(m@, n as nat, eps, g) by {
        assert forall|i: int| 0 <= i < len implies r@[i] == soft_rows(m@, n as nat, eps, g)[i] by {
            lemma_place(n as nat, i);
            assert(rows@[i / (n as int)]@ == soft_row(
                row(m@, n as nat, i / (n as int)),
                eps,
                g,
            ));
        }
        assert(r@ =~= soft_rows(m@, n as nat, eps, g));
    }
    r
}

/// Normalises the rows and columns of a matrix, starting from its softmax.
fn mix_matrix<F: Fn(u32) -> u32>(
    logits: &Vec<u32>,
    n: usize,
    iters: usize,
    eps: u32,
    exp: &F,
) -> (m: Vec<u32>)
    requires
        function::total(exp),
        0 < n <= 16,
        logits@.len() == n * n,
    ensures
        m@.len() == n * n,
        forall|g: spec_fn(u32) -> u32| #[trigger]
            function::computes(exp, g) ==> m@ == mixing(logits@, n as nat, iters as nat, eps, g),
{
    let soft: Vec<u32> = soften_rows(logits, n, eps, exp);
    let mut m: Vec<u32> = normalize_columns(&soft, n, eps);
    let ghost start = m@;
    let mut t: usize = 1;
    while t < iters
        invariant
            0 < n <= 16,
            m@.len() == n * n,
            1 <= t,
            t <= iters || t == 1,
            m@ == evened(start, n as nat, eps, (t - 1) as nat),
        decreases iters - t,
    {
        let rows: Vec<u32> = normalize_rows(&m, n, eps);
        m = normalize_columns(&rows, n, eps);
        t = t + 1;
    }
    m
}

/// Computes the mix weights of a token. `scale` holds the scales of the gates
/// before, of the gates after and of the matrix. `exp` is the exponential.
pub fn hc_split_sinkhorn<F: Fn(u32) -> u32>(
    out: &mut [u32],
    mix: &[u32],
    scale: &[u32; 3],
    base: &[u32],
    n_hc: usize,
    iters: usize,
    eps: u32,
    tier: SimdTier,
    exp: &F,
) -> (res: Result<(), Error>)
    requires
        function::total(exp),
    ensures
        final(out)@.len() == old(out)@.len(),
        n_hc == 0 ==> {
            &&& final(out)@ == old(out)@
            &&& res == Err::<(), Error>(
                Error::ShapeMismatch("hc_split_sinkhorn: n_hc must be > 0"),
            )
        },
        n_hc > 16 ==> {
            &&& final(out)@ == old(out)@
            &&& res == Err::<(), Error>(
                Error::ShapeMismatch("hc_split_sinkhorn: n_hc > 16 exceeds ds4's stack-buffer reference"),
            )
        },
        0 < n_hc <= 16 && !(old(out)@.len() == 2 * n_hc + n_hc * n_hc && mix@.len() == 2 * n_hc
            + n_hc * n_hc && base@.len() == 2 * n_hc + n_hc * n_hc) ==> {
            &&& final(out)@ == old(out)@
            &&& res == Err::<(), Error>(
                Error::ShapeMismatch("hc_split_sinkhorn: buffers must be 2*n_hc + n_hc*n_hc"),
            )
        },
        0 < n_hc <= 16 && old(out)@.len() == 2 * n_hc + n_hc * n_hc && mix@.len() == 2 * n_hc + n_hc
            * n_hc && base@.len() == 2 * n_hc + n_hc * n_hc ==> {
            &&& res is Ok
            &&& forall|g: spec_fn(u32) -> u32| #[trigger]
                function::computes(exp, g) ==> final(out)@ == split(
                    mix@,
                    base@,
                    scale@,
                    n_hc as nat,
                    iters as nat,
                    eps,
                    g,
                )
        },
{
    if n_hc == 0 {
        return Err(Error::ShapeMismatch("hc_split_sinkhorn: n_hc must be > 0"));
    }
    if n_hc > 16 {
        return Err(Error::ShapeMismatch("hc_split_sinkhorn: n_hc > 16 exceeds ds4's stack-buffer reference"));
    }
    assert(n_hc * n_hc <= 256) by (nonlinear_arith)
        requires
            n_hc <= 16,
    ;
    let need: usize = 2 * n_hc + n_hc * n_hc;
    if out.len() != need || mix.len() != need || base.len() != need {
        return Err(Error::ShapeMismatch("hc_split_sinkhorn: buffers must be 2*n_hc + n_hc*n_hc"));
    }
    let ghost n = n_hc as nat;
    let mut pre: Vec<u32> = Vec::new();
    for i in 0..n_hc
        invariant
            function::total(exp),
            mix@.len() >= 2 * n_hc,
            base@.len() >= 2 * n_hc,
            pre@.len() == i,
            forall|g: spec_fn(u32) -> u32| #[trigger]
                function::computes(exp, g) ==> forall|k: int|
                    0 <= k < i ==> #[trigger] pre@[k] == arith::sum(
                        scalar::logistic(logit(mix@, base@, scale@[0], k), g),
                        eps,
                    ),
    {
        let z: u32 = fadd(fmul(mix[i], scale[0]), base[i]);
        pre.push(fadd(sigmoid(z, exp), eps));
    }
    let mut post: Vec<u32> = Vec::new();
    for i in 0..n_hc
        invariant
            function::total(exp),
            n_hc <= 16,
            mix@.len() >= 2 * n_hc,
            base@.len() >= 2 * n_hc,
            post@.len() == i,
            forall|g: spec_fn(u32) -> u32| #[trigger]
                function::computes(exp, g) ==> forall|k: int|
                    0 <= k < i ==> #[trigger] post@[k] == arith::product(
                        TWO,
                        scalar::logistic(logit(mix@, base@, scale@[1], n_hc + k), g),
                    ),
    {
        let z: u32 = fadd(fmul(mix[n_hc + i], scale[1]), base[n_hc + i]);
        post.push(fmul(TWO, sigmoid(z, exp)));
    }
    let count: usize = n_hc * n_hc;
    let mut logits: Vec<u32> = Vec::new();
    for k in 0..count
        invariant
            n == n_hc,
            n_hc <= 16,
            count == n_hc * n_hc,
            count <= 256,
            mix@.len() == 2 * n_hc + count,
            base@.len() == 2 * n_hc + count,
            logits@ =~= matrix_logits(mix@, base@, scale@[2], n).take(k as int),
    {
        let off: usize = 2 * n_hc + k;
        logits.push(fadd(fmul(mix[off], scale[2]), base[off]));
    }
    assert(logits@ =~= matrix_logits(mix@, base@, scale@[2], n));
    let m: Vec<u32> = mix_matrix(&logits, n_hc, iters, eps, exp);
    let mut all: Vec<u32> = pre;
    let ghost first = all@;
    all.extend_from_slice(post.as_slice());
    assert(all@ =~= first + post@);
    all.extend_from_slice(m.as_slice());
    assert(all@ =~= first + post@ + m@);
    overwrite(out, all.as_slice());
    assert forall|g: spec_fn(u32) -> u32| #[trigger] function::computes(exp, g) implies all@
        == split(mix@, base@, scale@, n, iters as nat, eps, g) by {
        assert(first =~= pre_gates(mix@, base@, scale@[0], n, eps, g));
        assert(post@ =~= post_gates(mix@, base@, scale@[1], n, g));
    }
    Ok(())
}

/// Whether all entries are between zero and `most`.
pub open spec fn all_within(m: Seq<u32>, most: u32) -> bool {
    forall|k: int|
        0 <= k < m.len() ==> !float::is_negative(#[trigger] m[k]) && order::at_most(m[k], most)
}

/// The gates before the layer are between `eps` and two, where `eps` is between
/// zero and one; the gates after it between zero and two.
pub proof fn law_gates(
    mix: Seq<u32>,
    base: Seq<u32>,
    scale: u32,
    n: nat,
    eps: u32,
    exp: spec_fn(u32) -> u32,
    i: int,
)
    requires
        weights::is_exponential(exp),
        !float::is_nan(logit(mix, base, scale, i)),
        !float::is_nan(logit(mix, base, scale, n + i)),
        !float::is_negative(eps),
        order::at_most(eps, ONE),
        0 <= i < n,
    ensures
        order::at_most(eps, pre_gates(mix, base, scale, n, eps, exp)[i]),
        order::at_most(pre_gates(mix, base, scale, n, eps, exp)[i], TWO),
        !float::is_negative(post_gates(mix, base, scale, n, exp)[i]),
        order::at_most(post_gates(mix, base, scale, n, exp)[i], TWO),
{
    let before = scalar::logistic(logit(mix, base, scale, i), exp);
    let after = scalar::logistic(logit(mix, base, scale, n + i), exp);
    scalar::law_logistic_is_a_part(logit(mix, base, scale, i), exp);
    scalar::law_logistic_is_a_part(logit(mix, base, scale, n + i), exp);
    order::law_sum_is_no_smaller(before, eps);
    lemma_sum_of_two(before, eps, 0);
    order::law_part_is_no_larger(TWO, after);
}

/// Two to the power of `k`, as bits.
pub open spec fn power(k: nat) -> u32 {
    (0x3F80_0000 + k * 0x80_0000) as u32
}

/// Two numbers of at most `2^k` add up to at most `2^(k+1)`.
proof fn lemma_sum_of_two(a: u32, b: u32, k: nat)
    requires
        order::at_most(a, power(k)),
        order::at_most(b, power(k)),
        !float::is_negative(a),
        !float::is_negative(b),
        k <= 100,
    ensures
        order::at_most(arith::sum(a, b), power(k + 1)),
{
    let p = power(k);
    let mag = float::magnitude(p);
    let next = float::magnitude(power(k + 1));
    order::law_sum_keeps_order(a, p, b);
    order::law_order_of_two(p, b);
    order::law_sum_keeps_order(b, p, p);
    assert(float::exponent(mag) == 126 + k);
    assert(float::exponent(next) == 127 + k);
    assert(float::significand(mag) == 0x80_0000);
    assert(float::significand(next) == 0x80_0000);
    vstd::arithmetic::power2::lemma_pow2_unfold((127 + k) as nat);
    assert(float::units(next) == 2 * float::units(mag));
    arith::lemma_units_zero(mag);
    order::law_rounding_keeps_numbers(next, 1);
    assert(float::units(next) * 1 == float::units(next));
}

/// Numbers of at most two add up to less than `2^(n+2)`.
pub proof fn lemma_total_bound(s: Seq<u32>)
    requires
        all_within(s, TWO),
        s.len() <= 50,
    ensures
        !float::is_negative(fold::total(s)),
        order::at_most(fold::total(s), power(s.len() + 1)),
    decreases s.len(),
{
    if s.len() > 0 {
        let rest = s.drop_last();
        let last = s.last();
        assert(last == s[s.len() - 1]);
        assert forall|k: int| 0 <= k < rest.len() implies !float::is_negative(#[trigger] rest[k])
            && order::at_most(rest[k], TWO) by {
            assert(rest[k] == s[k]);
        }
        lemma_total_bound(rest);
        lemma_sum_of_two(fold::total(rest), last, s.len());
        order::law_sum_is_no_smaller(fold::total(rest), last);
    }
}

/// What a line is divided by is a normal number with a normal inverse.
pub proof fn lemma_line_sum(line: Seq<u32>, eps: u32)
    requires
        all_within(line, TWO),
        line.len() <= 16,
        0x80_0000 <= eps <= ONE,
    ensures
        !float::is_negative(fold::total(line)),
        float::is_finite(fold::total(line)),
        order::at_most(fold::total(line), arith::sum(fold::total(line), eps)),
        0x80_0000 <= arith::sum(fold::total(line), eps) <= 0x7E80_0000,
{
    let total = fold::total(line);
    lemma_total_bound(line);
    order::law_sum_is_no_smaller(total, eps);
    lemma_sum_of_two(total, eps, line.len() + 1);
}

/// Each entry of a line, divided by the sum of the line, is between zero and
/// one.
pub proof fn lemma_even_line(line: Seq<u32>, k: int, eps: u32)
    requires
        all_within(line, TWO),
        line.len() <= 16,
        0x80_0000 <= eps <= ONE,
        0 <= k < line.len(),
    ensures
        !float::is_negative(arith::product(line[k], inverse_sum(line, eps))),
        order::at_most(arith::product(line[k], inverse_sum(line, eps)), ONE),
{
    lemma_line_sum(line, eps);
    fold::law_total_starts_from_zero(line);
    fold::law_total_is_no_smaller(line, 0);
    assert(order::at_most(line[k], fold::total(line)));
    order::law_inverse_gives_a_part(line[k], arith::sum(fold::total(line), eps));
}

/// Dividing rows by their sums brings the entries between zero and one.
pub proof fn lemma_even_rows(m: Seq<u32>, n: nat, eps: u32)
    requires
        all_within(m, TWO),
        m.len() == n * n,
        0 < n <= 16,
        0x80_0000 <= eps <= ONE,
    ensures
        all_within(even_rows(m, n, eps), ONE),
{
    let r = even_rows(m, n, eps);
    assert forall|k: int| 0 <= k < r.len() implies !float::is_negative(#[trigger] r[k])
        && order::at_most(r[k], ONE) by {
        lemma_place(n, k);
        let line = row(m, n, k / (n as int));
        lemma_row_within(m, n, k / (n as int));
        assert(line[k % (n as int)] == m[k]);
        lemma_even_line(line, k % (n as int), eps);
    }
}

/// Dividing columns by their sums brings the entries between zero and one.
pub proof fn lemma_even_columns(m: Seq<u32>, n: nat, eps: u32)
    requires
        all_within(m, TWO),
        m.len() == n * n,
        0 < n <= 16,
        0x80_0000 <= eps <= ONE,
    ensures
        all_within(even_columns(m, n, eps), ONE),
{
    let r = even_columns(m, n, eps);
    assert forall|k: int| 0 <= k < r.len() implies !float::is_negative(#[trigger] r[k])
        && order::at_most(r[k], ONE) by {
        lemma_place(n, k);
        let line = column(m, n, k % (n as int));
        lemma_column_within(m, n, k % (n as int));
        assert(line[k / (n as int)] == m[k]);
        lemma_even_line(line, k / (n as int), eps);
    }
}

pub proof fn lemma_row_within(m: Seq<u32>, n: nat, d: int)
    requires
        all_within(m, TWO),
        m.len() == n * n,
        0 <= d < n,
    ensures
        all_within(row(m, n, d), TWO),
{
    let line = row(m, n, d);
    assert forall|s: int| 0 <= s < line.len() implies !float::is_negative(#[trigger] line[s])
        && order::at_most(line[s], TWO) by {
        lemma_inside(n, d, s);
        assert(line[s] == m[d * n + s]);
    }
}

pub proof fn lemma_column_within(m: Seq<u32>, n: nat, s: int)
    requires
        all_within(m, TWO),
        m.len() == n * n,
        0 <= s < n,
    ensures
        all_within(column(m, n, s), TWO),
{
    let line = column(m, n, s);
    assert forall|d: int| 0 <= d < line.len() implies !float::is_negative(#[trigger] line[d])
        && order::at_most(line[d], TWO) by {
        lemma_inside(n, d, s);
        assert(line[d] == m[d * n + s]);
    }
}

/// The softmax of a row is between zero and one.
proof fn lemma_row_parts(r: Seq<u32>, top: u32, exp: spec_fn(u32) -> u32)
    requires
        weights::is_exponential(exp),
        r.len() > 0,
        top == fold::highest(r, NEG_INF),
        forall|i: int| 0 <= i < r.len() ==> float::is_finite(#[trigger] r[i]),
    ensures
        all_within(
            fold::scaled(
                weights::of_scores(r, top, exp),
                arith::quotient(ONE, fold::total(weights::of_scores(r, top, exp))),
            ),
            ONE,
        ),
{
    assert(float::is_finite(r[0]));
    weights::lemma_finite_top(r, NEG_INF);
    let w = weights::of_scores(r, top, exp);
    assert(!float::is_negative(fold::total(w)) && order::at_most(ONE, fold::total(w))) by {
        fold::law_highest(r, NEG_INF);
        weights::lemma_weights(r, top, exp);
        let at = choose|t: int| 0 <= t < r.len() && r[t] == top;
        assert(w[at] == ONE);
        fold::law_total_starts_from_zero(w);
        fold::law_total_is_no_smaller(w, 0);
    }
    weights::lemma_parts(r, top, fold::total(w), exp);
}

/// What is between zero and one, with `eps` added, is between zero and two.
proof fn lemma_plus_eps(part: u32, eps: u32)
    requires
        !float::is_negative(part),
        order::at_most(part, ONE),
        eps <= ONE,
    ensures
        !float::is_negative(arith::sum(part, eps)),
        order::at_most(arith::sum(part, eps), TWO),
        order::at_most(eps, arith::sum(part, eps)),
{
    lemma_sum_of_two(part, eps, 0);
    order::law_sum_is_no_smaller(part, eps);
}

/// Parts between zero and one, with `eps` added, are between zero and two.
proof fn lemma_all_plus_eps(parts: Seq<u32>, out: Seq<u32>, eps: u32)
    requires
        all_within(parts, ONE),
        eps <= ONE,
        out.len() == parts.len(),
        forall|s: int| 0 <= s < out.len() ==> #[trigger] out[s] == arith::sum(parts[s], eps),
    ensures
        all_within(out, TWO),
        forall|s: int| 0 <= s < out.len() ==> order::at_most(eps, #[trigger] out[s]),
{
    assert forall|s: int| 0 <= s < out.len() implies !float::is_negative(#[trigger] out[s])
        && order::at_most(out[s], TWO) && order::at_most(eps, out[s]) by {
        assert(!float::is_negative(parts[s]));
        lemma_plus_eps(parts[s], eps);
    }
}

/// The softmax of a row, with `eps` added, is between zero and two.
#[verifier::rlimit(40)]
proof fn lemma_soft_row(r: Seq<u32>, eps: u32, exp: spec_fn(u32) -> u32)
    requires
        weights::is_exponential(exp),
        r.len() > 0,
        forall|i: int| 0 <= i < r.len() ==> float::is_finite(#[trigger] r[i]),
        0x80_0000 <= eps <= ONE,
    ensures
        all_within(soft_row(r, eps, exp), TWO),
        forall|s: int| 0 <= s < r.len() ==> order::at_most(eps, #[trigger] soft_row(r, eps, exp)[s]),
{
    let top = fold::highest(r, NEG_INF);
    lemma_row_parts(r, top, exp);
    let w = weights::of_scores(r, top, exp);
    let parts = fold::scaled(w, arith::quotient(ONE, fold::total(w)));
    lemma_all_plus_eps(parts, soft_row(r, eps, exp), eps);
}

/// The softmax of the rows, with `eps` added, is between `eps` and two.
pub proof fn lemma_soft_rows(logits: Seq<u32>, n: nat, eps: u32, exp: spec_fn(u32) -> u32)
    requires
        weights::is_exponential(exp),
        0 < n <= 16,
        logits.len() == n * n,
        forall|k: int| 0 <= k < logits.len() ==> float::is_finite(#[trigger] logits[k]),
        0x80_0000 <= eps <= ONE,
    ensures
        all_within(soft_rows(logits, n, eps, exp), TWO),
        forall|k: int|
            0 <= k < n * n ==> order::at_most(eps, #[trigger] soft_rows(logits, n, eps, exp)[k]),
{
    let soft = soft_rows(logits, n, eps, exp);
    assert forall|k: int| 0 <= k < soft.len() implies !float::is_negative(#[trigger] soft[k])
        && order::at_most(soft[k], TWO) && order::at_most(eps, soft[k]) by {
        lemma_place(n, k);
        let d = k / (n as int);
        let r = row(logits, n, d);
        assert forall|s: int| 0 <= s < r.len() implies float::is_finite(#[trigger] r[s]) by {
            lemma_inside(n, d, s);
            assert(r[s] == logits[d * n + s]);
        }
        lemma_soft_row(r, eps, exp);
        assert(soft[k] == soft_row(r, eps, exp)[k % (n as int)]);
    }
}

/// The matrix of a token with finite logits has entries between zero and one.
pub proof fn law_matrix_entries(
    logits: Seq<u32>,
    n: nat,
    iters: nat,
    eps: u32,
    exp: spec_fn(u32) -> u32,
)
    requires
        weights::is_exponential(exp),
        0 < n <= 16,
        logits.len() == n * n,
        forall|k: int| 0 <= k < logits.len() ==> float::is_finite(#[trigger] logits[k]),
        0x80_0000 <= eps <= ONE,
    ensures
        mixing(logits, n, iters, eps, exp).len() == n * n,
        all_within(mixing(logits, n, iters, eps, exp), ONE),
{
    let soft = soft_rows(logits, n, eps, exp);
    lemma_soft_rows(logits, n, eps, exp);
    lemma_even_columns(soft, n, eps);
    let rounds = if iters == 0 {
        0
    } else {
        (iters - 1) as nat
    };
    lemma_evened_within(even_columns(soft, n, eps), n, eps, rounds);
}

pub proof fn lemma_evened_within(m: Seq<u32>, n: nat, eps: u32, rounds: nat)
    requires
        all_within(m, ONE),
        m.len() == n * n,
        0 < n <= 16,
        0x80_0000 <= eps <= ONE,
    ensures
        evened(m, n, eps, rounds).len() == n * n,
        all_within(evened(m, n, eps, rounds), ONE),
    decreases rounds,
{
    if rounds > 0 {
        let before = evened(m, n, eps, (rounds - 1) as nat);
        lemma_evened_within(m, n, eps, (rounds - 1) as nat);
        assert(all_within(before, TWO));
        lemma_even_rows(before, n, eps);
        let mid = even_rows(before, n, eps);
        assert(all_within(mid, TWO));
        lemma_even_columns(mid, n, eps);
    }
}

} // verus!
