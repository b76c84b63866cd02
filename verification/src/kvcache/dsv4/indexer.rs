//! Sparse selection among compressed rows.
//!
//! Layers that compress four to one keep a second pool of narrower rows. A
//! query is scored against each of them, head by head, and attention then
//! reads only the rows that scored highest.

use crate::float::arith;
use crate::float::arith::{fadd, fdiv, fmul};
use crate::float::fold;
use crate::float::fold::{dot_of, ONE};
use crate::float::function;
use crate::float::order;
use crate::float::order::flt;
use crate::kvcache::dsv4::compressed;
use crate::kvcache::dsv4::compressed::{CompressedKvPool, PoolView};
use crate::kvcache::dsv4::shape::{
    DSV4_N_INDEXER_HEAD, DSV4_N_INDEXER_HEAD_DIM, DSV4_N_INDEXER_TOP_K,
};
use crate::kvcache::Error;
use crate::ranking;
use crate::ranking::pick_highest;
use vstd::prelude::*;

verus! {

/// The number of indexer lanes, 8192, as bits.
pub const LANES: u32 = 0x4600_0000;

/// What the weights of the heads are to be multiplied by: one over the square
/// root of the number of lanes. `sqrt` is the square root.
pub fn scale_factor<F: Fn(u32) -> u32>(sqrt: &F) -> (r: u32)
    requires
        function::total(sqrt),
    ensures
        forall|g: spec_fn(u32) -> u32| #[trigger]
            function::computes(sqrt, g) ==> r == arith::quotient(ONE, g(LANES)),
{
    fdiv(ONE, function::call(sqrt, LANES))
}

/// Head `h` of a query.
pub open spec fn head_of(q: Seq<u32>, h: int) -> Seq<u32> {
    q.subrange(h * DSV4_N_INDEXER_HEAD_DIM, (h + 1) * DSV4_N_INDEXER_HEAD_DIM)
}

/// The score of a row over the first `n` heads: the positive products, each
/// times the weight of its head.
pub open spec fn score(row: Seq<u32>, q: Seq<u32>, weights: Seq<u32>, n: nat) -> u32
    decreases n,
{
    if n == 0 {
        0
    } else {
        let before = score(row, q, weights, (n - 1) as nat);
        let d = fold::dot(row, head_of(q, n - 1), DSV4_N_INDEXER_HEAD_DIM as nat);
        if order::less(0, d) {
            arith::sum(before, arith::product(d, weights[n - 1]))
        } else {
            before
        }
    }
}

/// Row `c` of rows that lie one after another.
pub open spec fn row_of(rows: Seq<u32>, c: int) -> Seq<u32> {
    rows.subrange(c * DSV4_N_INDEXER_HEAD_DIM, (c + 1) * DSV4_N_INDEXER_HEAD_DIM)
}

/// The scores of the first `n` rows.
pub open spec fn scores(rows: Seq<u32>, q: Seq<u32>, weights: Seq<u32>, n: nat) -> Seq<u32> {
    Seq::new(n, |c: int| score(row_of(rows, c), q, weights, DSV4_N_INDEXER_HEAD as nat))
}

/// The rows of the indexer of a layer.
#[derive(Debug)]
pub struct IndexerPool {
    pool: CompressedKvPool,
}

impl View for IndexerPool {
    type V = PoolView;

    closed spec fn view(&self) -> PoolView {
        self.pool@
    }
}

/// The score of a row.
fn score_of(rows: &[u32], c: usize, q: &[u32], weights: &[u32]) -> (s: u32)
    requires
        (c + 1) * DSV4_N_INDEXER_HEAD_DIM <= rows@.len(),
        q@.len() == DSV4_N_INDEXER_HEAD * DSV4_N_INDEXER_HEAD_DIM,
        weights@.len() == DSV4_N_INDEXER_HEAD,
    ensures
        s == score(row_of(rows@, c as int), q@, weights@, DSV4_N_INDEXER_HEAD as nat),
{
    let n: usize = rows.len();
    let mut s: u32 = 0;
    for h in 0..DSV4_N_INDEXER_HEAD
        invariant
            n == rows@.len(),
            (c + 1) * DSV4_N_INDEXER_HEAD_DIM <= n,
            q@.len() == DSV4_N_INDEXER_HEAD * DSV4_N_INDEXER_HEAD_DIM,
            weights@.len() == DSV4_N_INDEXER_HEAD,
            s == score(row_of(rows@, c as int), q@, weights@, h as nat),
    {
        let d: u32 = dot_of(
            rows,
            c * DSV4_N_INDEXER_HEAD_DIM,
            q,
            h * DSV4_N_INDEXER_HEAD_DIM,
            DSV4_N_INDEXER_HEAD_DIM,
        );
        assert(d == fold::dot(
            row_of(rows@, c as int),
            head_of(q@, h as int),
            DSV4_N_INDEXER_HEAD_DIM as nat,
        ));
        if flt(0, d) {
            s = fadd(s, fmul(d, weights[h]));
        }
    }
    s
}

impl IndexerPool {
    /// The rows have the width of an indexer head, one for every four tokens.
    pub closed spec fn wf(&self) -> bool {
        &&& self.pool.wf()
        &&& self.pool@.head_dim == DSV4_N_INDEXER_HEAD_DIM
        &&& self.pool@.ratio == 4
    }

    /// What `wf` says of the view.
    pub proof fn lemma_wf(&self)
        requires
            self.wf(),
        ensures
            self@.head_dim == DSV4_N_INDEXER_HEAD_DIM,
            self@.ratio == 4,
            self@.emitted <= self@.cap,
            self@.rows.len() == self@.emitted * DSV4_N_INDEXER_HEAD_DIM,
            compressed::shaped(self@),
    {
        self.pool.lemma_wf();
    }

    /// An empty indexer for `cap_comp` rows.
    pub fn new(cap_comp: usize, ratio: u32) -> (r: Self)
        requires
            ratio == 4,
        ensures
            r.wf(),
            r@ == compressed::empty_pool(cap_comp as nat, 4, DSV4_N_INDEXER_HEAD_DIM as nat),
    {
        IndexerPool { pool: CompressedKvPool::new(cap_comp, ratio, DSV4_N_INDEXER_HEAD_DIM) }
    }

    /// Number of rows.
    pub fn len(&self) -> (n: usize)
        ensures
            n == self@.emitted,
    {
        self.pool.len()
    }

    /// Whether there is no row.
    pub fn is_empty(&self) -> (r: bool)
        ensures
            r == (self@.emitted == 0),
    {
        self.pool.is_empty()
    }

    /// All rows, oldest first, one after another.
    pub fn rows(&self) -> (r: &[u32])
        ensures
            r@ == self@.rows,
    {
        self.pool.rows()
    }

    /// Takes in a token of the width of an indexer head, as the pool of
    /// compressed rows does.
    pub fn accumulate<F: Fn(u32) -> u32>(&mut self, kv: &[u32], score: &[u32], exp: &F) -> (res: Result<
        Option<usize>,
        Error,
    >)
        requires
            old(self).wf(),
            function::total(exp),
        ensures
            final(self).wf(),
            kv@.len() != DSV4_N_INDEXER_HEAD_DIM ==> {
                &&& final(self)@ == old(self)@
                &&& res == Err::<Option<usize>, Error>(
                    (Error::ShapeMismatch {
                        what: "CompressedKvPool::accumulate: kv",
                        expected: DSV4_N_INDEXER_HEAD_DIM,
                        actual: kv@.len() as usize,
                    }),
                )
            },
            kv@.len() == DSV4_N_INDEXER_HEAD_DIM && score@.len() != DSV4_N_INDEXER_HEAD_DIM ==> {
                &&& final(self)@ == old(self)@
                &&& res == Err::<Option<usize>, Error>(
                    (Error::ShapeMismatch {
                        what: "CompressedKvPool::accumulate: score",
                        expected: DSV4_N_INDEXER_HEAD_DIM,
                        actual: score@.len() as usize,
                    }),
                )
            },
            kv@.len() == DSV4_N_INDEXER_HEAD_DIM && score@.len() == DSV4_N_INDEXER_HEAD_DIM ==> {
                &&& res == old(self)@.answer()
                &&& forall|g: spec_fn(u32) -> u32| #[trigger]
                    function::computes(exp, g) ==> final(self)@ == old(self)@.taken(
                        kv@ + kv@,
                        score@ + score@,
                        g,
                    )
            },
    {
        self.pool.accumulate(kv, score, exp)
    }

    /// Width of a state row.
    pub fn width(&self) -> (n: usize)
        requires
            self.wf(),
        ensures
            n == 2 * DSV4_N_INDEXER_HEAD_DIM,
    {
        self.pool.width()
    }

    /// The pool underneath, for taking in tokens of full width.
    pub fn inner_mut(&mut self) -> (pool: &mut CompressedKvPool)
        requires
            old(self).wf(),
        ensures
            pool.wf(),
            pool@ == old(self)@,
            final(self)@ == final(pool)@,
            final(pool).wf() && final(pool)@.head_dim == DSV4_N_INDEXER_HEAD_DIM
                && final(pool)@.ratio == 4 ==> final(self).wf(),
    {
        &mut self.pool
    }

    /// Drops every row and empties the state.
    pub fn clear(&mut self)
        requires
            old(self).wf(),
        ensures
            final(self).wf(),
            final(self)@ == old(self)@.cleared(),
    {
        self.pool.clear();
    }

    /// Makes the pool stand after `n_tokens` tokens.
    pub fn finish_prefill_state(&mut self, n_tokens: usize)
        requires
            old(self).wf(),
        ensures
            final(self).wf(),
            final(self)@ == old(self)@.finished(n_tokens as nat),
    {
        self.pool.finish_prefill_state(n_tokens);
    }

    /// Scores every row against a query, and lists the `top_k` rows that score
    /// highest, best first; all rows where there are no more than that.
    pub fn select_top_k(&self, q: &[u32], weights: &[u32], top_k: usize) -> (res: Result<
        Vec<u32>,
        Error,
    >)
        requires
            self.wf(),
            self@.emitted <= u32::MAX,
        ensures
            q@.len() != DSV4_N_INDEXER_HEAD * DSV4_N_INDEXER_HEAD_DIM ==> res == Err::<
                Vec<u32>,
                Error,
            >(
                (Error::ShapeMismatch {
                    what: "IndexerPool::select_top_k: q",
                    expected: (DSV4_N_INDEXER_HEAD * DSV4_N_INDEXER_HEAD_DIM) as usize,
                    actual: q@.len() as usize,
                }),
            ),
            q@.len() == DSV4_N_INDEXER_HEAD * DSV4_N_INDEXER_HEAD_DIM && weights@.len()
                != DSV4_N_INDEXER_HEAD ==> res == Err::<Vec<u32>, Error>(
                (Error::ShapeMismatch {
                    what: "IndexerPool::select_top_k: weights",
                    expected: DSV4_N_INDEXER_HEAD,
                    actual: weights@.len() as usize,
                }),
            ),
            q@.len() == DSV4_N_INDEXER_HEAD * DSV4_N_INDEXER_HEAD_DIM && weights@.len()
                == DSV4_N_INDEXER_HEAD ==> {
                &&& res is Ok
                &&& res->Ok_0@.len() == if top_k < self@.emitted {
                    top_k as int
                } else {
                    self@.emitted as int
                }
                &&& ranking::is_selection(scores(self@.rows, q@, weights@, self@.emitted), res->Ok_0@)
            },
    {
        if q.len() != DSV4_N_INDEXER_HEAD * DSV4_N_INDEXER_HEAD_DIM {
            return Err(
                Error::ShapeMismatch {
                    what: "IndexerPool::select_top_k: q",
                    expected: DSV4_N_INDEXER_HEAD * DSV4_N_INDEXER_HEAD_DIM,
                    actual: q.len(),
                },
            );
        }
        if weights.len() != DSV4_N_INDEXER_HEAD {
            return Err(
                Error::ShapeMismatch {
                    what: "IndexerPool::select_top_k: weights",
                    expected: DSV4_N_INDEXER_HEAD,
                    actual: weights.len(),
                },
            );
        }
        proof {
            self.lemma_wf();
        }
        let n_comp: usize = self.pool.len();
        let k: usize = if top_k < n_comp {
            top_k
        } else {
            n_comp
        };
        let rows: &[u32] = self.pool.rows();
        let mut found: Vec<u32> = Vec::new();
        for c in 0..n_comp
            invariant
                rows@.len() == n_comp * DSV4_N_INDEXER_HEAD_DIM,
                q@.len() == DSV4_N_INDEXER_HEAD * DSV4_N_INDEXER_HEAD_DIM,
                weights@.len() == DSV4_N_INDEXER_HEAD,
                found@.len() == c,
                forall|d: int|
                    0 <= d < c ==> #[trigger] found@[d] == score(
                        row_of(rows@, d),
                        q@,
                        weights@,
                        DSV4_N_INDEXER_HEAD as nat,
                    ),
        {
            found.push(score_of(rows, c, q, weights));
        }
        assert(found@ =~= scores(self@.rows, q@, weights@, self@.emitted));
        Ok(pick_highest(found.as_slice(), k))
    }

    /// The usual number of rows to select.
    pub fn default_top_k() -> (n: usize)
        ensures
            n == DSV4_N_INDEXER_TOP_K,
    {
        DSV4_N_INDEXER_TOP_K
    }
}

} // verus!
