//! Pool of compressed key/value rows.
//!
//! A pool gathers the rows of `ratio` tokens and then emits one compressed row
//! for them: in each column the values, weighted by a softmax over that
//! column's scores.
//!
//! With a ratio of four, a state row has two lanes and the state has two
//! halves. A token goes to the upper half. The compressed row reads the first
//! lane of the lower half, which holds the tokens of the window before, and the
//! second lane of the upper half. After that the upper half moves down, so that
//! consecutive windows overlap. With any other ratio there is one lane and one
//! half, and the state starts empty again.

use crate::buffer::{copied, filled};
use crate::float::arith;
use crate::float::arith::{fadd, fdiv, fmul};
use crate::float::fold;
use crate::float::fold::{highest_of, lower, NEG_INF};
use crate::float::function;
use crate::float::order;
use crate::float::order::{fle, flt};
use crate::float::weights;
use crate::kvcache::dsv4::shape::DSV4_HEAD_DIM;
use crate::kvcache::Error;
use vstd::prelude::*;

verus! {

/// Number of lanes of a state row, and of halves of the state.
pub open spec fn lanes(ratio: nat) -> nat {
    if ratio == 4 {
        2
    } else {
        1
    }
}

/// How many state rows there are.
pub proof fn lemma_state_rows(ratio: nat)
    ensures
        lanes(ratio) * ratio == if ratio == 4 {
            8
        } else {
            ratio as int
        },
{
    assert(lanes(ratio) * ratio == if ratio == 4 {
        8
    } else {
        ratio as int
    }) by (nonlinear_arith)
        requires
            ratio == 4 ==> lanes(ratio) == 2,
            ratio != 4 ==> lanes(ratio) == 1,
    ;
}

/// The column `j` of the slots that a compressed row reads, in the order in
/// which they are read. With two lanes the slots come in pairs, the earlier
/// window's first.
pub open spec fn column(state: Seq<Seq<u32>>, ratio: nat, head_dim: nat, j: int) -> Seq<u32> {
    if lanes(ratio) == 2 {
        Seq::new(
            2 * ratio,
            |k: int|
                if k % 2 == 0 {
                    state[k / 2][j]
                } else {
                    state[ratio + k / 2][head_dim + j]
                },
        )
    } else {
        Seq::new(ratio, |k: int| state[k][j])
    }
}

/// The terms added up, in groups of `group`.
pub open spec fn total_of(terms: Seq<u32>, group: nat, n: nat) -> u32
    decreases n,
{
    if n == 0 {
        0
    } else if group == 2 {
        arith::sum(
            total_of(terms, group, (n - 1) as nat),
            arith::sum(terms[2 * n - 2], terms[2 * n - 1]),
        )
    } else {
        arith::sum(total_of(terms, group, (n - 1) as nat), terms[n - 1])
    }
}

/// Each value times its weight.
pub open spec fn weighted(values: Seq<u32>, weights: Seq<u32>) -> Seq<u32> {
    Seq::new(values.len(), |k: int| arith::product(weights[k], values[k]))
}

/// The mean of the values under the weights; zero where the weights add up to
/// nothing above zero. `ratio` groups of `group` terms are added up.
pub open spec fn mean(values: Seq<u32>, weights: Seq<u32>, group: nat, ratio: nat) -> u32 {
    let denom = total_of(weights, group, ratio);
    if order::less(0, denom) {
        arith::quotient(total_of(weighted(values, weights), group, ratio), denom)
    } else {
        0
    }
}

/// The mean of a column of values, weighted by the softmax of its scores; zero
/// where no slot has been filled; such slots score minus infinity.
pub open spec fn pooled(
    values: Seq<u32>,
    scores: Seq<u32>,
    group: nat,
    ratio: nat,
    exp: spec_fn(u32) -> u32,
) -> u32 {
    let top = fold::highest(scores, NEG_INF);
    if order::at_most(top, NEG_INF) {
        0
    } else {
        mean(values, weights::of_scores(scores, top, exp), group, ratio)
    }
}

/// What a pool holds.
#[verifier::ext_equal]
pub struct PoolView {
    /// The compressed rows, oldest first, one after another.
    pub rows: Seq<u32>,
    /// Number of compressed rows.
    pub emitted: nat,
    /// Most compressed rows the pool holds.
    pub cap: nat,
    /// Number of tokens of a window.
    pub ratio: nat,
    /// Width of a compressed row.
    pub head_dim: nat,
    /// Number of tokens of the current window so far.
    pub count: nat,
    /// State rows: values.
    pub kv: Seq<Seq<u32>>,
    /// State rows: scores.
    pub score: Seq<Seq<u32>>,
}

impl PoolView {
    /// Width of a state row.
    pub open spec fn width(self) -> nat {
        lanes(self.ratio) * self.head_dim
    }

    /// Number of state rows.
    pub open spec fn state_rows(self) -> nat {
        lanes(self.ratio) * self.ratio
    }

    /// A state row of `v`.
    pub open spec fn filled(self, v: u32) -> Seq<u32> {
        Seq::new(self.width(), |i: int| v)
    }

    /// The state row that the next token goes to.
    pub open spec fn slot(self) -> int {
        if lanes(self.ratio) == 2 {
            (self.ratio + self.count) as int
        } else {
            self.count as int
        }
    }

    /// The pool with a token written to its slot, but not yet counted.
    pub open spec fn written(self, kv: Seq<u32>, score: Seq<u32>) -> PoolView {
        PoolView {
            kv: self.kv.update(self.slot(), kv),
            score: self.score.update(self.slot(), score),
            ..self
        }
    }

    /// The compressed row of the current state.
    pub open spec fn summary(self, exp: spec_fn(u32) -> u32) -> Seq<u32> {
        Seq::new(
            self.head_dim,
            |j: int|
                pooled(
                    column(self.kv, self.ratio, self.head_dim, j),
                    column(self.score, self.ratio, self.head_dim, j),
                    lanes(self.ratio),
                    self.ratio,
                    exp,
                ),
        )
    }

    /// The pool after its window was closed: with two halves the upper one is
    /// now in both, with one half the state is empty.
    pub open spec fn restarted(self) -> PoolView {
        if lanes(self.ratio) == 2 {
            PoolView {
                count: 0,
                kv: Seq::new(
                    self.kv.len(),
                    |r: int| self.kv[self.ratio + r % (self.ratio as int)],
                ),
                score: Seq::new(
                    self.score.len(),
                    |r: int| self.score[self.ratio + r % (self.ratio as int)],
                ),
                ..self
            }
        } else {
            self.blank()
        }
    }

    /// The pool with an empty state.
    pub open spec fn blank(self) -> PoolView {
        PoolView {
            count: 0,
            kv: Seq::new(self.state_rows(), |r: int| self.filled(0)),
            score: Seq::new(self.state_rows(), |r: int| self.filled(NEG_INF)),
            ..self
        }
    }

    /// The pool with a compressed row added.
    pub open spec fn extended(self, row: Seq<u32>) -> PoolView {
        PoolView { rows: self.rows + row, emitted: self.emitted + 1, ..self }
    }

    /// The pool after a token of full width.
    pub open spec fn taken(self, kv: Seq<u32>, score: Seq<u32>, exp: spec_fn(u32) -> u32) -> PoolView {
        let w = self.written(kv, score);
        if self.count + 1 < self.ratio {
            PoolView { count: self.count + 1, ..w }
        } else if self.emitted >= self.cap {
            w
        } else {
            w.extended(w.summary(exp)).restarted()
        }
    }

    /// What taking a token answers: the index of the row that it completed.
    pub open spec fn answer(self) -> Result<Option<usize>, Error> {
        if self.count + 1 < self.ratio {
            Ok(None)
        } else if self.emitted >= self.cap {
            Err((Error::CompressedPoolFull { cap: self.cap as usize }))
        } else {
            Ok(Some(self.emitted as usize))
        }
    }

    /// A narrow row, once for each lane.
    pub open spec fn widened(self, row: Seq<u32>) -> Seq<u32> {
        if lanes(self.ratio) == 2 {
            row + row
        } else {
            row
        }
    }

    /// First state row that a window of `rem` tokens leaves unused.
    pub open spec fn unused_from(self, rem: nat) -> nat {
        if lanes(self.ratio) == 2 {
            self.ratio + rem
        } else {
            rem
        }
    }

    /// The pool made to stand after `n_tokens` tokens: the state rows that the
    /// current window has not reached are empty.
    pub open spec fn finished(self, n_tokens: nat) -> PoolView {
        let rem = n_tokens % self.ratio;
        PoolView {
            count: rem,
            kv: Seq::new(
                self.kv.len(),
                |r: int|
                    if r >= self.unused_from(rem) {
                        self.filled(0)
                    } else {
                        self.kv[r]
                    },
            ),
            score: Seq::new(
                self.score.len(),
                |r: int|
                    if r >= self.unused_from(rem) {
                        self.filled(NEG_INF)
                    } else {
                        self.score[r]
                    },
            ),
            ..self
        }
    }

    /// The pool without rows and with an empty state.
    pub open spec fn cleared(self) -> PoolView {
        PoolView { rows: seq![], emitted: 0, ..self.blank() }
    }
}

/// A pool without rows and with an empty state.
pub open spec fn empty_pool(cap: nat, ratio: nat, head_dim: nat) -> PoolView {
    PoolView {
        rows: seq![],
        emitted: 0,
        cap,
        ratio,
        head_dim,
        count: 0,
        kv: seq![],
        score: seq![],
    }.blank()
}

/// Pool of compressed rows, with the state of the window in progress.
#[derive(Debug)]
pub struct CompressedKvPool {
    compressed: Vec<u32>,
    state_kv: Vec<Vec<u32>>,
    state_score: Vec<Vec<u32>>,
    n_comp: usize,
    cap_comp: usize,
    state_count: u32,
    ratio: u32,
    head_dim: usize,
    coff: usize,
    width: usize,
}

/// The rows of a vector of vectors.
pub open spec fn rows_of(state: Seq<Vec<u32>>) -> Seq<Seq<u32>> {
    Seq::new(state.len(), |r: int| state[r]@)
}

impl View for CompressedKvPool {
    type V = PoolView;

    closed spec fn view(&self) -> PoolView {
        PoolView {
            rows: self.compressed@,
            emitted: self.n_comp as nat,
            cap: self.cap_comp as nat,
            ratio: self.ratio as nat,
            head_dim: self.head_dim as nat,
            count: self.state_count as nat,
            kv: rows_of(self.state_kv@),
            score: rows_of(self.state_score@),
        }
    }
}

/// `n` rows, each of `width` times `v`.
fn filled_rows(n: usize, width: usize, v: u32) -> (rows: Vec<Vec<u32>>)
    ensures
        rows_of(rows@) == Seq::new(n as nat, |r: int| Seq::new(width as nat, |i: int| v)),
{
    let mut rows: Vec<Vec<u32>> = Vec::new();
    for r in 0..n
        invariant
            rows@.len() == r,
            forall|k: int| 0 <= k < r ==> #[trigger] rows@[k]@ =~= Seq::new(width as nat, |i: int| v),
    {
        let row: Vec<u32> = filled(width, v);
        rows.push(row);
    }
    assert(rows_of(rows@) =~= Seq::new(n as nat, |r: int| Seq::new(width as nat, |i: int| v)));
    rows
}

/// The terms added up, in `ratio` groups of `group`.
fn add_up(terms: &[u32], group: usize, ratio: usize) -> (t: u32)
    requires
        group == 1 || group == 2,
        group * ratio <= terms@.len(),
    ensures
        t == total_of(terms@, group as nat, ratio as nat),
{
    let len: usize = terms.len();
    let mut t: u32 = 0;
    for r in 0..ratio
        invariant
            len == terms@.len(),
            group == 1 || group == 2,
            group * ratio <= len,
            t == total_of(terms@, group as nat, r as nat),
    {
        if group == 2 {
            t = fadd(t, fadd(terms[2 * r], terms[2 * r + 1]));
        } else {
            t = fadd(t, terms[r]);
        }
    }
    t
}

/// The mean of the values under given weights.
pub fn weighted_mean(values: &[u32], weights: &[u32], group: usize, ratio: usize) -> (m: u32)
    requires
        group == 1 || group == 2,
        values@.len() == weights@.len(),
        values@.len() == group * ratio,
    ensures
        m == mean(values@, weights@, group as nat, ratio as nat),
{
    let denom: u32 = add_up(weights, group, ratio);
    let mut terms: Vec<u32> = Vec::new();
    let n: usize = values.len();
    for k in 0..n
        invariant
            n == values@.len(),
            n == weights@.len(),
            terms@.len() == k,
            forall|i: int| 0 <= i < k ==> #[trigger] terms@[i] == arith::product(weights@[i], values@[i]),
    {
        terms.push(fmul(weights[k], values[k]));
    }
    assert(terms@ =~= weighted(values@, weights@));
    let numer: u32 = add_up(terms.as_slice(), group, ratio);
    if flt(0, denom) {
        fdiv(numer, denom)
    } else {
        0
    }
}

/// The softmax-weighted mean of one column.
fn pool_column<F: Fn(u32) -> u32>(
    values: &[u32],
    scores: &[u32],
    group: usize,
    ratio: usize,
    exp: &F,
) -> (m: u32)
    requires
        function::total(exp),
        group == 1 || group == 2,
        values@.len() == scores@.len(),
        values@.len() == group * ratio,
    ensures
        forall|g: spec_fn(u32) -> u32|
            #[trigger] function::computes(exp, g) ==> m == pooled(
                values@,
                scores@,
                group as nat,
                ratio as nat,
                g,
            ),
{
    let top: u32 = highest_of(scores, NEG_INF);
    if fle(top, NEG_INF) {
        return 0;
    }
    let below: Vec<u32> = lower(scores, top);
    let weights: Vec<u32> = function::apply(exp, below.as_slice());
    weighted_mean(values, weights.as_slice(), group, ratio)
}

/// Column `j` of the slots that a compressed row reads.
fn column_of(state: &Vec<Vec<u32>>, ratio: usize, head_dim: usize, j: usize) -> (c: Vec<u32>)
    requires
        0 < ratio,
        j < head_dim,
        state@.len() == lanes(ratio as nat) * ratio,
        forall|r: int|
            0 <= r < state@.len() ==> #[trigger] state@[r]@.len() == lanes(ratio as nat) * head_dim,
    ensures
        c@ == column(rows_of(state@), ratio as nat, head_dim as nat, j as int),
{
    let mut c: Vec<u32> = Vec::new();
    let ghost want = column(rows_of(state@), ratio as nat, head_dim as nat, j as int);
    let n: usize = state.len();
    if ratio == 4 {
        for r in 0..ratio
            invariant
                ratio == 4,
                n == state@.len(),
                n == 8,
                j < head_dim,
                forall|r: int| 0 <= r < n ==> #[trigger] state@[r]@.len() == 2 * head_dim,
                want == column(rows_of(state@), ratio as nat, head_dim as nat, j as int),
                c@ =~= want.take(2 * r),
        {
            let low: &Vec<u32> = &state[r];
            let high: &Vec<u32> = &state[ratio + r];
            let len: usize = high.len();
            c.push(low[j]);
            assert(want[2 * r] == low@[j as int]);
            c.push(high[head_dim + j]);
            assert(want[2 * r + 1] == high@[head_dim + j]);
        }
    } else {
        for r in 0..ratio
            invariant
                ratio != 4,
                n == state@.len(),
                n == ratio,
                j < head_dim,
                forall|r: int| 0 <= r < n ==> #[trigger] state@[r]@.len() == head_dim,
                want == column(rows_of(state@), ratio as nat, head_dim as nat, j as int),
                c@ =~= want.take(r as int),
        {
            let row: &Vec<u32> = &state[r];
            c.push(row[j]);
        }
    }
    assert(want.take(want.len() as int) =~= want);
    c
}

/// The compressed row of a state.
fn per_dim_softmax_aggregate<F: Fn(u32) -> u32>(
    state_kv: &Vec<Vec<u32>>,
    state_score: &Vec<Vec<u32>>,
    ratio: usize,
    head_dim: usize,
    exp: &F,
) -> (out: Vec<u32>)
    requires
        function::total(exp),
        0 < ratio,
        state_kv@.len() == lanes(ratio as nat) * ratio,
        state_score@.len() == lanes(ratio as nat) * ratio,
        forall|r: int|
            0 <= r < state_kv@.len() ==> #[trigger] state_kv@[r]@.len() == lanes(ratio as nat)
                * head_dim,
        forall|r: int|
            0 <= r < state_score@.len() ==> #[trigger] state_score@[r]@.len() == lanes(ratio as nat)
                * head_dim,
    ensures
        out@.len() == head_dim,
        forall|g: spec_fn(u32) -> u32| #[trigger]
            function::computes(exp, g) ==> forall|j: int|
                0 <= j < head_dim ==> #[trigger] out@[j] == pooled(
                    column(rows_of(state_kv@), ratio as nat, head_dim as nat, j),
                    column(rows_of(state_score@), ratio as nat, head_dim as nat, j),
                    lanes(ratio as nat),
                    ratio as nat,
                    g,
                ),
{
    let group: usize = if ratio == 4 {
        2
    } else {
        1
    };
    let n: usize = state_kv.len();
    let mut out: Vec<u32> = Vec::new();
    for j in 0..head_dim
        invariant
            function::total(exp),
            0 < ratio,
            group == lanes(ratio as nat),
            n == group * ratio,
            state_kv@.len() == n,
            state_score@.len() == n,
            forall|r: int|
                0 <= r < state_kv@.len() ==> #[trigger] state_kv@[r]@.len() == lanes(ratio as nat)
                    * head_dim,
            forall|r: int|
                0 <= r < state_score@.len() ==> #[trigger] state_score@[r]@.len() == lanes(
                    ratio as nat,
                ) * head_dim,
            out@.len() == j,
            forall|g: spec_fn(u32) -> u32| #[trigger]
                function::computes(exp, g) ==> forall|i: int|
                    0 <= i < j ==> #[trigger] out@[i] == pooled(
                        column(rows_of(state_kv@), ratio as nat, head_dim as nat, i),
                        column(rows_of(state_score@), ratio as nat, head_dim as nat, i),
                        lanes(ratio as nat),
                        ratio as nat,
                        g,
                    ),
    {
        let values: Vec<u32> = column_of(state_kv, ratio, head_dim, j);
        let scores: Vec<u32> = column_of(state_score, ratio, head_dim, j);
        let m: u32 = pool_column(values.as_slice(), scores.as_slice(), group, ratio, exp);
        out.push(m);
    }
    out
}

impl CompressedKvPool {
    /// The sizes of the buffers fit together, and a window that is complete has
    /// been closed.
    pub closed spec fn wf(&self) -> bool {
        &&& 0 < self.ratio
        &&& 0 < self.head_dim
        &&& self.coff == lanes(self.ratio as nat)
        &&& self.width == self.coff * self.head_dim
        &&& self.n_comp <= self.cap_comp
        &&& self.compressed@.len() == self.n_comp * self.head_dim
        &&& self.state_count < self.ratio
        &&& self.state_kv@.len() == self.coff * self.ratio
        &&& self.state_score@.len() == self.coff * self.ratio
        &&& forall|r: int|
            0 <= r < self.state_kv@.len() ==> #[trigger] self.state_kv@[r]@.len() == self.width
        &&& forall|r: int|
            0 <= r < self.state_score@.len() ==> #[trigger] self.state_score@[r]@.len() == self.width
    }

    /// What `wf` says of the view.
    pub proof fn lemma_wf(&self)
        requires
            self.wf(),
        ensures
            0 < self@.ratio,
            0 < self@.head_dim,
            self@.emitted <= self@.cap,
            self@.rows.len() == self@.emitted * self@.head_dim,
            self@.count < self@.ratio,
            self@.kv.len() == self@.state_rows(),
            self@.score.len() == self@.state_rows(),
            forall|r: int|
                0 <= r < self@.state_rows() ==> #[trigger] self@.kv[r].len() == self@.width(),
            forall|r: int|
                0 <= r < self@.state_rows() ==> #[trigger] self@.score[r].len() == self@.width(),
    {
    }

    /// An empty pool for `cap_comp` compressed rows of width `head_dim`, one
    /// for every `ratio` tokens.
    pub fn new(cap_comp: usize, ratio: u32, head_dim: usize) -> (r: Self)
        requires
            0 < ratio,
            0 < head_dim,
            lanes(ratio as nat) * head_dim <= usize::MAX,
        ensures
            r.wf(),
            r@ == empty_pool(cap_comp as nat, ratio as nat, head_dim as nat),
    {
        let coff: usize = if ratio == 4 {
            2
        } else {
            1
        };
        let width: usize = coff * head_dim;
        let state_rows: usize = coff * ratio as usize;
        let state_kv: Vec<Vec<u32>> = filled_rows(state_rows, width, 0);
        let state_score: Vec<Vec<u32>> = filled_rows(state_rows, width, NEG_INF);
        let r = CompressedKvPool {
            compressed: Vec::new(),
            state_kv,
            state_score,
            n_comp: 0,
            cap_comp,
            state_count: 0,
            ratio,
            head_dim,
            coff,
            width,
        };
        proof {
            let want = empty_pool(cap_comp as nat, ratio as nat, head_dim as nat);
            assert(rows_of(r.state_kv@) =~= want.kv);
            assert(rows_of(r.state_score@) =~= want.score);
            assert(r.compressed@ =~= want.rows);
            assert forall|k: int| 0 <= k < r.state_kv@.len() implies #[trigger] r.state_kv@[k]@.len()
                == r.width by {
                assert(rows_of(r.state_kv@)[k] == r.state_kv@[k]@);
            }
            assert forall|k: int| 0 <= k < r.state_score@.len() implies #[trigger] r.state_score@[k]@.len()
                == r.width by {
                assert(rows_of(r.state_score@)[k] == r.state_score@[k]@);
            }
        }
        r
    }

    /// An empty pool of rows of width 512.
    pub fn with_dsv4_attn(cap_comp: usize, ratio: u32) -> (r: Self)
        requires
            0 < ratio,
        ensures
            r.wf(),
            r@ == empty_pool(cap_comp as nat, ratio as nat, DSV4_HEAD_DIM as nat),
    {
        Self::new(cap_comp, ratio, DSV4_HEAD_DIM)
    }

    /// Number of compressed rows.
    pub fn len(&self) -> (n: usize)
        ensures
            n == self@.emitted,
    {
        self.n_comp
    }

    /// Whether there is no compressed row.
    pub fn is_empty(&self) -> (r: bool)
        ensures
            r == (self@.emitted == 0),
    {
        self.n_comp == 0
    }

    /// Most compressed rows the pool holds.
    pub fn capacity(&self) -> (n: usize)
        ensures
            n == self@.cap,
    {
        self.cap_comp
    }

    /// Number of tokens of a window.
    pub fn ratio(&self) -> (n: u32)
        ensures
            n == self@.ratio,
    {
        self.ratio
    }

    /// Width of a compressed row.
    pub fn head_dim(&self) -> (n: usize)
        ensures
            n == self@.head_dim,
    {
        self.head_dim
    }

    /// Number of tokens of the current window so far.
    pub fn state_count(&self) -> (n: u32)
        ensures
            n == self@.count,
    {
        self.state_count
    }

    /// Number of lanes of a state row.
    pub fn coff(&self) -> (n: usize)
        requires
            self.wf(),
        ensures
            n == lanes(self@.ratio),
    {
        self.coff
    }

    /// Width of a state row.
    pub fn width(&self) -> (n: usize)
        requires
            self.wf(),
        ensures
            n == self@.width(),
    {
        self.width
    }

    /// All compressed rows, oldest first, one after another.
    pub fn rows(&self) -> (r: &[u32])
        ensures
            r@ == self@.rows,
    {
        self.compressed.as_slice()
    }

    /// Takes in a token of width `head_dim`, the same for every lane. Answers
    /// with the index of the compressed row that it completed, if any.
    pub fn accumulate<F: Fn(u32) -> u32>(&mut self, kv: &[u32], score: &[u32], exp: &F) -> (res: Result<
        Option<usize>,
        Error,
    >)
        requires
            old(self).wf(),
            function::total(exp),
        ensures
            final(self).wf(),
            final(self)@.cap == old(self)@.cap,
            final(self)@.ratio == old(self)@.ratio,
            final(self)@.head_dim == old(self)@.head_dim,
            kv@.len() != old(self)@.head_dim ==> {
                &&& final(self)@ == old(self)@
                &&& res == Err::<Option<usize>, Error>(
                    (Error::ShapeMismatch {
                        what: "CompressedKvPool::accumulate: kv",
                        expected: old(self)@.head_dim as usize,
                        actual: kv@.len() as usize,
                    }),
                )
            },
            kv@.len() == old(self)@.head_dim && score@.len() != old(self)@.head_dim ==> {
                &&& final(self)@ == old(self)@
                &&& res == Err::<Option<usize>, Error>(
                    (Error::ShapeMismatch {
                        what: "CompressedKvPool::accumulate: score",
                        expected: old(self)@.head_dim as usize,
                        actual: score@.len() as usize,
                    }),
                )
            },
            kv@.len() == old(self)@.head_dim && score@.len() == old(self)@.head_dim ==> {
                &&& res == old(self)@.answer()
                &&& forall|g: spec_fn(u32) -> u32| #[trigger]
                    function::computes(exp, g) ==> final(self)@ == old(self)@.taken(
                        old(self)@.widened(kv@),
                        old(self)@.widened(score@),
                        g,
                    )
            },
    {
        if kv.len() != self.head_dim {
            return Err(
                Error::ShapeMismatch {
                    what: "CompressedKvPool::accumulate: kv",
                    expected: self.head_dim,
                    actual: kv.len(),
                },
            );
        }
        if score.len() != self.head_dim {
            return Err(
                Error::ShapeMismatch {
                    what: "CompressedKvPool::accumulate: score",
                    expected: self.head_dim,
                    actual: score.len(),
                },
            );
        }
        let mut wide_kv: Vec<u32> = copied(kv);
        let mut wide_score: Vec<u32> = copied(score);
        if self.coff == 2 {
            wide_kv.extend_from_slice(kv);
            wide_score.extend_from_slice(score);
        }
        assert(wide_kv@ =~= self@.widened(kv@));
        assert(wide_score@ =~= self@.widened(score@));
        assert(self.coff == 1 || self.coff == 2);
        assert(1 * self.head_dim == self.head_dim && 2 * self.head_dim == self.head_dim
            + self.head_dim);
        assert(wide_kv@.len() == self.coff * self.head_dim);
        self.take(wide_kv, wide_score, exp)
    }

    /// Takes in a token of the width of a state row. Answers with the index of
    /// the compressed row that it completed, if any. That row is the plain
    /// mean; the caller normalises and rotates it through `compressed_row_mut`.
    pub fn accumulate_wide<F: Fn(u32) -> u32>(&mut self, kv: &[u32], score: &[u32], exp: &F) -> (res:
        Result<Option<usize>, Error>)
        requires
            old(self).wf(),
            function::total(exp),
        ensures
            final(self).wf(),
            final(self)@.cap == old(self)@.cap,
            final(self)@.ratio == old(self)@.ratio,
            final(self)@.head_dim == old(self)@.head_dim,
            kv@.len() != old(self)@.width() ==> {
                &&& final(self)@ == old(self)@
                &&& res == Err::<Option<usize>, Error>(
                    (Error::ShapeMismatch {
                        what: "CompressedKvPool::accumulate_wide: kv",
                        expected: old(self)@.width() as usize,
                        actual: kv@.len() as usize,
                    }),
                )
            },
            kv@.len() == old(self)@.width() && score@.len() != old(self)@.width() ==> {
                &&& final(self)@ == old(self)@
                &&& res == Err::<Option<usize>, Error>(
                    (Error::ShapeMismatch {
                        what: "CompressedKvPool::accumulate_wide: score",
                        expected: old(self)@.width() as usize,
                        actual: score@.len() as usize,
                    }),
                )
            },
            kv@.len() == old(self)@.width() && score@.len() == old(self)@.width() ==> {
                &&& res == old(self)@.answer()
                &&& forall|g: spec_fn(u32) -> u32| #[trigger]
                    function::computes(exp, g) ==> final(self)@ == old(self)@.taken(kv@, score@, g)
            },
    {
        if kv.len() != self.width {
            return Err(
                Error::ShapeMismatch {
                    what: "CompressedKvPool::accumulate_wide: kv",
                    expected: self.width,
                    actual: kv.len(),
                },
            );
        }
        if score.len() != self.width {
            return Err(
                Error::ShapeMismatch {
                    what: "CompressedKvPool::accumulate_wide: score",
                    expected: self.width,
                    actual: score.len(),
                },
            );
        }
        self.take(copied(kv), copied(score), exp)
    }

    /// Takes in a token of the width of a state row.
    fn take<F: Fn(u32) -> u32>(&mut self, kv: Vec<u32>, score: Vec<u32>, exp: &F) -> (res: Result<
        Option<usize>,
        Error,
    >)
        requires
            old(self).wf(),
            function::total(exp),
            kv@.len() == old(self)@.width(),
            score@.len() == old(self)@.width(),
        ensures
            final(self).wf(),
            final(self)@.cap == old(self)@.cap,
            final(self)@.ratio == old(self)@.ratio,
            final(self)@.head_dim == old(self)@.head_dim,
            res == old(self)@.answer(),
            forall|g: spec_fn(u32) -> u32| #[trigger]
                function::computes(exp, g) ==> final(self)@ == old(self)@.taken(kv@, score@, g),
    {
        let slot: usize = self.state_count as usize;
        let row: usize = if self.coff == 2 {
            self.ratio as usize + slot
        } else {
            slot
        };
        proof {
            lemma_state_rows(self.ratio as nat);
        }
        let ghost kv_view = kv@;
        let ghost score_view = score@;
        self.state_kv.set(row, kv);
        self.state_score.set(row, score);
        assert(self@ =~= old(self)@.written(kv_view, score_view));
        self.maybe_emit(exp)
    }

    /// Counts the token just written, and closes the window if it is complete.
    fn maybe_emit<F: Fn(u32) -> u32>(&mut self, exp: &F) -> (res: Result<Option<usize>, Error>)
        requires
            old(self).wf(),
            function::total(exp),
        ensures
            final(self).wf(),
            final(self)@.cap == old(self)@.cap,
            final(self)@.ratio == old(self)@.ratio,
            final(self)@.head_dim == old(self)@.head_dim,
            res == old(self)@.answer(),
            old(self)@.count + 1 < old(self)@.ratio ==> final(self)@ == (PoolView {
                count: old(self)@.count + 1,
                ..old(self)@
            }),
            old(self)@.count + 1 == old(self)@.ratio && old(self)@.emitted >= old(self)@.cap
                ==> final(self)@ == old(self)@,
            old(self)@.count + 1 == old(self)@.ratio && old(self)@.emitted < old(self)@.cap ==> {
                forall|g: spec_fn(u32) -> u32| #[trigger]
                    function::computes(exp, g) ==> final(self)@ == old(self)@.extended(
                        old(self)@.summary(g),
                    ).restarted()
            },
    {
        let ghost before = self@;
        if self.state_count + 1 < self.ratio {
            self.state_count = self.state_count + 1;
            assert(self@ =~= (PoolView { count: before.count + 1, ..before }));
            return Ok(None);
        }
        if self.n_comp >= self.cap_comp {
            return Err(Error::CompressedPoolFull { cap: self.cap_comp });
        }
        let out: Vec<u32> = per_dim_softmax_aggregate(
            &self.state_kv,
            &self.state_score,
            self.ratio as usize,
            self.head_dim,
            exp,
        );
        assert((self.n_comp + 1) * self.head_dim == self.n_comp * self.head_dim + self.head_dim)
            by (nonlinear_arith);
        let ghost flat = self.compressed@;
        self.compressed.extend_from_slice(out.as_slice());
        assert(self.compressed@ =~= flat + out@);
        let emitted: usize = self.n_comp;
        self.n_comp = self.n_comp + 1;
        let ghost grown = self@;
        assert(grown =~= before.extended(out@));
        assert forall|g: spec_fn(u32) -> u32| #[trigger] function::computes(exp, g) implies out@
            == before.summary(g) by {
            assert(out@ =~= before.summary(g));
        }
        if self.coff == 2 {
            rotate(&mut self.state_kv, 4);
            rotate(&mut self.state_score, 4);
            self.state_count = 0;
            assert(self@ =~= grown.restarted());
        } else {
            self.reset_state();
            assert(self@ =~= grown.restarted());
        }
        Ok(Some(emitted))
    }

    /// Empties the state.
    fn reset_state(&mut self)
        requires
            old(self).wf(),
        ensures
            final(self).wf(),
            final(self)@ == old(self)@.blank(),
    {
        let rows: usize = self.state_kv.len();
        let width: usize = self.width;
        self.state_kv = filled_rows(rows, width, 0);
        self.state_score = filled_rows(rows, width, NEG_INF);
        self.state_count = 0;
        proof {
            let row = |v: u32| Seq::new(width as nat, |i: int| v);
            assert(rows_of(self.state_kv@) =~= Seq::new(rows as nat, |r: int| row(0)));
            assert(rows_of(self.state_score@) =~= Seq::new(rows as nat, |r: int| row(NEG_INF)));
            assert(self@ =~= old(self)@.blank());
            assert forall|k: int| 0 <= k < self.state_kv@.len() implies #[trigger] self.state_kv@[k]@.len()
                == self.width by {
                assert(rows_of(self.state_kv@)[k] == self.state_kv@[k]@);
            }
            assert forall|k: int|
                0 <= k < self.state_score@.len() implies #[trigger] self.state_score@[k]@.len()
                == self.width by {
                assert(rows_of(self.state_score@)[k] == self.state_score@[k]@);
            }
        }
    }

    /// A compressed row, for normalising and rotating it in place.
    pub fn compressed_row_mut(&mut self, idx: usize) -> (row: &mut [u32])
        requires
            old(self).wf(),
            idx < old(self)@.emitted,
        ensures
            row@ == old(self)@.rows.subrange(
                idx * old(self)@.head_dim,
                (idx + 1) * old(self)@.head_dim,
            ),
            final(row)@.len() == row@.len() ==> {
                &&& final(self).wf()
                &&& final(self)@ == (PoolView {
                    rows: old(self)@.rows.take(idx * old(self)@.head_dim) + final(row)@
                        + old(self)@.rows.skip((idx + 1) * old(self)@.head_dim),
                    ..old(self)@
                })
            },
    {
        assert((idx + 1) * self.head_dim <= self.n_comp * self.head_dim) by (nonlinear_arith)
            requires
                idx + 1 <= self.n_comp,
        ;
        assert((idx + 1) * self.head_dim == idx * self.head_dim + self.head_dim) by (nonlinear_arith);
        assert(idx * self.head_dim >= 0) by (nonlinear_arith);
        let len: usize = self.compressed.len();
        let dim: usize = self.head_dim;
        let off: usize = idx * dim;
        let (front, tail) = self.compressed.as_mut_slice().split_at_mut(off);
        let (row, back) = tail.split_at_mut(dim);
        row
    }

    /// Makes the pool stand after `n_tokens` tokens: empties the state rows
    /// that the current window has not reached.
    pub fn finish_prefill_state(&mut self, n_tokens: usize)
        requires
            old(self).wf(),
        ensures
            final(self).wf(),
            final(self)@ == old(self)@.finished(n_tokens as nat),
    {
        let r: usize = self.ratio as usize;
        let rem: usize = n_tokens % r;
        let rows: usize = self.state_kv.len();
        let from: usize = if self.coff == 2 {
            r + rem
        } else {
            rem
        };
        let ghost before = *self;
        proof {
            lemma_state_rows(self.ratio as nat);
        }
        for row in from..rows
            invariant
                before.wf(),
                from <= rows,
                rows == before.state_kv@.len(),
                rows == before.state_score@.len(),
                self.compressed@ == before.compressed@,
                self.n_comp == before.n_comp,
                self.cap_comp == before.cap_comp,
                self.state_count == before.state_count,
                self.ratio == before.ratio,
                self.head_dim == before.head_dim,
                self.coff == before.coff,
                self.width == before.width,
                self.state_kv@.len() == rows,
                self.state_score@.len() == rows,
                forall|k: int|
                    0 <= k < rows ==> #[trigger] self.state_kv@[k]@ == if from <= k < row {
                        Seq::new(self.width as nat, |i: int| 0u32)
                    } else {
                        before.state_kv@[k]@
                    },
                forall|k: int|
                    0 <= k < rows ==> #[trigger] self.state_score@[k]@ == if from <= k < row {
                        Seq::new(self.width as nat, |i: int| NEG_INF)
                    } else {
                        before.state_score@[k]@
                    },
        {
            let zeros: Vec<u32> = filled(self.width, 0);
            let lows: Vec<u32> = filled(self.width, NEG_INF);
            self.state_kv.set(row, zeros);
            self.state_score.set(row, lows);
        }
        self.state_count = rem as u32;
        proof {
            let want = old(self)@.finished(n_tokens as nat);
            assert forall|k: int| 0 <= k < rows implies #[trigger] rows_of(self.state_kv@)[k]
                == want.kv[k] by {
                assert(self.state_kv@[k]@ =~= want.kv[k]);
            }
            assert forall|k: int| 0 <= k < rows implies #[trigger] rows_of(self.state_score@)[k]
                == want.score[k] by {
                assert(self.state_score@[k]@ =~= want.score[k]);
            }
            assert(rows_of(self.state_kv@) =~= want.kv);
            assert(rows_of(self.state_score@) =~= want.score);
            assert(self@ =~= want);
        }
    }

    /// Drops every row and empties the state.
    pub fn clear(&mut self)
        requires
            old(self).wf(),
        ensures
            final(self).wf(),
            final(self)@ == old(self)@.cleared(),
    {
        self.compressed.clear();
        self.n_comp = 0;
        self.reset_state();
        assert(self@ =~= old(self)@.cleared());
    }
}

/// Copies the upper half of the rows over the lower half.
fn rotate(state: &mut Vec<Vec<u32>>, half: usize)
    requires
        old(state)@.len() == 2 * half,
        0 < half,
    ensures
        final(state)@.len() == old(state)@.len(),
        forall|r: int|
            0 <= r < final(state)@.len() ==> #[trigger] final(state)@[r]@ == old(state)@[half + r
                % (half as int)]@,
{
    let n: usize = state.len();
    for r in 0..half
        invariant
            n == 2 * half,
            state@.len() == n,
            old(state)@.len() == n,
            forall|k: int| 0 <= k < r ==> #[trigger] state@[k]@ == old(state)@[half + k]@,
            forall|k: int| r <= k < n ==> #[trigger] state@[k]@ == old(state)@[k]@,
    {
        let row: Vec<u32> = copied(state[half + r].as_slice());
        state.set(r, row);
    }
    assert forall|r: int| 0 <= r < n implies #[trigger] state@[r]@ == old(state)@[half + r % (
    half as int)]@ by {
        if r < half {
            assert(r % (half as int) == r) by (nonlinear_arith)
                requires
                    0 <= r < half,
            ;
        } else {
            assert(r % (half as int) == r - half) by (nonlinear_arith)
                requires
                    half <= r < 2 * half,
            ;
        }
    }
}

/// A token: its values and its scores.
pub struct Token {
    pub kv: Seq<u32>,
    pub score: Seq<u32>,
}

/// Whether the state has the rows that the ratio asks for.
pub open spec fn shaped(p: PoolView) -> bool {
    &&& 0 < p.ratio
    &&& p.count < p.ratio
    &&& p.kv.len() == p.state_rows()
    &&& p.score.len() == p.state_rows()
}

/// A pool that took in tokens one by one.
pub open spec fn streamed(p: PoolView, tokens: Seq<Token>, exp: spec_fn(u32) -> u32) -> PoolView
    decreases tokens.len(),
{
    if tokens.len() == 0 {
        p
    } else {
        streamed(p, tokens.drop_last(), exp).taken(tokens.last().kv, tokens.last().score, exp)
    }
}

proof fn lemma_taken_is_shaped(p: PoolView, t: Token, exp: spec_fn(u32) -> u32)
    requires
        shaped(p),
    ensures
        shaped(p.taken(t.kv, t.score, exp)),
        p.taken(t.kv, t.score, exp).cap == p.cap,
        p.taken(t.kv, t.score, exp).ratio == p.ratio,
        p.taken(t.kv, t.score, exp).head_dim == p.head_dim,
{
    lemma_state_rows(p.ratio);
}

/// A pool emits one row for every `ratio` tokens, as long as it has room: after
/// `n` tokens it holds `n / ratio` rows, and `n % ratio` tokens wait.
pub proof fn law_one_row_per_window(
    cap: nat,
    ratio: nat,
    head_dim: nat,
    tokens: Seq<Token>,
    exp: spec_fn(u32) -> u32,
)
    requires
        0 < ratio,
        tokens.len() / ratio <= cap,
    ensures
        streamed(empty_pool(cap, ratio, head_dim), tokens, exp).emitted == tokens.len() / ratio,
        streamed(empty_pool(cap, ratio, head_dim), tokens, exp).count == tokens.len() % ratio,
{
    lemma_streamed_counts(cap, ratio, head_dim, tokens, exp);
    let q = streamed(empty_pool(cap, ratio, head_dim), tokens, exp);
    vstd::arithmetic::div_mod::lemma_fundamental_div_mod_converse(
        tokens.len() as int,
        ratio as int,
        q.emitted as int,
        q.count as int,
    );
}

pub proof fn lemma_streamed_counts(
    cap: nat,
    ratio: nat,
    head_dim: nat,
    tokens: Seq<Token>,
    exp: spec_fn(u32) -> u32,
)
    requires
        0 < ratio,
        tokens.len() / ratio <= cap,
    ensures
        ({
            let q = streamed(empty_pool(cap, ratio, head_dim), tokens, exp);
            &&& shaped(q)
            &&& q.cap == cap
            &&& q.ratio == ratio
            &&& q.emitted * ratio + q.count == tokens.len()
        }),
    decreases tokens.len(),
{
    let p = empty_pool(cap, ratio, head_dim);
    if tokens.len() > 0 {
        let init = tokens.drop_last();
        vstd::arithmetic::div_mod::lemma_div_is_ordered(
            init.len() as int,
            tokens.len() as int,
            ratio as int,
        );
        lemma_streamed_counts(cap, ratio, head_dim, init, exp);
        let q = streamed(p, init, exp);
        lemma_taken_is_shaped(q, tokens.last(), exp);
        assert((q.emitted + 1) * ratio == q.emitted * ratio + ratio) by (nonlinear_arith);
        if q.count + 1 == ratio && q.emitted >= cap {
            vstd::arithmetic::div_mod::lemma_fundamental_div_mod_converse(
                tokens.len() as int,
                ratio as int,
                (q.emitted + 1) as int,
                0,
            );
        }
    }
}

/// Whether two pools hold the same but for state rows that the current window
/// has not reached.
pub open spec fn agree(p: PoolView, q: PoolView) -> bool {
    &&& p.rows == q.rows
    &&& p.emitted == q.emitted
    &&& p.cap == q.cap
    &&& p.ratio == q.ratio
    &&& p.head_dim == q.head_dim
    &&& p.count == q.count
    &&& forall|r: int| 0 <= r < p.unused_from(p.count) ==> #[trigger] p.kv[r] == q.kv[r]
    &&& forall|r: int| 0 <= r < p.unused_from(p.count) ==> #[trigger] p.score[r] == q.score[r]
}

proof fn lemma_agree_step(p: PoolView, q: PoolView, t: Token, exp: spec_fn(u32) -> u32)
    requires
        shaped(p),
        shaped(q),
        agree(p, q),
    ensures
        agree(p.taken(t.kv, t.score, exp), q.taken(t.kv, t.score, exp)),
        p.answer() == q.answer(),
{
    lemma_state_rows(p.ratio);
    let wp = p.written(t.kv, t.score);
    let wq = q.written(t.kv, t.score);
    let reached = p.unused_from(p.count) + 1;
    assert forall|r: int| 0 <= r < reached implies #[trigger] wp.kv[r] == wq.kv[r] by {
        if r != p.slot() {
            assert(p.kv[r] == q.kv[r]);
        }
    }
    assert forall|r: int| 0 <= r < reached implies #[trigger] wp.score[r] == wq.score[r] by {
        if r != p.slot() {
            assert(p.score[r] == q.score[r]);
        }
    }
    let a = p.taken(t.kv, t.score, exp);
    let b = q.taken(t.kv, t.score, exp);
    if p.count + 1 < p.ratio {
        assert(agree(a, b));
    } else if p.emitted >= p.cap {
        assert(agree(a, b));
    } else {
        assert(wp.kv =~= wq.kv);
        assert(wp.score =~= wq.score);
        assert(wp =~= wq);
        assert(a == b);
        assert(agree(a, b));
    }
}

/// Once a prefill of `n_tokens` tokens has been finished, further tokens yield
/// the same rows and the same answers as in a pool that was never finished.
pub proof fn law_finishing_changes_no_row(
    p: PoolView,
    n_tokens: nat,
    tokens: Seq<Token>,
    exp: spec_fn(u32) -> u32,
)
    requires
        shaped(p),
        p.count == n_tokens % p.ratio,
    ensures
        streamed(p.finished(n_tokens), tokens, exp).rows == streamed(p, tokens, exp).rows,
        streamed(p.finished(n_tokens), tokens, exp).emitted == streamed(p, tokens, exp).emitted,
        streamed(p.finished(n_tokens), tokens, exp).count == streamed(p, tokens, exp).count,
        streamed(p.finished(n_tokens), tokens, exp).answer() == streamed(p, tokens, exp).answer(),
{
    lemma_finished_agrees(p, n_tokens, tokens, exp);
}

proof fn lemma_finished_agrees(
    p: PoolView,
    n_tokens: nat,
    tokens: Seq<Token>,
    exp: spec_fn(u32) -> u32,
)
    requires
        shaped(p),
        p.count == n_tokens % p.ratio,
    ensures
        shaped(streamed(p.finished(n_tokens), tokens, exp)),
        shaped(streamed(p, tokens, exp)),
        agree(streamed(p.finished(n_tokens), tokens, exp), streamed(p, tokens, exp)),
    decreases tokens.len(),
{
    if tokens.len() == 0 {
        let f = p.finished(n_tokens);
        lemma_state_rows(p.ratio);
        assert forall|r: int| 0 <= r < f.unused_from(f.count) implies #[trigger] f.kv[r] == p.kv[r] by {
        }
        assert forall|r: int| 0 <= r < f.unused_from(f.count) implies #[trigger] f.score[r]
            == p.score[r] by {
        }
    } else {
        let init = tokens.drop_last();
        lemma_finished_agrees(p, n_tokens, init, exp);
        let a = streamed(p.finished(n_tokens), init, exp);
        let b = streamed(p, init, exp);
        lemma_agree_step(a, b, tokens.last(), exp);
        lemma_taken_is_shaped(a, tokens.last(), exp);
        lemma_taken_is_shaped(b, tokens.last(), exp);
    }
}

/// In a pool with one lane, where the state rows that the current window has
/// not reached are empty, finishing a prefill changes nothing.
pub proof fn law_finishing_keeps_a_single_lane(p: PoolView, n_tokens: nat)
    requires
        shaped(p),
        lanes(p.ratio) == 1,
        p.count == n_tokens % p.ratio,
        forall|r: int|
            p.count <= r < p.ratio ==> #[trigger] p.kv[r] == p.filled(0) && p.score[r] == p.filled(
                NEG_INF,
            ),
    ensures
        p.finished(n_tokens) == p,
{
    lemma_state_rows(p.ratio);
    let q = p.finished(n_tokens);
    assert(q.kv =~= p.kv);
    assert forall|r: int| 0 <= r < p.score.len() implies q.score[r] == p.score[r] by {
        assert(p.kv[r] == p.kv[r]);
    }
    assert(q.score =~= p.score);
    assert(q =~= p);
}

/// The values of the tokens.
pub open spec fn values_of(tokens: Seq<Token>) -> Seq<Seq<u32>> {
    Seq::new(tokens.len(), |i: int| tokens[i].kv)
}

/// The scores of the tokens.
pub open spec fn scores_of(tokens: Seq<Token>) -> Seq<Seq<u32>> {
    Seq::new(tokens.len(), |i: int| tokens[i].score)
}

/// The state from which the row of a whole window is made: the window's
/// tokens, and with two lanes the rows of the lower half before them.
pub open spec fn loaded(p: PoolView, tokens: Seq<Token>) -> PoolView {
    if lanes(p.ratio) == 2 {
        PoolView {
            kv: p.kv.take(p.ratio as int) + values_of(tokens),
            score: p.score.take(p.ratio as int) + scores_of(tokens),
            ..p
        }
    } else {
        PoolView { kv: values_of(tokens), score: scores_of(tokens), ..p }
    }
}

proof fn lemma_partial_window(
    p: PoolView,
    tokens: Seq<Token>,
    k: nat,
    exp: spec_fn(u32) -> u32,
)
    requires
        shaped(p),
        p.count == 0,
        tokens.len() == p.ratio,
        k < p.ratio,
    ensures
        ({
            let q = streamed(p, tokens.take(k as int), exp);
            let base = p.unused_from(0);
            &&& q.count == k
            &&& q.rows == p.rows
            &&& q.emitted == p.emitted
            &&& q.cap == p.cap
            &&& q.ratio == p.ratio
            &&& q.head_dim == p.head_dim
            &&& q.kv.len() == p.kv.len()
            &&& q.score.len() == p.score.len()
            &&& forall|r: int|
                0 <= r < p.kv.len() ==> #[trigger] q.kv[r] == if base <= r < base + k {
                    tokens[r - base].kv
                } else {
                    p.kv[r]
                }
            &&& forall|r: int|
                0 <= r < p.score.len() ==> #[trigger] q.score[r] == if base <= r < base + k {
                    tokens[r - base].score
                } else {
                    p.score[r]
                }
        }),
    decreases k,
{
    lemma_state_rows(p.ratio);
    if k > 0 {
        lemma_partial_window(p, tokens, (k - 1) as nat, exp);
        assert(tokens.take(k as int).drop_last() =~= tokens.take(k - 1));
    } else {
        assert(tokens.take(0) =~= seq![]);
    }
}

/// From the start of a window on, `ratio` tokens add one row. With one lane the
/// row is made of these tokens alone, and the state is empty after it. With two
/// lanes the row is made of these tokens and of the lower half, and both halves
/// hold these tokens after it: they are the lower half of the next row.
pub proof fn law_window(p: PoolView, tokens: Seq<Token>, exp: spec_fn(u32) -> u32)
    requires
        shaped(p),
        p.count == 0,
        p.emitted < p.cap,
        tokens.len() == p.ratio,
    ensures
        streamed(p, tokens, exp).rows == p.rows + loaded(p, tokens).summary(exp),
        streamed(p, tokens, exp).emitted == p.emitted + 1,
        streamed(p, tokens, exp).count == 0,
        lanes(p.ratio) == 2 ==> {
            &&& streamed(p, tokens, exp).kv == values_of(tokens) + values_of(tokens)
            &&& streamed(p, tokens, exp).score == scores_of(tokens) + scores_of(tokens)
        },
        lanes(p.ratio) == 1 ==> {
            &&& streamed(p, tokens, exp).kv == p.blank().kv
            &&& streamed(p, tokens, exp).score == p.blank().score
        },
{
    lemma_state_rows(p.ratio);
    let k = (p.ratio - 1) as nat;
    lemma_partial_window(p, tokens, k, exp);
    assert(tokens.drop_last() =~= tokens.take(k as int));
    let q = streamed(p, tokens.take(k as int), exp);
    let w = q.written(tokens.last().kv, tokens.last().score);
    let l = loaded(p, tokens);
    assert(w.kv =~= l.kv);
    assert(w.score =~= l.score);
    assert(w.summary(exp) =~= l.summary(exp));
    let e = streamed(p, tokens, exp);
    assert(e == w.extended(w.summary(exp)).restarted());
    if lanes(p.ratio) == 2 {
        assert(e.kv =~= values_of(tokens) + values_of(tokens));
        assert(e.score =~= scores_of(tokens) + scores_of(tokens));
    } else {
        assert(e.kv =~= p.blank().kv);
        assert(e.score =~= p.blank().score);
    }
}

/// What a pool holds past its current window does not outlast finishing: pools
/// that agree up to there are the same once finished.
pub proof fn law_finishing_forgets(p: PoolView, q: PoolView, n_tokens: nat)
    requires
        shaped(p),
        shaped(q),
        agree(p, q),
        p.count == n_tokens % p.ratio,
    ensures
        p.finished(n_tokens) == q.finished(n_tokens),
{
    let (a, b) = (p.finished(n_tokens), q.finished(n_tokens));
    assert(a.kv =~= b.kv);
    assert(a.score =~= b.score);
}

/// With windows of four, finishing keeps the window before and the tokens of the
/// current one, and empties the rest of the state.
pub proof fn law_finished_state(p: PoolView, n_tokens: nat, r: int)
    requires
        shaped(p),
        p.ratio == 4,
        0 <= r < 8,
    ensures
        r < 4 + n_tokens % 4 ==> p.finished(n_tokens).kv[r] == p.kv[r] && p.finished(
            n_tokens,
        ).score[r] == p.score[r],
        r >= 4 + n_tokens % 4 ==> p.finished(n_tokens).kv[r] == Seq::new(
            2 * p.head_dim,
            |j: int| 0u32,
        ) && p.finished(n_tokens).score[r] == Seq::new(2 * p.head_dim, |j: int| NEG_INF),
        p.finished(n_tokens).count == n_tokens % 4,
        p.finished(n_tokens).rows == p.rows,
        p.finished(n_tokens).emitted == p.emitted,
{
    lemma_state_rows(p.ratio);
    assert(p.filled(0) =~= Seq::new(2 * p.head_dim, |j: int| 0u32));
    assert(p.filled(NEG_INF) =~= Seq::new(2 * p.head_dim, |j: int| NEG_INF));
}

} // verus!
