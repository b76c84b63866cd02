//! Records of likely tokens.

use crate::float::function;
use crate::float::order;
use crate::ranking;
use crate::ranking::pick_highest;
use vstd::prelude::*;
use vstd::slice::{slice_subrange, slice_to_vec};

verus! {

/// A token with its probability, as bits.
#[derive(Debug, Clone, Copy, PartialEq, Eq, Structural)]
pub struct LogprobEntry {
    /// The token.
    pub token_id: u32,
    /// Natural logarithm of the probability.
    pub logit: u32,
    /// The probability.
    pub prob: u32,
}

/// What there is to say of a token: which it is and what it was chosen from.
#[derive(Debug)]
pub struct LogprobStep {
    /// How many tokens came before it.
    pub step: u32,
    /// The token.
    pub chosen_id: u32,
    /// The most likely tokens, the likeliest first.
    pub top_k: Vec<LogprobEntry>,
}

/// The `k` likeliest tokens.
pub open spec fn likeliest(
    probs: Seq<u32>,
    k: nat,
    ln: spec_fn(u32) -> u32,
) -> Seq<LogprobEntry> {
    let n = if k < probs.len() {
        k
    } else {
        probs.len()
    };
    let chosen = ranking::top(probs, n);
    Seq::new(
        n,
        |i: int|
            LogprobEntry {
                token_id: chosen[i],
                logit: ln(probs[chosen[i] as int]),
                prob: probs[chosen[i] as int],
            },
    )
}

/// The `k` likeliest tokens, the likeliest first.
pub fn top_k_entries<F: Fn(u32) -> u32>(probs: &[u32], k: usize, ln: &F) -> (top: Vec<
    LogprobEntry,
>)
    requires
        function::total(ln),
        probs@.len() <= u32::MAX,
    ensures
        top@.len() == if k < probs@.len() {
            k as nat
        } else {
            probs@.len()
        },
        forall|i: int|
            0 <= i < top@.len() ==> {
                let e = #[trigger] top@[i];
                let t = ranking::top(probs@, top@.len())[i];
                e.token_id == t && e.prob == probs@[t as int] && call_ensures(
                    ln,
                    (e.prob,),
                    e.logit,
                )
            },
        forall|g: spec_fn(u32) -> u32| #[trigger]
            function::computes(ln, g) ==> top@ == likeliest(probs@, k as nat, g),
{
    let len: usize = probs.len();
    let n: usize = if k < len {
        k
    } else {
        len
    };
    let chosen: Vec<u32> = pick_highest(probs, n);
    let mut top: Vec<LogprobEntry> = Vec::new();
    let mut i: usize = 0;
    while i < n
        invariant
            function::total(ln),
            n <= probs@.len(),
            chosen@.len() == n,
            chosen@ == ranking::top(probs@, n as nat),
            ranking::is_selection(probs@, chosen@),
            i <= n,
            top@.len() == i,
            forall|j: int|
                0 <= j < i ==> {
                    let e = #[trigger] top@[j];
                    e.token_id == chosen@[j] && e.prob == probs@[chosen@[j] as int] && call_ensures(
                        ln,
                        (e.prob,),
                        e.logit,
                    )
                },
        decreases n - i,
    {
        let t: u32 = chosen[i];
        let prob: u32 = probs[t as usize];
        let logit: u32 = function::call(ln, prob);
        top.push(LogprobEntry { token_id: t, logit, prob });
        i = i + 1;
    }
    proof {
        assert forall|g: spec_fn(u32) -> u32| #[trigger] function::computes(ln, g) implies top@
            == likeliest(probs@, k as nat, g) by {
            assert forall|j: int| 0 <= j < n implies top@[j] == likeliest(probs@, k as nat, g)[j] by {
                let e = top@[j];
                assert(call_ensures(ln, (e.prob,), e.logit));
            }
            assert(top@ =~= likeliest(probs@, k as nat, g));
        }
    }
    top
}

/// How many likely tokens a record keeps: at least one.
pub fn entry_count(asked: usize) -> (n: usize)
    ensures
        n == if asked == 0 {
            1
        } else {
            asked
        },
{
    if asked == 0 {
        1
    } else {
        asked
    }
}

/// The records of a run so far.
#[derive(Debug, Clone, Copy, PartialEq, Eq, Structural)]
pub struct LogprobRecorder {
    /// How many records there are.
    pub step: u32,
    /// How many likely tokens a record keeps at most.
    pub top_k_cap: usize,
}

impl LogprobRecorder {
    /// No records yet.
    pub fn new(top_k_cap: usize) -> (r: Self)
        ensures
            r == (LogprobRecorder { step: 0, top_k_cap }),
    {
        LogprobRecorder { step: 0, top_k_cap }
    }

    /// The next record.
    pub fn record(&self, chosen_id: u32, top: &[LogprobEntry]) -> (r: LogprobStep)
        ensures
            r.step == self.step,
            r.chosen_id == chosen_id,
            r.top_k@ == if top@.len() <= self.top_k_cap {
                top@
            } else {
                top@.take(self.top_k_cap as int)
            },
    {
        let len: usize = top.len();
        let n: usize = if len <= self.top_k_cap {
            len
        } else {
            self.top_k_cap
        };
        let kept: Vec<LogprobEntry> = slice_to_vec(slice_subrange(top, 0, n));
        assert(top@.subrange(0, n as int) =~= top@.take(n as int));
        assert(n == len ==> top@.take(n as int) =~= top@);
        LogprobStep { step: self.step, chosen_id, top_k: kept }
    }

    /// Counts a record that was written.
    pub fn advance(&mut self)
        requires
            old(self).step < u32::MAX,
        ensures
            *final(self) == (LogprobRecorder {
                step: (old(self).step + 1) as u32,
                top_k_cap: old(self).top_k_cap,
            }),
    {
        self.step = self.step + 1;
    }
}

/// The listed tokens are different ones, as many as there are to list; each has
/// its own probability and the logarithm of it, and a likelier one comes first.
pub proof fn law_likeliest(probs: Seq<u32>, k: nat, ln: spec_fn(u32) -> u32, i: int, j: int)
    requires
        probs.len() <= u32::MAX,
        0 <= i < j < likeliest(probs, k, ln).len(),
    ensures
        ({
            let list = likeliest(probs, k, ln);
            let (a, b) = (list[i], list[j]);
            &&& list.len() <= k
            &&& list.len() == k || list.len() == probs.len()
            &&& a.token_id < probs.len()
            &&& a.token_id != b.token_id
            &&& a.prob == probs[a.token_id as int]
            &&& a.logit == ln(a.prob)
            &&& !order::less(ranking::comparable(a.prob), ranking::comparable(b.prob))
        }),
{
    let n = if k < probs.len() {
        k
    } else {
        probs.len()
    };
    let chosen = ranking::top(probs, n);
    ranking::law_selection_exists(probs, n);
    ranking::law_selection_order(probs, chosen, i, j);
    assert(chosen[i] < probs.len() && chosen[j] < probs.len());
}

} // verus!
