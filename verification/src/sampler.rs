//! Drawing the next token from the logits of a model.
//!
//! The logits are divided by the temperature and turned into probabilities.
//! The filters then set unlikely tokens to zero: the `k` most likely stay, of
//! these the most likely that together reach the mass `p`, of these the ones
//! not too far below the most likely one. From what is left, a token is drawn.
//! A temperature of zero takes the highest logit instead.

pub mod odds;
pub mod temperature;

use crate::buffer::overwrite;
use crate::float;
use crate::float::arith;
use crate::float::arith::{fadd, fdiv, finite, fmul};
use crate::float::fold;
use crate::float::fold::{highest_of, lower, scale, total_of, NEG_INF, ONE};
use crate::float::function;
use crate::float::order;
use crate::float::order::{feq, fle, flt};
use crate::float::weights;
use crate::ranking;
use crate::ranking::pick_highest;
use crate::rng;
use crate::rng::Xoshiro256StarStar;
use vstd::prelude::*;
use vstd::std_specs::cmp::PartialEqSpecImpl;

verus! {

/// Default of `min_p`, 0.05, as bits.
pub const DEFAULT_MIN_P: u32 = 0x3D4C_CCCD;

/// Default temperature, 0.7, as bits.
pub const DEFAULT_TEMPERATURE: u32 = 0x3F33_3333;

/// Default temperature inside a think block, one, as bits.
pub const DEFAULT_THINK_TEMPERATURE: u32 = 0x3F80_0000;

/// The seed where none is given.
pub const FALLBACK_SEED: u64 = 0xDEAD_BEEF_CAFE_F00D;

/// How tokens are drawn. Fractions are given as bits.
#[derive(Debug, Clone, Copy)]
pub struct SamplingParams {
    /// What the logits are divided by. Zero takes the highest logit.
    pub temperature: u32,
    /// How many tokens to keep; all of them if absent.
    pub top_k: Option<usize>,
    /// The mass that the kept tokens are to reach; all of them if absent or one.
    pub top_p: Option<u32>,
    /// Tokens less likely than this part of the most likely one are dropped;
    /// none if absent.
    pub min_p: Option<u32>,
    /// Seed of the draws; a fixed one if absent.
    pub seed: Option<u64>,
}

/// Whether two fractions are both absent or both there and equal.
pub open spec fn same_fraction(a: Option<u32>, b: Option<u32>) -> bool {
    match (a, b) {
        (Some(x), Some(y)) => order::same(x, y),
        (None, None) => true,
        _ => false,
    }
}

/// Whether two fractions are both absent or both there and equal.
fn fraction_eq(a: Option<u32>, b: Option<u32>) -> (r: bool)
    ensures
        r == same_fraction(a, b),
{
    match (a, b) {
        (Some(x), Some(y)) => feq(x, y),
        (None, None) => true,
        _ => false,
    }
}

impl PartialEq for SamplingParams {
    fn eq(&self, other: &Self) -> (r: bool) {
        feq(self.temperature, other.temperature) && self.top_k == other.top_k && fraction_eq(
            self.top_p,
            other.top_p,
        ) && fraction_eq(self.min_p, other.min_p) && self.seed == other.seed
    }
}

impl PartialEqSpecImpl for SamplingParams {
    open spec fn obeys_eq_spec() -> bool {
        true
    }

    open spec fn eq_spec(&self, other: &Self) -> bool {
        &&& order::same(self.temperature, other.temperature)
        &&& self.top_k == other.top_k
        &&& same_fraction(self.top_p, other.top_p)
        &&& same_fraction(self.min_p, other.min_p)
        &&& self.seed == other.seed
    }
}

impl Default for SamplingParams {
    fn default() -> (r: Self)
        ensures
            r == (SamplingParams {
                temperature: DEFAULT_TEMPERATURE,
                top_k: None,
                top_p: Some(ONE),
                min_p: Some(DEFAULT_MIN_P),
                seed: None,
            }),
    {
        SamplingParams {
            temperature: DEFAULT_TEMPERATURE,
            top_k: None,
            top_p: Some(ONE),
            min_p: Some(DEFAULT_MIN_P),
            seed: None,
        }
    }
}

impl SamplingParams {
    /// Takes the highest logit.
    pub fn greedy() -> (r: Self)
        ensures
            r == (SamplingParams {
                temperature: 0,
                top_k: None,
                top_p: None,
                min_p: None,
                seed: None,
            }),
    {
        SamplingParams { temperature: 0, top_k: None, top_p: None, min_p: None, seed: None }
    }

    /// For use inside a think block: hotter than the default.
    pub fn think() -> (r: Self)
        ensures
            r == (SamplingParams {
                temperature: DEFAULT_THINK_TEMPERATURE,
                top_k: None,
                top_p: Some(ONE),
                min_p: Some(DEFAULT_MIN_P),
                seed: None,
            }),
    {
        SamplingParams {
            temperature: DEFAULT_THINK_TEMPERATURE,
            top_k: None,
            top_p: Some(ONE),
            min_p: Some(DEFAULT_MIN_P),
            seed: None,
        }
    }

    /// Whether the highest logit is taken: the temperature is no positive
    /// finite number.
    pub open spec fn is_greedy(self) -> bool {
        !float::is_finite(self.temperature) || order::at_most(self.temperature, 0)
    }
}

/// Index of the highest finite number among the first `n`, the first one of
/// several; zero where there is none.
pub open spec fn argmax(s: Seq<u32>, n: nat) -> nat
    decreases n,
{
    if n == 0 {
        0
    } else {
        let best = argmax(s, (n - 1) as nat);
        if float::is_finite(s[n - 1]) && order::less(best_value(s, (n - 1) as nat), s[n - 1]) {
            (n - 1) as nat
        } else {
            best
        }
    }
}

/// The highest finite number among the first `n`; minus infinity where there is
/// none.
pub open spec fn best_value(s: Seq<u32>, n: nat) -> u32
    decreases n,
{
    if n == 0 {
        NEG_INF
    } else {
        let best = best_value(s, (n - 1) as nat);
        if float::is_finite(s[n - 1]) && order::less(best, s[n - 1]) {
            s[n - 1]
        } else {
            best
        }
    }
}

/// The logits divided by the temperature; what is no finite number becomes
/// minus infinity.
pub open spec fn cooled(logits: Seq<u32>, temperature: u32) -> Seq<u32> {
    Seq::new(
        logits.len(),
        |i: int|
            if float::is_finite(logits[i]) {
                arith::product(logits[i], arith::quotient(ONE, temperature))
            } else {
                NEG_INF
            },
    )
}

/// As many zeros as there are numbers.
pub open spec fn zeros(s: Seq<u32>) -> Seq<u32> {
    Seq::new(s.len(), |i: int| 0u32)
}

/// The weights divided by their sum, where that is positive.
pub open spec fn normalized(weights: Seq<u32>) -> Seq<u32> {
    let sum = fold::total(weights);
    if order::less(0, sum) {
        fold::scaled(weights, arith::quotient(ONE, sum))
    } else {
        weights
    }
}

/// The probabilities of logits; all zero where no logit is finite.
pub open spec fn softmax(logits: Seq<u32>, exp: spec_fn(u32) -> u32) -> Seq<u32> {
    let top = fold::highest(logits, NEG_INF);
    if !float::is_finite(top) {
        zeros(logits)
    } else {
        normalized(weights::of_scores(logits, top, exp))
    }
}

/// Whether an index is listed.
pub open spec fn listed(list: Seq<u32>, i: int) -> bool {
    exists|k: int| 0 <= k < list.len() && list[k] == i
}

/// The probabilities of the listed tokens, zero for the others.
pub open spec fn kept(probs: Seq<u32>, list: Seq<u32>) -> Seq<u32> {
    Seq::new(
        probs.len(),
        |i: int|
            if listed(list, i) {
                probs[i]
            } else {
                0
            },
    )
}

/// The `k` most likely tokens; the first ones of several that are as likely.
pub open spec fn top_k_filtered(probs: Seq<u32>, k: nat) -> Seq<u32> {
    if k == 0 {
        zeros(probs)
    } else if k >= probs.len() {
        probs
    } else {
        kept(probs, ranking::top(probs, k))
    }
}

/// How many tokens of an order are needed to reach the mass `p`, of which the
/// first `i` have the mass `mass`.
pub open spec fn nucleus_len(probs: Seq<u32>, order: Seq<u32>, p: u32, i: nat, mass: u32) -> nat
    decreases order.len() - i,
{
    if i >= order.len() {
        i
    } else {
        let grown = arith::sum(mass, probs[order[i as int] as int]);
        if order::at_most(p, grown) {
            i + 1
        } else {
            nucleus_len(probs, order, p, i + 1, grown)
        }
    }
}

/// The most likely tokens that together reach the mass `p`, the token that
/// reaches it among them.
pub open spec fn top_p_filtered(probs: Seq<u32>, p: u32) -> Seq<u32> {
    let order = ranking::top(probs, probs.len());
    kept(probs, order.take(nucleus_len(probs, order, p, 0, 0) as int))
}

/// The tokens that are at least `min_p` times as likely as the most likely one.
pub open spec fn min_p_filtered(probs: Seq<u32>, min_p: u32) -> Seq<u32> {
    let top = fold::highest(probs, 0);
    if order::at_most(top, 0) {
        probs
    } else {
        let threshold = arith::product(top, min_p);
        Seq::new(
            probs.len(),
            |i: int|
                if order::less(probs[i], threshold) {
                    0
                } else {
                    probs[i]
                },
        )
    }
}

/// The probabilities after the filters.
pub open spec fn filtered(probs: Seq<u32>, params: SamplingParams) -> Seq<u32> {
    let a = match params.top_k {
        Some(k) => top_k_filtered(probs, k as nat),
        None => probs,
    };
    let b = match params.top_p {
        Some(p) => if order::less(p, ONE) {
            top_p_filtered(a, p)
        } else {
            a
        },
        None => a,
    };
    match params.min_p {
        Some(m) => if order::less(0, m) {
            min_p_filtered(b, m)
        } else {
            b
        },
        None => b,
    }
}

/// The mass of the first `n` tokens.
pub open spec fn mass(probs: Seq<u32>, n: nat) -> u32 {
    fold::total(probs.take(n as int))
}

/// Whether token `i` is the first at which the mass exceeds `u`.
pub open spec fn is_hit(probs: Seq<u32>, u: u32, i: int) -> bool {
    &&& 0 <= i < probs.len()
    &&& order::less(u, mass(probs, (i + 1) as nat))
    &&& forall|k: int| 0 <= k < i ==> !order::less(u, #[trigger] mass(probs, (k + 1) as nat))
}

/// Whether token `i` is the last with a positive probability, and the mass
/// never exceeds `u`.
pub open spec fn is_last(probs: Seq<u32>, u: u32, i: int) -> bool {
    &&& 0 <= i < probs.len()
    &&& order::less(0, probs[i])
    &&& forall|k: int| i < k < probs.len() ==> !order::less(0, #[trigger] probs[k])
    &&& forall|k: int| 0 <= k < probs.len() ==> !order::less(u, #[trigger] mass(probs, (k + 1) as nat))
}

/// Whether `i` is the token that the fraction `u` draws: the first at which the
/// mass exceeds `u`, else the last with a positive probability, else the
/// highest of `logits`.
pub open spec fn is_drawn(probs: Seq<u32>, u: u32, logits: Seq<u32>, i: int) -> bool {
    if exists|k: int| is_hit(probs, u, k) {
        is_hit(probs, u, i)
    } else if exists|k: int| is_last(probs, u, k) {
        is_last(probs, u, i)
    } else {
        i == argmax(logits, logits.len())
    }
}

/// Whether the filtered probabilities leave nothing to draw from.
pub open spec fn is_barren(probs: Seq<u32>) -> bool {
    !float::is_finite(fold::total(probs)) || order::at_most(fold::total(probs), 0)
}

/// Draws tokens. Its random numbers go on from draw to draw.
#[derive(Debug, Clone)]
pub struct Sampler {
    params: SamplingParams,
    rng: Xoshiro256StarStar,
}

/// What a sampler is: how it draws, and where its random numbers stand.
pub struct SamplerView {
    pub params: SamplingParams,
    pub rng: Xoshiro256StarStar,
}

impl View for Sampler {
    type V = SamplerView;

    closed spec fn view(&self) -> SamplerView {
        SamplerView { params: self.params, rng: self.rng }
    }
}

impl SamplerView {
    /// The probabilities that a token is drawn from, before they are divided
    /// by their sum.
    pub open spec fn candidates(self, logits: Seq<u32>, exp: spec_fn(u32) -> u32) -> Seq<u32> {
        filtered(softmax(cooled(logits, self.params.temperature), exp), self.params)
    }

    /// The candidates divided by their sum.
    pub open spec fn odds(self, logits: Seq<u32>, exp: spec_fn(u32) -> u32) -> Seq<u32> {
        let c = self.candidates(logits, exp);
        fold::scaled(c, arith::quotient(ONE, fold::total(c)))
    }

    /// Whether no random number is needed: the highest logit is taken.
    pub open spec fn is_certain(self, logits: Seq<u32>, exp: spec_fn(u32) -> u32) -> bool {
        self.params.is_greedy() || is_barren(self.candidates(logits, exp))
    }

    /// Whether `i` is the token that is drawn.
    pub open spec fn picks(self, logits: Seq<u32>, exp: spec_fn(u32) -> u32, i: int) -> bool {
        if self.is_certain(logits, exp) {
            i == argmax(logits, logits.len())
        } else {
            is_drawn(self.odds(logits, exp), self.rng.fraction(), logits, i)
        }
    }

    /// The sampler after a draw.
    pub open spec fn after(self, logits: Seq<u32>, exp: spec_fn(u32) -> u32) -> SamplerView {
        if self.is_certain(logits, exp) {
            self
        } else {
            SamplerView { rng: self.rng.stepped(), ..self }
        }
    }

    /// What a draw leaves in place of the logits.
    pub open spec fn leaves(self, logits: Seq<u32>, exp: spec_fn(u32) -> u32) -> Seq<u32> {
        if self.params.is_greedy() {
            logits
        } else if is_barren(self.candidates(logits, exp)) {
            self.candidates(logits, exp)
        } else {
            self.odds(logits, exp)
        }
    }
}

/// A sampler that has not drawn yet.
pub open spec fn fresh(params: SamplingParams) -> SamplerView {
    SamplerView {
        params,
        rng: rng::seeded(
            match params.seed {
                Some(s) => s,
                None => FALLBACK_SEED,
            },
        ),
    }
}

/// Index of the highest finite number.
pub fn argmax_of(s: &[u32]) -> (r: usize)
    ensures
        r == argmax(s@, s@.len()),
        s@.len() > 0 ==> r < s@.len(),
{
    let n: usize = s.len();
    let mut best: usize = 0;
    let mut value: u32 = NEG_INF;
    for i in 0..n
        invariant
            n == s@.len(),
            best == argmax(s@, i as nat),
            value == best_value(s@, i as nat),
            i > 0 ==> best < i,
            i == 0 ==> best == 0,
    {
        if finite(s[i]) && flt(value, s[i]) {
            value = s[i];
            best = i;
        }
    }
    best
}

/// Divides the logits by the temperature.
fn cool(logits: &[u32], temperature: u32) -> (r: Vec<u32>)
    ensures
        r@ == cooled(logits@, temperature),
{
    let inverse: u32 = fdiv(ONE, temperature);
    let mut r: Vec<u32> = Vec::new();
    let n: usize = logits.len();
    for i in 0..n
        invariant
            n == logits@.len(),
            inverse == arith::quotient(ONE, temperature),
            r@ =~= cooled(logits@, temperature).take(i as int),
    {
        let l: u32 = logits[i];
        if finite(l) {
            r.push(fmul(l, inverse));
        } else {
            r.push(NEG_INF);
        }
    }
    assert(r@ =~= cooled(logits@, temperature));
    r
}

/// As many zeros as there are numbers.
fn zeros_for(s: &[u32]) -> (r: Vec<u32>)
    ensures
        r@ == zeros(s@),
{
    let mut r: Vec<u32> = Vec::new();
    let n: usize = s.len();
    for i in 0..n
        invariant
            n == s@.len(),
            r@ =~= zeros(s@).take(i as int),
    {
        r.push(0);
    }
    assert(r@ =~= zeros(s@));
    r
}

/// Divides the weights by their sum.
pub fn normalize(weights: Vec<u32>) -> (r: Vec<u32>)
    ensures
        r@ == normalized(weights@),
{
    let sum: u32 = total_of(weights.as_slice());
    if flt(0, sum) {
        scale(weights.as_slice(), fdiv(ONE, sum))
    } else {
        weights
    }
}

/// The probabilities of logits.
fn softmax_of<F: Fn(u32) -> u32>(logits: &[u32], exp: &F) -> (r: Vec<u32>)
    requires
        function::total(exp),
    ensures
        r@.len() == logits@.len(),
        forall|g: spec_fn(u32) -> u32| #[trigger]
            function::computes(exp, g) ==> r@ == softmax(logits@, g),
{
    let top: u32 = highest_of(logits, NEG_INF);
    if !finite(top) {
        return zeros_for(logits);
    }
    let below: Vec<u32> = lower(logits, top);
    let weights: Vec<u32> = function::apply(exp, below.as_slice());
    normalize(weights)
}

/// Sets the tokens that are not listed to zero.
fn keep(probs: &[u32], list: &[u32]) -> (r: Vec<u32>)
    requires
        forall|k: int| 0 <= k < list@.len() ==> #[trigger] list@[k] < probs@.len(),
    ensures
        r@ == kept(probs@, list@),
{
    let mut r: Vec<u32> = zeros_for(probs);
    let n: usize = list.len();
    for k in 0..n
        invariant
            n == list@.len(),
            r@.len() == probs@.len(),
            forall|k: int| 0 <= k < list@.len() ==> #[trigger] list@[k] < probs@.len(),
            forall|i: int|
                0 <= i < probs@.len() ==> #[trigger] r@[i] == if listed(list@.take(k as int), i) {
                    probs@[i]
                } else {
                    0
                },
    {
        let at: usize = list[k] as usize;
        r.set(at, probs[at]);
        let ghost now = list@.take(k as int);
        let ghost next = list@.take(k + 1);
        assert forall|i: int| 0 <= i < probs@.len() implies listed(next, i) == (listed(now, i) || i
            == at) by {
            if listed(now, i) {
                let m = choose|m: int| 0 <= m < now.len() && now[m] == i;
                assert(next[m] == i);
            }
            if i == at {
                assert(next[k as int] == i);
            }
            if listed(next, i) {
                let m = choose|m: int| 0 <= m < next.len() && next[m] == i;
                if m < k {
                    assert(now[m] == i);
                }
            }
        }
    }
    assert(list@.take(n as int) =~= list@);
    assert(r@ =~= kept(probs@, list@));
    r
}

/// Keeps the `k` most likely tokens.
pub fn apply_top_k(probs: Vec<u32>, k: usize) -> (r: Vec<u32>)
    requires
        probs@.len() <= u32::MAX,
    ensures
        r@ == top_k_filtered(probs@, k as nat),
{
    if k == 0 {
        return zeros_for(probs.as_slice());
    }
    if k >= probs.len() {
        return probs;
    }
    let list: Vec<u32> = pick_highest(probs.as_slice(), k);
    keep(probs.as_slice(), list.as_slice())
}

/// Keeps the most likely tokens that together reach the mass `p`.
pub fn apply_top_p(probs: Vec<u32>, p: u32) -> (r: Vec<u32>)
    requires
        probs@.len() <= u32::MAX,
    ensures
        r@ == top_p_filtered(probs@, p),
{
    let n: usize = probs.len();
    let mut list: Vec<u32> = pick_highest(probs.as_slice(), n);
    let ghost order = list@;
    let mut mass: u32 = 0;
    let mut count: usize = 0;
    let mut reached: bool = false;
    while count < n && !reached
        invariant
            n == probs@.len(),
            list@ == order,
            order.len() == n,
            count <= n,
            forall|k: int| 0 <= k < n ==> #[trigger] order[k] < n,
            reached ==> nucleus_len(probs@, order, p, 0, 0) == count,
            !reached ==> nucleus_len(probs@, order, p, 0, 0) == nucleus_len(
                probs@,
                order,
                p,
                count as nat,
                mass,
            ),
        decreases n - count,
    {
        mass = fadd(mass, probs[list[count] as usize]);
        count = count + 1;
        if fle(p, mass) {
            reached = true;
        }
    }
    list.truncate(count);
    assert(list@ =~= order.take(count as int));
    keep(probs.as_slice(), list.as_slice())
}

/// Keeps the tokens that are not too far below the most likely one.
pub fn apply_min_p(probs: Vec<u32>, min_p: u32) -> (r: Vec<u32>)
    ensures
        r@ == min_p_filtered(probs@, min_p),
{
    let top: u32 = highest_of(probs.as_slice(), 0);
    if fle(top, 0) {
        return probs;
    }
    let threshold: u32 = fmul(top, min_p);
    let mut r: Vec<u32> = Vec::new();
    let n: usize = probs.len();
    for i in 0..n
        invariant
            n == probs@.len(),
            top == fold::highest(probs@, 0),
            threshold == arith::product(top, min_p),
            !order::at_most(top, 0),
            r@ =~= min_p_filtered(probs@, min_p).take(i as int),
    {
        if flt(probs[i], threshold) {
            r.push(0);
        } else {
            r.push(probs[i]);
        }
    }
    assert(r@ =~= min_p_filtered(probs@, min_p));
    r
}

/// Runs the filters over probabilities.
pub fn filter(probs: Vec<u32>, params: &SamplingParams) -> (r: Vec<u32>)
    requires
        probs@.len() <= u32::MAX,
    ensures
        r@ == filtered(probs@, *params),
        r@.len() == probs@.len(),
{
    let a: Vec<u32> = match params.top_k {
        Some(k) => apply_top_k(probs, k),
        None => probs,
    };
    let b: Vec<u32> = match params.top_p {
        Some(p) => if flt(p, ONE) {
            apply_top_p(a, p)
        } else {
            a
        },
        None => a,
    };
    match params.min_p {
        Some(m) => if flt(0, m) {
            apply_min_p(b, m)
        } else {
            b
        },
        None => b,
    }
}

/// The token that the fraction `u` draws; the highest of `logits` where the
/// probabilities give none.
pub fn draw(probs: &[u32], u: u32, logits: &[u32]) -> (r: usize)
    requires
        probs@.len() == logits@.len(),
        probs@.len() > 0,
    ensures
        r < probs@.len(),
        is_drawn(probs@, u, logits@, r as int),
{
    let n: usize = probs.len();
    let mut sum: u32 = 0;
    for i in 0..n
        invariant
            n == probs@.len(),
            sum == mass(probs@, i as nat),
            forall|k: int| 0 <= k < i ==> !order::less(u, #[trigger] mass(probs@, (k + 1) as nat)),
    {
        assert(probs@.take(i + 1).drop_last() =~= probs@.take(i as int));
        sum = fadd(sum, probs[i]);
        if flt(u, sum) {
            assert(is_hit(probs@, u, i as int));
            return i;
        }
    }
    assert forall|k: int| !is_hit(probs@, u, k) by {
    }
    let mut i: usize = n;
    while i > 0
        invariant
            i <= n,
            n == probs@.len(),
            forall|k: int| !is_hit(probs@, u, k),
            forall|k: int| i <= k < n ==> !order::less(0, #[trigger] probs@[k]),
            forall|k: int| 0 <= k < n ==> !order::less(u, #[trigger] mass(probs@, (k + 1) as nat)),
        decreases i,
    {
        i = i - 1;
        if flt(0, probs[i]) {
            assert(is_last(probs@, u, i as int));
            return i;
        }
    }
    assert forall|k: int| !is_last(probs@, u, k) by {
    }
    argmax_of(logits)
}

impl Sampler {
    /// A sampler that has not drawn yet.
    pub fn new(params: SamplingParams) -> (r: Self)
        ensures
            r@ == fresh(params),
    {
        let seed: u64 = match params.seed {
            Some(s) => s,
            None => FALLBACK_SEED,
        };
        Sampler { params, rng: Xoshiro256StarStar::from_seed(seed) }
    }

    /// A sampler that takes the highest logit.
    pub fn greedy() -> (r: Self)
        ensures
            r@ == fresh(
                SamplingParams {
                    temperature: 0,
                    top_k: None,
                    top_p: None,
                    min_p: None,
                    seed: None,
                },
            ),
    {
        Self::new(SamplingParams::greedy())
    }

    /// How the sampler draws.
    pub fn params(&self) -> (r: &SamplingParams)
        ensures
            *r == self@.params,
    {
        &self.params
    }

    /// Draws a token. The logits are overwritten by the probabilities that it
    /// was drawn from.
    pub fn sample<F: Fn(u32) -> u32>(&mut self, logits: &mut [u32], exp: &F) -> (r: u32)
        requires
            0 < old(logits)@.len() <= u32::MAX,
            function::total(exp),
        ensures
            r < old(logits)@.len(),
            final(self)@.params == old(self)@.params,
            final(logits)@.len() == old(logits)@.len(),
            old(self)@.params.is_greedy() ==> {
                &&& r == argmax(old(logits)@, old(logits)@.len())
                &&& final(self)@ == old(self)@
                &&& final(logits)@ == old(logits)@
            },
            forall|g: spec_fn(u32) -> u32| #[trigger]
                function::computes(exp, g) ==> {
                    &&& old(self)@.picks(old(logits)@, g, r as int)
                    &&& final(self)@ == old(self)@.after(old(logits)@, g)
                    &&& final(logits)@ == old(self)@.leaves(old(logits)@, g)
                },
    {
        let t: u32 = self.params.temperature;
        if !finite(t) || fle(t, 0) {
            return argmax_of(logits) as u32;
        }
        let cold: Vec<u32> = cool(logits, t);
        let probs: Vec<u32> = softmax_of(cold.as_slice(), exp);
        let left: Vec<u32> = filter(probs, &self.params);
        let sum: u32 = total_of(left.as_slice());
        if !finite(sum) || fle(sum, 0) {
            let r: usize = argmax_of(logits);
            overwrite(logits, left.as_slice());
            return r as u32;
        }
        let odds: Vec<u32> = scale(left.as_slice(), fdiv(ONE, sum));
        let u: u32 = self.rng.next_f32();
        let r: usize = draw(odds.as_slice(), u, logits);
        overwrite(logits, odds.as_slice());
        r as u32
    }
}

/// The highest finite number comes first: no finite number is higher than the
/// one at `argmax`, and no earlier one is as high.
pub proof fn law_argmax(s: Seq<u32>, n: nat)
    requires
        n <= s.len(),
    ensures
        (forall|i: int| 0 <= i < n ==> !float::is_finite(#[trigger] s[i])) ==> argmax(s, n) == 0,
        (exists|i: int| 0 <= i < n && float::is_finite(#[trigger] s[i])) ==> {
            &&& argmax(s, n) < n
            &&& float::is_finite(s[argmax(s, n) as int])
            &&& best_value(s, n) == s[argmax(s, n) as int]
            &&& forall|i: int|
                0 <= i < n && float::is_finite(#[trigger] s[i]) ==> order::at_most(
                    s[i],
                    s[argmax(s, n) as int],
                )
            &&& forall|i: int|
                0 <= i < argmax(s, n) && float::is_finite(#[trigger] s[i]) ==> order::less(
                    s[i],
                    s[argmax(s, n) as int],
                )
        },
        !float::is_nan(best_value(s, n)),
        (forall|i: int| 0 <= i < n ==> !float::is_finite(#[trigger] s[i])) ==> best_value(s, n)
            == NEG_INF,
    decreases n,
{
    if n > 0 {
        law_argmax(s, (n - 1) as nat);
        if exists|i: int| 0 <= i < n - 1 && float::is_finite(#[trigger] s[i]) {
        } else {
            assert(best_value(s, (n - 1) as nat) == NEG_INF);
        }
    }
}

/// At most one token is drawn by a fraction.
pub proof fn law_draw_is_unique(probs: Seq<u32>, u: u32, logits: Seq<u32>, i: int, j: int)
    requires
        is_drawn(probs, u, logits, i),
        is_drawn(probs, u, logits, j),
    ensures
        i == j,
{
    if exists|k: int| is_hit(probs, u, k) {
        if i < j {
            assert(!order::less(u, mass(probs, (i + 1) as nat)));
        } else if j < i {
            assert(!order::less(u, mass(probs, (j + 1) as nat)));
        }
    } else if exists|k: int| is_last(probs, u, k) {
        if i < j {
            assert(!order::less(0, probs[j]));
        } else if j < i {
            assert(!order::less(0, probs[i]));
        }
    }
}

/// A token that the filters set to zero is never drawn, as long as any token
/// has a positive probability.
pub proof fn law_zeroed_is_never_drawn(
    probs: Seq<u32>,
    r: Xoshiro256StarStar,
    logits: Seq<u32>,
    i: int,
    some: int,
)
    requires
        is_drawn(probs, r.fraction(), logits, i),
        0 <= some < probs.len(),
        order::less(0, probs[some]),
    ensures
        0 <= i < probs.len(),
        !float::is_zero(probs[i]),
{
    let u = r.fraction();
    if exists|k: int| is_hit(probs, u, k) {
        lemma_hit_has_mass(probs, r, i);
    } else {
        lemma_last_positive(probs, some, probs.len());
        let k = choose|k: int|
            #![trigger probs[k]]
            0 <= k < probs.len() && order::less(0, probs[k]) && forall|m: int|
                k < m < probs.len() ==> !order::less(0, #[trigger] probs[m]);
        assert forall|m: int| 0 <= m < probs.len() implies !order::less(
            u,
            #[trigger] mass(probs, (m + 1) as nat),
        ) by {
            lemma_no_hit(probs, u, m);
        }
        assert(is_last(probs, u, k));
    }
}

/// The mass does not grow at a token without a probability.
proof fn lemma_hit_has_mass(probs: Seq<u32>, r: Xoshiro256StarStar, i: int)
    requires
        is_hit(probs, r.fraction(), i),
    ensures
        !float::is_zero(probs[i]),
        !float::is_nan(probs[i]),
{
    let u = r.fraction();
    rng::law_fraction_is_below_one(r);
    let before = mass(probs, i as nat);
    assert(probs.take(i + 1).drop_last() =~= probs.take(i));
    assert(mass(probs, (i + 1) as nat) == arith::sum(before, probs[i]));
    if float::is_zero(probs[i]) {
        if !float::is_nan(before) {
            order::law_adding_zero(before, probs[i]);
        }
        if i == 0 {
            assert(probs.take(0) =~= seq![]);
            assert(before == 0);
        } else {
            assert(!order::less(u, mass(probs, ((i - 1) + 1) as nat)));
        }
    }
}

proof fn lemma_last_positive(probs: Seq<u32>, some: int, n: nat)
    requires
        0 <= some < n <= probs.len(),
        order::less(0, probs[some]),
        forall|m: int| n <= m < probs.len() ==> !order::less(0, #[trigger] probs[m]),
    ensures
        exists|k: int|
            #![trigger probs[k]]
            0 <= k < probs.len() && order::less(0, probs[k]) && forall|m: int|
                k < m < probs.len() ==> !order::less(0, #[trigger] probs[m]),
    decreases n,
{
    if order::less(0, probs[n - 1]) {
        assert(forall|m: int| n - 1 < m < probs.len() ==> !order::less(0, #[trigger] probs[m]));
    } else {
        lemma_last_positive(probs, some, (n - 1) as nat);
    }
}

/// Where nothing is hit, the mass never exceeds the fraction.
proof fn lemma_no_hit(probs: Seq<u32>, u: u32, m: int)
    requires
        forall|k: int| !is_hit(probs, u, k),
        0 <= m < probs.len(),
    ensures
        !order::less(u, mass(probs, (m + 1) as nat)),
    decreases m,
{
    assert forall|k: int| 0 <= k < m implies !order::less(u, #[trigger] mass(probs, (k + 1) as nat)) by {
        lemma_no_hit(probs, u, k);
    }
    assert(!is_hit(probs, u, m));
}

/// The tokens that a run of draws picks, one for each set of logits.
pub open spec fn is_run(
    s: SamplerView,
    logits: Seq<Seq<u32>>,
    exp: spec_fn(u32) -> u32,
    picked: Seq<int>,
) -> bool
    decreases logits.len(),
{
    if logits.len() == 0 {
        picked.len() == 0
    } else {
        &&& picked.len() == logits.len()
        &&& s.picks(logits[0], exp, picked[0])
        &&& is_run(s.after(logits[0], exp), logits.skip(1), exp, picked.skip(1))
    }
}

/// Samplers made from the same parameters draw the same tokens from the same
/// logits, draw after draw.
pub proof fn law_same_seed_same_tokens(
    params: SamplingParams,
    logits: Seq<Seq<u32>>,
    exp: spec_fn(u32) -> u32,
    a: Seq<int>,
    b: Seq<int>,
)
    requires
        is_run(fresh(params), logits, exp, a),
        is_run(fresh(params), logits, exp, b),
    ensures
        a == b,
{
    lemma_runs_agree(fresh(params), logits, exp, a, b);
}

proof fn lemma_runs_agree(
    s: SamplerView,
    logits: Seq<Seq<u32>>,
    exp: spec_fn(u32) -> u32,
    a: Seq<int>,
    b: Seq<int>,
)
    requires
        is_run(s, logits, exp, a),
        is_run(s, logits, exp, b),
    ensures
        a == b,
    decreases logits.len(),
{
    if logits.len() > 0 {
        lemma_runs_agree(s.after(logits[0], exp), logits.skip(1), exp, a.skip(1), b.skip(1));
        if !s.is_certain(logits[0], exp) {
            law_draw_is_unique(
                s.odds(logits[0], exp),
                s.rng.fraction(),
                logits[0],
                a[0],
                b[0],
            );
        }
        assert forall|i: int| 0 <= i < a.len() implies a[i] == b[i] by {
            if i > 0 {
                assert(a.skip(1)[i - 1] == b.skip(1)[i - 1]);
            }
        }
    }
    assert(a =~= b);
}

/// A filter keeps the probability of a token or makes it zero.
pub proof fn law_filters_only_drop(probs: Seq<u32>, params: SamplingParams, i: int)
    requires
        0 <= i < probs.len(),
    ensures
        filtered(probs, params).len() == probs.len(),
        filtered(probs, params)[i] == probs[i] || filtered(probs, params)[i] == 0,
{
}

/// A token that the top-k filter drops is no more likely than one that it keeps.
pub proof fn law_top_k_keeps_the_likeliest(probs: Seq<u32>, k: nat, i: int, j: int)
    requires
        0 < k < probs.len() <= u32::MAX,
        0 <= i < probs.len(),
        0 <= j < probs.len(),
        !float::is_nan(probs[i]),
        !float::is_nan(probs[j]),
        listed(ranking::top(probs, k), i),
        !listed(ranking::top(probs, k), j),
    ensures
        top_k_filtered(probs, k)[i] == probs[i],
        top_k_filtered(probs, k)[j] == 0,
        !order::less(probs[i], probs[j]),
{
    let out = ranking::top(probs, k);
    ranking::law_selection_exists(probs, k);
    let at = choose|at: int| 0 <= at < out.len() && out[at] == i;
    assert forall|m: int| 0 <= m < out.len() implies #[trigger] out[m] != j by {
        if out[m] == j {
            assert(listed(out, j));
        }
    }
    ranking::law_selected_score_highest(probs, out, at, j);
}

/// The top-k filter keeps as many tokens as it is asked to: the list of those
/// that it keeps has `k` different entries.
pub proof fn law_top_k_keeps_k(probs: Seq<u32>, k: nat)
    requires
        0 < k < probs.len() <= u32::MAX,
    ensures
        ranking::top(probs, k).len() == k,
        ranking::top(probs, k).no_duplicates(),
        forall|i: int|
            0 <= i < probs.len() ==> #[trigger] top_k_filtered(probs, k)[i] == if listed(
                ranking::top(probs, k),
                i,
            ) {
                probs[i]
            } else {
                0
            },
{
    ranking::law_selection_exists(probs, k);
}

/// The top-p filter always keeps the token that reaches the mass: whatever is
/// kept before it falls short, and with it the mass is reached.
pub proof fn law_top_p_reaches_the_mass(probs: Seq<u32>, p: u32, n: nat)
    requires
        n == nucleus_len(probs, ranking::top(probs, probs.len()), p, 0, 0),
        0 < n < probs.len() <= u32::MAX,
    ensures
        order::at_most(p, mass_along(probs, ranking::top(probs, probs.len()), n)),
        forall|m: nat|
            0 < m < n ==> !order::at_most(
                p,
                #[trigger] mass_along(probs, ranking::top(probs, probs.len()), m),
            ),
{
    let order = ranking::top(probs, probs.len());
    ranking::law_selection_exists(probs, probs.len());
    lemma_nucleus(probs, order, p, 0);
}

/// The mass of the first `n` tokens of an order.
pub open spec fn mass_along(probs: Seq<u32>, order: Seq<u32>, n: nat) -> u32
    decreases n,
{
    if n == 0 {
        0
    } else {
        arith::sum(mass_along(probs, order, (n - 1) as nat), probs[order[n - 1] as int])
    }
}

proof fn lemma_nucleus(probs: Seq<u32>, order: Seq<u32>, p: u32, i: nat)
    requires
        i <= order.len(),
    ensures
        ({
            let n = nucleus_len(probs, order, p, i, mass_along(probs, order, i));
            &&& i <= n <= order.len()
            &&& n < order.len() ==> i < n && order::at_most(p, mass_along(probs, order, n))
            &&& forall|m: nat|
                i < m < n ==> !order::at_most(p, #[trigger] mass_along(probs, order, m))
        }),
    decreases order.len() - i,
{
    if i < order.len() {
        let grown = mass_along(probs, order, i + 1);
        if !order::at_most(p, grown) {
            lemma_nucleus(probs, order, p, i + 1);
        }
    }
}

/// The most likely token passes the min-p filter, whatever part of it the
/// others have to reach.
pub proof fn law_min_p_keeps_the_likeliest(probs: Seq<u32>, min_p: u32, i: int)
    requires
        0 <= i < probs.len(),
        probs[i] == fold::highest(probs, 0),
        float::is_finite(probs[i]),
        order::less(0, min_p),
        order::less(min_p, ONE),
    ensures
        min_p_filtered(probs, min_p)[i] == probs[i],
{
    if !order::at_most(probs[i], 0) {
        order::law_part_is_no_larger(probs[i], min_p);
    }
}

/// Probabilities are between zero and one, in the order of the logits.
pub proof fn law_probabilities(logits: Seq<u32>, exp: spec_fn(u32) -> u32)
    requires
        weights::is_exponential(exp),
        weights::are_scores(logits),
    ensures
        forall|i: int|
            0 <= i < logits.len() ==> !float::is_negative(#[trigger] softmax(logits, exp)[i])
                && order::at_most(softmax(logits, exp)[i], ONE),
        forall|i: int, j: int|
            0 <= i < logits.len() && 0 <= j < logits.len() && order::at_most(logits[i], logits[j])
                ==> order::at_most(
                #[trigger] softmax(logits, exp)[i],
                #[trigger] softmax(logits, exp)[j],
            ),
{
    let top = fold::highest(logits, NEG_INF);
    if float::is_finite(top) {
        fold::law_highest(logits, NEG_INF);
        let at = choose|t: int| 0 <= t < logits.len() && logits[t] == top;
        assert(logits[at] == top);
        assert forall|i: int| 0 <= i < logits.len() implies order::at_most(
            #[trigger] logits[i],
            top,
        ) by {
            assert(!float::is_nan(logits[i]));
        }
        let w = weights::of_scores(logits, top, exp);
        weights::lemma_weights(logits, top, exp);
        assert(w[at] == ONE);
        fold::law_total_starts_from_zero(w);
        fold::law_total_is_no_smaller(w, 0);
        weights::lemma_parts(logits, top, fold::total(w), exp);
    }
}

/// Only a token with a finite logit is ever drawn, where there is one.
pub proof fn law_only_finite_is_drawn(
    s: SamplerView,
    logits: Seq<u32>,
    exp: spec_fn(u32) -> u32,
    i: int,
)
    requires
        float::is_zero(exp(NEG_INF)),
        weights::has_finite(logits),
        s.picks(logits, exp, i),
    ensures
        0 <= i < logits.len(),
        float::is_finite(logits[i]),
{
    law_argmax(logits, logits.len());
    let some = choose|k: int| 0 <= k < logits.len() && float::is_finite(#[trigger] logits[k]);
    assert(float::is_finite(logits[some]));
    let odds = s.odds(logits, exp);
    let u = s.rng.fraction();
    if !s.is_certain(logits, exp) && i != argmax(logits, logits.len()) {
        if !float::is_finite(logits[i]) {
            lemma_no_odds(s, logits, exp, i);
        }
        if exists|k: int| is_hit(odds, u, k) {
            lemma_hit_has_mass(odds, s.rng, i);
        }
    }
}

/// A token without a finite logit has no odds.
proof fn lemma_no_odds(s: SamplerView, logits: Seq<u32>, exp: spec_fn(u32) -> u32, i: int)
    requires
        float::is_zero(exp(NEG_INF)),
        0 <= i < logits.len(),
        !float::is_finite(logits[i]),
    ensures
        float::is_zero(s.odds(logits, exp)[i]) || float::is_nan(s.odds(logits, exp)[i]),
{
    let c = cooled(logits, s.params.temperature);
    let top = fold::highest(c, NEG_INF);
    let probs = softmax(c, exp);
    assert(c[i] == NEG_INF);
    if float::is_finite(top) {
        let w = weights::of_scores(c, top, exp);
        assert(w[i] == exp(arith::difference(NEG_INF, top)));
        lemma_zero_times(w[i], arith::quotient(ONE, fold::total(w)));
    }
    law_filters_only_drop(probs, s.params, i);
    let k = s.candidates(logits, exp);
    lemma_zero_times(k[i], arith::quotient(ONE, fold::total(k)));
}

/// Zero or no number, times anything, is zero or no number.
proof fn lemma_zero_times(a: u32, b: u32)
    requires
        float::is_zero(a) || float::is_nan(a),
    ensures
        float::is_zero(arith::product(a, b)) || float::is_nan(arith::product(a, b)),
{
    if float::is_zero(a) && float::is_finite(b) {
        order::law_times_zero(b, a);
        order::law_order_of_two(a, b);
    }
}

/// A larger fraction draws the same token or a later one.
pub proof fn law_draws_in_order(
    probs: Seq<u32>,
    a: Xoshiro256StarStar,
    b: Xoshiro256StarStar,
    logits: Seq<u32>,
    i: int,
    j: int,
    some: int,
)
    requires
        is_drawn(probs, a.fraction(), logits, i),
        is_drawn(probs, b.fraction(), logits, j),
        order::at_most(a.fraction(), b.fraction()),
        0 <= some < probs.len(),
        order::less(0, probs[some]),
        forall|k: int| 0 <= k < probs.len() ==> !float::is_negative(#[trigger] probs[k]),
    ensures
        i <= j,
{
    let (u, v) = (a.fraction(), b.fraction());
    if exists|k: int| is_hit(probs, u, k) {
        lemma_hit_has_mass(probs, a, i);
        assert(order::less(0, probs[i]));
        if exists|k: int| is_hit(probs, v, k) {
            if j < i {
                assert(!order::less(u, mass(probs, (j + 1) as nat)));
            }
        } else {
            lemma_last_drawn(probs, v, some);
            if j < i {
                assert(!order::less(0, probs[i]));
            }
        }
    } else {
        if exists|k: int| is_hit(probs, v, k) {
            let k = choose|k: int| is_hit(probs, v, k);
            lemma_no_hit(probs, u, k);
            assert(order::less(v, mass(probs, (k + 1) as nat)));
        }
        lemma_last_drawn(probs, u, some);
        lemma_last_drawn(probs, v, some);
        if j < i {
            assert(!order::less(0, probs[i]));
        }
    }
}

/// Where nothing is hit, there is a last token with a probability.
proof fn lemma_last_drawn(probs: Seq<u32>, u: u32, some: int)
    requires
        forall|k: int| !is_hit(probs, u, k),
        0 <= some < probs.len(),
        order::less(0, probs[some]),
    ensures
        exists|k: int| is_last(probs, u, k),
{
    lemma_last_positive(probs, some, probs.len());
    let k = choose|k: int|
        #![trigger probs[k]]
        0 <= k < probs.len() && order::less(0, probs[k]) && forall|m: int|
            k < m < probs.len() ==> !order::less(0, #[trigger] probs[m]);
    assert forall|m: int| 0 <= m < probs.len() implies !order::less(
        u,
        #[trigger] mass(probs, (m + 1) as nat),
    ) by {
        lemma_no_hit(probs, u, m);
    }
    assert(is_last(probs, u, k));
}

} // verus!
