//! What probabilities and odds are, said of the logits and of the parameters.

use crate::cpu::ops::relations;
use crate::float;
use crate::float::arith;
use crate::float::bounds;
use crate::float::fold;
use crate::float::fold::{NEG_INF, ONE};
use crate::float::order;
use crate::float::shares;
use crate::float::weights;
use crate::sampler;
use crate::sampler::{SamplerView, SamplingParams};
use vstd::prelude::*;

verus! {

/// The probability of a logit is its share: the exponential of how far it is
/// below the highest logit, divided by the sum of all such exponentials.
pub proof fn law_probability_is_a_share(
    logits: Seq<u32>,
    exp: spec_fn(u32) -> u32,
    i: int,
) -> (at: int)
    requires
        weights::is_exponential(exp),
        weights::are_scores(logits),
        weights::has_finite(logits),
        logits.len() <= 0x10_0000,
        0 <= i < logits.len(),
    ensures
        relations::leads(logits, at),
        shares::is_share(
            sampler::softmax(logits, exp)[i],
            exp(arith::difference(logits[i], logits[at])),
            bounds::exact_total(shares::exponentials(logits, logits[at], exp)),
            logits.len(),
        ),
{
    let top = fold::highest(logits, NEG_INF);
    weights::lemma_finite_top(logits, NEG_INF);
    fold::law_highest(logits, NEG_INF);
    let at = choose|t: int| 0 <= t < logits.len() && logits[t] == top;
    assert(logits[at] == top);
    shares::lemma_shares(logits, at, exp, i);
    at
}

/// The odds of a token times the sum of all candidates are the candidate: each
/// candidate is divided by their sum.
pub proof fn law_odds(s: SamplerView, logits: Seq<u32>, exp: spec_fn(u32) -> u32, i: int)
    requires
        !s.is_certain(logits, exp),
        0 <= i < logits.len(),
        logits.len() <= 0x40_0000,
        float::is_finite(s.odds(logits, exp)[i]),
        s.candidates(logits, exp).len() == logits.len(),
        forall|k: int|
            0 <= k < logits.len() ==> !float::is_negative(
                #[trigger] s.candidates(logits, exp)[k],
            ),
    ensures
        ({
            let c = s.candidates(logits, exp);
            let sum = fold::total(c);
            let exact = bounds::exact_total(c);
            &&& relations::is_divided(s.odds(logits, exp)[i], sum, c[i])
            &&& 0x100_0000 * bounds::size(float::value(sum) - exact) <= 2 * c.len() * exact
        }),
{
    let c = s.candidates(logits, exp);
    let sum = fold::total(c);
    let inv = arith::quotient(ONE, sum);
    let out = s.odds(logits, exp)[i];
    assert(out == arith::product(c[i], inv));
    bounds::law_total_error(c);
    assert(order::less(0, sum));
    order::law_order_of_values(0, sum);
    arith::lemma_units_zero(0);
    arith::lemma_units_zero(float::magnitude(sum));
    float::sums::lemma_one();
    bounds::law_product_error(c[i], inv);
    bounds::law_quotient_error(ONE, sum);
    shares::lemma_back(
        float::value(out),
        float::value(c[i]),
        float::value(inv),
        float::value(sum),
        bounds::one(),
    );
}

/// The filters run one after another: first the number of tokens, then their
/// mass, then how far they may be below the likeliest.
pub proof fn law_filters_in_turn(probs: Seq<u32>, params: SamplingParams)
    ensures
        ({
            let none = SamplingParams { top_k: None, top_p: None, min_p: None, ..params };
            let k = SamplingParams { top_k: params.top_k, ..none };
            let p = SamplingParams { top_p: params.top_p, ..none };
            let m = SamplingParams { min_p: params.min_p, ..none };
            &&& sampler::filtered(probs, none) == probs
            &&& sampler::filtered(probs, params) == sampler::filtered(
                sampler::filtered(sampler::filtered(probs, k), p),
                m,
            )
        }),
{
}

/// The min-p filter keeps every token that is at least `min_p` times as likely
/// as the likeliest one; and one that it keeps is that likely, up to rounding.
pub proof fn law_min_p_bound(probs: Seq<u32>, min_p: u32, at: int, i: int)
    requires
        forall|k: int|
            0 <= k < probs.len() ==> float::is_finite(#[trigger] probs[k]) && !float::is_negative(
                probs[k],
            ),
        relations::leads(probs, at),
        order::less(0, probs[at]),
        order::less(0, min_p),
        order::less(min_p, ONE),
        0 <= i < probs.len(),
    ensures
        ({
            let bound = float::value(probs[at]) * float::value(min_p);
            let p = float::value(probs[i]) * bounds::one();
            let r = sampler::min_p_filtered(probs, min_p)[i];
            &&& r == probs[i] || r == 0
            &&& bound <= p ==> r == probs[i]
            &&& r == probs[i] && !float::is_zero(r) ==> 0x100_0000 * bound <= 0x100_0000 * p + bound
                + 0x80_0000 * bounds::one()
        }),
{
    let top = fold::highest(probs, 0);
    fold::law_highest(probs, 0);
    let one = bounds::one();
    assert(!order::less(top, probs[at]));
    if top != 0 {
        let k = choose|k: int| 0 <= k < probs.len() && probs[k] == top;
        assert(order::at_most(probs[k], probs[at]));
    }
    order::law_order_of_values(top, probs[at]);
    let threshold = arith::product(top, min_p);
    arith::lemma_units_zero(float::magnitude(top));
    order::law_part_is_no_larger(top, min_p);
    bounds::law_product_error(top, min_p);
    float::sums::lemma_one();
    let x = float::value(top) * float::value(min_p);
    assert(x >= 0) by (nonlinear_arith)
        requires
            x == float::value(top) * float::value(min_p),
            float::value(top) >= 0,
            float::value(min_p) >= 0,
    ;
    order::law_order_of_values(probs[i], threshold);
    if x <= float::value(probs[i]) * one {
        order::law_rounding_keeps_bounds(
            float::units(float::magnitude(top)) * float::units(float::magnitude(min_p)),
            vstd::arithmetic::power2::pow2(149),
            float::magnitude(probs[i]),
        );
    } else if !order::less(probs[i], threshold) {
        assert(float::value(threshold) * one <= float::value(probs[i]) * one) by (nonlinear_arith)
            requires
                float::value(threshold) <= float::value(probs[i]),
                one > 0,
        ;
    }
}

/// At a temperature that is not above zero, the highest logit is taken whatever
/// the random numbers are: none is used up, and the logits stay.
pub proof fn law_no_temperature(
    s: SamplerView,
    logits: Seq<u32>,
    exp: spec_fn(u32) -> u32,
    i: int,
)
    requires
        !float::is_finite(s.params.temperature) || float::value(s.params.temperature) <= 0,
    ensures
        s.picks(logits, exp, i) <==> i == sampler::argmax(logits, logits.len()),
        s.after(logits, exp) == s,
        s.leaves(logits, exp) == logits,
{
    if float::is_finite(s.params.temperature) {
        order::law_order_of_values(s.params.temperature, 0);
        arith::lemma_units_zero(0);
    }
}

} // verus!
