//! Weights of scores: the exponential of how far each score is below the
//! highest one.

use crate::float;
use crate::float::arith;
use crate::float::fold;
use crate::float::fold::ONE;
use crate::float::function;
use crate::float::order;
use vstd::prelude::*;

verus! {

/// The weights of scores, the highest of which is `top`.
pub open spec fn of_scores(s: Seq<u32>, top: u32, exp: spec_fn(u32) -> u32) -> Seq<u32> {
    function::applied(fold::lowered(s, top), exp)
}

/// Whether a function is an exponential as far as it is taken here: one at
/// zero, between zero and one below that, and growing.
pub open spec fn is_exponential(exp: spec_fn(u32) -> u32) -> bool {
    &&& forall|x: u32| float::is_zero(x) ==> #[trigger] exp(x) == ONE
    &&& forall|x: u32|
        order::at_most(x, 0) ==> !float::is_negative(#[trigger] exp(x)) && order::at_most(
            exp(x),
            ONE,
        )
    &&& forall|x: u32, y: u32|
        order::at_most(x, y) && order::at_most(y, 0) ==> order::at_most(
            #[trigger] exp(x),
            #[trigger] exp(y),
        )
}

/// Whether all of `s` are numbers below infinity.
pub open spec fn are_scores(s: Seq<u32>) -> bool {
    forall|i: int|
        0 <= i < s.len() ==> !float::is_nan(#[trigger] s[i]) && s[i] != float::INFINITY
}

/// Whether one of `s` is finite.
pub open spec fn has_finite(s: Seq<u32>) -> bool {
    exists|i: int| 0 <= i < s.len() && float::is_finite(#[trigger] s[i])
}

/// The exponential is never taken of a positive number: what is no higher than
/// `top`, less `top`, is at most zero; and `top` less itself is zero.
pub proof fn law_no_positive_exponent(x: u32, top: u32)
    requires
        order::at_most(x, top),
        float::is_finite(top),
    ensures
        order::at_most(arith::difference(x, top), 0),
        float::is_zero(arith::difference(top, top)),
{
    order::law_sum_keeps_order(x, top, arith::negated(top));
}

/// The highest of `start` and some scores is finite where one of them is, and
/// none is higher.
pub proof fn lemma_finite_top(s: Seq<u32>, start: u32)
    requires
        are_scores(s),
        !float::is_nan(start),
        start != float::INFINITY,
        float::is_finite(start) || has_finite(s),
    ensures
        float::is_finite(fold::highest(s, start)),
        order::at_most(start, fold::highest(s, start)),
        forall|i: int| 0 <= i < s.len() ==> order::at_most(#[trigger] s[i], fold::highest(s, start)),
{
    fold::law_highest(s, start);
    let top = fold::highest(s, start);
    if top != start {
        let k = choose|k: int| 0 <= k < s.len() && s[k] == top;
        assert(s[k] == top);
    }
    if !float::is_finite(start) {
        let k = choose|k: int| 0 <= k < s.len() && float::is_finite(#[trigger] s[k]);
        assert(!order::less(top, s[k]));
    }
}

/// The weights of scores, divided by a sum that is at least one, are between
/// zero and one, in the order of the scores.
pub proof fn lemma_parts(s: Seq<u32>, top: u32, sum: u32, exp: spec_fn(u32) -> u32)
    requires
        is_exponential(exp),
        float::is_finite(top),
        forall|i: int| 0 <= i < s.len() ==> order::at_most(#[trigger] s[i], top),
        !float::is_negative(sum),
        order::at_most(ONE, sum),
    ensures
        ({
            let inv = arith::quotient(ONE, sum);
            let parts = fold::scaled(of_scores(s, top, exp), inv);
            &&& !float::is_negative(inv) && order::at_most(inv, ONE)
            &&& forall|i: int|
                0 <= i < s.len() ==> !float::is_negative(#[trigger] parts[i])
                    && order::at_most(parts[i], ONE)
            &&& forall|i: int, j: int|
                0 <= i < s.len() && 0 <= j < s.len() && order::at_most(s[i], s[j])
                    ==> order::at_most(#[trigger] parts[i], #[trigger] parts[j])
        }),
{
    let inv = arith::quotient(ONE, sum);
    let w = of_scores(s, top, exp);
    let parts = fold::scaled(w, inv);
    order::law_quotient_is_a_part(ONE, sum);
    lemma_weights(s, top, exp);
    assert forall|i: int| 0 <= i < s.len() implies !float::is_negative(#[trigger] parts[i])
        && order::at_most(parts[i], ONE) by {
        assert(order::at_most(w[i], ONE));
        order::law_part_is_no_larger(inv, w[i]);
        order::law_order_of_two(inv, w[i]);
    }
    assert forall|i: int, j: int|
        0 <= i < s.len() && 0 <= j < s.len() && order::at_most(s[i], s[j]) implies order::at_most(
        #[trigger] parts[i],
        #[trigger] parts[j],
    ) by {
        let below = arith::difference(s[i], top);
        let above = arith::difference(s[j], top);
        law_no_positive_exponent(s[j], top);
        order::law_sum_keeps_order(s[i], s[j], arith::negated(top));
        assert(order::at_most(exp(below), exp(above)));
        assert(w[i] == exp(below) && w[j] == exp(above));
        order::law_product_keeps_order(w[i], w[j], inv);
    }
}

/// Weights are between zero and one.
pub proof fn lemma_weights(s: Seq<u32>, top: u32, exp: spec_fn(u32) -> u32)
    requires
        is_exponential(exp),
        float::is_finite(top),
        forall|i: int| 0 <= i < s.len() ==> order::at_most(#[trigger] s[i], top),
    ensures
        forall|i: int|
            0 <= i < s.len() ==> !float::is_negative(#[trigger] of_scores(s, top, exp)[i])
                && order::at_most(of_scores(s, top, exp)[i], ONE),
        forall|i: int|
            0 <= i < s.len() && s[i] == top ==> #[trigger] of_scores(s, top, exp)[i] == ONE,
{
    let w = of_scores(s, top, exp);
    assert forall|i: int| 0 <= i < s.len() implies !float::is_negative(#[trigger] w[i])
        && order::at_most(w[i], ONE) && (s[i] == top ==> w[i] == ONE) by {
        law_no_positive_exponent(s[i], top);
        assert(w[i] == exp(arith::difference(s[i], top)));
    }
}

} // verus!
