//! Kernels one number at a time. Their arguments have been checked before.

use crate::buffer::overwrite;
use crate::float;
use crate::float::arith;
use crate::float::arith::{fadd, fdiv, fmul, fneg, fsub, from_u64};
use crate::float::fold;
use crate::float::fold::{dot_of, highest_of, lower, scale, total_of, total_on, ONE};
use crate::float::function;
use crate::float::order;
use crate::float::order::{fle, flt};
use crate::float::weights;
use vstd::prelude::*;

verus! {

/// One over the root of the mean square of `x`, where `eps` is added to the
/// mean.
pub open spec fn inverse_rms(x: Seq<u32>, eps: u32, sqrt: spec_fn(u32) -> u32) -> u32 {
    let mean = arith::quotient(fold::dot(x, x, x.len()), arith::of_integer(x.len() as int));
    arith::quotient(ONE, sqrt(arith::sum(mean, eps)))
}

/// `x` times its weights, divided by the root of its mean square.
pub open spec fn normed(
    x: Seq<u32>,
    weight: Seq<u32>,
    eps: u32,
    sqrt: spec_fn(u32) -> u32,
) -> Seq<u32> {
    Seq::new(
        x.len(),
        |i: int|
            arith::product(arith::product(x[i], weight[i]), inverse_rms(x, eps, sqrt)),
    )
}

/// Index of the highest of the first `n` numbers, the first one of several.
pub open spec fn first_highest(s: Seq<u32>, n: nat) -> nat
    decreases n,
{
    if n <= 1 {
        0
    } else {
        let best = first_highest(s, (n - 1) as nat);
        if order::less(s[best as int], s[n - 1]) {
            (n - 1) as nat
        } else {
            best
        }
    }
}

/// The logistic function. The exponential is never taken of a positive number.
pub open spec fn logistic(x: u32, exp: spec_fn(u32) -> u32) -> u32 {
    if order::at_most(0, x) {
        arith::quotient(ONE, arith::sum(ONE, exp(arith::negated(x))))
    } else {
        arith::quotient(exp(x), arith::sum(ONE, exp(x)))
    }
}

/// A number times its logistic function.
pub open spec fn gated(x: u32, exp: spec_fn(u32) -> u32) -> u32 {
    arith::product(x, logistic(x, exp))
}

/// `up`, each number times its gate.
pub open spec fn gated_all(gate: Seq<u32>, up: Seq<u32>, exp: spec_fn(u32) -> u32) -> Seq<u32> {
    Seq::new(gate.len(), |i: int| arith::product(gated(gate[i], exp), up[i]))
}

/// The softmax of scores.
pub open spec fn softmaxed(s: Seq<u32>, exp: spec_fn(u32) -> u32) -> Seq<u32> {
    if s.len() == 0 {
        s
    } else {
        let w = weights::of_scores(s, fold::highest(s.skip(1), s[0]), exp);
        fold::scaled(w, arith::quotient(ONE, fold::total(w)))
    }
}

/// One over the sum of the weights of scores and of a sink.
pub open spec fn sink_inverse(s: Seq<u32>, sink: u32, exp: spec_fn(u32) -> u32) -> u32 {
    let top = fold::highest(s, sink);
    arith::quotient(
        ONE,
        fold::total_from(weights::of_scores(s, top, exp), exp(arith::difference(sink, top))),
    )
}

/// The softmax of scores with a sink that takes part of the weight.
pub open spec fn sink_softmaxed(s: Seq<u32>, sink: u32, exp: spec_fn(u32) -> u32) -> Seq<u32> {
    if s.len() == 0 {
        s
    } else {
        fold::scaled(weights::of_scores(s, fold::highest(s, sink), exp), sink_inverse(s, sink, exp))
    }
}

/// The part of the weight that the sink takes.
pub open spec fn sink_part(s: Seq<u32>, sink: u32, exp: spec_fn(u32) -> u32) -> u32 {
    if s.len() == 0 {
        ONE
    } else {
        arith::product(
            exp(arith::difference(sink, fold::highest(s, sink))),
            sink_inverse(s, sink, exp),
        )
    }
}

/// Divides `x`, times its weights, by the root of its mean square. `sqrt` is
/// the square root.
pub fn rmsnorm<F: Fn(u32) -> u32>(
    out: &mut [u32],
    x: &[u32],
    weight: &[u32],
    eps: u32,
    sqrt: &F,
)
    requires
        function::total(sqrt),
        old(out)@.len() == x@.len(),
        weight@.len() == x@.len(),
    ensures
        final(out)@.len() == old(out)@.len(),
        forall|g: spec_fn(u32) -> u32| #[trigger]
            function::computes(sqrt, g) ==> final(out)@ == normed(x@, weight@, eps, g),
{
    let n: usize = x.len();
    let sumsq: u32 = dot_of(x, 0, x, 0, n);
    assert(x@.subrange(0, 0 + n) =~= x@);
    let mean: u32 = fdiv(sumsq, from_u64(n as u64));
    let root: u32 = function::call(sqrt, fadd(mean, eps));
    let recip: u32 = fdiv(ONE, root);
    let mut r: Vec<u32> = Vec::new();
    for i in 0..n
        invariant
            n == x@.len(),
            n == weight@.len(),
            r@.len() == i,
            forall|k: int|
                0 <= k < i ==> #[trigger] r@[k] == arith::product(
                    arith::product(x@[k], weight@[k]),
                    recip,
                ),
    {
        r.push(fmul(fmul(x[i], weight[i]), recip));
    }
    overwrite(out, r.as_slice());
    assert forall|g: spec_fn(u32) -> u32| #[trigger] function::computes(sqrt, g) implies r@
        == normed(x@, weight@, eps, g) by {
        assert(recip == inverse_rms(x@, eps, g));
        assert(r@ =~= normed(x@, weight@, eps, g));
    }
}

/// Index of the highest number, the first one of several.
pub fn argmax(logits: &[u32]) -> (r: u32)
    requires
        0 < logits@.len() <= u32::MAX,
    ensures
        r == first_highest(logits@, logits@.len()),
        r < logits@.len(),
{
    let n: usize = logits.len();
    let mut best: usize = 0;
    for i in 1..n
        invariant
            n == logits@.len(),
            best < i,
            best == first_highest(logits@, i as nat),
    {
        if flt(logits[best], logits[i]) {
            best = i;
        }
    }
    best as u32
}

/// The logistic function.
pub fn sigmoid<F: Fn(u32) -> u32>(x: u32, exp: &F) -> (r: u32)
    requires
        function::total(exp),
    ensures
        forall|g: spec_fn(u32) -> u32| #[trigger]
            function::computes(exp, g) ==> r == logistic(x, g),
{
    if fle(0, x) {
        let e: u32 = function::call(exp, fneg(x));
        fdiv(ONE, fadd(ONE, e))
    } else {
        let e: u32 = function::call(exp, x);
        fdiv(e, fadd(ONE, e))
    }
}

/// A number times its logistic function.
pub fn silu<F: Fn(u32) -> u32>(x: u32, exp: &F) -> (r: u32)
    requires
        function::total(exp),
    ensures
        forall|g: spec_fn(u32) -> u32| #[trigger]
            function::computes(exp, g) ==> r == gated(x, g),
{
    fmul(x, sigmoid(x, exp))
}

/// Multiplies `up` by the gates.
pub fn swiglu<F: Fn(u32) -> u32>(out: &mut [u32], gate: &[u32], up: &[u32], exp: &F)
    requires
        function::total(exp),
        old(out)@.len() == gate@.len(),
        up@.len() == gate@.len(),
    ensures
        final(out)@.len() == old(out)@.len(),
        forall|g: spec_fn(u32) -> u32| #[trigger]
            function::computes(exp, g) ==> final(out)@ == gated_all(gate@, up@, g),
{
    let n: usize = gate.len();
    let mut r: Vec<u32> = Vec::new();
    for i in 0..n
        invariant
            n == gate@.len(),
            n == up@.len(),
            function::total(exp),
            r@.len() == i,
            forall|g: spec_fn(u32) -> u32| #[trigger]
                function::computes(exp, g) ==> forall|k: int|
                    0 <= k < i ==> #[trigger] r@[k] == arith::product(gated(gate@[k], g), up@[k]),
    {
        r.push(fmul(silu(gate[i], exp), up[i]));
    }
    overwrite(out, r.as_slice());
    assert forall|g: spec_fn(u32) -> u32| #[trigger] function::computes(exp, g) implies r@
        == gated_all(gate@, up@, g) by {
        assert(r@ =~= gated_all(gate@, up@, g));
    }
}

/// Replaces scores by their softmax.
pub fn softmax<F: Fn(u32) -> u32>(x: &mut [u32], exp: &F)
    requires
        function::total(exp),
    ensures
        final(x)@.len() == old(x)@.len(),
        old(x)@.len() == 0 ==> final(x)@ == old(x)@,
        forall|g: spec_fn(u32) -> u32| #[trigger]
            function::computes(exp, g) ==> final(x)@ == softmaxed(old(x)@, g),
{
    let n: usize = x.len();
    if n == 0 {
        return ;
    }
    let first: u32 = x[0];
    let top: u32 = highest_of(vstd::slice::slice_subrange(x, 1, n), first);
    assert(x@.subrange(1, n as int) =~= x@.skip(1));
    let below: Vec<u32> = lower(x, top);
    let w: Vec<u32> = function::apply(exp, below.as_slice());
    let r: Vec<u32> = scale(w.as_slice(), fdiv(ONE, total_of(w.as_slice())));
    overwrite(x, r.as_slice());
}

/// Replaces scores by their softmax with a sink, and returns the part of the
/// weight that the sink takes.
pub fn softmax_attn<F: Fn(u32) -> u32>(scores: &mut [u32], sink: u32, exp: &F) -> (part: u32)
    requires
        function::total(exp),
    ensures
        final(scores)@.len() == old(scores)@.len(),
        old(scores)@.len() == 0 ==> final(scores)@ == old(scores)@ && part == ONE,
        forall|g: spec_fn(u32) -> u32| #[trigger]
            function::computes(exp, g) ==> {
                &&& final(scores)@ == sink_softmaxed(old(scores)@, sink, g)
                &&& part == sink_part(old(scores)@, sink, g)
            },
{
    let n: usize = scores.len();
    if n == 0 {
        return ONE;
    }
    let top: u32 = highest_of(scores, sink);
    let sunk: u32 = function::call(exp, fsub(sink, top));
    let below: Vec<u32> = lower(scores, top);
    let w: Vec<u32> = function::apply(exp, below.as_slice());
    let inv: u32 = fdiv(ONE, total_on(w.as_slice(), sunk));
    let r: Vec<u32> = scale(w.as_slice(), inv);
    overwrite(scores, r.as_slice());
    fmul(sunk, inv)
}

/// Where every entry is a number, none is higher than the one at
/// `first_highest`, and no earlier one is as high.
pub proof fn law_first_highest(s: Seq<u32>, n: nat)
    requires
        0 < n <= s.len(),
        forall|i: int| 0 <= i < n ==> !float::is_nan(#[trigger] s[i]),
    ensures
        first_highest(s, n) < n,
        forall|i: int|
            0 <= i < n ==> order::at_most(#[trigger] s[i], s[first_highest(s, n) as int]),
        forall|i: int|
            0 <= i < first_highest(s, n) ==> order::less(
                #[trigger] s[i],
                s[first_highest(s, n) as int],
            ),
    decreases n,
{
    if n > 1 {
        law_first_highest(s, (n - 1) as nat);
        assert(!float::is_nan(s[n - 1]));
    } else {
        assert(!float::is_nan(s[0]));
    }
}

/// A gated zero is zero, whichever finite number the logistic function has
/// there.
pub proof fn law_gated_zero(exp: spec_fn(u32) -> u32)
    requires
        float::is_finite(logistic(0, exp)),
    ensures
        float::is_zero(gated(0, exp)),
{
    order::law_times_zero(logistic(0, exp), 0);
    order::law_order_of_two(logistic(0, exp), 0);
}

/// The logistic function of a number is between zero and one.
pub proof fn law_logistic_is_a_part(x: u32, exp: spec_fn(u32) -> u32)
    requires
        weights::is_exponential(exp),
        !float::is_nan(x),
    ensures
        !float::is_negative(logistic(x, exp)),
        order::at_most(logistic(x, exp), ONE),
{
    let e = if order::at_most(0, x) {
        exp(arith::negated(x))
    } else {
        exp(x)
    };
    assert(!float::is_negative(e) && order::at_most(e, ONE));
    order::law_sum_is_no_smaller(ONE, e);
    let t = arith::sum(ONE, e);
    order::law_quotient_is_a_part(ONE, t);
    order::law_quotient_is_a_part(e, t);
}

/// A softmax is between zero and one, and keeps the order of the scores.
pub proof fn law_softmax_parts(s: Seq<u32>, exp: spec_fn(u32) -> u32)
    requires
        weights::is_exponential(exp),
        weights::are_scores(s),
        weights::has_finite(s),
    ensures
        forall|i: int|
            0 <= i < s.len() ==> !float::is_negative(#[trigger] softmaxed(s, exp)[i])
                && order::at_most(softmaxed(s, exp)[i], ONE),
        forall|i: int, j: int|
            0 <= i < s.len() && 0 <= j < s.len() && order::at_most(s[i], s[j]) ==> order::at_most(
                #[trigger] softmaxed(s, exp)[i],
                #[trigger] softmaxed(s, exp)[j],
            ),
{
    let rest = s.skip(1);
    let top = fold::highest(rest, s[0]);
    let k = choose|k: int| 0 <= k < s.len() && float::is_finite(#[trigger] s[k]);
    if k > 0 {
        assert(rest[k - 1] == s[k]);
    }
    weights::lemma_finite_top(rest, s[0]);
    fold::law_highest(rest, s[0]);
    assert forall|i: int| 0 <= i < s.len() implies order::at_most(#[trigger] s[i], top) by {
        if i > 0 {
            assert(s[i] == rest[i - 1]);
        }
    }
    let w = weights::of_scores(s, top, exp);
    weights::lemma_weights(s, top, exp);
    let at = if top == s[0] {
        0
    } else {
        1 + choose|t: int| 0 <= t < rest.len() && rest[t] == top
    };
    assert(s[at] == top);
    assert(w[at] == ONE);
    fold::law_total_starts_from_zero(w);
    fold::law_total_is_no_smaller(w, 0);
    weights::lemma_parts(s, top, fold::total(w), exp);
}

/// A softmax with a sink is between zero and one, and keeps the order of the
/// scores; so is the part of the sink.
pub proof fn law_sink_parts(s: Seq<u32>, sink: u32, exp: spec_fn(u32) -> u32)
    requires
        weights::is_exponential(exp),
        weights::are_scores(s),
        !float::is_nan(sink),
        sink != float::INFINITY,
        float::is_finite(sink) || weights::has_finite(s),
    ensures
        !float::is_negative(sink_part(s, sink, exp)),
        order::at_most(sink_part(s, sink, exp), ONE),
        forall|i: int|
            0 <= i < s.len() ==> !float::is_negative(#[trigger] sink_softmaxed(s, sink, exp)[i])
                && order::at_most(sink_softmaxed(s, sink, exp)[i], ONE),
        forall|i: int, j: int|
            0 <= i < s.len() && 0 <= j < s.len() && order::at_most(s[i], s[j]) ==> order::at_most(
                #[trigger] sink_softmaxed(s, sink, exp)[i],
                #[trigger] sink_softmaxed(s, sink, exp)[j],
            ),
{
    let top = fold::highest(s, sink);
    weights::lemma_finite_top(s, sink);
    fold::law_highest(s, sink);
    weights::lemma_weights(s, top, exp);
    weights::law_no_positive_exponent(sink, top);
    let w = weights::of_scores(s, top, exp);
    let sunk = exp(arith::difference(sink, top));
    fold::law_total_is_no_smaller(w, sunk);
    if top != sink {
        let at = choose|t: int| 0 <= t < s.len() && s[t] == top;
        assert(w[at] == ONE);
    }
    let sum = fold::total_from(w, sunk);
    weights::lemma_parts(s, top, sum, exp);
    let inv = arith::quotient(ONE, sum);
    order::law_part_is_no_larger(inv, sunk);
    order::law_order_of_two(inv, sunk);
}

/// A sink of minus infinity takes nothing: what is left is the plain softmax.
pub proof fn law_no_sink(s: Seq<u32>, exp: spec_fn(u32) -> u32)
    requires
        weights::are_scores(s),
        weights::has_finite(s),
        exp(fold::NEG_INF) == 0,
    ensures
        sink_softmaxed(s, fold::NEG_INF, exp) == softmaxed(s, exp),
{
    let top = fold::highest(s, fold::NEG_INF);
    assert(float::is_finite(top) && top == fold::highest(s.skip(1), s[0])) by {
        weights::lemma_finite_top(s, fold::NEG_INF);
        lemma_same_top(s);
    }
    assert(exp(arith::difference(fold::NEG_INF, top)) == 0);
    let w = weights::of_scores(s, top, exp);
    assert(fold::total(w) == fold::total_from(w, 0)) by {
        fold::law_total_starts_from_zero(w);
    }
}

proof fn lemma_same_top(s: Seq<u32>)
    requires
        s.len() > 0,
        forall|i: int| 0 <= i < s.len() ==> !float::is_nan(#[trigger] s[i]),
    ensures
        fold::highest(s, fold::NEG_INF) == fold::highest(s.skip(1), s[0]),
    decreases s.len(),
{
    let rest = s.drop_last();
    if s.len() > 1 {
        assert forall|i: int| 0 <= i < rest.len() implies !float::is_nan(#[trigger] rest[i]) by {
            assert(rest[i] == s[i]);
        }
        lemma_same_top(rest);
        assert(s.skip(1).drop_last() =~= rest.skip(1));
    } else {
        assert(!float::is_nan(s[0]));
        assert(fold::highest(rest, fold::NEG_INF) == fold::NEG_INF);
        assert(fold::highest(s.skip(1), s[0]) == s[0]);
    }
}

/// Where no score is a number, or all are minus infinity, no softmax is a
/// number.
pub proof fn law_hopeless_scores(s: Seq<u32>, exp: spec_fn(u32) -> u32, i: int)
    requires
        forall|x: u32| float::is_nan(x) ==> float::is_nan(#[trigger] exp(x)),
        ({
            ||| forall|k: int| 0 <= k < s.len() ==> float::is_nan(#[trigger] s[k])
            ||| forall|k: int| 0 <= k < s.len() ==> #[trigger] s[k] == fold::NEG_INF
        }),
        0 <= i < s.len(),
    ensures
        float::is_nan(softmaxed(s, exp)[i]),
{
    let rest = s.skip(1);
    let top = fold::highest(rest, s[0]);
    let w = weights::of_scores(s, top, exp);
    if s[0] == fold::NEG_INF {
        fold::law_highest(rest, s[0]);
        if top != s[0] {
            let k = choose|k: int| 0 <= k < rest.len() && rest[k] == top;
            assert(s[k + 1] == top);
        }
    }
    let last = s.len() - 1;
    assert(w[last] == exp(arith::difference(s[last], top)));
    assert(float::is_nan(fold::total(w)));
}

} // verus!
