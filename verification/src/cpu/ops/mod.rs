//! Kernels. Each checks its arguments and then computes.

pub mod accuracy;
pub mod angles;
pub mod dsv4_quant;
pub mod formats;
pub mod gates;
pub mod hadamard;
pub mod products;
pub mod q8_0;
pub mod quant_matmul;
pub mod relations;
pub mod rope;
pub mod scalar;
pub mod signs;
pub mod sinkhorn;
pub mod trips;
pub mod yarn;

use crate::cpu::capability::SimdTier;
use crate::cpu::error::Error;
use crate::float::fold::ONE;
use crate::float::function;
use vstd::prelude::*;

verus! {

/// Divides `x`, times its weights, by the root of its mean square. `sqrt` is
/// the square root.
pub fn rmsnorm<F: Fn(u32) -> u32>(
    out: &mut [u32],
    x: &[u32],
    weight: &[u32],
    eps: u32,
    tier: SimdTier,
    sqrt: &F,
) -> (res: Result<(), Error>)
    requires
        function::total(sqrt),
    ensures
        final(out)@.len() == old(out)@.len(),
        x@.len() != weight@.len() || x@.len() != old(out)@.len() ==> {
            &&& final(out)@ == old(out)@
            &&& res == Err::<(), Error>(
                Error::ShapeMismatch("rmsnorm: out / x / weight length mismatch"),
            )
        },
        x@.len() == weight@.len() && x@.len() == old(out)@.len() && x@.len() == 0 ==> {
            &&& final(out)@ == old(out)@
            &&& res == Err::<(), Error>(Error::ShapeMismatch("rmsnorm: empty input"))
        },
        x@.len() == weight@.len() && x@.len() == old(out)@.len() && x@.len() > 0 ==> {
            &&& res is Ok
            &&& forall|g: spec_fn(u32) -> u32| #[trigger]
                function::computes(sqrt, g) ==> final(out)@ == scalar::normed(x@, weight@, eps, g)
        },
{
    if x.len() != weight.len() || x.len() != out.len() {
        return Err(Error::ShapeMismatch("rmsnorm: out / x / weight length mismatch"));
    }
    if x.len() == 0 {
        return Err(Error::ShapeMismatch("rmsnorm: empty input"));
    }
    scalar::rmsnorm(out, x, weight, eps, sqrt);
    Ok(())
}

/// Index of the highest number, the first one of several.
pub fn argmax(logits: &[u32], tier: SimdTier) -> (res: Result<u32, Error>)
    requires
        logits@.len() <= u32::MAX,
    ensures
        logits@.len() == 0 ==> res == Err::<u32, Error>(
            Error::ShapeMismatch("argmax: empty input"),
        ),
        logits@.len() > 0 ==> res is Ok && res->Ok_0 == scalar::first_highest(
            logits@,
            logits@.len(),
        ),
{
    if logits.len() == 0 {
        return Err(Error::ShapeMismatch("argmax: empty input"));
    }
    Ok(scalar::argmax(logits))
}

/// Multiplies `up` by the gates. `exp` is the exponential.
pub fn swiglu<F: Fn(u32) -> u32>(
    out: &mut [u32],
    gate: &[u32],
    up: &[u32],
    tier: SimdTier,
    exp: &F,
) -> (res: Result<(), Error>)
    requires
        function::total(exp),
    ensures
        final(out)@.len() == old(out)@.len(),
        old(out)@.len() != gate@.len() || old(out)@.len() != up@.len() ==> {
            &&& final(out)@ == old(out)@
            &&& res == Err::<(), Error>(
                Error::ShapeMismatch("swiglu: out / gate / up length mismatch"),
            )
        },
        old(out)@.len() == gate@.len() && old(out)@.len() == up@.len() ==> {
            &&& res is Ok
            &&& forall|g: spec_fn(u32) -> u32| #[trigger]
                function::computes(exp, g) ==> final(out)@ == scalar::gated_all(gate@, up@, g)
        },
{
    if out.len() != gate.len() || out.len() != up.len() {
        return Err(Error::ShapeMismatch("swiglu: out / gate / up length mismatch"));
    }
    scalar::swiglu(out, gate, up, exp);
    Ok(())
}

/// Replaces scores by their softmax. `exp` is the exponential.
pub fn softmax<F: Fn(u32) -> u32>(x: &mut [u32], tier: SimdTier, exp: &F) -> (res: Result<(), Error>)
    requires
        function::total(exp),
    ensures
        res is Ok,
        final(x)@.len() == old(x)@.len(),
        forall|g: spec_fn(u32) -> u32| #[trigger]
            function::computes(exp, g) ==> final(x)@ == scalar::softmaxed(old(x)@, g),
{
    scalar::softmax(x, exp);
    Ok(())
}

/// Replaces scores by their softmax with a sink, and returns the part of the
/// weight that the sink takes. `exp` is the exponential.
pub fn softmax_attn<F: Fn(u32) -> u32>(
    scores: &mut [u32],
    sink: u32,
    tier: SimdTier,
    exp: &F,
) -> (res: Result<u32, Error>)
    requires
        function::total(exp),
    ensures
        res is Ok,
        final(scores)@.len() == old(scores)@.len(),
        old(scores)@.len() == 0 ==> res->Ok_0 == ONE,
        forall|g: spec_fn(u32) -> u32| #[trigger]
            function::computes(exp, g) ==> {
                &&& final(scores)@ == scalar::sink_softmaxed(old(scores)@, sink, g)
                &&& res->Ok_0 == scalar::sink_part(old(scores)@, sink, g)
            },
{
    Ok(scalar::softmax_attn(scores, sink, exp))
}

} // verus!
