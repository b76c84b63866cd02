//! Functions of one number that callers supply, such as the exponential.
//!
//! A caller hands such a function over as a closure on bits. Contracts speak
//! of it through `computes`: whatever mathematical function the closure
//! computes, the result is the one built from that function.

use vstd::prelude::*;

verus! {

/// Whether the closure can be called on every number.
pub open spec fn total<F: Fn(u32) -> u32>(f: &F) -> bool {
    forall|v: u32| #[trigger] call_requires(f, (v,))
}

/// Whether the closure returns `g` of its argument and nothing else.
pub open spec fn computes<F: Fn(u32) -> u32>(f: &F, g: spec_fn(u32) -> u32) -> bool {
    forall|v: u32, r: u32| #[trigger] call_ensures(f, (v,), r) ==> r == g(v)
}

/// The function applied to each number in turn.
pub open spec fn applied(xs: Seq<u32>, g: spec_fn(u32) -> u32) -> Seq<u32> {
    Seq::new(xs.len(), |i: int| g(xs[i]))
}

/// Calls the closure on each number in turn.
pub fn apply<F: Fn(u32) -> u32>(f: &F, xs: &[u32]) -> (ys: Vec<u32>)
    requires
        total(f),
    ensures
        ys@.len() == xs@.len(),
        forall|i: int| 0 <= i < xs@.len() ==> call_ensures(f, (xs@[i],), #[trigger] ys@[i]),
        forall|g: spec_fn(u32) -> u32| #[trigger] computes(f, g) ==> ys@ == applied(xs@, g),
{
    let mut ys: Vec<u32> = Vec::new();
    let n: usize = xs.len();
    for i in 0..n
        invariant
            n == xs@.len(),
            total(f),
            ys@.len() == i,
            forall|k: int| 0 <= k < i ==> call_ensures(f, (xs@[k],), #[trigger] ys@[k]),
    {
        let x: u32 = xs[i];
        ys.push(f(x));
    }
    assert forall|g: spec_fn(u32) -> u32| #[trigger] computes(f, g) implies ys@ == applied(xs@, g) by {
        assert forall|k: int| 0 <= k < n implies ys@[k] == applied(xs@, g)[k] by {
            assert(call_ensures(f, (xs@[k],), ys@[k]));
        }
        assert(ys@ =~= applied(xs@, g));
    }
    ys
}

/// Calls the closure once.
pub fn call<F: Fn(u32) -> u32>(f: &F, x: u32) -> (y: u32)
    requires
        total(f),
    ensures
        call_ensures(f, (x,), y),
        forall|g: spec_fn(u32) -> u32| #[trigger] computes(f, g) ==> y == g(x),
{
    f(x)
}

} // verus!
