//! Verified core of the rsLLM inference engine.

pub mod buffer;
pub mod cal;
pub mod cli;
pub mod cpu;
pub mod engine;
pub mod float;
pub mod gguf;
pub mod kvcache;
pub mod ranking;
pub mod rng;
pub mod sampler;
pub mod text;

use vstd::prelude::*;

verus! {

/// The version of this library.
pub fn version() -> (v: &'static str)
    ensures
        v == "0.1.0",
{
    "0.1.0"
}

} // verus!
