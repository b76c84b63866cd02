//! What every compute backend has in common.

use vstd::prelude::*;

verus! {

/// A family of compute backends.
#[derive(Debug, Clone, Copy, PartialEq, Eq, Structural)]
pub enum BackendKind {
    /// Processor.
    Cpu,
    /// NVIDIA graphics card.
    Cuda,
    /// Apple graphics card.
    Metal,
    /// Any graphics card, through wgpu.
    Wgpu,
}

/// What the elements of a backend buffer are.
#[allow(non_camel_case_types)]
#[derive(Debug, Clone, Copy, PartialEq, Eq, Structural)]
pub enum DType {
    /// Single-precision number.
    F32,
    /// Half-precision number.
    F16,
    /// Signed 32-bit integer.
    I32,
    /// Signed 8-bit integer.
    I8,
    /// Blocks of 32 elements in 34 bytes.
    Q8_0,
    /// Blocks of 256 elements in 144 bytes.
    Q4_K,
    /// Blocks of 256 elements in 84 bytes.
    Q2_K,
    /// Blocks of 256 elements in 66 bytes.
    IQ2_XXS,
    /// 8-bit number with four exponent digits.
    Fp8E4M3,
}

/// What a backend can do on this machine.
#[derive(Debug, Clone, PartialEq, Eq)]
pub struct BackendCapability {
    /// Name of the backend.
    pub backend: &'static str,
    /// Name of the instruction set in use.
    pub arch: &'static str,
    /// Whether it multiplies matrices in the Q4_K format.
    pub q4k_matmul: bool,
    /// Whether it multiplies matrices in the Q2_K format.
    pub q2k_matmul: bool,
    /// Whether it multiplies matrices in the IQ2_XXS format.
    pub iq2xxs_matmul: bool,
    /// Whether it keeps key/value rows as 8-bit numbers.
    pub fp8_kv_cache: bool,
}

/// A compute backend.
pub trait Backend {
    /// The family it belongs to.
    fn kind(&self) -> BackendKind;

    /// What it can do on this machine.
    fn capability(&self) -> BackendCapability;
}

} // verus!
