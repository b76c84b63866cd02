//! Which instruction set the kernels use.

use crate::cal::BackendCapability;
use vstd::prelude::*;

verus! {

/// The architecture of a host, and the extensions of its instruction set.
#[derive(Debug, Clone, Copy, PartialEq, Eq, Structural)]
pub enum HostFeatures {
    /// ARM with 64 bits.
    Arm {
        /// Dot products of 8-bit integers.
        dotprod: bool,
    },
    /// x86 with 64 bits.
    X86 {
        /// 512-bit vectors, foundation.
        avx512f: bool,
        /// 512-bit vectors of bytes and words.
        avx512bw: bool,
        /// 256-bit vectors.
        avx2: bool,
    },
    /// Any other architecture.
    Other,
}

/// An instruction set that kernels may use.
#[derive(Debug, Clone, Copy, PartialEq, Eq, Structural)]
pub enum SimdTier {
    /// ARM with dot products.
    Neon,
    /// x86 with 512-bit vectors of bytes and words.
    Avx512,
    /// x86 with 256-bit vectors.
    Avx2,
    /// No vectors.
    Scalar,
}

impl SimdTier {
    /// The name of the instruction set.
    pub open spec fn label(self) -> &'static str {
        match self {
            SimdTier::Neon => "neon",
            SimdTier::Avx512 => "avx512",
            SimdTier::Avx2 => "avx2",
            SimdTier::Scalar => "scalar",
        }
    }

    /// Whether a host has the instruction set.
    pub open spec fn supported(self, host: HostFeatures) -> bool {
        match (self, host) {
            (SimdTier::Neon, HostFeatures::Arm { dotprod }) => dotprod,
            (SimdTier::Avx512, HostFeatures::X86 { avx512f, avx512bw, .. }) => avx512f && avx512bw,
            (SimdTier::Avx2, HostFeatures::X86 { avx2, .. }) => avx2,
            (SimdTier::Scalar, _) => true,
            _ => false,
        }
    }

    /// How much the instruction set is preferred.
    pub open spec fn preference(self) -> nat {
        match self {
            SimdTier::Neon => 3,
            SimdTier::Avx512 => 2,
            SimdTier::Avx2 => 1,
            SimdTier::Scalar => 0,
        }
    }

    /// The name of the instruction set.
    pub fn name(self) -> (r: &'static str)
        ensures
            r == self.label(),
    {
        match self {
            SimdTier::Neon => "neon",
            SimdTier::Avx512 => "avx512",
            SimdTier::Avx2 => "avx2",
            SimdTier::Scalar => "scalar",
        }
    }

    /// Whether a host has the instruction set.
    pub fn is_supported_on_host(self, host: HostFeatures) -> (r: bool)
        ensures
            r == self.supported(host),
    {
        match (self, host) {
            (SimdTier::Neon, HostFeatures::Arm { dotprod }) => dotprod,
            (SimdTier::Avx512, HostFeatures::X86 { avx512f, avx512bw, .. }) => avx512f && avx512bw,
            (SimdTier::Avx2, HostFeatures::X86 { avx2, .. }) => avx2,
            (SimdTier::Scalar, _) => true,
            _ => false,
        }
    }
}

/// The most preferred instruction set of a host.
pub open spec fn best_tier(host: HostFeatures) -> SimdTier {
    if SimdTier::Neon.supported(host) {
        SimdTier::Neon
    } else if SimdTier::Avx512.supported(host) {
        SimdTier::Avx512
    } else if SimdTier::Avx2.supported(host) {
        SimdTier::Avx2
    } else {
        SimdTier::Scalar
    }
}

/// The most preferred instruction set of a host.
pub fn detect(host: HostFeatures) -> (r: SimdTier)
    ensures
        r == best_tier(host),
{
    if SimdTier::Neon.is_supported_on_host(host) {
        SimdTier::Neon
    } else if SimdTier::Avx512.is_supported_on_host(host) {
        SimdTier::Avx512
    } else if SimdTier::Avx2.is_supported_on_host(host) {
        SimdTier::Avx2
    } else {
        SimdTier::Scalar
    }
}

/// What the backend can do with an instruction set.
pub open spec fn described(tier: SimdTier) -> BackendCapability {
    BackendCapability {
        backend: "cpu",
        arch: tier.label(),
        q4k_matmul: false,
        q2k_matmul: false,
        iq2xxs_matmul: false,
        fp8_kv_cache: false,
    }
}

/// What the backend can do with an instruction set.
pub fn capability_for(tier: SimdTier) -> (r: BackendCapability)
    ensures
        r == described(tier),
{
    BackendCapability {
        backend: "cpu",
        arch: tier.name(),
        q4k_matmul: false,
        q2k_matmul: false,
        iq2xxs_matmul: false,
        fp8_kv_cache: false,
    }
}

/// The instruction set that is picked is one that the host has, and none that
/// the host has is preferred to it.
pub proof fn law_best_tier(host: HostFeatures, other: SimdTier)
    ensures
        best_tier(host).supported(host),
        other.supported(host) ==> other.preference() <= best_tier(host).preference(),
        SimdTier::Scalar.supported(host),
{
}

/// No host has instruction sets of two architectures. Every host can do without
/// vectors.
pub proof fn law_one_architecture(host: HostFeatures)
    ensures
        SimdTier::Scalar.supported(host),
        !(SimdTier::Neon.supported(host) && SimdTier::Avx512.supported(host)),
        !(SimdTier::Neon.supported(host) && SimdTier::Avx2.supported(host)),
{
}

/// The widest vectors of a host are used: on ARM where it has dot products, on
/// x86 those of 512 bits where it has both of their parts, else those of 256.
pub proof fn law_widest_vectors(dotprod: bool, avx2: bool, avx512f: bool, avx512bw: bool)
    ensures
        best_tier((HostFeatures::Arm { dotprod })) == if dotprod {
            SimdTier::Neon
        } else {
            SimdTier::Scalar
        },
        best_tier((HostFeatures::X86 { avx2, avx512f: true, avx512bw: true })) == SimdTier::Avx512,
        best_tier((HostFeatures::X86 { avx2: true, avx512f: false, avx512bw })) == SimdTier::Avx2,
        best_tier((HostFeatures::X86 { avx2: true, avx512f, avx512bw: false })) == SimdTier::Avx2,
        best_tier((HostFeatures::X86 { avx2: false, avx512f: false, avx512bw }))
            == SimdTier::Scalar,
{
}

} // verus!
