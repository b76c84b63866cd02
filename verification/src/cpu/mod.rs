//! Compute backend on the processor.

pub mod capability;
pub mod error;
pub mod ops;

use crate::cal::{Backend, BackendCapability, BackendKind};
use crate::cpu::capability::{capability_for, detect, HostFeatures, SimdTier};
use crate::cpu::error::Error;
use vstd::prelude::*;

verus! {

/// The processor, with the instruction set that kernels may use.
#[derive(Debug, Clone, Copy)]
pub struct CpuBackend {
    tier: SimdTier,
}

impl View for CpuBackend {
    type V = SimdTier;

    closed spec fn view(&self) -> SimdTier {
        self.tier
    }
}

impl CpuBackend {
    /// The backend with the best instruction set of a host.
    pub fn new(host: HostFeatures) -> (r: Self)
        ensures
            r@ == capability::best_tier(host),
    {
        CpuBackend { tier: detect(host) }
    }

    /// The backend with a given instruction set, if the host has it.
    pub fn try_with_tier(tier: SimdTier, host: HostFeatures) -> (res: Result<Self, Error>)
        ensures
            tier.supported(host) ==> res is Ok && res->Ok_0@ == tier,
            !tier.supported(host) ==> res == Err::<Self, Error>(
                Error::UnsupportedTier(tier.label()),
            ),
    {
        if !tier.is_supported_on_host(host) {
            return Err(Error::UnsupportedTier(tier.name()));
        }
        Ok(CpuBackend { tier })
    }

    /// The backend with a given instruction set, which the host must have.
    pub fn with_tier(tier: SimdTier, host: HostFeatures) -> (r: Self)
        requires
            tier.supported(host),
        ensures
            r@ == tier,
    {
        CpuBackend { tier }
    }

    /// The instruction set in use.
    pub fn tier(&self) -> (r: SimdTier)
        ensures
            r == self@,
    {
        self.tier
    }
}

impl Backend for CpuBackend {
    fn kind(&self) -> (r: BackendKind)
        ensures
            r == BackendKind::Cpu,
    {
        BackendKind::Cpu
    }

    fn capability(&self) -> (r: BackendCapability)
        ensures
            r == capability::described(self@),
    {
        capability_for(self.tier)
    }
}

} // verus!
