use rsllm::cal::{Backend, BackendKind, DType};
use rsllm::cpu::capability::{capability_for, detect, HostFeatures, SimdTier};
use rsllm::cpu::error::Error;
use rsllm::cpu::CpuBackend;

fn x86(avx512f: bool, avx512bw: bool, avx2: bool) -> HostFeatures {
    HostFeatures::X86 { avx512f, avx512bw, avx2 }
}

fn hosts() -> Vec<HostFeatures> {
    let mut all = vec![
        HostFeatures::Other,
        HostFeatures::Arm { dotprod: false },
        HostFeatures::Arm { dotprod: true },
    ];
    for bits in 0..8u8 {
        all.push(x86(bits & 1 != 0, bits & 2 != 0, bits & 4 != 0));
    }
    all
}

#[test]
fn detect_returns_valid_tier() {
    for host in hosts() {
        let tier = detect(host);
        let cap = capability_for(tier);
        assert_eq!(cap.arch, tier.name());
        assert_eq!(cap.backend, "cpu");
    }
}

#[test]
fn tier_names_are_stable() {
    assert_eq!(SimdTier::Neon.name(), "neon");
    assert_eq!(SimdTier::Avx512.name(), "avx512");
    assert_eq!(SimdTier::Avx2.name(), "avx2");
    assert_eq!(SimdTier::Scalar.name(), "scalar");
}

#[test]
fn scalar_always_supported() {
    for host in hosts() {
        assert!(SimdTier::Scalar.is_supported_on_host(host));
    }
}

#[test]
fn detected_tier_supported_on_host() {
    for host in hosts() {
        let tier = detect(host);
        assert!(
            tier.is_supported_on_host(host),
            "detect() returned {tier:?} but is_supported_on_host says no"
        );
    }
}

#[test]
fn the_best_tier_is_picked() {
    assert_eq!(detect(HostFeatures::Other), SimdTier::Scalar);
    assert_eq!(detect(x86(false, false, false)), SimdTier::Scalar);
    assert_eq!(detect(x86(false, false, true)), SimdTier::Avx2);
    assert_eq!(detect(x86(true, false, true)), SimdTier::Avx2);
    assert_eq!(detect(x86(true, true, true)), SimdTier::Avx512);
    assert_eq!(detect(HostFeatures::Arm { dotprod: false }), SimdTier::Scalar);
    assert_eq!(detect(HostFeatures::Arm { dotprod: true }), SimdTier::Neon);
}

#[test]
fn no_host_is_of_two_architectures() {
    for host in hosts() {
        let neon = SimdTier::Neon.is_supported_on_host(host);
        let avx = SimdTier::Avx512.is_supported_on_host(host)
            || SimdTier::Avx2.is_supported_on_host(host);
        assert!(!(neon && avx));
    }
}

#[test]
fn cpu_backend_reports_correct_kind() {
    for host in hosts() {
        let backend = CpuBackend::new(host);
        assert_eq!(backend.kind(), BackendKind::Cpu);
        assert_eq!(backend.capability().backend, "cpu");
    }
}

#[test]
fn with_tier_forces_scalar() {
    for host in hosts() {
        let backend = CpuBackend::with_tier(SimdTier::Scalar, host);
        assert_eq!(backend.tier(), SimdTier::Scalar);
        assert_eq!(backend.capability().arch, "scalar");
    }
}

#[test]
fn try_with_tier_scalar_succeeds() {
    for host in hosts() {
        let backend = CpuBackend::try_with_tier(SimdTier::Scalar, host).unwrap();
        assert_eq!(backend.tier(), SimdTier::Scalar);
    }
}

#[test]
fn try_with_tier_rejects_unsupported() {
    let arm = HostFeatures::Arm { dotprod: true };
    let intel = x86(true, true, true);
    assert!(matches!(
        CpuBackend::try_with_tier(SimdTier::Avx512, arm),
        Err(Error::UnsupportedTier("avx512"))
    ));
    assert!(matches!(
        CpuBackend::try_with_tier(SimdTier::Avx2, arm),
        Err(Error::UnsupportedTier("avx2"))
    ));
    assert!(matches!(
        CpuBackend::try_with_tier(SimdTier::Neon, intel),
        Err(Error::UnsupportedTier("neon"))
    ));
}


#[test]
fn backend_kinds_distinct() {
    assert_ne!(BackendKind::Cpu, BackendKind::Cuda);
    assert_ne!(BackendKind::Metal, BackendKind::Wgpu);
}

#[test]
fn dtype_variants_distinct() {
    assert_ne!(DType::F32, DType::F16);
    assert_ne!(DType::Q4_K, DType::Q2_K);
}
