use rsllm::cpu::capability::SimdTier;
use rsllm::cpu::error::Error;
use rsllm::cpu::ops;

fn bits(v: &[f32]) -> Vec<u32> {
    v.iter().map(|x| x.to_bits()).collect()
}

fn numbers(v: &[u32]) -> Vec<f32> {
    v.iter().map(|x| f32::from_bits(*x)).collect()
}

fn exp(x: u32) -> u32 {
    f32::from_bits(x).exp().to_bits()
}

fn sqrt(x: u32) -> u32 {
    f32::from_bits(x).sqrt().to_bits()
}

fn rmsnorm(
    out: &mut [f32],
    x: &[f32],
    weight: &[f32],
    eps: f32,
    tier: SimdTier,
) -> Result<(), Error> {
    let mut all = bits(out);
    let r = ops::rmsnorm(&mut all, &bits(x), &bits(weight), eps.to_bits(), tier, &sqrt);
    out.copy_from_slice(&numbers(&all));
    r
}

fn argmax(logits: &[f32], tier: SimdTier) -> Result<u32, Error> {
    ops::argmax(&bits(logits), tier)
}

fn swiglu(out: &mut [f32], gate: &[f32], up: &[f32], tier: SimdTier) -> Result<(), Error> {
    let mut all = bits(out);
    let r = ops::swiglu(&mut all, &bits(gate), &bits(up), tier, &exp);
    out.copy_from_slice(&numbers(&all));
    r
}

fn softmax(x: &mut [f32], tier: SimdTier) -> Result<(), Error> {
    let mut all = bits(x);
    let r = ops::softmax(&mut all, tier, &exp);
    x.copy_from_slice(&numbers(&all));
    r
}


#[test]
fn rmsnorm_rejects_mismatched_lengths() {
    let mut out = vec![0.0; 4];
    let x = vec![1.0; 4];
    let weight = vec![1.0; 8];
    let err = rmsnorm(&mut out, &x, &weight, 1e-6, SimdTier::Scalar).unwrap_err();
    assert!(matches!(err, Error::ShapeMismatch(_)));
}

#[test]
fn rmsnorm_rejects_empty() {
    let mut out: Vec<f32> = Vec::new();
    let x: Vec<f32> = Vec::new();
    let w: Vec<f32> = Vec::new();
    let err = rmsnorm(&mut out, &x, &w, 1e-6, SimdTier::Scalar).unwrap_err();
    assert!(matches!(err, Error::ShapeMismatch(_)));
}

#[test]
fn argmax_rejects_empty() {
    let err = argmax(&[], SimdTier::Scalar).unwrap_err();
    assert!(matches!(err, Error::ShapeMismatch(_)));
}

#[test]
fn argmax_dispatches_through_to_scalar() {
    let logits = vec![1.0, 3.0, 2.0, 3.0];
    // Tie at indices 1 and 3 — argmax returns the smaller index.
    assert_eq!(argmax(&logits, SimdTier::Scalar).unwrap(), 1);
}

#[test]
fn swiglu_rejects_mismatched_lengths() {
    let gate = vec![1.0_f32; 4];
    let up = vec![1.0_f32; 4];
    let mut out = vec![0.0_f32; 8];
    let err = swiglu(&mut out, &gate, &up, SimdTier::Scalar).unwrap_err();
    assert!(matches!(err, Error::ShapeMismatch(_)));
}

#[test]
fn softmax_empty_is_ok() {
    let mut x: Vec<f32> = Vec::new();
    softmax(&mut x, SimdTier::Scalar).unwrap();
    assert!(x.is_empty());
}

#[test]
fn every_tier_gives_the_same() {
    for tier in [SimdTier::Scalar, SimdTier::Neon, SimdTier::Avx2, SimdTier::Avx512] {
        let mut out = vec![0.0; 2];
        rmsnorm(&mut out, &[3.0, 4.0], &[1.0, 2.0], 0.0, tier).unwrap();
        let scale = 1.0 / (25.0f32 / 2.0).sqrt();
        assert_eq!(out, vec![3.0 * scale, 4.0 * scale * 2.0]);
        assert_eq!(argmax(&[1.0, 5.0, 5.0], tier).unwrap(), 1);
        let mut x = vec![0.0, 0.0];
        softmax(&mut x, tier).unwrap();
        assert_eq!(x, vec![0.5, 0.5]);
        swiglu(&mut out, &[0.0, 0.0], &[7.0, 8.0], tier).unwrap();
        assert_eq!(out, vec![0.0, 0.0]);
        let mut scores = bits(&[0.0]);
        let sink = ops::softmax_attn(&mut scores, 0.0f32.to_bits(), tier, &exp).unwrap();
        assert_eq!((numbers(&scores), f32::from_bits(sink)), (vec![0.5], 0.5));
    }
}

#[test]
fn kernel_errors_tell_what_is_wrong() {
    assert_eq!(
        Error::ShapeMismatch("x").message(),
        "kernel argument shape mismatch: x"
    );
    assert_eq!(
        Error::NotBlockAligned { what: "in_dim", actual: 30, block: 32 }.message(),
        "`in_dim` length 30 is not a multiple of 32"
    );
    assert_eq!(
        Error::NonFiniteInput("x").message(),
        "`x` contains a non-finite value (NaN or Inf)"
    );
    assert_eq!(
        Error::UnsupportedTier("neon").message(),
        "the host does not support the `neon` tier"
    );
}
