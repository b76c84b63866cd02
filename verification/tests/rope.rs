use rsllm::cpu::capability::SimdTier;
use rsllm::cpu::error::Error;
use rsllm::cpu::ops::rope;
use rsllm::cpu::ops::rope::RoPEParams;

fn bits(v: &[f32]) -> Vec<u32> {
    v.iter().map(|x| x.to_bits()).collect()
}

fn numbers(v: &[u32]) -> Vec<f32> {
    v.iter().map(|x| f32::from_bits(*x)).collect()
}

fn rope_yarn_tail(x: &mut [f32], p: &RoPEParams, tier: SimdTier) -> Result<(), Error> {
    let mut all = bits(x);
    let r = rope::rope_yarn_tail(
        &mut all,
        p,
        tier,
        &|a: u32, b: u32| f32::from_bits(a).powf(f32::from_bits(b)).to_bits(),
        &|a: u32| f32::from_bits(a).ln().to_bits(),
        &|a: u32| f32::from_bits(a).cos().to_bits(),
        &|a: u32| f32::from_bits(a).sin().to_bits(),
    );
    x.copy_from_slice(&numbers(&all));
    r
}


fn baseline_params(n_head: u32, head_dim: u32, n_rot: u32, pos: u32) -> RoPEParams {
    RoPEParams {
        n_head,
        head_dim,
        n_rot,
        pos,
        n_ctx_orig: 65536,
        freq_base: (10000.0_f32).to_bits(),
        freq_scale: (1.0_f32).to_bits(),
        ext_factor: (0.0_f32).to_bits(),
        attn_factor: (1.0_f32).to_bits(),
        beta_fast: (32.0_f32).to_bits(),
        beta_slow: (1.0_f32).to_bits(),
        inverse: false,
    }
}

#[test]
fn rejects_odd_n_rot() {
    let mut x = vec![0.0_f32; 8];
    let mut p = baseline_params(1, 8, 7, 0);
    p.n_rot = 7;
    let err = rope_yarn_tail(&mut x, &p, SimdTier::Scalar).unwrap_err();
    assert!(matches!(err, Error::ShapeMismatch(_)));
}

#[test]
fn rejects_nrot_exceeds_head_dim() {
    let mut x = vec![0.0_f32; 8];
    let mut p = baseline_params(1, 8, 16, 0);
    p.n_rot = 16;
    let err = rope_yarn_tail(&mut x, &p, SimdTier::Scalar).unwrap_err();
    assert!(matches!(err, Error::ShapeMismatch(_)));
}

#[test]
fn rejects_wrong_shape() {
    let mut x = vec![0.0_f32; 7]; // not n_head*head_dim
    let p = baseline_params(1, 8, 4, 0);
    let err = rope_yarn_tail(&mut x, &p, SimdTier::Scalar).unwrap_err();
    assert!(matches!(err, Error::ShapeMismatch(_)));
}

#[test]
fn pos_zero_is_identity() {
    // At pos=0 theta_extrap=0 → theta=0 → cos=1, sin=0 → identity.
    let head_dim = 8;
    let n_rot = 4;
    let mut x = vec![1.0, 2.0, 3.0, 4.0, 5.0, 6.0, 7.0, 8.0];
    let orig = x.clone();
    let p = baseline_params(1, head_dim, n_rot, 0);
    rope_yarn_tail(&mut x, &p, SimdTier::Scalar).unwrap();
    for i in 0..head_dim as usize {
        assert!(
            (x[i] - orig[i]).abs() < 1e-6,
            "pos=0 should be identity, i={i}: got {}, want {}",
            x[i],
            orig[i]
        );
    }
}

#[test]
fn preserves_norm_per_pair() {
    // Rotation must preserve the norm of every (x0, x1) pair (with
    // attn_factor=1, ext_factor=0). Test on a random-ish input.
    let head_dim = 16;
    let n_rot = 8;
    let n_nope = (head_dim - n_rot) as usize;
    let mut x: Vec<f32> = (0..head_dim as usize)
        .map(|i| ((i as f32) * 0.3 - 1.0).sin())
        .collect();
    let orig = x.clone();
    let p = baseline_params(1, head_dim, n_rot, 7);
    rope_yarn_tail(&mut x, &p, SimdTier::Scalar).unwrap();

    // The first n_nope lanes are unchanged.
    for i in 0..n_nope {
        assert!((x[i] - orig[i]).abs() < 1e-6);
    }
    // Each (x0, x1) pair in the tail has the same magnitude.
    for i in (n_nope..head_dim as usize).step_by(2) {
        let want = (orig[i] * orig[i] + orig[i + 1] * orig[i + 1]).sqrt();
        let got = (x[i] * x[i] + x[i + 1] * x[i + 1]).sqrt();
        assert!(
            (got - want).abs() < 1e-4,
            "pair i={i}: got {got}, want {want}"
        );
    }
}

#[test]
fn inverse_round_trips() {
    // Forward then inverse rotation must recover the original input
    // (with the same parameters). This is the property MLA depends
    // on at the attn-output projection.
    let head_dim = 16;
    let n_rot = 8;
    let mut x: Vec<f32> = (0..head_dim as usize)
        .map(|i| ((i as f32) * 0.27 + 0.4).cos())
        .collect();
    let orig = x.clone();
    let mut p = baseline_params(1, head_dim, n_rot, 13);
    rope_yarn_tail(&mut x, &p, SimdTier::Scalar).unwrap();
    p.inverse = true;
    rope_yarn_tail(&mut x, &p, SimdTier::Scalar).unwrap();
    for i in 0..head_dim as usize {
        assert!(
            (x[i] - orig[i]).abs() < 1e-4,
            "round-trip mismatch at i={i}: got {}, want {}",
            x[i],
            orig[i]
        );
    }
}

#[test]
fn rejects_zero_freq_scale_with_ext_factor() {
    // Guard against silent NaN poisoning when freq_scale = 0 and
    // ext_factor != 0 (1/0 → inf, ln(inf) → inf, mscale → inf).
    let mut x = vec![1.0_f32; 16];
    let mut p = baseline_params(1, 16, 8, 0);
    p.ext_factor = (1.0_f32).to_bits();
    p.freq_scale = (0.0_f32).to_bits();
    let err = rope_yarn_tail(&mut x, &p, SimdTier::Scalar).unwrap_err();
    assert!(matches!(err, Error::NonFiniteInput(_)), "got {err:?}");
}

#[test]
fn rejects_negative_freq_scale_with_ext_factor() {
    let mut x = vec![1.0_f32; 16];
    let mut p = baseline_params(1, 16, 8, 0);
    p.ext_factor = (1.0_f32).to_bits();
    p.freq_scale = (-1.0_f32).to_bits();
    let err = rope_yarn_tail(&mut x, &p, SimdTier::Scalar).unwrap_err();
    assert!(matches!(err, Error::NonFiniteInput(_)));
}

#[test]
fn accepts_zero_freq_scale_when_ext_factor_zero() {
    // Without YaRN, freq_scale = 0 is benign (just multiplies theta
    // by 0, so every rotation is by 0 = identity). Not useful but
    // not corrupt — we should not error.
    let mut x = vec![1.0_f32; 16];
    let mut p = baseline_params(1, 16, 8, 5);
    p.ext_factor = (0.0_f32).to_bits();
    p.freq_scale = (0.0_f32).to_bits();
    rope_yarn_tail(&mut x, &p, SimdTier::Scalar).unwrap();
    assert!(x.iter().all(|v| v.is_finite()));
}

#[test]
fn yarn_extrapolation_smoke() {
    // With ext_factor=1 and a large pos beyond original context,
    // the rotation must still produce finite output. Just a smoke
    // test that the YaRN ramp / mscale paths don't NaN out.
    let head_dim = 32;
    let n_rot = 16;
    let mut x = vec![1.0_f32; head_dim as usize];
    let mut p = baseline_params(1, head_dim, n_rot, 200_000);
    p.ext_factor = (1.0_f32).to_bits();
    p.freq_scale = (1.0_f32 / 16.0).to_bits(); // DS V4 Flash scale_factor = 16
    rope_yarn_tail(&mut x, &p, SimdTier::Scalar).unwrap();
    assert!(x.iter().all(|v| v.is_finite()));
}

#[test]
fn every_head_turns_alike() {
    let head: Vec<f32> = (0..8).map(|i| i as f32 - 3.5).collect();
    let mut x = [head.clone(), head.clone(), head].concat();
    rope_yarn_tail(&mut x, &baseline_params(3, 8, 4, 11), SimdTier::Scalar).unwrap();
    assert_eq!(x[0..8], x[8..16]);
    assert_eq!(x[0..8], x[16..24]);
    assert_eq!(x[0..4], [-3.5, -2.5, -1.5, -0.5]);
    assert_ne!(x[4..6], [0.5, 1.5]);
}

#[test]
fn a_pair_turns_by_its_angle() {
    let mut x = vec![1.0f32, 0.0];
    rope_yarn_tail(&mut x, &baseline_params(1, 2, 2, 1), SimdTier::Scalar).unwrap();
    assert_eq!(x, vec![1.0f32.cos(), 1.0f32.sin()]);
    let mut p = baseline_params(1, 2, 2, 1);
    p.inverse = true;
    let mut x = vec![1.0f32, 0.0];
    rope_yarn_tail(&mut x, &p, SimdTier::Scalar).unwrap();
    assert_eq!(x, vec![1.0f32.cos(), -1.0f32.sin()]);
}

#[test]
fn the_first_position_turns_nothing() {
    let orig: Vec<f32> = (0..16).map(|i| (i as f32 * 1.7).sin() * 1e10).collect();
    for inverse in [false, true] {
        let mut p = baseline_params(2, 8, 8, 0);
        p.inverse = inverse;
        p.freq_scale = 0.0625f32.to_bits();
        let mut x = orig.clone();
        rope_yarn_tail(&mut x, &p, SimdTier::Scalar).unwrap();
        assert_eq!(x, orig);
    }
}
