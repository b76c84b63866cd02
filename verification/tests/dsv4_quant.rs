use rsllm::cpu::error::Error;
use rsllm::cpu::ops::dsv4_quant;
use rsllm::cpu::ops::dsv4_quant::{FP4_GROUP, FP8_KV_GROUP, HADAMARD128_DIM};

fn bits(v: &[f32]) -> Vec<u32> {
    v.iter().map(|x| x.to_bits()).collect()
}

fn numbers(v: &[u32]) -> Vec<f32> {
    v.iter().map(|x| f32::from_bits(*x)).collect()
}

const E2M1FN_VALUES: [f32; 8] = [0.0, 0.5, 1.0, 1.5, 2.0, 3.0, 4.0, 6.0];

fn libm_ldexpf(x: f32, n: i32) -> f32 {
    f32::from_bits(dsv4_quant::libm_ldexpf(x.to_bits(), n))
}

fn e2m1fn_value(i: u32) -> f32 {
    f32::from_bits(dsv4_quant::e2m1fn_value(i))
}

fn e4m3fn_value(i: u32) -> f32 {
    f32::from_bits(dsv4_quant::e4m3fn_value(i))
}

fn e2m1fn_dequant(x: f32) -> f32 {
    f32::from_bits(dsv4_quant::e2m1fn_dequant(x.to_bits()))
}

fn e4m3fn_dequant(x: f32) -> f32 {
    f32::from_bits(dsv4_quant::e4m3fn_dequant(x.to_bits()))
}

fn hadamard128_inplace(x: &mut [f32]) -> Result<(), Error> {
    let mut all = bits(x);
    let r = dsv4_quant::hadamard128_inplace(&mut all);
    x.copy_from_slice(&numbers(&all));
    r
}

fn fp4_act_quantize_row_inplace(x: &mut [f32]) -> Result<(), Error> {
    let mut all = bits(x);
    let r = dsv4_quant::fp4_act_quantize_row_inplace(&mut all);
    x.copy_from_slice(&numbers(&all));
    r
}

fn indexer_qat_row_inplace(x: &mut [f32]) -> Result<(), Error> {
    let mut all = bits(x);
    let r = dsv4_quant::indexer_qat_row_inplace(&mut all);
    x.copy_from_slice(&numbers(&all));
    r
}

fn indexer_qat_rows_inplace(x: &mut [f32], rows: usize) -> Result<(), Error> {
    let mut all = bits(x);
    let r = dsv4_quant::indexer_qat_rows_inplace(&mut all, rows);
    x.copy_from_slice(&numbers(&all));
    r
}

fn fp8_kv_quantize_row_inplace(x: &mut [f32], head_dim: usize, n_rot: usize) -> Result<(), Error> {
    let mut all = bits(x);
    let r = dsv4_quant::fp8_kv_quantize_row_inplace(&mut all, head_dim, n_rot);
    x.copy_from_slice(&numbers(&all));
    r
}


/// Sanity: ldexpf wrapper matches the obvious `x * 2^n` formula.
#[test]
fn ldexpf_matches_pow2() {
    for &(x, n) in &[(1.0_f32, 0), (3.5, 4), (-1.0, -3), (0.125, 7)] {
        let expected = x * (2.0_f32).powi(n);
        assert!(
            (libm_ldexpf(x, n) - expected).abs() < 1e-6,
            "ldexpf({x}, {n}) = {} != {expected}",
            libm_ldexpf(x, n)
        );
    }
}

#[test]
fn e2m1fn_value_low_three_bits() {
    for i in 0..8 {
        assert_eq!(e2m1fn_value(i), E2M1FN_VALUES[i as usize]);
    }
    // Higher bits ignored.
    assert_eq!(e2m1fn_value(8), E2M1FN_VALUES[0]);
    assert_eq!(e2m1fn_value(255), E2M1FN_VALUES[7]);
}

#[test]
fn e2m1fn_dequant_exact_representatives() {
    // Every representative E2M1 value must round to itself.
    for &v in &E2M1FN_VALUES {
        assert_eq!(e2m1fn_dequant(v), v, "positive {v} round-trip");
        assert_eq!(e2m1fn_dequant(-v), -v, "negative {v} round-trip");
    }
}

#[test]
fn e2m1fn_dequant_saturates_at_six() {
    // |x| > 6.0 collapses to ±6.0 (the largest representable).
    assert_eq!(e2m1fn_dequant(100.0), 6.0);
    assert_eq!(e2m1fn_dequant(-100.0), -6.0);
}

#[test]
fn e2m1fn_dequant_midpoint_picks_nearest() {
    // 0.25 sits midway between 0.0 and 0.5 — tie-break picks the
    // even-indexed candidate (`0` is even, `1` is odd → keep `0`).
    assert_eq!(e2m1fn_dequant(0.25), 0.0);
    // 0.75 ties between 0.5 (code 1) and 1.0 (code 2): code 2 even
    // → 1.0.
    assert_eq!(e2m1fn_dequant(0.75), 1.0);
    // 1.25 ties between 1.0 (code 2) and 1.5 (code 3): code 2 even
    // → 1.0.
    assert_eq!(e2m1fn_dequant(1.25), 1.0);
}

#[test]
fn hadamard128_inplace_constant_input() {
    // H * [c; 128] has all-zero output except lane 0 = 128 * c.
    // After * (1/sqrt(128)) the lane-0 value is c * sqrt(128).
    let mut x = vec![3.0_f32; HADAMARD128_DIM];
    hadamard128_inplace(&mut x).unwrap();
    let expected_lane0 = 3.0_f32 * (HADAMARD128_DIM as f32).sqrt();
    assert!(
        (x[0] - expected_lane0).abs() < 1e-3,
        "lane 0 = {}, expected {expected_lane0}",
        x[0]
    );
    for &v in &x[1..] {
        assert!(v.abs() < 1e-3, "expected zero away from lane 0, got {v}");
    }
}

#[test]
fn hadamard128_inplace_involution() {
    // H_n is its own inverse when normalised: applying it twice
    // reconstructs the original (up to F32 rounding). Use a known
    // non-symmetric input to catch any normalisation drift.
    let original: Vec<f32> = (0..HADAMARD128_DIM).map(|i| (i as f32 + 1.0) * 0.1).collect();
    let mut x = original.clone();
    hadamard128_inplace(&mut x).unwrap();
    hadamard128_inplace(&mut x).unwrap();
    for (i, (&got, &want)) in x.iter().zip(original.iter()).enumerate() {
        assert!(
            (got - want).abs() < 1e-3,
            "lane {i}: round-trip {got} != {want}"
        );
    }
}

#[test]
fn hadamard128_inplace_rejects_wrong_length() {
    let mut x = vec![0.0_f32; 64];
    assert!(matches!(
        hadamard128_inplace(&mut x).unwrap_err(),
        Error::ShapeMismatch(_)
    ));
}

#[test]
fn fp4_act_quantize_row_inplace_constant_input() {
    // 32 lanes all set to 1.0 — amax = 1.0, scale = 2^ceil(log2(1/6))
    // = 2^-2 = 0.25. Each lane normalises to 1/0.25 = 4.0 (an exact
    // E2M1 representative), so the result is 4.0 * 0.25 = 1.0.
    let mut x = vec![1.0_f32; FP4_GROUP];
    fp4_act_quantize_row_inplace(&mut x).unwrap();
    for &v in &x {
        assert!(
            (v - 1.0).abs() < 1e-6,
            "expected 1.0 after exact-rep round-trip, got {v}"
        );
    }
}

#[test]
fn fp4_act_quantize_row_inplace_saturates_outliers() {
    // amax = 100, scale = 2^ceil(log2(100/6)) = 2^5 = 32.
    // Other lanes are tiny; their normalised value is far below
    // the smallest non-zero representative (0.5), so they round to 0.
    let mut x = vec![0.0_f32; FP4_GROUP];
    x[0] = 100.0;
    for v in x.iter_mut().skip(1) {
        *v = 0.001;
    }
    fp4_act_quantize_row_inplace(&mut x).unwrap();
    // The outlier saturates: 100/32 = 3.125 → snaps to E2M1 = 3.0
    // → output = 3.0 * 32 = 96.0.
    assert!(
        (x[0] - 96.0).abs() < 1e-4,
        "outlier lane = {}, expected ≈96",
        x[0]
    );
    // The tiny lanes round to 0.
    for &v in &x[1..] {
        assert_eq!(v, 0.0, "small lane should round to 0, got {v}");
    }
}

#[test]
fn fp4_act_quantize_row_inplace_handles_two_groups_independently() {
    // 64-lane input — two groups of 32, independent amax.
    let mut x = vec![0.0_f32; 2 * FP4_GROUP];
    x[0] = 1.0; // group 0 amax = 1.0
    x[FP4_GROUP] = 100.0; // group 1 amax = 100.0
    fp4_act_quantize_row_inplace(&mut x).unwrap();
    // Group 0: lane 0 = exact round-trip to 1.0.
    assert!((x[0] - 1.0).abs() < 1e-6, "group 0 lane 0 = {}", x[0]);
    // Group 1: lane 0 saturates to 96.0 (same calculation as the
    // saturate-outlier test).
    assert!(
        (x[FP4_GROUP] - 96.0).abs() < 1e-4,
        "group 1 lane 0 = {}",
        x[FP4_GROUP]
    );
}

#[test]
fn fp4_act_quantize_row_inplace_rejects_non_multiple_of_32() {
    let mut x = vec![1.0_f32; 33];
    assert!(matches!(
        fp4_act_quantize_row_inplace(&mut x).unwrap_err(),
        Error::ShapeMismatch(_)
    ));
    let mut empty: Vec<f32> = Vec::new();
    assert!(matches!(
        fp4_act_quantize_row_inplace(&mut empty).unwrap_err(),
        Error::ShapeMismatch(_)
    ));
}

#[test]
fn indexer_qat_row_inplace_composes_both_steps() {
    let mut x = vec![1.0_f32; HADAMARD128_DIM];
    indexer_qat_row_inplace(&mut x).unwrap();
    // The Hadamard result has lane 0 ≈ sqrt(128) ≈ 11.3137 and the
    // remaining lanes at 0. The first FP4 group (lanes 0..32) has
    // amax = 11.3137 → scale = 2^ceil(log2(11.3137/6)) = 2^1 = 2.0.
    // Lane 0 normalised = 5.6568 → snaps to E2M1 = 6.0 → output =
    // 6.0 * 2.0 = 12.0. Lanes 1..32 are 0 → stay 0. Groups 1..4
    // (lanes 32..128) are all-zero — amax = floor → scale tiny →
    // output stays 0.
    assert!(
        (x[0] - 12.0).abs() < 1e-4,
        "lane 0 post-QAT = {}, expected ≈12.0",
        x[0]
    );
    for (i, &v) in x.iter().enumerate().skip(1) {
        assert_eq!(v, 0.0, "lane {i} should be 0, got {v}");
    }
}

#[test]
fn indexer_qat_row_inplace_rejects_wrong_length() {
    let mut x = vec![0.0_f32; 100];
    assert!(matches!(
        indexer_qat_row_inplace(&mut x).unwrap_err(),
        Error::ShapeMismatch(_)
    ));
}

#[test]
fn indexer_qat_rows_inplace_applies_to_each_row() {
    // Three constant rows — each independently transforms to
    // [12.0, 0, 0, ..., 0].
    let mut x = vec![1.0_f32; 3 * HADAMARD128_DIM];
    indexer_qat_rows_inplace(&mut x, 3).unwrap();
    for r in 0..3 {
        let off = r * HADAMARD128_DIM;
        assert!(
            (x[off] - 12.0).abs() < 1e-4,
            "row {r} lane 0 = {}",
            x[off]
        );
        for j in 1..HADAMARD128_DIM {
            assert_eq!(x[off + j], 0.0, "row {r} lane {j} = {}", x[off + j]);
        }
    }
}

#[test]
fn indexer_qat_rows_inplace_rejects_size_mismatch() {
    let mut x = vec![0.0_f32; 200];
    assert!(matches!(
        indexer_qat_rows_inplace(&mut x, 3).unwrap_err(),
        Error::ShapeMismatch(_)
    ));
}


#[test]
fn e4m3fn_value_subnormal_low_lanes() {
    // exp == 0 → mantissa lanes step by 1/512.
    assert_eq!(e4m3fn_value(0), 0.0);
    assert_eq!(e4m3fn_value(1), (1.0 / 512.0));
    assert_eq!(e4m3fn_value(7), 7.0 * (1.0 / 512.0));
}

#[test]
fn e4m3fn_value_normal_endpoints() {
    // Code 8 (exp=1, mant=0): (1.0 + 0) * 0.015625 = 0.015625.
    assert_eq!(e4m3fn_value(8), 0.015_625);
    // Code 56 (exp=7, mant=0): (1.0 + 0) * 1.0 = 1.0.
    assert_eq!(e4m3fn_value(56), 1.0);
    // Code 120 (exp=15, mant=0): (1.0 + 0) * 256 = 256.0.
    assert_eq!(e4m3fn_value(120), 256.0);
    // Code 126 (exp=15, mant=6): (1.0 + 6 * 0.125) * 256 = 448.0.
    assert_eq!(e4m3fn_value(126), 448.0);
}

#[test]
fn e4m3fn_dequant_saturates_at_448() {
    assert_eq!(e4m3fn_dequant(1.0e6), 448.0);
    assert_eq!(e4m3fn_dequant(-1.0e6), -448.0);
}

#[test]
fn e4m3fn_dequant_round_trips_exact_representatives() {
    // Spot-check a handful of representable values.
    for &v in &[
        0.0_f32, 1.0, 2.0, 4.0, 8.0, 16.0, 32.0, 64.0, 128.0, 256.0, 448.0,
    ] {
        assert_eq!(e4m3fn_dequant(v), v, "+{v} round-trip");
        assert_eq!(e4m3fn_dequant(-v), -v, "-{v} round-trip");
    }
}

#[test]
fn fp8_kv_quantize_row_inplace_constant_input() {
    // 64-lane non-RoPE prefix at v = 1.0. amax = 1.0 → scale =
    // 2^ceil(log2(1/448)) = 2^-8 = 1/256. Normalised lane = 256, which
    // is an exact E4M3 representative → snaps to 256 → output = 1.0.
    let head_dim = 128_usize;
    let n_rot = 64_usize;
    let mut x = vec![1.0_f32; head_dim];
    fp8_kv_quantize_row_inplace(&mut x, head_dim, n_rot).unwrap();
    for (i, &v) in x.iter().enumerate().take(head_dim - n_rot) {
        assert!(
            (v - 1.0).abs() < 1e-6,
            "lane {i} (non-RoPE): {v} != 1.0 (constant-input round-trip)"
        );
    }
    // RoPE tail untouched (still 1.0 because we initialised to 1.0).
    for (i, &v) in x.iter().enumerate().skip(head_dim - n_rot) {
        assert_eq!(v, 1.0, "RoPE-tail lane {i} should be preserved");
    }
}

#[test]
fn fp8_kv_quantize_row_inplace_preserves_rope_tail() {
    // Mark the non-RoPE prefix with a saturating outlier and fill
    // the tail with values that have no E4M3 representative
    // (e.g. 0.123, 0.456). The kernel must NOT touch the tail.
    let head_dim = 128_usize;
    let n_rot = 64_usize;
    let mut x = vec![0.0_f32; head_dim];
    x[0] = 1000.0; // saturating outlier in prefix
    for (i, v) in x.iter_mut().enumerate().take(head_dim).skip(n_rot) {
        *v = (i as f32) * 0.123;
    }
    let tail_before: Vec<f32> = x[head_dim - n_rot..].to_vec();
    fp8_kv_quantize_row_inplace(&mut x, head_dim, n_rot).unwrap();
    let tail_after: &[f32] = &x[head_dim - n_rot..];
    assert_eq!(
        tail_before, tail_after,
        "FP8 KV quant must not touch the RoPE tail"
    );
    // Prefix lane 0 still saturates: 1000 / scale clamps to 448,
    // then E4M3-snaps and remultiplies. amax=1000, scale =
    // 2^ceil(log2(1000/448)) = 2^2 = 4. v = 1000/4 = 250 → snaps to
    // 256 (nearest E4M3 representative) → output = 256 * 4 = 1024.
    assert!(
        (x[0] - 1024.0).abs() < 1e-3,
        "saturated lane: got {}, expected ≈1024",
        x[0]
    );
}

#[test]
fn fp8_kv_quantize_row_inplace_handles_multiple_groups() {
    // 2 non-RoPE groups (128 lanes) + 64 RoPE tail = head_dim 192.
    let head_dim = 192_usize;
    let n_rot = 64_usize;
    let mut x = vec![0.0_f32; head_dim];
    x[0] = 1.0; // group 0 amax = 1.0
    x[FP8_KV_GROUP] = 100.0; // group 1 amax = 100.0
    fp8_kv_quantize_row_inplace(&mut x, head_dim, n_rot).unwrap();
    // Group 0 lane 0 = 1.0 (exact representative round-trip).
    assert!((x[0] - 1.0).abs() < 1e-6, "group 0 lane 0 = {}", x[0]);
    // Group 1 lane 0: amax=100, scale = 2^ceil(log2(100/448)) = 2^-2
    // = 0.25. v = 100/0.25 = 400 → snaps to 384 (nearest E4M3
    // representative under 400) → output = 384 * 0.25 = 96.
    // (E4M3 reps near 400: code 125 = 1.75*256 = 448, code 124 =
    // 1.5*256 = 384.)
    assert!(
        (x[FP8_KV_GROUP] - 96.0).abs() < 1e-3,
        "group 1 lane 0 = {}, expected ≈96",
        x[FP8_KV_GROUP]
    );
}

#[test]
fn fp8_kv_quantize_row_inplace_rejects_wrong_length() {
    let mut x = vec![0.0_f32; 100];
    assert!(matches!(
        fp8_kv_quantize_row_inplace(&mut x, 128, 64).unwrap_err(),
        Error::ShapeMismatch(_)
    ));
}

#[test]
fn fp8_kv_quantize_row_inplace_rejects_n_rot_too_big() {
    let mut x = vec![0.0_f32; 64];
    assert!(matches!(
        fp8_kv_quantize_row_inplace(&mut x, 64, 128).unwrap_err(),
        Error::ShapeMismatch(_)
    ));
}

#[test]
fn fp8_kv_quantize_row_inplace_rejects_non_multiple_of_64_prefix() {
    // head_dim 96, n_rot 64 → prefix 32 → not a multiple of 64.
    let mut x = vec![0.0_f32; 96];
    assert!(matches!(
        fp8_kv_quantize_row_inplace(&mut x, 96, 64).unwrap_err(),
        Error::ShapeMismatch(_)
    ));
}

#[test]
fn fp8_kv_quantize_row_inplace_rejects_zero_prefix() {
    // n_rot == head_dim → prefix == 0 → must error.
    let mut x = vec![0.0_f32; 64];
    assert!(matches!(
        fp8_kv_quantize_row_inplace(&mut x, 64, 64).unwrap_err(),
        Error::ShapeMismatch(_)
    ));
}

#[test]
fn two_transforms_bring_numbers_back() {
    for size in [1e-20f32, 1.0, 3e5, 1e30] {
        let orig: Vec<f32> = (0..128).map(|i| ((i * 7 % 31) as f32 * 1.3).cos() * size).collect();
        let most = orig.iter().fold(0.0f32, |m, v| m.max(v.abs()));
        let mut x = orig.clone();
        hadamard128_inplace(&mut x).unwrap();
        hadamard128_inplace(&mut x).unwrap();
        for (got, want) in x.iter().zip(&orig) {
            assert!((got - want).abs() <= most / 2048.0);
        }
    }
}
