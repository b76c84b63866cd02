use half::f16;
use rsllm::cpu::capability::SimdTier;
use rsllm::cpu::error::Error;
use rsllm::cpu::ops::q8_0;
use rsllm::cpu::ops::q8_0::{Q8_0_BLOCK, Q8_0_BLOCK_BYTES};

fn bits(v: &[f32]) -> Vec<u32> {
    v.iter().map(|x| x.to_bits()).collect()
}

fn numbers(v: &[u32]) -> Vec<f32> {
    v.iter().map(|x| f32::from_bits(*x)).collect()
}

fn quantize_q8_0_activation(x: &[f32], xq: &mut [i8], scale: &mut [f32]) -> Result<(), Error> {
    let mut all = bits(scale);
    let r = q8_0::quantize_q8_0_activation(&bits(x), xq, &mut all);
    scale.copy_from_slice(&numbers(&all));
    r
}

fn quantize_q8_0_batch(
    x: &[f32],
    xq: &mut [i8],
    scale: &mut [f32],
    n_tok: usize,
    in_dim: usize,
) -> Result<(), Error> {
    let mut all = bits(scale);
    let r = q8_0::quantize_q8_0_batch(&bits(x), xq, &mut all, n_tok, in_dim);
    scale.copy_from_slice(&numbers(&all));
    r
}

fn dot_q8_0_row_scalar(row: &[u8], xq: &[i8], xscale: &[f32], in_dim: usize) -> f32 {
    f32::from_bits(q8_0::dot_q8_0_row_scalar(row, xq, &bits(xscale), in_dim))
}

fn dot_q8_0_row_avx512(row: &[u8], xq: &[i8], xscale: &[f32], in_dim: usize) -> f32 {
    f32::from_bits(q8_0::dot_q8_0_row_avx512(row, xq, &bits(xscale), in_dim))
}

fn dot_q8_0_row_neon(row: &[u8], xq: &[i8], xscale: &[f32], in_dim: usize) -> f32 {
    f32::from_bits(q8_0::dot_q8_0_row_neon(row, xq, &bits(xscale), in_dim))
}

#[allow(clippy::too_many_arguments)]
fn matmul_q8_0_batch(
    out: &mut [f32],
    weights: &[u8],
    xq: &[i8],
    xscale: &[f32],
    n_tok: usize,
    in_dim: usize,
    out_dim: usize,
    tier: SimdTier,
) -> Result<(), Error> {
    let mut all = bits(out);
    let r = q8_0::matmul_q8_0_batch(
        &mut all,
        weights,
        xq,
        &bits(xscale),
        n_tok,
        in_dim,
        out_dim,
        tier,
    );
    out.copy_from_slice(&numbers(&all));
    r
}


fn pack_q8_0_row(x: &[f32]) -> Vec<u8> {
    let blocks = x.len().div_ceil(Q8_0_BLOCK);
    let mut out = vec![0u8; blocks * Q8_0_BLOCK_BYTES];
    let mut tmp_q = vec![0i8; blocks * Q8_0_BLOCK];
    let mut tmp_s = vec![0.0_f32; blocks];
    quantize_q8_0_activation(x, &mut tmp_q, &mut tmp_s).unwrap();
    for b in 0..blocks {
        let dst = &mut out[b * Q8_0_BLOCK_BYTES..(b + 1) * Q8_0_BLOCK_BYTES];
        let scale_bits = f16::from_f32(tmp_s[b]).to_bits().to_le_bytes();
        dst[0] = scale_bits[0];
        dst[1] = scale_bits[1];
        for i in 0..Q8_0_BLOCK {
            dst[2 + i] = tmp_q[b * Q8_0_BLOCK + i] as u8;
        }
    }
    out
}

#[test]
fn quantize_round_trip_within_tolerance() {
    // For values well within the dynamic range of one block, the
    // f32 → i8 → f32 round-trip error should be < 1/127 of the
    // block max (Q8_0 step size).
    let x: Vec<f32> = (0..64).map(|i| (i as f32 - 32.0) * 0.1).collect();
    let mut xq = vec![0i8; 64];
    let mut scale = vec![0.0_f32; 2];
    quantize_q8_0_activation(&x, &mut xq, &mut scale).unwrap();
    for b in 0..2 {
        for i in 0..32 {
            let recovered = xq[b * 32 + i] as f32 * scale[b];
            let want = x[b * 32 + i];
            let err = (recovered - want).abs();
            assert!(
                err < 0.05,
                "block {b} idx {i}: want {want}, got {recovered}, err {err}"
            );
        }
    }
}

#[test]
fn quantize_zero_input_is_zero() {
    let x = vec![0.0_f32; 32];
    let mut xq = vec![1i8; 32];
    let mut scale = vec![0.0_f32; 1];
    quantize_q8_0_activation(&x, &mut xq, &mut scale).unwrap();
    assert_eq!(scale[0], 0.0);
    assert!(xq.iter().all(|&v| v == 0));
}

#[test]
fn quantize_pads_partial_block_to_zero() {
    let x = vec![1.0_f32; 20]; // not a multiple of 32
    let mut xq = vec![99i8; 32];
    let mut scale = vec![0.0_f32; 1];
    quantize_q8_0_activation(&x, &mut xq, &mut scale).unwrap();
    // First 20 quantize to ~127; tail is zero-padded.
    for &v in &xq[20..] {
        assert_eq!(v, 0);
    }
}

#[test]
fn dot_q8_0_row_matches_full_precision() {
    // Compare scalar Q8_0 dot to an f32 reference for a 96-element
    // vector (3 blocks). Tolerance loose because Q8_0 has limited
    // dynamic range per block.
    let w: Vec<f32> = (0..96).map(|i| ((i as f32) * 0.07 - 3.0).sin()).collect();
    let x: Vec<f32> = (0..96).map(|i| ((i as f32) * 0.11 + 1.0).cos()).collect();

    let row = pack_q8_0_row(&w);

    let mut xq = vec![0i8; 96];
    let mut xscale = vec![0.0_f32; 3];
    quantize_q8_0_activation(&x, &mut xq, &mut xscale).unwrap();

    let got = dot_q8_0_row_scalar(&row, &xq, &xscale, 96);
    let want: f32 = w.iter().zip(x.iter()).map(|(a, b)| a * b).sum();
    assert!(
        (got - want).abs() < 0.01 * want.abs().max(1.0),
        "got {got}, want {want}"
    );
}

#[test]
fn matmul_q8_0_batch_matches_naive() {
    let in_dim: usize = 64;
    let out_dim: usize = 4;
    let n_tok: usize = 2;
    let blocks = in_dim.div_ceil(Q8_0_BLOCK);

    // Random-ish but deterministic weights and activations.
    let weights_f32: Vec<f32> = (0..out_dim * in_dim)
        .map(|i| ((i as f32) * 0.013 + 0.1).sin())
        .collect();
    let x: Vec<f32> = (0..n_tok * in_dim)
        .map(|i| ((i as f32) * 0.027 - 0.2).cos())
        .collect();

    // Pack weights row by row.
    let mut weights = Vec::with_capacity(out_dim * blocks * Q8_0_BLOCK_BYTES);
    for o in 0..out_dim {
        let row = pack_q8_0_row(&weights_f32[o * in_dim..(o + 1) * in_dim]);
        weights.extend_from_slice(&row);
    }

    // Quantize activations.
    let mut xq = vec![0i8; n_tok * blocks * Q8_0_BLOCK];
    let mut xscale = vec![0.0_f32; n_tok * blocks];
    quantize_q8_0_batch(&x, &mut xq, &mut xscale, n_tok, in_dim).unwrap();

    // Run matmul.
    let mut out = vec![0.0_f32; n_tok * out_dim];
    matmul_q8_0_batch(
        &mut out,
        &weights,
        &xq,
        &xscale,
        n_tok,
        in_dim,
        out_dim,
        SimdTier::Scalar,
    )
    .unwrap();

    // Naive f32 reference.
    for t in 0..n_tok {
        for o in 0..out_dim {
            let mut dot = 0.0_f32;
            for i in 0..in_dim {
                dot += weights_f32[o * in_dim + i] * x[t * in_dim + i];
            }
            let got = out[t * out_dim + o];
            assert!(
                (got - dot).abs() < 0.01 * dot.abs().max(1.0),
                "t {t} o {o}: got {got}, want {dot}"
            );
        }
    }
}

#[test]
fn matmul_rejects_shape_mismatch() {
    let mut out = vec![0.0; 4];
    let err = matmul_q8_0_batch(&mut out, &[], &[], &[], 1, 32, 4, SimdTier::Scalar);
    assert!(err.is_err());
}

#[test]
fn quantize_rejects_nan_input() {
    let x = vec![1.0, 2.0, f32::NAN, 3.0];
    let mut xq = vec![0i8; 32];
    let mut scale = vec![0.0_f32; 1];
    let err = quantize_q8_0_activation(&x, &mut xq, &mut scale).unwrap_err();
    assert!(matches!(err, Error::NonFiniteInput(_)));
}

#[test]
fn quantize_rejects_inf_input() {
    let x = vec![1.0, f32::INFINITY, 2.0];
    let mut xq = vec![0i8; 32];
    let mut scale = vec![0.0_f32; 1];
    let err = quantize_q8_0_activation(&x, &mut xq, &mut scale).unwrap_err();
    assert!(matches!(err, Error::NonFiniteInput(_)));
}

#[test]
fn matmul_dispatch_runs_on_detected_tier() {
    // Dispatch test: build a real-sized matmul and run it through
    // the dispatcher on every tier. The result must match the scalar
    // path within 1e-4 relative tolerance.
    let in_dim: usize = 128;
    let out_dim: usize = 2;
    let n_tok: usize = 1;
    let blocks = in_dim / Q8_0_BLOCK;

    let weights_f32: Vec<f32> = (0..out_dim * in_dim)
        .map(|i| ((i as f32) * 0.05).sin())
        .collect();
    let x: Vec<f32> = (0..n_tok * in_dim)
        .map(|i| ((i as f32) * 0.07).cos())
        .collect();

    let mut weights = Vec::with_capacity(out_dim * blocks * Q8_0_BLOCK_BYTES);
    for o in 0..out_dim {
        weights.extend_from_slice(&pack_q8_0_row(&weights_f32[o * in_dim..(o + 1) * in_dim]));
    }
    let mut xq = vec![0i8; n_tok * blocks * Q8_0_BLOCK];
    let mut xscale = vec![0.0_f32; n_tok * blocks];
    quantize_q8_0_batch(&x, &mut xq, &mut xscale, n_tok, in_dim).unwrap();

    let mut out_scalar = vec![0.0_f32; n_tok * out_dim];
    matmul_q8_0_batch(
        &mut out_scalar,
        &weights,
        &xq,
        &xscale,
        n_tok,
        in_dim,
        out_dim,
        SimdTier::Scalar,
    )
    .unwrap();

    for detected_tier in [SimdTier::Neon, SimdTier::Avx512, SimdTier::Avx2, SimdTier::Scalar] {
        let mut out_detected = vec![0.0_f32; n_tok * out_dim];
        matmul_q8_0_batch(
            &mut out_detected,
            &weights,
            &xq,
            &xscale,
            n_tok,
            in_dim,
            out_dim,
            detected_tier,
        )
        .unwrap();

        for (a, b) in out_detected.iter().zip(out_scalar.iter()) {
            let denom = b.abs().max(1.0);
            assert!(
                (a - b).abs() / denom < 1e-4,
                "tier={detected_tier:?}: got {a}, scalar {b}"
            );
        }
    }
}

#[test]
fn dot_q8_0_row_ignores_nonfinite_scale() {
    // Build a row whose block scale bits decode to f16 NaN
    // (0x7E00 is a quiet NaN in f16 representation).
    let mut row = vec![0u8; Q8_0_BLOCK_BYTES];
    row[0] = 0x00;
    row[1] = 0x7E; // f16 NaN scale (LE)
    // Quants are arbitrary; the NaN scale must zero them out.
    for i in 0..Q8_0_BLOCK {
        row[2 + i] = 127;
    }
    let xq = vec![1i8; Q8_0_BLOCK];
    let xscale = vec![1.0_f32; 1];
    let got = dot_q8_0_row_scalar(&row, &xq, &xscale, Q8_0_BLOCK);
    // With NaN scale forced to 0.0, the block contributes nothing.
    assert!(got.is_finite());
    assert_eq!(got, 0.0);
}

#[test]
fn avx512_matches_scalar_when_supported() {
    let in_dim = 128;
    let w: Vec<f32> = (0..in_dim)
        .map(|i| ((i as f32) * 0.07 - 3.0).sin())
        .collect();
    let x: Vec<f32> = (0..in_dim)
        .map(|i| ((i as f32) * 0.11 + 1.0).cos())
        .collect();
    let row = pack_q8_0_row(&w);

    let blocks = in_dim / Q8_0_BLOCK;
    let mut xq = vec![0i8; blocks * Q8_0_BLOCK];
    let mut xs = vec![0.0_f32; blocks];
    quantize_q8_0_activation(&x, &mut xq, &mut xs).unwrap();

    let scalar = dot_q8_0_row_scalar(&row, &xq, &xs, in_dim);
    let avx = dot_q8_0_row_avx512(&row, &xq, &xs, in_dim);
    let denom = scalar.abs().max(1.0);
    assert!(
        (scalar - avx).abs() / denom < 1e-4,
        "avx512 {avx} vs scalar {scalar}"
    );
}

#[test]
fn neon_matches_scalar_when_supported() {
    let in_dim = 128;
    let w: Vec<f32> = (0..in_dim)
        .map(|i| ((i as f32) * 0.07 - 3.0).sin())
        .collect();
    let x: Vec<f32> = (0..in_dim)
        .map(|i| ((i as f32) * 0.11 + 1.0).cos())
        .collect();
    let row = pack_q8_0_row(&w);

    let blocks = in_dim / Q8_0_BLOCK;
    let mut xq = vec![0i8; blocks * Q8_0_BLOCK];
    let mut xs = vec![0.0_f32; blocks];
    quantize_q8_0_activation(&x, &mut xq, &mut xs).unwrap();

    let scalar = dot_q8_0_row_scalar(&row, &xq, &xs, in_dim);
    let neon = dot_q8_0_row_neon(&row, &xq, &xs, in_dim);
    let denom = scalar.abs().max(1.0);
    assert!(
        (scalar - neon).abs() / denom < 1e-4,
        "neon {neon} vs scalar {scalar}"
    );
}

#[test]
fn quantized_numbers_are_exact() {
    let mut x = vec![0.0f32; 32];
    x[0] = 127.0;
    x[1] = -127.0;
    x[2] = 1.4;
    x[3] = -1.6;
    x[4] = 2.5;
    let mut xq = vec![0i8; 32];
    let mut scale = vec![0.0f32; 1];
    quantize_q8_0_activation(&x, &mut xq, &mut scale).unwrap();
    assert_eq!(scale[0], 1.0);
    assert_eq!(xq[..4], [127, -127, 1, -2]);
    assert_eq!(xq[4], (2.5f32 * (1.0 / scale[0])).round_ties_even() as i8);
}

#[test]
fn a_block_is_its_scale_times_the_dot_product() {
    let mut row = f16::from_f32(0.5).to_le_bytes().to_vec();
    row.extend((0..32).map(|i| (i as i8 - 16) as u8));
    let xq: Vec<i8> = (0..32).map(|i| 3 * i as i8 - 40).collect();
    let dot: i32 = (0..32).map(|i| (i - 16) * (3 * i - 40)).sum();
    let want = 0.5 * 0.25 * dot as f32;
    assert_eq!(dot_q8_0_row_scalar(&row, &xq, &[0.25], 32), want);
    assert_eq!(dot_q8_0_row_avx512(&row, &xq, &[0.25], 32), want);
    assert_eq!(dot_q8_0_row_neon(&row, &xq, &[0.25], 32), want);
}

#[test]
fn quantizing_loses_half_a_scale_at_most() {
    for size in [1e-30f32, 0.37, 1.0, 4096.5, 1e30] {
        let x: Vec<f32> = (0..64).map(|i| ((i * i) as f32 * 0.7).sin() * size).collect();
        let mut xq = vec![0i8; 64];
        let mut scale = vec![0.0f32; 2];
        quantize_q8_0_activation(&x, &mut xq, &mut scale).unwrap();
        for i in 0..64 {
            let d = scale[i / 32] as f64;
            let off = (x[i] as f64 - xq[i] as f64 * d).abs();
            assert!(off <= d * (0.5 + 3.0 / 65536.0), "{i}: {off} of {d}");
        }
    }
}
