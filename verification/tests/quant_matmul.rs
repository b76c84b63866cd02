use rsllm::cpu::capability::SimdTier;
use rsllm::cpu::error::Error;
use rsllm::cpu::ops::quant_matmul;
use rsllm::gguf;
use rsllm::gguf::tensor::GgmlType;

fn bits(v: &[f32]) -> Vec<u32> {
    v.iter().map(|x| x.to_bits()).collect()
}

fn numbers(v: &[u32]) -> Vec<f32> {
    v.iter().map(|x| f32::from_bits(*x)).collect()
}

fn grid() -> [u64; 256] {
    let mut grid = [0x0808_0808_0808_0808; 256];
    grid[1] = 0x0808_0808_0808_082b;
    grid
}

#[allow(clippy::too_many_arguments)]
fn matmul_quant_f32(
    out: &mut [f32],
    weights: &[u8],
    x: &[f32],
    n_tok: usize,
    in_dim: usize,
    out_dim: usize,
    dtype: GgmlType,
    tier: SimdTier,
) -> Result<(), Error> {
    let mut all = bits(out);
    let r = quant_matmul::matmul_quant_f32(
        &mut all,
        weights,
        &bits(x),
        n_tok,
        in_dim,
        out_dim,
        dtype,
        tier,
        &grid(),
    );
    out.copy_from_slice(&numbers(&all));
    r
}

fn dequant_to_f32(dtype: GgmlType, src: &[u8], dst: &mut [f32]) -> Result<(), gguf::error::Error> {
    let mut all = bits(dst);
    let r = gguf::dequant::dequant_to_f32(dtype, src, &mut all);
    dst.copy_from_slice(&numbers(&all));
    r
}


/// Build a tiny f32 row, quantize it to Q4_0 via a manual packer
/// (the only GGUF format that's trivial to construct by hand for
/// tests — Q4_K's block layout is too involved for inline test
/// construction; we exercise it through dequant smoke).
fn pack_q4_0_row(x: &[f32]) -> Vec<u8> {
    // Q4_0 block: f16 d (2B) + 16 packed nibbles (16B) = 18B / 32 elems.
    assert!(
        x.len().is_multiple_of(32),
        "test helper requires multiple-of-32 length"
    );
    let blocks = x.len() / 32;
    let mut out = vec![0u8; blocks * 18];
    for b in 0..blocks {
        let block = &x[b * 32..(b + 1) * 32];
        let amax = block.iter().fold(0.0_f32, |a, &v| a.max(v.abs()));
        let d = amax / -8.0;
        let id = if d != 0.0 { 1.0 / d } else { 0.0 };
        let bits = half::f16::from_f32(d).to_bits().to_le_bytes();
        out[b * 18] = bits[0];
        out[b * 18 + 1] = bits[1];
        for i in 0..16 {
            let q0 = ((block[i] * id + 8.5_f32).floor() as i32).clamp(0, 15) as u8;
            let q1 = ((block[i + 16] * id + 8.5_f32).floor() as i32).clamp(0, 15) as u8;
            out[b * 18 + 2 + i] = q0 | (q1 << 4);
        }
    }
    out
}

#[test]
fn rejects_unsupported_dtype() {
    let mut out = vec![0.0_f32; 4];
    let err = matmul_quant_f32(
        &mut out,
        &[],
        &[],
        1,
        32,
        4,
        GgmlType::F16,
        SimdTier::Scalar,
    )
    .unwrap_err();
    assert!(matches!(err, Error::ShapeMismatch(_)));
}

#[test]
fn rejects_unaligned_in_dim() {
    let mut out = vec![0.0_f32; 4];
    let err = matmul_quant_f32(
        &mut out,
        &[],
        &[],
        1,
        30, // not multiple of 32
        4,
        GgmlType::Q4_0,
        SimdTier::Scalar,
    )
    .unwrap_err();
    assert!(matches!(err, Error::NotBlockAligned { .. }));
}

#[test]
fn q4_0_matmul_matches_naive_within_tolerance() {
    // Smoke test using Q4_0 (easiest to pack manually). The same
    // matmul path serves Q4_K / Q2_K / IQ2_XXS — they only differ
    // in the dequant arm.
    let in_dim: usize = 64;
    let out_dim: usize = 3;
    let n_tok: usize = 2;

    let weights_f32: Vec<f32> = (0..out_dim * in_dim)
        .map(|i| ((i as f32) * 0.05).sin() * 4.0)
        .collect();
    let x: Vec<f32> = (0..n_tok * in_dim)
        .map(|i| ((i as f32) * 0.07).cos())
        .collect();

    let mut weights = Vec::new();
    for o in 0..out_dim {
        weights.extend_from_slice(&pack_q4_0_row(&weights_f32[o * in_dim..(o + 1) * in_dim]));
    }

    let mut out = vec![0.0_f32; n_tok * out_dim];
    matmul_quant_f32(
        &mut out,
        &weights,
        &x,
        n_tok,
        in_dim,
        out_dim,
        GgmlType::Q4_0,
        SimdTier::Scalar,
    )
    .unwrap();

    // Reference: dequant once globally and naive matmul.
    let row_blocks = in_dim / 32;
    let row_bytes = row_blocks * 18;
    let mut ref_w = vec![0.0_f32; out_dim * in_dim];
    for o in 0..out_dim {
        dequant_to_f32(
            GgmlType::Q4_0,
            &weights[o * row_bytes..(o + 1) * row_bytes],
            &mut ref_w[o * in_dim..(o + 1) * in_dim],
        )
        .unwrap();
    }
    for t in 0..n_tok {
        for o in 0..out_dim {
            let mut want = 0.0_f32;
            for i in 0..in_dim {
                want += ref_w[o * in_dim + i] * x[t * in_dim + i];
            }
            let got = out[t * out_dim + o];
            assert!(
                (got - want).abs() < 1e-4 * want.abs().max(1.0),
                "t {t} o {o}: got {got}, want {want}"
            );
        }
    }
}

fn product(dtype: GgmlType, row: &[u8], numbers: &[u32]) {
    let x: Vec<f32> = (0..256).map(|i| ((i as f32) * 0.3).sin()).collect();
    let mut out = vec![0.0_f32; 2];
    let weights = [row, row].concat();
    matmul_quant_f32(&mut out, &weights, &x, 1, 256, 2, dtype, SimdTier::Scalar).unwrap();
    let mut want = 0.0_f32;
    for i in 0..256 {
        want += f32::from_bits(numbers[i]) * x[i];
    }
    assert_eq!(out, vec![want, want]);
    assert_ne!(want, 0.0);
}

#[test]
fn two_bit_weights_are_multiplied() {
    let mut row: Vec<u8> = (0..80).map(|i| (i * 37 + 11) as u8).collect();
    row.extend_from_slice(&half::f16::from_f32(0.5).to_le_bytes());
    row.extend_from_slice(&half::f16::from_f32(0.25).to_le_bytes());
    let mut numbers = vec![0; 256];
    gguf::dequant::q2_k::dequant_q2_k(&row, &mut numbers).unwrap();
    product(GgmlType::Q2_K, &row, &numbers);
}

#[test]
fn grid_weights_are_multiplied() {
    let mut row = half::f16::from_f32(1.5).to_le_bytes().to_vec();
    row.extend((0..64).map(|i| (i * 29 % 3) as u8));
    let mut numbers = vec![0; 256];
    gguf::dequant::iq2_xxs::dequant_iq2_xxs(&row, &mut numbers, &grid()).unwrap();
    product(GgmlType::IQ2_XXS, &row, &numbers);
}

#[test]
fn lengths_have_to_fit() {
    let mut out = vec![7.0_f32; 4];
    let weights = vec![0u8; 4 * 18];
    let x = vec![1.0_f32; 32];
    let run = |out: &mut [f32], w: &[u8], x: &[f32], n, i, o| {
        matmul_quant_f32(out, w, x, n, i, o, GgmlType::Q4_0, SimdTier::Scalar)
    };
    assert!(run(&mut out, &weights[1..], &x, 1, 32, 4).is_err());
    assert!(run(&mut out, &weights, &x[1..], 1, 32, 4).is_err());
    assert!(run(&mut out[1..], &weights, &x, 1, 32, 4).is_err());
    assert_eq!(out, vec![7.0; 4]);
    assert!(run(&mut out, &weights, &x, 1, 32, 4).is_ok());
    assert_eq!(out, vec![0.0; 4]);
}
