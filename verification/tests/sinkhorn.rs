use rsllm::cpu::capability::SimdTier;
use rsllm::cpu::error::Error;
use rsllm::cpu::ops::sinkhorn;
use rsllm::cpu::ops::sinkhorn::{N_HC, N_HC_SINKHORN_ITER};

fn bits(v: &[f32]) -> Vec<u32> {
    v.iter().map(|x| x.to_bits()).collect()
}

fn numbers(v: &[u32]) -> Vec<f32> {
    v.iter().map(|x| f32::from_bits(*x)).collect()
}

fn exp(x: u32) -> u32 {
    f32::from_bits(x).exp().to_bits()
}

#[allow(clippy::too_many_arguments)]
fn hc_split_sinkhorn(
    out: &mut [f32],
    mix: &[f32],
    scale: &[f32; 3],
    base: &[f32],
    n_hc: usize,
    iters: usize,
    eps: f32,
    tier: SimdTier,
) -> Result<(), Error> {
    let mut all = bits(out);
    let factors = [scale[0].to_bits(), scale[1].to_bits(), scale[2].to_bits()];
    let r = sinkhorn::hc_split_sinkhorn(
        &mut all,
        &bits(mix),
        &factors,
        &bits(base),
        n_hc,
        iters,
        eps.to_bits(),
        tier,
        &exp,
    );
    out.copy_from_slice(&numbers(&all));
    r
}


fn unit_input(n_hc: usize) -> (Vec<f32>, Vec<f32>) {
    let len = 2 * n_hc + n_hc * n_hc;
    // mix all zeros → sigmoid(0) = 0.5 for pre/post gates,
    // all matrix entries equal → uniform row before Sinkhorn.
    let mix = vec![0.0_f32; len];
    let base = vec![0.0_f32; len];
    (mix, base)
}

#[test]
fn rejects_wrong_size() {
    let mut out = vec![0.0_f32; 10];
    let err = hc_split_sinkhorn(
        &mut out,
        &[0.0; 24],
        &[1.0, 1.0, 1.0],
        &[0.0; 10],
        4,
        20,
        1e-6,
        SimdTier::Scalar,
    )
    .unwrap_err();
    assert!(matches!(err, Error::ShapeMismatch(_)));
}

#[test]
fn rejects_n_hc_zero() {
    let mut out = Vec::<f32>::new();
    let err = hc_split_sinkhorn(
        &mut out,
        &[],
        &[1.0, 1.0, 1.0],
        &[],
        0,
        20,
        1e-6,
        SimdTier::Scalar,
    )
    .unwrap_err();
    assert!(matches!(err, Error::ShapeMismatch(_)));
}

#[test]
fn pre_gates_have_correct_layout() {
    // With mix=0, base=0, pre_scale=1: pre gate = sigmoid(0) + eps = 0.5 + eps
    let n_hc = N_HC;
    let len = 2 * n_hc + n_hc * n_hc;
    let mut out = vec![99.0_f32; len];
    let (mix, base) = unit_input(n_hc);
    hc_split_sinkhorn(
        &mut out,
        &mix,
        &[1.0, 1.0, 1.0],
        &base,
        n_hc,
        N_HC_SINKHORN_ITER,
        1e-6,
        SimdTier::Scalar,
    )
    .unwrap();

    for (i, &v) in out.iter().take(n_hc).enumerate() {
        // sigmoid(0) = 0.5, plus eps = 1e-6.
        assert!((v - 0.5_f32).abs() < 1e-4, "out[{i}] = {v}");
    }
    // Post gates: 2 * sigmoid(0) = 1.0.
    for &v in out.iter().skip(n_hc).take(n_hc) {
        assert!((v - 1.0_f32).abs() < 1e-4);
    }
}

#[test]
fn sinkhorn_matrix_is_doubly_stochastic() {
    // After 20 iterations of Sinkhorn-Knopp on a uniform-ish input,
    // every row and column of the n_hc x n_hc matrix must sum to ≈ 1.
    let n_hc = N_HC;
    let len = 2 * n_hc + n_hc * n_hc;
    let mut out = vec![0.0_f32; len];
    // Use a slightly non-uniform input so the algorithm has work to do.
    let mut mix = vec![0.0_f32; len];
    for (i, v) in mix.iter_mut().enumerate().skip(2 * n_hc) {
        *v = ((i % 7) as f32) * 0.3 - 1.0;
    }
    let base = vec![0.0_f32; len];

    hc_split_sinkhorn(
        &mut out,
        &mix,
        &[1.0, 1.0, 1.0],
        &base,
        n_hc,
        N_HC_SINKHORN_ITER,
        1e-6,
        SimdTier::Scalar,
    )
    .unwrap();

    let mat = &out[2 * n_hc..];
    // Row sums.
    for dst in 0..n_hc {
        let s: f32 = (0..n_hc).map(|src| mat[src + dst * n_hc]).sum();
        assert!((s - 1.0).abs() < 1e-3, "row {dst} sum {s} not ≈ 1",);
    }
    // Column sums.
    for src in 0..n_hc {
        let s: f32 = (0..n_hc).map(|dst| mat[src + dst * n_hc]).sum();
        assert!((s - 1.0).abs() < 1e-3, "col {src} sum {s} not ≈ 1",);
    }
}

#[test]
fn output_is_finite() {
    // Even with extreme inputs, output must stay finite (eps guard).
    let n_hc = N_HC;
    let len = 2 * n_hc + n_hc * n_hc;
    let mut out = vec![0.0_f32; len];
    let mix: Vec<f32> = (0..len).map(|i| ((i as f32) - 12.0) * 5.0).collect();
    let base = vec![0.0_f32; len];

    hc_split_sinkhorn(
        &mut out,
        &mix,
        &[1.0, 1.0, 1.0],
        &base,
        n_hc,
        N_HC_SINKHORN_ITER,
        1e-6,
        SimdTier::Scalar,
    )
    .unwrap();
    assert!(out.iter().all(|v| v.is_finite()));
}

#[test]
fn rejects_too_many_streams() {
    let len = 2 * 17 + 17 * 17;
    let mut out = vec![1.0_f32; len];
    let r = hc_split_sinkhorn(
        &mut out,
        &vec![0.0; len],
        &[1.0, 1.0, 1.0],
        &vec![0.0; len],
        17,
        20,
        1e-6,
        SimdTier::Scalar,
    );
    assert!(matches!(
        r,
        Err(Error::ShapeMismatch(
            "hc_split_sinkhorn: n_hc > 16 exceeds ds4's stack-buffer reference"
        ))
    ));
    assert!(out.iter().all(|v| *v == 1.0));
}

#[test]
fn gates_and_entries_stay_in_their_range() {
    let n_hc = 5;
    let len = 2 * n_hc + n_hc * n_hc;
    let mix: Vec<f32> = (0..len).map(|i| ((i * 37 % 23) as f32 - 11.0) * 9.0).collect();
    let base: Vec<f32> = (0..len).map(|i| (i as f32 * 0.7).sin()).collect();
    for iters in [0, 1, 7] {
        let mut out = vec![0.0_f32; len];
        hc_split_sinkhorn(
            &mut out,
            &mix,
            &[1.0, -2.0, 0.5],
            &base,
            n_hc,
            iters,
            1e-6,
            SimdTier::Scalar,
        )
        .unwrap();
        assert!(out[..n_hc].iter().all(|g| (1e-6..=2.0).contains(g)));
        assert!(out[n_hc..2 * n_hc].iter().all(|g| (0.0..=2.0).contains(g)));
        assert!(out[2 * n_hc..].iter().all(|m| (0.0..=1.0).contains(m)));
    }
}

#[test]
fn columns_sum_to_one_from_the_second_round_on() {
    let n_hc = 4;
    let len = 2 * n_hc + n_hc * n_hc;
    let mix: Vec<f32> = (0..len).map(|i| ((i * 29 % 17) as f32 - 8.0) * 1.5).collect();
    let base = vec![0.0_f32; len];
    for iters in [2, 5] {
        let mut out = vec![0.0_f32; len];
        let eps = 1e-6_f32;
        hc_split_sinkhorn(
            &mut out,
            &mix,
            &[1.0, 1.0, 1.0],
            &base,
            n_hc,
            iters,
            eps,
            SimdTier::Scalar,
        )
        .unwrap();
        for src in 0..n_hc {
            let sum: f32 = (0..n_hc).map(|dst| out[2 * n_hc + src + dst * n_hc]).sum();
            assert!((sum - 1.0).abs() <= 256.0 * eps + 1.0 / 32768.0, "column {src}: {sum}");
        }
    }
}
