use rsllm::cpu::ops::scalar;

fn bits(v: &[f32]) -> Vec<u32> {
    v.iter().map(|x| x.to_bits()).collect()
}

fn numbers(v: &[u32]) -> Vec<f32> {
    v.iter().map(|x| f32::from_bits(*x)).collect()
}

fn exp(x: u32) -> u32 {
    f32::from_bits(x).exp().to_bits()
}

fn sqrt(x: u32) -> u32 {
    f32::from_bits(x).sqrt().to_bits()
}

fn rmsnorm(out: &mut [f32], x: &[f32], weight: &[f32], eps: f32) {
    let mut all = bits(out);
    scalar::rmsnorm(&mut all, &bits(x), &bits(weight), eps.to_bits(), &sqrt);
    out.copy_from_slice(&numbers(&all));
}

fn argmax(logits: &[f32]) -> u32 {
    scalar::argmax(&bits(logits))
}

fn sigmoid(x: f32) -> f32 {
    f32::from_bits(scalar::sigmoid(x.to_bits(), &exp))
}

fn silu(x: f32) -> f32 {
    f32::from_bits(scalar::silu(x.to_bits(), &exp))
}

fn swiglu(out: &mut [f32], gate: &[f32], up: &[f32]) {
    let mut all = bits(out);
    scalar::swiglu(&mut all, &bits(gate), &bits(up), &exp);
    out.copy_from_slice(&numbers(&all));
}

fn softmax(x: &mut [f32]) {
    let mut all = bits(x);
    scalar::softmax(&mut all, &exp);
    x.copy_from_slice(&numbers(&all));
}

fn softmax_attn(scores: &mut [f32], sink: f32) -> f32 {
    let mut all = bits(scores);
    let w = scalar::softmax_attn(&mut all, sink.to_bits(), &exp);
    scores.copy_from_slice(&numbers(&all));
    f32::from_bits(w)
}


#[test]
fn rmsnorm_unit_weights() {
    // For weight = all ones, output i = x[i] / rms.
    let x = vec![1.0, 2.0, 3.0, 4.0];
    let w = vec![1.0; 4];
    let mut out = vec![0.0; 4];
    rmsnorm(&mut out, &x, &w, 0.0);
    // rms = sqrt((1+4+9+16)/4) = sqrt(7.5) ≈ 2.7386
    let expected_rms = (30.0f32 / 4.0).sqrt();
    for (i, &v) in out.iter().enumerate() {
        let want = x[i] / expected_rms;
        assert!((v - want).abs() < 1e-6, "out[{i}] = {v}, want {want}");
    }
}

#[test]
fn rmsnorm_eps_prevents_divzero() {
    let x = vec![0.0; 8];
    let w = vec![1.0; 8];
    let mut out = vec![99.0; 8];
    rmsnorm(&mut out, &x, &w, 1e-6);
    // With all-zero input, output is also all-zero (because x[i] = 0
    // makes the product zero regardless of the rsqrt term).
    assert!(out.iter().all(|&v| v == 0.0));
}

#[test]
fn rmsnorm_weight_scales_output() {
    let x = vec![1.0; 4]; // rms = 1, so out = weight elementwise
    let w = vec![2.0, 3.0, 5.0, 7.0];
    let mut out = vec![0.0; 4];
    rmsnorm(&mut out, &x, &w, 0.0);
    for i in 0..4 {
        assert!((out[i] - w[i]).abs() < 1e-6);
    }
}

#[test]
fn argmax_unique_max() {
    assert_eq!(argmax(&[1.0, 2.0, 3.0, 2.5]), 2);
}

#[test]
fn argmax_ties_pick_lowest_index() {
    assert_eq!(argmax(&[3.0, 3.0, 3.0]), 0);
    assert_eq!(argmax(&[1.0, 3.0, 2.0, 3.0]), 1);
}

#[test]
fn argmax_single_element() {
    assert_eq!(argmax(&[42.0]), 0);
}

#[test]
fn argmax_handles_negatives() {
    assert_eq!(argmax(&[-3.0, -1.0, -2.0]), 1);
}

#[test]
fn sigmoid_matches_reference() {
    // Known values; tolerance loose enough for f32 expf precision.
    assert!((sigmoid(0.0) - 0.5).abs() < 1e-6);
    assert!((sigmoid(2.0) - 0.880_797).abs() < 1e-4);
    assert!((sigmoid(-2.0) - 0.119_203).abs() < 1e-4);
    // Saturation at large |x|.
    assert!((sigmoid(20.0) - 1.0).abs() < 1e-6);
    assert!((sigmoid(-20.0) - 0.0).abs() < 1e-6);
}

#[test]
fn sigmoid_does_not_overflow_for_large_negative() {
    // The naive `1 / (1 + exp(-x))` overflows for x = -100 because
    // exp(100) overflows to inf. The stable branch must not.
    let y = sigmoid(-100.0);
    assert!(y.is_finite());
    assert!(y < 1e-30);
}

#[test]
fn silu_zero_at_zero() {
    assert_eq!(silu(0.0), 0.0);
}

#[test]
fn silu_asymptotes() {
    // silu(x) → x as x → +∞ (sigmoid → 1), → 0 as x → -∞.
    assert!((silu(20.0) - 20.0).abs() < 1e-4);
    assert!(silu(-20.0).abs() < 1e-4);
}

#[test]
fn swiglu_basic() {
    // gate = 2.0, up = 3.0 → silu(2) * 3
    let gate = vec![2.0_f32];
    let up = vec![3.0_f32];
    let mut out = vec![0.0_f32; 1];
    swiglu(&mut out, &gate, &up);
    let expected = silu(2.0) * 3.0;
    assert!((out[0] - expected).abs() < 1e-6);
}

#[test]
fn softmax_sums_to_one() {
    let mut x = vec![1.0_f32, 2.0, 3.0, 4.0];
    softmax(&mut x);
    let sum: f32 = x.iter().sum();
    assert!((sum - 1.0).abs() < 1e-6);
    // Strictly monotonic.
    assert!(x[0] < x[1] && x[1] < x[2] && x[2] < x[3]);
}

#[test]
fn softmax_stable_for_large_values() {
    // Without max subtraction, exp(1000) would overflow to inf.
    let mut x = vec![1000.0_f32; 4];
    softmax(&mut x);
    for v in &x {
        assert!((v - 0.25).abs() < 1e-6, "uniform input -> uniform output");
    }
}

#[test]
fn softmax_attn_zero_sink_recovers_softmax() {
    // sink at -inf is the same as a regular softmax with negligible
    // sink contribution.
    let mut a = vec![1.0_f32, 2.0, 3.0];
    let mut b = a.clone();
    softmax(&mut a);
    let _ = softmax_attn(&mut b, f32::NEG_INFINITY);
    for i in 0..3 {
        assert!((a[i] - b[i]).abs() < 1e-6);
    }
}

#[test]
fn softmax_attn_dominant_sink_collapses_output() {
    // sink at +∞ relative to scores → sink_weight → 1, scores → 0.
    let mut scores = vec![1.0_f32, 2.0, 3.0];
    let sink_w = softmax_attn(&mut scores, 100.0);
    assert!(sink_w > 0.999);
    for v in &scores {
        assert!(*v < 1e-30);
    }
}

#[test]
fn parts_are_between_zero_and_one() {
    let scores = [1000.0f32, -1000.0, 999.5, f32::NEG_INFINITY, 999.5];
    let mut x = scores;
    softmax(&mut x);
    assert!(x.iter().all(|p| (0.0..=1.0).contains(p)));
    assert!(x[3] <= x[1] && x[1] <= x[2] && x[2] == x[4] && x[4] <= x[0]);
    let mut y = scores;
    let sunk = softmax_attn(&mut y, 1001.0);
    assert!(y.iter().all(|p| (0.0..=1.0).contains(p)) && (0.0..=1.0).contains(&sunk));
    assert!(sunk > y[0] && y[0] > y[2] && y[2] == y[4]);
    for v in [-1e30f32, -90.0, -1.0, -0.0, 0.0, 1.0, 90.0, 1e30] {
        assert!((0.0..=1.0).contains(&sigmoid(v)));
    }
    assert_eq!(sigmoid(0.0), 0.5);
}

#[test]
fn without_a_sink_nothing_is_taken() {
    let mut a = [0.25f32, -3.0, 7.5, 7.25];
    let mut b = a;
    softmax(&mut a);
    assert_eq!(softmax_attn(&mut b, f32::NEG_INFINITY), 0.0);
    assert_eq!(bits(&a), bits(&b));
}

#[test]
fn hopeless_scores_stay_hopeless() {
    let mut a = [f32::NEG_INFINITY; 3];
    softmax(&mut a);
    assert!(a.iter().all(|p| p.is_nan()));
    let mut b = [f32::NAN; 2];
    softmax(&mut b);
    assert!(b.iter().all(|p| p.is_nan()));
}
