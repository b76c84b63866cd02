use rsllm::ranking::pick_highest;
use rsllm::rng::Xoshiro256StarStar;
use rsllm::sampler::{
    apply_min_p, apply_top_k, apply_top_p, argmax_of, draw, filter, normalize, Sampler,
    SamplingParams, DEFAULT_MIN_P, DEFAULT_TEMPERATURE, DEFAULT_THINK_TEMPERATURE,
};

fn exp(x: u32) -> u32 {
    f32::from_bits(x).exp().to_bits()
}

fn bits(v: &[f32]) -> Vec<u32> {
    v.iter().map(|x| x.to_bits()).collect()
}

fn numbers(v: &[u32]) -> Vec<f32> {
    v.iter().map(|x| f32::from_bits(*x)).collect()
}

fn sample(s: &mut Sampler, logits: &mut [f32]) -> u32 {
    let mut all = bits(logits);
    let pick = s.sample(&mut all, &exp);
    for (l, b) in logits.iter_mut().zip(all) {
        *l = f32::from_bits(b);
    }
    pick
}


#[test]
fn default_params_match_ds4_min_p() {
    let p = SamplingParams::default();
    assert_eq!(p.min_p, Some(DEFAULT_MIN_P));
    assert_eq!(p.top_p.map(f32::from_bits), Some(1.0));
    assert_eq!(p.top_k, None);
    assert!((f32::from_bits(p.temperature) - f32::from_bits(DEFAULT_TEMPERATURE)).abs() < 1e-9);
}

#[test]
fn greedy_picks_argmax() {
    let mut s = Sampler::greedy();
    let mut logits = vec![1.0_f32, 5.0, 2.0, 3.0];
    let pick = sample(&mut s, &mut logits);
    assert_eq!(pick, 1);
}

#[test]
fn greedy_handles_nan_logits() {
    let mut s = Sampler::greedy();
    let mut logits = vec![1.0_f32, f32::NAN, 3.0, f32::INFINITY];
    // INF is non-finite → skipped; 3.0 wins.
    let pick = sample(&mut s, &mut logits);
    assert_eq!(pick, 2);
}

#[test]
fn temperature_zero_is_greedy() {
    let params = SamplingParams {
        temperature: (0.0_f32).to_bits(),
        ..SamplingParams::default()
    };
    let mut s = Sampler::new(params);
    let mut logits = vec![1.0_f32, 0.5, 4.0, 2.0];
    assert_eq!(sample(&mut s, &mut logits), 2);
}

#[test]
fn same_seed_same_pick() {
    let mut s1 = Sampler::new(SamplingParams {
        temperature: (1.0_f32).to_bits(),
        seed: Some(42),
        ..SamplingParams::default()
    });
    let mut s2 = Sampler::new(SamplingParams {
        temperature: (1.0_f32).to_bits(),
        seed: Some(42),
        ..SamplingParams::default()
    });
    for _ in 0..16 {
        let mut a = vec![0.1_f32, 0.9, 0.3, 0.5, 0.2];
        let mut b = a.clone();
        assert_eq!(sample(&mut s1, &mut a), sample(&mut s2, &mut b));
    }
}

#[test]
fn different_seeds_diverge() {
    // Two samplers with different seeds and a non-degenerate
    // distribution should disagree on at least one of N draws.
    let mut s1 = Sampler::new(SamplingParams {
        temperature: (1.0_f32).to_bits(),
        min_p: None,
        top_p: None,
        seed: Some(1),
        ..SamplingParams::default()
    });
    let mut s2 = Sampler::new(SamplingParams {
        temperature: (1.0_f32).to_bits(),
        min_p: None,
        top_p: None,
        seed: Some(2),
        ..SamplingParams::default()
    });
    let mut disagreed = false;
    for _ in 0..32 {
        let mut a = vec![1.0_f32, 1.0, 1.0, 1.0];
        let mut b = a.clone();
        if sample(&mut s1, &mut a) != sample(&mut s2, &mut b) {
            disagreed = true;
            break;
        }
    }
    assert!(disagreed, "two different seeds should diverge within 32 draws");
}

#[test]
fn min_p_filters_low_relative_prob() {
    // probs after softmax(/T=1): essentially [0.575, 0.212, 0.078, 0.029, 0.011, ...]
    // For min_p=0.5 with max=0.575 → threshold ≈ 0.287 → only idx 0 survives.
    let params = SamplingParams {
        temperature: (1.0_f32).to_bits(),
        min_p: Some(0.5_f32.to_bits()),
        top_p: None,
        top_k: None,
        seed: Some(7),
    };
    let mut s = Sampler::new(params);
    // Strongly peaked: logit 5 dominates idx 0.
    let mut logits = vec![5.0_f32, 4.0, 3.0, 2.0, 1.0];
    // With idx 0 being the only survivor it must be selected every time.
    for _ in 0..16 {
        let mut l = logits.clone();
        assert_eq!(sample(&mut s, &mut l), 0);
    }
    let _ = &mut logits;
}

#[test]
fn top_k_keeps_only_k_tokens() {
    // top_k=1 forces the highest-prob token to win every draw,
    // regardless of temperature.
    let params = SamplingParams {
        temperature: (1.0_f32).to_bits(),
        top_k: Some(1),
        top_p: None,
        min_p: None,
        seed: Some(11),
    };
    let mut s = Sampler::new(params);
    for _ in 0..8 {
        let mut l = vec![0.5_f32, 2.0, 0.7, 1.5, 0.3];
        assert_eq!(sample(&mut s, &mut l), 1);
    }
}

#[test]
fn top_p_at_one_is_noop() {
    // top_p=1.0 keeps the full distribution; min_p disabled, so
    // the multinomial draw should be able to land on any token.
    let params = SamplingParams {
        temperature: (1.0_f32).to_bits(),
        top_p: Some(1.0_f32.to_bits()),
        min_p: None,
        top_k: None,
        seed: Some(13),
    };
    let mut s = Sampler::new(params);
    let mut seen = [false; 5];
    for _ in 0..200 {
        let mut l = vec![0.1_f32; 5];
        let pick = sample(&mut s, &mut l) as usize;
        seen[pick] = true;
    }
    assert!(seen.iter().all(|&b| b), "top_p=1 should let every token surface; got {seen:?}");
}

#[test]
fn pathological_all_neg_inf_falls_back() {
    // All -inf logits → softmax all-zero → renorm fails → argmax fallback.
    // argmax(all zeros) returns 0; verify no panic.
    let mut s = Sampler::new(SamplingParams {
        temperature: (1.0_f32).to_bits(),
        ..SamplingParams::default()
    });
    let mut l = vec![f32::NEG_INFINITY; 4];
    let pick = sample(&mut s, &mut l);
    assert!((pick as usize) < 4);
}

#[test]
fn xoshiro_is_deterministic() {
    let mut r1 = Xoshiro256StarStar::from_seed(0);
    let mut r2 = Xoshiro256StarStar::from_seed(0);
    for _ in 0..1000 {
        assert_eq!(r1.next_u64(), r2.next_u64());
    }
}

#[test]
fn xoshiro_next_f32_in_unit_range() {
    let mut r = Xoshiro256StarStar::from_seed(99);
    for _ in 0..10_000 {
        let v = f32::from_bits(r.next_f32());
        assert!((0.0..1.0).contains(&v), "out of range: {v}");
    }
}

#[test]
fn think_preset_keeps_min_p_active() {
    let p = SamplingParams::think();
    assert_eq!(p.min_p, Some(DEFAULT_MIN_P));
    assert!((f32::from_bits(p.temperature) - f32::from_bits(DEFAULT_THINK_TEMPERATURE)).abs() < 1e-9);
}

#[test]
fn nan_temperature_falls_back_to_greedy() {
    // NaN temperature must not silently propagate through softmax
    // (would collapse to "always token 0"). The `>0.0` guard
    // treats NaN as a greedy short-circuit.
    let params = SamplingParams {
        temperature: (f32::NAN).to_bits(),
        ..SamplingParams::default()
    };
    let mut s = Sampler::new(params);
    let mut logits = vec![1.0_f32, 5.0, 2.0, 3.0];
    assert_eq!(sample(&mut s, &mut logits), 1, "argmax of input is index 1");
}

#[test]
fn negative_temperature_falls_back_to_greedy() {
    let params = SamplingParams {
        temperature: (-1.0_f32).to_bits(),
        ..SamplingParams::default()
    };
    let mut s = Sampler::new(params);
    let mut logits = vec![1.0_f32, 5.0, 2.0];
    assert_eq!(sample(&mut s, &mut logits), 1);
}

#[test]
fn top_p_boundary_token_included() {
    // Softmax of [ln(0.6), ln(0.4)] gives probs [0.6, 0.4].
    // top_p=0.7: cumulative at rank 0 is 0.6 (< 0.7, continue);
    // rank 1 brings it to 1.0 (>= 0.7, stop) — both tokens kept.
    // The "boundary" token (rank 1, the one that pushed mass
    // over the threshold) must survive.
    let params = SamplingParams {
        temperature: (1.0_f32).to_bits(),
        top_p: Some(0.7_f32.to_bits()),
        min_p: None,
        top_k: None,
        seed: Some(99),
    };
    let mut s = Sampler::new(params);
    let logit_p = 0.6_f32.ln();
    let logit_q = 0.4_f32.ln();
    let mut seen = [false; 2];
    for _ in 0..200 {
        let mut l = vec![logit_p, logit_q];
        let pick = sample(&mut s, &mut l) as usize;
        seen[pick] = true;
    }
    assert!(seen[0] && seen[1], "top_p=0.7 must retain both tokens, saw {seen:?}");
}

#[test]
fn top_p_strict_threshold_drops_tail() {
    let params = SamplingParams {
        temperature: (1.0_f32).to_bits(),
        top_p: Some(0.6_f32.to_bits()),
        min_p: None,
        top_k: None,
        seed: Some(100),
    };
    let mut s = Sampler::new(params);
    let logit_p = 0.6_f32.ln();
    let logit_q = 0.4_f32.ln();
    for _ in 0..200 {
        let mut l = vec![logit_p, logit_q];
        assert_eq!(sample(&mut s, &mut l), 0);
    }
}

#[test]
fn top_k_and_top_p_chain_correctly() {
    // top_k=2 selects [logit=5, logit=4]; top_p=0.5 over the
    // surviving two-token distribution should keep just the top.
    let params = SamplingParams {
        temperature: (1.0_f32).to_bits(),
        top_k: Some(2),
        top_p: Some(0.5_f32.to_bits()),
        min_p: None,
        seed: Some(17),
    };
    let mut s = Sampler::new(params);
    for _ in 0..16 {
        let mut l = vec![1.0_f32, 2.0, 5.0, 4.0, 3.0];
        // logit=5 is index 2 — must always win after both filters.
        assert_eq!(sample(&mut s, &mut l), 2);
    }
}

#[test]
fn multinomial_fallback_never_returns_zeroed_bucket() {
    // Set up a distribution where top-k=1 keeps only the highest
    // bucket, then verify across 200 draws every result is
    // exactly that bucket (the fallback path must NOT return
    // index len-1 if its mass was zeroed).
    let params = SamplingParams {
        temperature: (1.0_f32).to_bits(),
        top_k: Some(1),
        top_p: None,
        min_p: None,
        seed: Some(31),
    };
    let mut s = Sampler::new(params);
    for _ in 0..200 {
        // The biggest logit is at index 2; the last slot (index 4)
        // would be the buggy fallback target.
        let mut l = vec![0.1_f32, 0.2, 9.0, 0.3, 0.05];
        let pick = sample(&mut s, &mut l);
        assert_eq!(pick, 2);
    }
}


#[test]
fn presets_have_the_documented_values() {
    assert_eq!(f32::from_bits(DEFAULT_MIN_P), 0.05);
    assert_eq!(f32::from_bits(DEFAULT_TEMPERATURE), 0.7);
    assert_eq!(f32::from_bits(DEFAULT_THINK_TEMPERATURE), 1.0);
    let g = SamplingParams::greedy();
    assert_eq!((g.temperature, g.top_k, g.top_p, g.min_p, g.seed), (0, None, None, None, None));
    assert_eq!(Sampler::greedy().params().temperature, 0);
}

#[test]
fn generator_gives_the_published_numbers() {
    let mut r = Xoshiro256StarStar { s0: 1, s1: 2, s2: 3, s3: 4 };
    assert_eq!(r.next_u64(), 11520);
    assert_eq!(r.next_u64(), 0);
    assert_eq!(r.next_u64(), 1_509_978_240);
    assert_eq!(r.next_u64(), 1_215_971_899_390_074_240);
    let mut a = Xoshiro256StarStar::from_seed(7);
    let mut b = Xoshiro256StarStar::from_seed(7);
    for _ in 0..100 {
        assert_eq!(f32::from_bits(a.next_f32()), (b.next_u64() >> 40) as f32 / 16_777_216.0);
    }
}

#[test]
fn filters_keep_what_they_should() {
    let probs = [0.1f32, 0.4, 0.2, 0.3];
    assert_eq!(numbers(&apply_top_k(bits(&probs), 1)), vec![0.0, 0.4, 0.0, 0.0]);
    assert_eq!(numbers(&apply_top_k(bits(&probs), 9)).len(), 4);
    let kept = numbers(&apply_top_p(bits(&probs), 0.65f32.to_bits()));
    assert_eq!(kept.iter().map(|p| *p > 0.0).collect::<Vec<_>>(), [false, true, false, true]);
    assert_eq!(kept[1], 0.4);
    let kept = numbers(&apply_min_p(bits(&probs), 0.5f32.to_bits()));
    assert_eq!(kept.iter().map(|p| *p > 0.0).collect::<Vec<_>>(), [false, true, true, true]);
    assert_eq!(
        filter(bits(&probs), &SamplingParams::greedy()),
        normalize(bits(&probs))
    );
}

#[test]
fn draws_fall_into_their_interval() {
    let probs = bits(&[0.25, 0.0, 0.5, 0.25]);
    let logits = bits(&[0.0; 4]);
    let at = |u: f32| draw(&probs, u.to_bits(), &logits);
    assert_eq!(at(0.0), 0);
    assert_eq!(at(0.2), 0);
    assert_eq!(at(0.3), 2);
    assert_eq!(at(0.74), 2);
    assert_eq!(at(0.8), 3);
}

#[test]
fn the_probabilities_are_left_behind() {
    let mut s = Sampler::new(SamplingParams {
        temperature: 1.0f32.to_bits(),
        top_k: Some(2),
        top_p: None,
        min_p: None,
        seed: Some(3),
    });
    let mut l = vec![1.0f32, 3.0, 2.0];
    let pick = sample(&mut s, &mut l);
    assert!(pick == 1 || pick == 2);
    assert_eq!(l[0], 0.0);
    assert!((l[1] + l[2] - 1.0).abs() < 1e-6);
    assert!((l[1] / l[2] - 1.0f32.exp()).abs() < 1e-5);
}

#[test]
fn the_highest_comes_first() {
    assert_eq!(argmax_of(&bits(&[2.0, 5.0, 5.0, f32::NAN])), 1);
    assert_eq!(argmax_of(&bits(&[f32::NEG_INFINITY, -3.0])), 1);
    assert_eq!(pick_highest(&bits(&[1.0, f32::NAN, 3.0, 3.0, -0.0]), 4), vec![2, 3, 0, 4]);
}

#[test]
fn filters_drop_and_never_change() {
    let probs = bits(&[0.4, 0.3, 0.2, 0.1]);
    let params = SamplingParams {
        temperature: 1.0f32.to_bits(),
        top_k: Some(3),
        top_p: Some(0.65f32.to_bits()),
        min_p: Some(0.05f32.to_bits()),
        seed: None,
    };
    let left = filter(probs.clone(), &params);
    assert_eq!(left, bits(&[0.4, 0.3, 0.0, 0.0]));
    let top = apply_top_k(probs.clone(), 3);
    assert_eq!(top.iter().filter(|p| **p != 0).count(), 3);
    // The likeliest token stays, however high the cutoff.
    assert_eq!(apply_min_p(probs, 0.999f32.to_bits()), bits(&[0.4, 0.0, 0.0, 0.0]));
}

#[test]
fn only_finite_logits_are_drawn() {
    for seed in 0..50 {
        let mut s = Sampler::new(SamplingParams {
            temperature: 5.0f32.to_bits(),
            top_k: None,
            top_p: None,
            min_p: None,
            seed: Some(seed),
        });
        let mut l = vec![f32::INFINITY, 1.0, f32::NAN, 0.5, f32::NEG_INFINITY];
        let pick = sample(&mut s, &mut l);
        assert!(pick == 1 || pick == 3);
        assert_eq!((l[0], l[2], l[4]), (0.0, 0.0, 0.0));
        // More likely where the logit is higher, and never above one.
        assert!(l[3] < l[1] && l[1] <= 1.0);
    }
}

#[test]
fn params_are_equal_by_value() {
    let p = SamplingParams::default();
    assert!(p == p && p == SamplingParams::default());
    assert!(p != SamplingParams::think());
    let cold = SamplingParams { temperature: 0, ..p };
    assert!(cold == SamplingParams { temperature: (-0.0f32).to_bits(), ..p });
    let odd = SamplingParams { min_p: Some(f32::NAN.to_bits()), ..p };
    assert!(odd != odd);
    assert!(p != SamplingParams { top_p: None, ..p });
    assert!(p != SamplingParams { seed: Some(1), ..p });
}
