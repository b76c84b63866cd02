use rsllm::kvcache::dsv4::compressed::CompressedKvPool;
use rsllm::kvcache::Error;

fn exp(x: u32) -> u32 {
    f32::from_bits(x).exp().to_bits()
}

fn bits(v: &[f32]) -> Vec<u32> {
    v.iter().map(|x| x.to_bits()).collect()
}

fn numbers(v: &[u32]) -> Vec<f32> {
    v.iter().map(|x| f32::from_bits(*x)).collect()
}


fn const_row(v: f32, dim: usize) -> Vec<u32> {
    vec![v.to_bits(); dim]
}

#[test]
fn empty_pool_has_no_rows() {
    let p = CompressedKvPool::new(8, 4, 6);
    assert!(p.is_empty());
    assert_eq!(p.len(), 0);
    assert_eq!(p.state_count(), 0);
    assert_eq!(p.ratio(), 4);
    assert_eq!(p.head_dim(), 6);
    assert!(p.rows().is_empty());
}

#[test]
fn ratio4_pool_allocates_double_buffer() {
    // Internal sanity: a ratio-4 pool with head_dim=6 must hold
    // 2*4*2*6 = 96 floats for kv + 96 for score. Inspect via the
    // accumulate path (which would panic / mis-write if sizes were
    // off).
    let mut p = CompressedKvPool::new(2, 4, 6);
    for _ in 0..4 {
        p.accumulate(&const_row(0.0, 6), &const_row(0.0, 6), &exp).unwrap();
    }
    // No panic = buffer was big enough.
    assert_eq!(p.len(), 1);
}

#[test]
fn ratio128_pool_keeps_single_buffer() {
    // ratio-128 is the only other valid setting in DS V4 Flash.
    // Buffer should be 128 * head_dim, not 2*128*2*head_dim.
    let mut p = CompressedKvPool::new(1, 128, 4);
    for _ in 0..128 {
        p.accumulate(&const_row(0.0, 4), &const_row(0.0, 4), &exp).unwrap();
    }
    assert_eq!(p.len(), 1);
}

#[test]
fn coff_and_width_track_ratio() {
    let r4 = CompressedKvPool::new(2, 4, 8);
    assert_eq!(r4.coff(), 2);
    assert_eq!(r4.width(), 16); // 2 * 8
    let r128 = CompressedKvPool::new(1, 128, 8);
    assert_eq!(r128.coff(), 1);
    assert_eq!(r128.width(), 8);
}

#[test]
fn accumulate_wide_emits_at_boundary_with_distinct_lanes_ratio4() {
    let head_dim = 2;
    let width = 4; // 2 * head_dim, ratio-4
    let mut p = CompressedKvPool::new(2, 4, head_dim);
    let score = vec![0.0_f32.to_bits(); width];
    // Token 0: kv lane p = [10, 10], lane c = [20, 20]
    let mut kv0 = vec![0; width];
    kv0[..head_dim].copy_from_slice(&bits(&[10.0, 10.0]));
    kv0[head_dim..].copy_from_slice(&bits(&[20.0, 20.0]));
    for _ in 0..4 {
        p.accumulate_wide(&kv0, &score, &exp).unwrap();
    }
    // First window aggregation reads:
    // - Lane p (lower-half rows 0..4 col 0..head_dim): NEG_INF score,
    //   contributes 0.
    // - Lane c (upper-half rows 4..7 col head_dim..2*head_dim):
    //   4 rows × kv=20, score=0 → softmax-mean = 20.
    // So output should be 20 for each dim.
    let row = &numbers(&p.rows()[..head_dim]);
    for &v in row {
        assert!((v - 20.0).abs() < 1e-5, "expected 20.0, got {v}");
    }
}

#[test]
fn accumulate_wide_rejects_wrong_width() {
    let mut p = CompressedKvPool::new(2, 4, 6);
    // width = 12 for ratio-4. Passing 6 (head_dim) should fail.
    let err = p.accumulate_wide(&[0.0_f32.to_bits(); 6], &[0.0_f32.to_bits(); 12], &exp).unwrap_err();
    assert!(matches!(err, Error::ShapeMismatch { .. }));
}

#[test]
fn compressed_row_mut_allows_in_place_post_processing() {
    let head_dim = 4;
    let mut p = CompressedKvPool::new(2, 128, head_dim);
    for _ in 0..128 {
        p.accumulate(&const_row(2.0, head_dim), &const_row(0.0, head_dim), &exp)
            .unwrap();
    }
    let row = p.compressed_row_mut(0);
    for v in row.iter_mut() {
        *v = 99.0_f32.to_bits();
    }
    let final_row = &numbers(&p.rows()[..head_dim]);
    assert!(final_row.iter().all(|&v| v == 99.0));
}

#[test]
fn accumulate_before_boundary_returns_none() {
    let mut p = CompressedKvPool::new(8, 4, 4);
    for t in 0..3 {
        let r = p.accumulate(&const_row(t as f32, 4), &const_row(1.0, 4), &exp).unwrap();
        assert!(r.is_none(), "step {t} should not emit");
        assert_eq!(p.state_count(), (t + 1) as u32);
    }
    assert_eq!(p.len(), 0);
}

#[test]
fn accumulate_emits_at_boundary() {
    let mut p = CompressedKvPool::new(8, 4, 4);
    for t in 0..3 {
        p.accumulate(&const_row(t as f32, 4), &const_row(1.0, 4), &exp).unwrap();
    }
    let emitted =
        p.accumulate(&const_row(3.0_f32, 4), &const_row(1.0, 4), &exp).unwrap();
    assert_eq!(emitted, Some(0));
    assert_eq!(p.len(), 1);
    // After emission, state-count should be reset.
    assert_eq!(p.state_count(), 0);
}

#[test]
fn uniform_scores_give_simple_average() {
    // All lane-c scores equal → softmax weights = 1/ratio → output
    // = mean of kv values. Lane p stays at NEG_INF so it contributes
    // zero to the softmax. Identical numerical result to a single-
    // lane pool.
    let mut p = CompressedKvPool::new(8, 4, 4);
    for t in 0..4 {
        p.accumulate(&const_row(t as f32, 4), &const_row(2.5_f32, 4), &exp).unwrap();
    }
    // mean(0,1,2,3) = 1.5
    for &v in &numbers(&p.rows()[..4]) {
        assert!((v - 1.5).abs() < 1e-5, "got {v}");
    }
}

#[test]
fn high_score_dominates() {
    // One token has score much higher than the others → output ≈ its kv.
    let mut p = CompressedKvPool::new(8, 4, 2);
    p.accumulate(&const_row(1.0, 2), &const_row(0.0, 2), &exp).unwrap();
    p.accumulate(&const_row(2.0, 2), &const_row(0.0, 2), &exp).unwrap();
    p.accumulate(&const_row(100.0, 2), &const_row(20.0, 2), &exp).unwrap(); // dominator
    p.accumulate(&const_row(4.0, 2), &const_row(0.0, 2), &exp).unwrap();
    for &v in &numbers(&p.rows()[..2]) {
        assert!((v - 100.0).abs() < 1e-3, "expected ~100, got {v}");
    }
}

#[test]
fn neg_inf_scores_give_zero_output() {
    // If every score for a dim is NEG_INF on BOTH lanes, the softmax
    // falls back to 0. We test the dim-1 fallback by writing NEG_INF
    // for that dim alone.
    let mut p = CompressedKvPool::new(2, 4, 2);
    for _ in 0..4 {
        let kv = bits(&[5.0_f32, 7.0_f32]);
        let mut score = bits(&[0.0_f32; 2]);
        score[1] = f32::NEG_INFINITY.to_bits();
        p.accumulate(&kv, &score, &exp).unwrap();
    }
    let row = &numbers(&p.rows()[..2]);
    assert!((row[0] - 5.0).abs() < 1e-5);
    assert_eq!(row[1], 0.0); // NEG_INF fallback
}

#[test]
fn rejects_wrong_kv_length() {
    let mut p = CompressedKvPool::new(2, 4, 8);
    let err = p.accumulate(&[1.0_f32.to_bits(); 6], &[0.0_f32.to_bits(); 8], &exp).unwrap_err();
    assert!(matches!(err, Error::ShapeMismatch { .. }));
}

#[test]
fn rejects_wrong_score_length() {
    let mut p = CompressedKvPool::new(2, 4, 8);
    let err = p.accumulate(&[1.0_f32.to_bits(); 8], &[0.0_f32.to_bits(); 6], &exp).unwrap_err();
    assert!(matches!(err, Error::ShapeMismatch { .. }));
}

#[test]
fn errors_when_pool_is_full() {
    let mut p = CompressedKvPool::new(1, 2, 4); // cap=1, ratio=2 → coff=1.
    // First 2 tokens fill, emit 1 compressed row.
    p.accumulate(&const_row(0.0, 4), &const_row(0.0, 4), &exp).unwrap();
    p.accumulate(&const_row(1.0, 4), &const_row(0.0, 4), &exp).unwrap();
    assert_eq!(p.len(), 1);
    // Next emission would overflow.
    p.accumulate(&const_row(2.0, 4), &const_row(0.0, 4), &exp).unwrap();
    let err = p.accumulate(&const_row(3.0, 4), &const_row(0.0, 4), &exp).unwrap_err();
    assert!(matches!(err, Error::CompressedPoolFull { .. }));
}

#[test]
fn clear_resets_pool_and_state() {
    let mut p = CompressedKvPool::new(8, 4, 2);
    for _ in 0..6 {
        p.accumulate(&const_row(1.0, 2), &const_row(0.0, 2), &exp).unwrap();
    }
    assert!(!p.is_empty());
    assert!(p.state_count() > 0);
    p.clear();
    assert_eq!(p.len(), 0);
    assert_eq!(p.state_count(), 0);
}

#[test]
fn finish_prefill_state_aligns_to_remainder() {
    let mut p = CompressedKvPool::new(8, 4, 2);
    // 7 tokens: emits 1 compressed (4 tokens), state has 3 slots filled.
    for _ in 0..7 {
        p.accumulate(&const_row(1.0, 2), &const_row(0.5, 2), &exp).unwrap();
    }
    assert_eq!(p.len(), 1);
    assert_eq!(p.state_count(), 3);
    // finish_prefill aligns to rem = 7 % 4 = 3 — already there. No change.
    p.finish_prefill_state(7);
    assert_eq!(p.state_count(), 3);
    // Now normalise to a different remainder.
    p.finish_prefill_state(2); // rem = 2, count drops to 2.
    assert_eq!(p.state_count(), 2);
}

#[test]
fn ratio4_second_window_sees_previous_window_via_lower_half() {
    let mut p = CompressedKvPool::new(8, 4, 2);
    // Window 1: kv = 10, score = 0.0 (uniform). Mean kv ≈ 10.
    for _ in 0..4 {
        p.accumulate(&const_row(10.0, 2), &const_row(0.0, 2), &exp).unwrap();
    }
    let row0 = numbers(&p.rows()[..2]);
    for &v in &row0 {
        assert!((v - 10.0).abs() < 1e-5);
    }

    // Window 2: kv = 20, score = 0.0 (uniform). If only the new
    // window were aggregated, output would be 20.0. With the
    // sliding 8-token buffer, lane p (= rotated previous window,
    // kv = 10, score = 0.0) and lane c (= new window, kv = 20,
    // score = 0.0) both contribute equally → average = 15.0.
    for _ in 0..4 {
        p.accumulate(&const_row(20.0, 2), &const_row(0.0, 2), &exp).unwrap();
    }
    let row1 = &numbers(&p.rows()[2..4]);
    for &v in row1 {
        assert!((v - 15.0).abs() < 1e-5, "expected sliding-window mean 15.0, got {v}");
    }
}

#[test]
fn ratio128_emission_clears_state_for_next_window() {
    // ratio-128 has no rotation; state is cleared after emit.
    let mut p = CompressedKvPool::new(2, 128, 2);
    for _ in 0..128 {
        p.accumulate(&const_row(5.0, 2), &const_row(0.0, 2), &exp).unwrap();
    }
    assert_eq!(p.len(), 1);
    // After emit, all state slots return to NEG_INF / 0 — the next
    // emission must depend purely on the new window's tokens.
    for _ in 0..128 {
        p.accumulate(&const_row(50.0, 2), &const_row(0.0, 2), &exp).unwrap();
    }
    let row1 = &numbers(&p.rows()[2..4]);
    for &v in row1 {
        assert!((v - 50.0).abs() < 1e-3, "ratio-128 should not carry prior window, got {v}");
    }
}

#[test]
fn finish_prefill_clears_correct_rows_for_ratio4() {
    // After 7 tokens on a ratio-4 pool: 1 emit, then 3 in the
    // upper half (rows 4..7). finish_prefill_state(7) should clear
    // rows [ratio + rem, 2*ratio) = [7, 8) — i.e. the single
    // unfilled upper-half slot. The lower half (rotated previous
    // window) must be preserved.
    let mut p = CompressedKvPool::new(8, 4, 2);
    for _ in 0..7 {
        p.accumulate(&const_row(7.0, 2), &const_row(0.0, 2), &exp).unwrap();
    }
    p.finish_prefill_state(7);
    assert_eq!(p.state_count(), 3);
    // Sanity: subsequent token write at slot 3 should land at row
    // ratio + 3 = 7, the just-cleared slot. Then emit fires and
    // both halves contribute. The lower half carries the previous
    // (uniform 7.0) window; the upper half is the partial new
    // window (3 tokens at kv=7.0 from prefill + 1 token at kv=99.0).
    // Per-dim aggregate with uniform zero scores: 8 tokens with kv
    // values (7,7,7,7, 7,7,7,99) → mean = (7*7 + 99) / 8 = 18.5.
    p.accumulate(&const_row(99.0, 2), &const_row(0.0, 2), &exp).unwrap();
    let row = &numbers(&p.rows()[2..4]);
    for &v in row {
        assert!((v - 18.5).abs() < 1e-4, "got {v}");
    }
}

#[test]
fn a_row_comes_of_every_window() {
    let mut p = CompressedKvPool::new(8, 4, 2);
    for n in 1..=32usize {
        let emitted = p.accumulate(&const_row(n as f32, 2), &const_row(0.0, 2), &exp).unwrap();
        assert_eq!(emitted, if n % 4 == 0 { Some(n / 4 - 1) } else { None });
        assert_eq!(p.len(), n / 4);
        assert_eq!(p.state_count() as usize, n % 4);
    }
    assert_eq!(p.capacity(), 8);
}

#[test]
fn a_full_pool_keeps_its_rows() {
    let mut p = CompressedKvPool::new(1, 4, 1);
    for n in 0..7 {
        p.accumulate(&const_row(n as f32, 1), &const_row(0.0, 1), &exp).unwrap();
    }
    let rows = p.rows().to_vec();
    assert_eq!(
        p.accumulate(&const_row(9.0, 1), &const_row(0.0, 1), &exp).unwrap_err(),
        Error::CompressedPoolFull { cap: 1 }
    );
    assert_eq!(p.rows().to_vec(), rows);
    assert_eq!(p.state_count(), 3);
}

#[test]
fn attention_pools_have_the_model_dimension() {
    let p = CompressedKvPool::with_dsv4_attn(3, 128);
    assert_eq!((p.capacity(), p.ratio(), p.head_dim()), (3, 128, 512));
}
