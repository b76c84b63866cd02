use rsllm::kvcache::dsv4::indexer::{scale_factor, IndexerPool};
use rsllm::kvcache::dsv4::shape::{
    DSV4_N_INDEXER_HEAD, DSV4_N_INDEXER_HEAD_DIM, DSV4_N_INDEXER_TOP_K,
};
use rsllm::kvcache::Error;

fn exp(x: u32) -> u32 {
    f32::from_bits(x).exp().to_bits()
}


fn fill_pool(pool: &mut IndexerPool, n_rows: usize, kv_seed: impl Fn(usize) -> f32) {
    // Each emission requires 4 accumulate calls (ratio=4). We push
    // identical kv and score within each 4-window so the aggregation
    // is deterministic.
    for r in 0..n_rows {
        let kv = vec![kv_seed(r).to_bits(); DSV4_N_INDEXER_HEAD_DIM];
        let score = vec![(0.0_f32).to_bits(); DSV4_N_INDEXER_HEAD_DIM]; // uniform score
        for _ in 0..4 {
            pool.accumulate(&kv, &score, &exp).unwrap();
        }
    }
}

#[test]
fn empty_pool_returns_empty_selection() {
    let pool = IndexerPool::new(4, 4);
    let q = vec![(0.0_f32).to_bits(); DSV4_N_INDEXER_HEAD * DSV4_N_INDEXER_HEAD_DIM];
    let w = vec![(0.0_f32).to_bits(); DSV4_N_INDEXER_HEAD];
    let sel = pool.select_top_k(&q, &w, 10).unwrap();
    assert!(sel.is_empty());
}

#[test]
fn top_k_clamps_to_n_comp() {
    let mut pool = IndexerPool::new(4, 4);
    fill_pool(&mut pool, 3, |r| r as f32);
    let q = vec![(0.0_f32).to_bits(); DSV4_N_INDEXER_HEAD * DSV4_N_INDEXER_HEAD_DIM];
    // Weights and q are zero → all scores 0; selection still returns 3 indices.
    let w = vec![(0.0_f32).to_bits(); DSV4_N_INDEXER_HEAD];
    let sel = pool.select_top_k(&q, &w, 10).unwrap();
    assert_eq!(sel.len(), 3);
}

#[test]
fn top_k_zero_returns_empty() {
    let mut pool = IndexerPool::new(4, 4);
    fill_pool(&mut pool, 2, |r| r as f32);
    let q = vec![(1.0_f32).to_bits(); DSV4_N_INDEXER_HEAD * DSV4_N_INDEXER_HEAD_DIM];
    let w = vec![(1.0_f32).to_bits(); DSV4_N_INDEXER_HEAD];
    let sel = pool.select_top_k(&q, &w, 0).unwrap();
    assert!(sel.is_empty());
}

#[test]
fn rejects_wrong_q_length() {
    let pool = IndexerPool::new(4, 4);
    let q = vec![(0.0_f32).to_bits(); 10];
    let w = vec![(0.0_f32).to_bits(); DSV4_N_INDEXER_HEAD];
    let err = pool.select_top_k(&q, &w, 1).unwrap_err();
    assert!(matches!(err, Error::ShapeMismatch { .. }));
}

#[test]
fn rejects_wrong_weights_length() {
    let pool = IndexerPool::new(4, 4);
    let q = vec![(0.0_f32).to_bits(); DSV4_N_INDEXER_HEAD * DSV4_N_INDEXER_HEAD_DIM];
    let w = vec![(0.0_f32).to_bits(); 10];
    let err = pool.select_top_k(&q, &w, 1).unwrap_err();
    assert!(matches!(err, Error::ShapeMismatch { .. }));
}

#[test]
fn selects_highest_scoring_row() {
    // Build 4 emitted rows with distinct kv values. Query is all ones,
    // weights uniform positive — score is just sum(kv) per row. Top-2
    // should pick the two largest.
    let mut pool = IndexerPool::new(8, 4);
    fill_pool(&mut pool, 4, |r| r as f32); // kvs = 0, 1, 2, 3
    let q = vec![(1.0_f32).to_bits(); DSV4_N_INDEXER_HEAD * DSV4_N_INDEXER_HEAD_DIM];
    let w = vec![(1.0_f32).to_bits(); DSV4_N_INDEXER_HEAD];
    let sel = pool.select_top_k(&q, &w, 2).unwrap();
    assert_eq!(sel.len(), 2);
    let mut sorted: Vec<u32> = sel.into_iter().collect();
    sorted.sort_unstable();
    assert_eq!(sorted, vec![2, 3]);
}

#[test]
fn relu_filters_negative_dots() {
    // Two rows: row 0 has positive correlation with q, row 1 has negative.
    // With ReLU, row 1's contribution is clipped to 0, so row 0 wins
    // regardless of magnitude.
    let mut pool = IndexerPool::new(4, 4);
    // emit row 0: kv = +1
    for _ in 0..4 {
        pool.accumulate(
            &vec![(1.0_f32).to_bits(); DSV4_N_INDEXER_HEAD_DIM],
            &vec![(0.0_f32).to_bits(); DSV4_N_INDEXER_HEAD_DIM], &exp,
        )
        .unwrap();
    }
    // emit row 1: kv = -100 (very negative)
    for _ in 0..4 {
        pool.accumulate(
            &vec![(-100.0_f32).to_bits(); DSV4_N_INDEXER_HEAD_DIM],
            &vec![(0.0_f32).to_bits(); DSV4_N_INDEXER_HEAD_DIM], &exp,
        )
        .unwrap();
    }
    let q = vec![(1.0_f32).to_bits(); DSV4_N_INDEXER_HEAD * DSV4_N_INDEXER_HEAD_DIM];
    let w = vec![(1.0_f32).to_bits(); DSV4_N_INDEXER_HEAD];
    let sel = pool.select_top_k(&q, &w, 1).unwrap();
    assert_eq!(sel, vec![0]);
}

#[test]
fn scale_factor_is_positive_finite() {
    let s = f32::from_bits(scale_factor(&|x: u32| f32::from_bits(x).sqrt().to_bits()));
    assert!(s > 0.0 && s.is_finite());
    // Expected: 1 / sqrt(64 * 128) = 1 / sqrt(8192) ≈ 0.01104854
    assert!((s - (1.0 / (8192.0_f32).sqrt())).abs() < 1e-7);
}

#[test]
fn default_top_k_matches_constant() {
    assert_eq!(IndexerPool::default_top_k(), DSV4_N_INDEXER_TOP_K);
}

#[test]
fn rows_are_picked_once_and_in_order() {
    let mut pool = IndexerPool::new(8, 4);
    fill_pool(&mut pool, 5, |r| [2.0, 4.0, 1.0, 4.0, 3.0][r]);
    let q = vec![1.0_f32.to_bits(); DSV4_N_INDEXER_HEAD * DSV4_N_INDEXER_HEAD_DIM];
    let w = vec![1.0_f32.to_bits(); DSV4_N_INDEXER_HEAD];
    let mut sel = pool.select_top_k(&q, &w, 8).unwrap();
    sel.sort_unstable();
    assert_eq!(sel, vec![0, 1, 2, 3, 4]);
    assert_eq!(pool.width(), 2 * DSV4_N_INDEXER_HEAD_DIM);
    pool.clear();
    assert!(pool.is_empty() && pool.rows().is_empty());
    assert_eq!(pool.inner_mut().state_count(), 0);
}
