use rsllm::kvcache::dsv4::shape::{DSV4_HEAD_DIM, DSV4_N_INDEXER_HEAD_DIM, DSV4_N_LAYER};
use rsllm::kvcache::dsv4::three_tier::{LayerAppend, ThreeTierKvCache, DSV4_KVC_MAX_CTX_SIZE};
use rsllm::kvcache::Error;

fn exp(x: u32) -> u32 {
    f32::from_bits(x).exp().to_bits()
}


fn const_kv(v: f32) -> Vec<u32> {
    vec![v.to_bits(); DSV4_HEAD_DIM]
}
fn const_indexer_kv(v: f32) -> Vec<u32> {
    vec![v.to_bits(); DSV4_N_INDEXER_HEAD_DIM]
}

#[test]
fn new_cache_has_n_layer_blocks() {
    let cache = ThreeTierKvCache::new(1024);
    assert_eq!(cache.layers.len(), DSV4_N_LAYER);
    assert_eq!(cache.current_pos(), 0);
    assert_eq!(cache.ctx_size(), 1024);
}

#[test]
fn dense_layers_have_no_compressed_pool_or_indexer() {
    let cache = ThreeTierKvCache::new(1024);
    assert!(cache.layers[0].compressed.is_none());
    assert!(cache.layers[1].compressed.is_none());
    assert!(cache.layers[0].indexer.is_none());
    assert!(cache.layers[1].indexer.is_none());
    assert_eq!(cache.layers[0].compress_ratio, 0);
}

#[test]
fn ratio_4_layers_have_indexer() {
    let cache = ThreeTierKvCache::new(1024);
    // layer 2 (first ratio-4 layer): compressed + indexer.
    assert!(cache.layers[2].compressed.is_some());
    assert!(cache.layers[2].indexer.is_some());
    assert_eq!(cache.layers[2].compress_ratio, 4);
}

#[test]
fn ratio_128_layers_have_compressed_but_no_indexer() {
    let cache = ThreeTierKvCache::new(1024);
    assert!(cache.layers[3].compressed.is_some()); // odd ≥ 2 → ratio 128
    assert!(cache.layers[3].indexer.is_none());
    assert_eq!(cache.layers[3].compress_ratio, 128);
}

#[test]
fn append_layer_to_dense_writes_swa_only() {
    let mut cache = ThreeTierKvCache::new(64);
    let kv = const_kv(7.0);
    cache
        .append_layer(
            0,
            LayerAppend {
                kv_latent: &kv,
                compress_score: None,
                indexer_kv: None,
                indexer_score: None,
            }, &exp,
        )
        .unwrap();
    assert_eq!(cache.layers[0].swa.len(), 1);
}

#[test]
fn append_layer_to_ratio4_needs_indexer_inputs() {
    let mut cache = ThreeTierKvCache::new(64);
    let kv = const_kv(0.5);
    let comp_score = const_kv(0.0);
    // Missing indexer_kv/score should error.
    let err = cache
        .append_layer(
            2,
            LayerAppend {
                kv_latent: &kv,
                compress_score: Some(&comp_score),
                indexer_kv: None,
                indexer_score: None,
            }, &exp,
        )
        .unwrap_err();
    assert!(matches!(err, Error::ShapeMismatch { .. }));
}

#[test]
fn append_layer_full_ratio4_succeeds() {
    let mut cache = ThreeTierKvCache::new(64);
    let kv = const_kv(0.5);
    let comp_score = const_kv(0.0);
    let idx_kv = const_indexer_kv(0.3);
    let idx_score = const_indexer_kv(0.0);
    cache
        .append_layer(
            2,
            LayerAppend {
                kv_latent: &kv,
                compress_score: Some(&comp_score),
                indexer_kv: Some(&idx_kv),
                indexer_score: Some(&idx_score),
            }, &exp,
        )
        .unwrap();
    assert_eq!(cache.layers[2].swa.len(), 1);
    // First token → no emission yet (need 4 to fire ratio-4 boundary).
    assert_eq!(cache.layers[2].compressed.as_ref().unwrap().len(), 0);
    assert_eq!(cache.layers[2].indexer.as_ref().unwrap().len(), 0);
}

#[test]
fn finish_prefill_normalizes_compressor_state() {
    let mut cache = ThreeTierKvCache::new(64);
    let kv = const_kv(0.5);
    let cs = const_kv(0.1);
    let ikv = const_indexer_kv(0.2);
    let is = const_indexer_kv(0.1);
    // Push 7 tokens through layer 2 → 1 compressed emission, 3 in-flight state slots.
    for _ in 0..7 {
        cache
            .append_layer(
                2,
                LayerAppend {
                    kv_latent: &kv,
                    compress_score: Some(&cs),
                    indexer_kv: Some(&ikv),
                    indexer_score: Some(&is),
                }, &exp,
        )
            .unwrap();
    }
    let comp_ref = cache.layers[2].compressed.as_ref().unwrap();
    assert_eq!(comp_ref.len(), 1);
    assert_eq!(comp_ref.state_count(), 3);
    cache.finish_prefill(7);
    // After finish_prefill(7), state count should still be 7 % 4 = 3.
    let comp_after = cache.layers[2].compressed.as_ref().unwrap();
    assert_eq!(comp_after.state_count(), 3);
}

#[test]
fn invalid_layer_idx_errors() {
    let mut cache = ThreeTierKvCache::new(64);
    let kv = const_kv(0.0);
    let err = cache
        .append_layer(
            99,
            LayerAppend {
                kv_latent: &kv,
                compress_score: None,
                indexer_kv: None,
                indexer_score: None,
            }, &exp,
        )
        .unwrap_err();
    assert!(matches!(err, Error::InvalidLayer { .. }));
}

#[test]
fn clear_resets_every_layer() {
    let mut cache = ThreeTierKvCache::new(64);
    let kv = const_kv(1.0);
    cache
        .append_layer(
            0,
            LayerAppend {
                kv_latent: &kv,
                compress_score: None,
                indexer_kv: None,
                indexer_score: None,
            }, &exp,
        )
        .unwrap();
    cache.advance_pos(1);
    assert_eq!(cache.current_pos(), 1);
    cache.clear();
    assert_eq!(cache.current_pos(), 0);
    assert_eq!(cache.layers[0].swa.len(), 0);
}


#[test]
fn refusals_leave_other_layers_alone() {
    let mut cache = ThreeTierKvCache::new(64);
    let short = vec![0; 3];
    let input = LayerAppend {
        kv_latent: &short,
        compress_score: None,
        indexer_kv: None,
        indexer_score: None,
    };
    assert!(cache.append_layer(0, input, &exp).is_err());
    assert_eq!(
        cache.append_layer(43, input, &exp).unwrap_err(),
        Error::InvalidLayer { idx: 43, max: DSV4_N_LAYER }
    );
    assert!(cache.layers.iter().all(|l| l.swa.is_empty()));
    assert!(cache.ctx_size() <= DSV4_KVC_MAX_CTX_SIZE);
}
