use rsllm::kvcache::dsv4::shape::{layer_compress_ratio, layer_has_indexer, DSV4_N_LAYER};
use rsllm::kvcache::KvLayout;

#[test]
fn dense_layers_have_no_compression() {
    assert_eq!(layer_compress_ratio(0), 0);
    assert_eq!(layer_compress_ratio(1), 0);
    assert!(!layer_has_indexer(0));
    assert!(!layer_has_indexer(1));
}

#[test]
fn even_layers_above_threshold_are_ratio_4() {
    for il in (2..DSV4_N_LAYER).filter(|i| i % 2 == 0) {
        assert_eq!(layer_compress_ratio(il), 4, "layer {il}");
        assert!(layer_has_indexer(il), "layer {il}");
    }
}

#[test]
fn odd_layers_above_threshold_are_ratio_128() {
    for il in (2..DSV4_N_LAYER).filter(|i| i % 2 == 1) {
        assert_eq!(layer_compress_ratio(il), 128, "layer {il}");
        assert!(!layer_has_indexer(il), "layer {il}");
    }
}

#[test]
fn ratio_4_layer_count_matches_ds4_estimate() {
    let ratio4 = (0..DSV4_N_LAYER).filter(|&i| layer_compress_ratio(i) == 4).count();
    // Layers 2, 4, 6, ..., 42 → 21 even layers
    assert_eq!(ratio4, 21);
}


#[test]
fn layout_distinct() {
    let a = KvLayout::DsV4ThreeTier;
    let b = KvLayout::DsV4ThreeTier;
    assert_eq!(a, b);
}
