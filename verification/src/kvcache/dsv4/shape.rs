//! Dimensions of DeepSeek V4 Flash that the cache depends on.

use vstd::prelude::*;

verus! {

/// Number of transformer blocks.
pub const DSV4_N_LAYER: usize = 43;

/// Width of one key/value latent row.
pub const DSV4_HEAD_DIM: usize = 512;

/// Number of latest rows kept verbatim.
pub const DSV4_N_SWA: usize = 128;

/// Number of indexer heads.
pub const DSV4_N_INDEXER_HEAD: usize = 64;

/// Width of one indexer head.
pub const DSV4_N_INDEXER_HEAD_DIM: usize = 128;

/// Most rows that the indexer selects.
pub const DSV4_N_INDEXER_TOP_K: usize = 512;

/// Layers below this index keep no compressed rows.
pub const DSV4_DENSE_LAYERS: usize = 2;

/// RoPE base frequency of compressed rows, 160000, as bits.
pub const DSV4_COMPRESS_ROPE_FREQ_BASE: u32 = 0x481C_4000;

/// YaRN scale factor of compressed rows, 16, as bits.
pub const DSV4_ROPE_SCALE_FACTOR: u32 = 0x4180_0000;

/// How many tokens layer `il` compresses into one row; zero for none.
pub open spec fn ratio_of(il: int) -> nat {
    if il < DSV4_DENSE_LAYERS {
        0
    } else if il % 2 == 0 {
        4
    } else {
        128
    }
}

/// How many tokens layer `il` compresses into one row; zero for none.
pub fn layer_compress_ratio(il: usize) -> (r: u32)
    requires
        il < DSV4_N_LAYER,
    ensures
        r == ratio_of(il as int),
{
    if il < DSV4_DENSE_LAYERS {
        0
    } else if il % 2 == 0 {
        4
    } else {
        128
    }
}

/// Whether layer `il` keeps an indexer.
pub fn layer_has_indexer(il: usize) -> (r: bool)
    requires
        il < DSV4_N_LAYER,
    ensures
        r == (ratio_of(il as int) == 4),
{
    layer_compress_ratio(il) == 4
}

/// Number of layers below `n` that keep an indexer.
pub open spec fn indexers_below(n: nat) -> nat
    decreases n,
{
    if n == 0 {
        0
    } else {
        indexers_below((n - 1) as nat) + if ratio_of(n - 1) == 4 {
            1nat
        } else {
            0nat
        }
    }
}

/// The layers with an indexer are the even ones from the second on, so that
/// of any `n` layers past the dense ones, half of them, rounded down, are.
proof fn lemma_indexers_below(n: nat)
    requires
        n >= 2,
    ensures
        indexers_below(n) == (n - 1) / 2,
    decreases n,
{
    reveal_with_fuel(indexers_below, 3);
    if n > 2 {
        lemma_indexers_below((n - 1) as nat);
    }
}

/// Every layer either keeps no compressed rows, or compresses four to one and
/// keeps an indexer, or compresses 128 to one and keeps none. 21 layers keep
/// an indexer.
pub proof fn law_layers(il: int)
    requires
        0 <= il < DSV4_N_LAYER,
    ensures
        ratio_of(il) == 0 <==> il < 2,
        ratio_of(il) == 4 <==> il >= 2 && il % 2 == 0,
        ratio_of(il) == 128 <==> il >= 2 && il % 2 == 1,
        indexers_below(DSV4_N_LAYER as nat) == 21,
{
    lemma_indexers_below(DSV4_N_LAYER as nat);
}

} // verus!
