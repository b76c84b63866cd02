//! The cache of a whole model: one window, pool and indexer per layer.

use crate::float::function;
use crate::kvcache::dsv4::compressed;
use crate::kvcache::dsv4::compressed::{CompressedKvPool, PoolView};
use crate::kvcache::dsv4::indexer::IndexerPool;
use crate::kvcache::dsv4::shape;
use crate::kvcache::dsv4::shape::{
    layer_compress_ratio, layer_has_indexer, DSV4_HEAD_DIM, DSV4_N_INDEXER_HEAD_DIM, DSV4_N_LAYER,
    DSV4_N_SWA,
};
use crate::kvcache::dsv4::swa;
use crate::kvcache::dsv4::swa::{RawSwaRing, WindowView};
use crate::kvcache::Error;
use vstd::prelude::*;

verus! {

/// Longest context that a cache can be made for.
pub const DSV4_KVC_MAX_CTX_SIZE: usize = 1_048_576;

/// What the cache of a layer holds.
#[verifier::ext_equal]
pub struct LayerView {
    /// Index of the layer.
    pub il: nat,
    /// The latest rows.
    pub swa: WindowView,
    /// The compressed rows, where the layer has any.
    pub compressed: Option<PoolView>,
    /// The indexer rows, where the layer has any.
    pub indexer: Option<PoolView>,
}

/// The cache of a layer.
#[derive(Debug)]
pub struct LayerCache {
    /// Index of the layer.
    pub il: usize,
    /// How many tokens go into one compressed row; zero for none.
    pub compress_ratio: u32,
    /// The latest rows.
    pub swa: RawSwaRing,
    /// The compressed rows, where the layer has any.
    pub compressed: Option<CompressedKvPool>,
    /// The indexer rows, where the layer has any.
    pub indexer: Option<IndexerPool>,
}

/// What one token adds to a layer.
#[derive(Debug, Clone, Copy)]
pub struct LayerAppend<'a> {
    /// The key/value latent of the token.
    pub kv_latent: &'a [u32],
    /// Its scores in the compressed pool; layers with a pool need them.
    pub compress_score: Option<&'a [u32]>,
    /// Its indexer row; layers with an indexer need it.
    pub indexer_kv: Option<&'a [u32]>,
    /// Its scores in the indexer; layers with an indexer need them.
    pub indexer_score: Option<&'a [u32]>,
}

/// Why a pool refuses a token, if it does.
pub open spec fn pool_refusal(p: PoolView, kv: Seq<u32>, score: Seq<u32>) -> Option<Error> {
    if kv.len() != p.head_dim {
        Some(
            Error::ShapeMismatch {
                what: "CompressedKvPool::accumulate: kv",
                expected: p.head_dim as usize,
                actual: kv.len() as usize,
            },
        )
    } else if score.len() != p.head_dim {
        Some(
            Error::ShapeMismatch {
                what: "CompressedKvPool::accumulate: score",
                expected: p.head_dim as usize,
                actual: score.len() as usize,
            },
        )
    } else {
        match p.answer() {
            Ok(_) => None,
            Err(e) => Some(e),
        }
    }
}

/// A pool after a token was offered to it.
pub open spec fn pool_after(
    p: PoolView,
    kv: Seq<u32>,
    score: Seq<u32>,
    exp: spec_fn(u32) -> u32,
) -> PoolView {
    if kv.len() != p.head_dim || score.len() != p.head_dim {
        p
    } else {
        p.taken(p.widened(kv), p.widened(score), exp)
    }
}

/// The error for an argument that a layer needs and did not get.
pub open spec fn missing(what: &'static str, expected: usize) -> Option<Error> {
    Some(Error::ShapeMismatch { what, expected, actual: 0 })
}

impl LayerView {
    /// Why the window refuses a token.
    pub open spec fn window_refusal(self, input: LayerAppend<'_>) -> Option<Error> {
        if input.kv_latent@.len() != self.swa.head_dim {
            Some(
                Error::ShapeMismatch {
                    what: "RawSwaRing::append: row length",
                    expected: self.swa.head_dim as usize,
                    actual: input.kv_latent@.len() as usize,
                },
            )
        } else {
            None
        }
    }

    /// Why the compressed pool refuses a token.
    pub open spec fn compressed_refusal(self, input: LayerAppend<'_>) -> Option<Error> {
        match (self.compressed, input.compress_score) {
            (None, _) => None,
            (Some(p), None) => missing(
                "ThreeTierKvCache::append_layer: missing compress_score for compressed layer",
                DSV4_HEAD_DIM,
            ),
            (Some(p), Some(score)) => pool_refusal(p, input.kv_latent@, score@),
        }
    }

    /// Why the indexer refuses a token.
    pub open spec fn indexer_refusal(self, input: LayerAppend<'_>) -> Option<Error> {
        match (self.indexer, input.indexer_kv, input.indexer_score) {
            (None, _, _) => None,
            (Some(p), None, _) => missing(
                "ThreeTierKvCache::append_layer: missing indexer_kv for ratio-4 layer",
                DSV4_N_INDEXER_HEAD_DIM,
            ),
            (Some(p), Some(kv), None) => missing(
                "ThreeTierKvCache::append_layer: missing indexer_score for ratio-4 layer",
                DSV4_N_INDEXER_HEAD_DIM,
            ),
            (Some(p), Some(kv), Some(score)) => pool_refusal(p, kv@, score@),
        }
    }

    /// Why the layer refuses a token: the first refusal of its tiers.
    pub open spec fn refusal(self, input: LayerAppend<'_>) -> Option<Error> {
        if self.window_refusal(input) is Some {
            self.window_refusal(input)
        } else if self.compressed_refusal(input) is Some {
            self.compressed_refusal(input)
        } else {
            self.indexer_refusal(input)
        }
    }

    /// The layer after a token was offered to it. The tiers come in turn, and
    /// none after the first that refuses.
    pub open spec fn after(self, input: LayerAppend<'_>, exp: spec_fn(u32) -> u32) -> LayerView {
        if self.window_refusal(input) is Some {
            self
        } else {
            LayerView {
                swa: self.swa.appended(input.kv_latent@),
                compressed: match (self.compressed, input.compress_score) {
                    (Some(p), Some(score)) => Some(
                        pool_after(p, input.kv_latent@, score@, exp),
                    ),
                    _ => self.compressed,
                },
                indexer: match (self.indexer, input.indexer_kv, input.indexer_score) {
                    (Some(p), Some(kv), Some(score)) => if self.compressed_refusal(input) is Some {
                        self.indexer
                    } else {
                        Some(pool_after(p, kv@, score@, exp))
                    },
                    _ => self.indexer,
                },
                ..self
            }
        }
    }

    /// The layer without rows.
    pub open spec fn cleared(self) -> LayerView {
        LayerView {
            swa: self.swa.cleared(),
            compressed: match self.compressed {
                Some(p) => Some(p.cleared()),
                None => None,
            },
            indexer: match self.indexer {
                Some(p) => Some(p.cleared()),
                None => None,
            },
            ..self
        }
    }

    /// The layer made to stand after `n_tokens` tokens.
    pub open spec fn finished(self, n_tokens: nat) -> LayerView {
        LayerView {
            compressed: match self.compressed {
                Some(p) => Some(p.finished(n_tokens)),
                None => None,
            },
            indexer: match self.indexer {
                Some(p) => Some(p.finished(n_tokens)),
                None => None,
            },
            ..self
        }
    }
}

/// A layer without rows, for contexts of `ctx_size` tokens.
pub open spec fn empty_layer(il: nat, ctx_size: nat) -> LayerView {
    let ratio = shape::ratio_of(il as int);
    LayerView {
        il,
        swa: swa::empty_window(
            if DSV4_N_SWA < ctx_size {
                DSV4_N_SWA as nat
            } else {
                ctx_size
            },
            DSV4_HEAD_DIM as nat,
        ),
        compressed: if ratio == 0 {
            None
        } else {
            Some(compressed::empty_pool(ctx_size / ratio + 2, ratio, DSV4_HEAD_DIM as nat))
        },
        indexer: if ratio == 4 {
            Some(compressed::empty_pool(ctx_size / 4 + 2, 4, DSV4_N_INDEXER_HEAD_DIM as nat))
        } else {
            None
        },
    }
}

impl View for LayerCache {
    type V = LayerView;

    open spec fn view(&self) -> LayerView {
        LayerView {
            il: self.il as nat,
            swa: self.swa@,
            compressed: match self.compressed {
                Some(p) => Some(p@),
                None => None,
            },
            indexer: match self.indexer {
                Some(p) => Some(p@),
                None => None,
            },
        }
    }
}

impl LayerCache {
    /// The tiers are those that the layer's ratio asks for.
    pub open spec fn wf(&self) -> bool {
        &&& self.il < DSV4_N_LAYER
        &&& self.compress_ratio == shape::ratio_of(self.il as int)
        &&& self.swa.wf()
        &&& self.swa@.head_dim == DSV4_HEAD_DIM
        &&& (self.compressed is Some <==> self.compress_ratio != 0)
        &&& self.compressed matches Some(p) ==> p.wf() && p@.head_dim == DSV4_HEAD_DIM && p@.ratio
            == self.compress_ratio
        &&& (self.indexer is Some <==> self.compress_ratio == 4)
        &&& self.indexer matches Some(p) ==> p.wf()
    }

    /// An empty cache of layer `il`, for contexts of `ctx_size` tokens.
    pub fn new(il: usize, ctx_size: usize) -> (r: Self)
        requires
            il < DSV4_N_LAYER,
            0 < ctx_size <= DSV4_KVC_MAX_CTX_SIZE,
        ensures
            r.wf(),
            r@ == empty_layer(il as nat, ctx_size as nat),
    {
        let ratio: u32 = layer_compress_ratio(il);
        let window: usize = if DSV4_N_SWA < ctx_size {
            DSV4_N_SWA
        } else {
            ctx_size
        };
        let swa = RawSwaRing::new(window, DSV4_HEAD_DIM);
        let compressed: Option<CompressedKvPool> = if ratio == 0 {
            None
        } else {
            let cap: usize = ctx_size / (ratio as usize) + 2;
            Some(CompressedKvPool::with_dsv4_attn(cap, ratio))
        };
        let indexer: Option<IndexerPool> = if layer_has_indexer(il) {
            let cap: usize = ctx_size / 4 + 2;
            Some(IndexerPool::new(cap, 4))
        } else {
            None
        };
        LayerCache { il, compress_ratio: ratio, swa, compressed, indexer }
    }

    /// Drops every row of every tier.
    pub fn clear(&mut self)
        requires
            old(self).wf(),
        ensures
            final(self).wf(),
            final(self)@ == old(self)@.cleared(),
    {
        self.swa.clear();
        if let Some(c) = self.compressed.as_mut() {
            c.clear();
        }
        if let Some(idx) = self.indexer.as_mut() {
            idx.clear();
        }
    }

    /// Makes the pools stand after `n_tokens` tokens.
    fn finish_prefill(&mut self, n_tokens: usize)
        requires
            old(self).wf(),
        ensures
            final(self).wf(),
            final(self)@ == old(self)@.finished(n_tokens as nat),
    {
        if let Some(c) = self.compressed.as_mut() {
            c.finish_prefill_state(n_tokens);
        }
        if let Some(idx) = self.indexer.as_mut() {
            idx.finish_prefill_state(n_tokens);
        }
    }

    /// Offers a token to the window, the pool and the indexer in turn.
    fn append<F: Fn(u32) -> u32>(&mut self, input: LayerAppend<'_>, exp: &F) -> (res: Result<
        (),
        Error,
    >)
        requires
            old(self).wf(),
            function::total(exp),
        ensures
            final(self).wf(),
            final(self).il == old(self).il,
            res == match old(self)@.refusal(input) {
                Some(e) => Err(e),
                None => Ok(()),
            },
            forall|g: spec_fn(u32) -> u32| #[trigger]
                function::computes(exp, g) ==> final(self)@ == old(self)@.after(input, g),
    {
        match self.swa.append(input.kv_latent) {
            Err(e) => {
                return Err(e);
            },
            Ok(_) => {},
        }
        if let Some(pool) = self.compressed.as_mut() {
            match input.compress_score {
                None => {
                    return Err(
                        Error::ShapeMismatch {
                            what:
                                "ThreeTierKvCache::append_layer: missing compress_score for compressed layer",
                            expected: DSV4_HEAD_DIM,
                            actual: 0,
                        },
                    );
                },
                Some(score) => {
                    match pool.accumulate(input.kv_latent, score, exp) {
                        Err(e) => {
                            return Err(e);
                        },
                        Ok(_) => {},
                    }
                },
            }
        }
        if let Some(pool) = self.indexer.as_mut() {
            let kv: &[u32] = match input.indexer_kv {
                None => {
                    return Err(
                        Error::ShapeMismatch {
                            what:
                                "ThreeTierKvCache::append_layer: missing indexer_kv for ratio-4 layer",
                            expected: DSV4_N_INDEXER_HEAD_DIM,
                            actual: 0,
                        },
                    );
                },
                Some(kv) => kv,
            };
            let score: &[u32] = match input.indexer_score {
                None => {
                    return Err(
                        Error::ShapeMismatch {
                            what:
                                "ThreeTierKvCache::append_layer: missing indexer_score for ratio-4 layer",
                            expected: DSV4_N_INDEXER_HEAD_DIM,
                            actual: 0,
                        },
                    );
                },
                Some(score) => score,
            };
            proof {
                pool.lemma_wf();
            }
            match pool.accumulate(kv, score, exp) {
                Err(e) => {
                    return Err(e);
                },
                Ok(_) => {},
            }
        }
        Ok(())
    }
}

/// What the cache of a model holds.
#[verifier::ext_equal]
pub struct CacheView {
    /// The layers.
    pub layers: Seq<LayerView>,
    /// Number of tokens seen.
    pub pos: nat,
    /// Longest context that the cache was made for.
    pub ctx_size: nat,
}

/// How many tokens a cache has seen, and how many it was made for.
#[derive(Debug)]
pub struct Extent {
    current_pos: usize,
    ctx_size: usize,
}

impl Extent {
    /// Number of tokens seen.
    pub closed spec fn seen(&self) -> nat {
        self.current_pos as nat
    }

    /// Longest context that the cache was made for.
    pub closed spec fn context(&self) -> nat {
        self.ctx_size as nat
    }
}

/// The cache of a model.
#[derive(Debug)]
pub struct ThreeTierKvCache {
    /// One cache per layer.
    pub layers: Vec<LayerCache>,
    /// How many tokens there were and can be.
    pub extent: Extent,
}

impl View for ThreeTierKvCache {
    type V = CacheView;

    open spec fn view(&self) -> CacheView {
        CacheView {
            layers: Seq::new(self.layers@.len(), |i: int| self.layers@[i]@),
            pos: self.extent.seen(),
            ctx_size: self.extent.context(),
        }
    }
}

impl ThreeTierKvCache {
    /// There is one cache for each layer, each as its layer asks for.
    pub open spec fn wf(&self) -> bool {
        &&& self.layers@.len() == DSV4_N_LAYER
        &&& forall|i: int|
            0 <= i < DSV4_N_LAYER ==> (#[trigger] self.layers@[i]).wf() && self.layers@[i].il == i
    }

    /// An empty cache for contexts of `ctx_size` tokens.
    pub fn new(ctx_size: usize) -> (r: Self)
        requires
            0 < ctx_size <= DSV4_KVC_MAX_CTX_SIZE,
        ensures
            r.wf(),
            r@ == (CacheView {
                layers: Seq::new(
                    DSV4_N_LAYER as nat,
                    |i: int| empty_layer(i as nat, ctx_size as nat),
                ),
                pos: 0,
                ctx_size: ctx_size as nat,
            }),
    {
        let mut layers: Vec<LayerCache> = Vec::new();
        for il in 0..DSV4_N_LAYER
            invariant
                0 < ctx_size <= DSV4_KVC_MAX_CTX_SIZE,
                layers@.len() == il,
                forall|i: int|
                    0 <= i < il ==> (#[trigger] layers@[i]).wf() && layers@[i]@ == empty_layer(
                        i as nat,
                        ctx_size as nat,
                    ) && layers@[i].il == i,
        {
            layers.push(LayerCache::new(il, ctx_size));
        }
        let r = ThreeTierKvCache { layers, extent: Extent { current_pos: 0, ctx_size } };
        proof {
            let want = Seq::new(
                DSV4_N_LAYER as nat,
                |i: int| empty_layer(i as nat, ctx_size as nat),
            );
            assert forall|i: int| 0 <= i < DSV4_N_LAYER implies r@.layers[i] == want[i] by {
                assert(r.layers@[i].wf());
            }
            assert(r@.layers =~= want);
        }
        r
    }

    /// Number of tokens seen.
    pub fn current_pos(&self) -> (n: usize)
        ensures
            n == self@.pos,
    {
        self.extent.current_pos
    }

    /// Longest context that the cache was made for.
    pub fn ctx_size(&self) -> (n: usize)
        ensures
            n == self@.ctx_size,
    {
        self.extent.ctx_size
    }

    /// Offers a token to layer `il`. The position stays as it is; call
    /// `advance_pos` once all layers have had the token.
    pub fn append_layer<F: Fn(u32) -> u32>(
        &mut self,
        il: usize,
        input: LayerAppend<'_>,
        exp: &F,
    ) -> (res: Result<(), Error>)
        requires
            old(self).wf(),
            function::total(exp),
        ensures
            final(self).wf(),
            il >= DSV4_N_LAYER ==> {
                &&& final(self)@ == old(self)@
                &&& res == Err::<(), Error>((Error::InvalidLayer { idx: il, max: DSV4_N_LAYER }))
            },
            il < DSV4_N_LAYER ==> {
                &&& res == match old(self)@.layers[il as int].refusal(input) {
                    Some(e) => Err::<(), Error>(e),
                    None => Ok(()),
                }
                &&& final(self)@.pos == old(self)@.pos
                &&& final(self)@.ctx_size == old(self)@.ctx_size
                &&& forall|i: int|
                    0 <= i < DSV4_N_LAYER && i != il ==> #[trigger] final(self)@.layers[i] == old(
                        self)@.layers[i]
                &&& forall|g: spec_fn(u32) -> u32| #[trigger]
                    function::computes(exp, g) ==> final(self)@.layers[il as int] == old(
                        self)@.layers[il as int].after(input, g)
            },
    {
        if il >= self.layers.len() {
            return Err(Error::InvalidLayer { idx: il, max: self.layers.len() });
        }
        let ghost before = self.layers@;
        assert(before[il as int].wf());
        let res = self.layers[il].append(input, exp);
        proof {
            assert(self.layers@ == before.update(il as int, self.layers@[il as int]));
            assert forall|i: int| 0 <= i < DSV4_N_LAYER implies (#[trigger] self.layers@[i]).wf()
                && self.layers@[i].il == i by {
                assert(before[i].wf());
            }
        }
        res
    }

    /// Counts `n` more tokens.
    pub fn advance_pos(&mut self, n: usize)
        requires
            old(self).wf(),
            old(self)@.pos + n <= usize::MAX,
        ensures
            final(self).wf(),
            final(self)@ == (CacheView { pos: old(self)@.pos + n as nat, ..old(self)@ }),
    {
        self.extent.current_pos = self.extent.current_pos + n;
        assert(self@.layers =~= old(self)@.layers);
    }

    /// Makes the pools of every layer stand after `n_tokens` tokens.
    pub fn finish_prefill(&mut self, n_tokens: usize)
        requires
            old(self).wf(),
        ensures
            final(self).wf(),
            final(self)@ == (CacheView {
                layers: Seq::new(
                    DSV4_N_LAYER as nat,
                    |i: int| old(self)@.layers[i].finished(n_tokens as nat),
                ),
                ..old(self)@
            }),
    {
        let ghost before = self.layers@;
        let n: usize = self.layers.len();
        for i in 0..n
            invariant
                n == DSV4_N_LAYER,
                before.len() == n,
                self.layers@.len() == n,
                self.extent == old(self).extent,
                forall|k: int| 0 <= k < n ==> (#[trigger] before[k]).wf() && before[k].il == k,
                forall|k: int|
                    0 <= k < n ==> (#[trigger] self.layers@[k]).wf() && self.layers@[k].il == k
                        && self.layers@[k]@ == if k < i {
                        before[k]@.finished(n_tokens as nat)
                    } else {
                        before[k]@
                    },
        {
            let ghost mid = self.layers@;
            assert(mid[i as int].wf());
            self.layers[i].finish_prefill(n_tokens);
            assert(self.layers@ == mid.update(i as int, self.layers@[i as int]));
            assert forall|k: int| 0 <= k < n implies (#[trigger] self.layers@[k]).wf()
                && self.layers@[k].il == k && self.layers@[k]@ == if k < i + 1 {
                before[k]@.finished(n_tokens as nat)
            } else {
                before[k]@
            } by {
                assert(mid[k].wf());
            }
        }
        proof {
            let want = Seq::new(
                DSV4_N_LAYER as nat,
                |i: int| old(self)@.layers[i].finished(n_tokens as nat),
            );
            assert forall|k: int| 0 <= k < n implies self@.layers[k] == want[k] by {
                assert(self.layers@[k].wf());
            }
            assert(self@.layers =~= want);
        }
    }

    /// Drops every row of every layer, and starts counting anew.
    pub fn clear(&mut self)
        requires
            old(self).wf(),
        ensures
            final(self).wf(),
            final(self)@ == (CacheView {
                layers: Seq::new(DSV4_N_LAYER as nat, |i: int| old(self)@.layers[i].cleared()),
                pos: 0,
                ..old(self)@
            }),
    {
        let ghost before = self.layers@;
        let n: usize = self.layers.len();
        for i in 0..n
            invariant
                n == DSV4_N_LAYER,
                before.len() == n,
                self.layers@.len() == n,
                self.extent == old(self).extent,
                forall|k: int| 0 <= k < n ==> (#[trigger] before[k]).wf() && before[k].il == k,
                forall|k: int|
                    0 <= k < n ==> (#[trigger] self.layers@[k]).wf() && self.layers@[k].il == k
                        && self.layers@[k]@ == if k < i {
                        before[k]@.cleared()
                    } else {
                        before[k]@
                    },
        {
            let ghost mid = self.layers@;
            assert(mid[i as int].wf());
            self.layers[i].clear();
            assert(self.layers@ == mid.update(i as int, self.layers@[i as int]));
            assert forall|k: int| 0 <= k < n implies (#[trigger] self.layers@[k]).wf()
                && self.layers@[k].il == k && self.layers@[k]@ == if k < i + 1 {
                before[k]@.cleared()
            } else {
                before[k]@
            } by {
                assert(mid[k].wf());
            }
        }
        self.extent.current_pos = 0;
        proof {
            let want = Seq::new(DSV4_N_LAYER as nat, |i: int| old(self)@.layers[i].cleared());
            assert forall|k: int| 0 <= k < n implies self@.layers[k] == want[k] by {
                assert(self.layers@[k].wf());
            }
            assert(self@.layers =~= want);
        }
    }
}

/// Whether a layer has the tiers and sizes of a new one for `ctx_size` tokens.
pub open spec fn sized_for(l: LayerView, ctx_size: nat) -> bool {
    l.cleared() == empty_layer(l.il, ctx_size)
}

/// Clearing a layer makes it as good as new: a new layer is so, and taking in
/// a token or finishing a prefill leaves that as it is.
pub proof fn law_clearing_makes_new(
    l: LayerView,
    ctx_size: nat,
    input: LayerAppend<'_>,
    n_tokens: nat,
    exp: spec_fn(u32) -> u32,
)
    requires
        sized_for(l, ctx_size),
    ensures
        sized_for(empty_layer(l.il, ctx_size), ctx_size),
        sized_for(l.after(input, exp), ctx_size),
        sized_for(l.finished(n_tokens), ctx_size),
{
    let e = empty_layer(l.il, ctx_size);
    assert(e.cleared() =~= e);
    let a = l.after(input, exp);
    assert(a.swa.cleared() =~= l.swa.cleared());
    if let Some(p) = l.compressed {
        assert(a.compressed->0.cleared() =~= p.cleared());
        assert(p.finished(n_tokens).cleared() =~= p.cleared());
    }
    if let Some(p) = l.indexer {
        assert(a.indexer->0.cleared() =~= p.cleared());
        assert(p.finished(n_tokens).cleared() =~= p.cleared());
    }
    assert(a.cleared() =~= l.cleared());
    assert(l.finished(n_tokens).cleared() =~= l.cleared());
}

} // verus!
