//! What a window and the tiers of a layer hold after a stream of tokens.

use crate::kvcache::dsv4::compressed;
use crate::kvcache::dsv4::compressed::Token;
use crate::kvcache::dsv4::shape;
use crate::kvcache::dsv4::swa;
use crate::kvcache::dsv4::three_tier;
use crate::kvcache::dsv4::three_tier::{LayerAppend, LayerView};
use vstd::prelude::*;

verus! {

/// The length of rows that lie one after another.
proof fn lemma_joined_len(rows: Seq<Seq<u32>>, width: nat)
    requires
        forall|i: int| 0 <= i < rows.len() ==> #[trigger] rows[i].len() == width,
    ensures
        swa::joined(rows).len() == rows.len() * width,
    decreases rows.len(),
{
    if rows.len() > 0 {
        let init = rows.drop_last();
        assert forall|i: int| 0 <= i < init.len() implies #[trigger] init[i].len() == width by {
            assert(init[i] == rows[i]);
        }
        lemma_joined_len(init, width);
        let n = rows.len() as int;
        assert(rows.last() == rows[n - 1]);
        assert((n - 1) * width + width == n * width) by (nonlinear_arith);
    } else {
        assert(0 * width == 0) by (nonlinear_arith);
    }
}

/// Leaving out the first numbers of rows that lie one after another leaves out
/// the first rows.
proof fn lemma_joined_skip(rows: Seq<Seq<u32>>, width: nat, k: int)
    requires
        forall|i: int| 0 <= i < rows.len() ==> #[trigger] rows[i].len() == width,
        0 <= k <= rows.len(),
    ensures
        swa::joined(rows).skip(k * width) == swa::joined(rows.skip(k)),
    decreases rows.len(),
{
    lemma_joined_len(rows, width);
    if k == rows.len() {
        assert(rows.skip(k) =~= Seq::<Seq<u32>>::empty());
        assert(swa::joined(rows).skip(k * width) =~= swa::joined(rows.skip(k)));
    } else {
        let init = rows.drop_last();
        assert forall|i: int| 0 <= i < init.len() implies #[trigger] init[i].len() == width by {
            assert(init[i] == rows[i]);
        }
        lemma_joined_skip(init, width, k);
        lemma_joined_len(init, width);
        assert(rows.skip(k).drop_last() =~= init.skip(k));
        assert(rows.skip(k).last() == rows.last());
        assert(0 <= k * width <= init.len() * width) by (nonlinear_arith)
            requires
                0 <= k <= init.len(),
        ;
        assert((swa::joined(init) + rows.last()).skip(k * width) =~= swa::joined(init).skip(
            k * width,
        ) + rows.last());
    }
}

/// A truncated window holds the latest of the rows that came in, as many as it
/// was told to keep and had room for.
pub proof fn law_truncation_keeps_the_latest(
    cap: nat,
    head_dim: nat,
    rows: Seq<Seq<u32>>,
    keep: nat,
)
    requires
        0 < cap,
        forall|i: int| 0 <= i < rows.len() ==> #[trigger] rows[i].len() == head_dim,
    ensures
        ({
            let room = if keep < cap {
                keep
            } else {
                cap
            };
            let w = swa::fed(swa::empty_window(cap, head_dim), rows).truncated(keep);
            &&& w.rows == swa::joined(swa::latest(rows, room))
            &&& w.count == swa::latest(rows, room).len()
        }),
{
    swa::law_window_holds_the_latest(cap, head_dim, rows);
    let kept = swa::latest(rows, cap);
    if keep < kept.len() {
        assert forall|i: int| 0 <= i < kept.len() implies #[trigger] kept[i].len() == head_dim by {
            assert(kept[i] == rows[rows.len() - kept.len() + i]);
        }
        lemma_joined_skip(kept, head_dim, kept.len() - keep);
        assert(kept.skip(kept.len() - keep) =~= swa::latest(rows, keep));
    } else if keep < cap {
        assert(kept =~= swa::latest(rows, keep));
    }
}

/// A layer that was offered tokens one by one.
pub open spec fn offered(
    l: LayerView,
    inputs: Seq<LayerAppend<'_>>,
    exp: spec_fn(u32) -> u32,
) -> LayerView
    decreases inputs.len(),
{
    if inputs.len() == 0 {
        l
    } else {
        offered(l, inputs.drop_last(), exp).after(inputs.last(), exp)
    }
}

/// Whether a token has all that a layer with `ratio` needs, in the right widths.
pub open spec fn is_whole(input: LayerAppend<'_>, ratio: nat) -> bool {
    &&& input.kv_latent@.len() == 512
    &&& ratio != 0 ==> (input.compress_score is Some && input.compress_score->0@.len() == 512)
    &&& ratio == 4 ==> {
        &&& input.indexer_kv is Some
        &&& input.indexer_kv->0@.len() == 128
        &&& input.indexer_score is Some
        &&& input.indexer_score->0@.len() == 128
    }
}

/// The latents of tokens.
pub open spec fn latents(inputs: Seq<LayerAppend<'_>>) -> Seq<Seq<u32>> {
    Seq::new(inputs.len(), |i: int| inputs[i].kv_latent@)
}

/// A row once, or twice where a window is four tokens.
pub open spec fn for_lanes(row: Seq<u32>, ratio: nat) -> Seq<u32> {
    if ratio == 4 {
        row + row
    } else {
        row
    }
}

/// What tokens are to the compressed pool: their latents, under its scores.
pub open spec fn compressed_tokens(inputs: Seq<LayerAppend<'_>>, ratio: nat) -> Seq<Token> {
    Seq::new(
        inputs.len(),
        |i: int|
            Token {
                kv: for_lanes(inputs[i].kv_latent@, ratio),
                score: for_lanes(inputs[i].compress_score->0@, ratio),
            },
    )
}

/// What tokens are to the indexer: their indexer rows, under its scores.
pub open spec fn indexer_tokens(inputs: Seq<LayerAppend<'_>>) -> Seq<Token> {
    Seq::new(
        inputs.len(),
        |i: int|
            Token {
                kv: inputs[i].indexer_kv->0@ + inputs[i].indexer_kv->0@,
                score: inputs[i].indexer_score->0@ + inputs[i].indexer_score->0@,
            },
    )
}

/// A pool with room for all rows of a context refuses none of its tokens.
proof fn lemma_pool_takes(
    ctx: nat,
    ratio: nat,
    head_dim: nat,
    tokens: Seq<Token>,
    exp: spec_fn(u32) -> u32,
)
    requires
        ratio > 0,
        tokens.len() <= ctx,
    ensures
        ({
            let p = compressed::streamed(
                compressed::empty_pool(ctx / ratio + 2, ratio, head_dim),
                tokens,
                exp,
            );
            &&& p.answer() is Ok
            &&& p.cap == ctx / ratio + 2
            &&& p.head_dim == head_dim
            &&& p.ratio == ratio
        }),
    decreases tokens.len(),
{
    vstd::arithmetic::div_mod::lemma_div_is_ordered(tokens.len() as int, ctx as int, ratio as int);
    compressed::law_one_row_per_window(ctx / ratio + 2, ratio, head_dim, tokens, exp);
    if tokens.len() > 0 {
        lemma_pool_takes(ctx, ratio, head_dim, tokens.drop_last(), exp);
    }
}

/// After any tokens of a context, each of them whole, the window of a layer has
/// taken in their latents, the compressed pool the same latents under its own
/// scores, and the indexer the indexer rows under theirs. No token is refused.
pub proof fn law_tiers_of_a_stream(
    il: nat,
    ctx: nat,
    inputs: Seq<LayerAppend<'_>>,
    exp: spec_fn(u32) -> u32,
)
    requires
        0 < ctx,
        inputs.len() <= ctx,
        forall|i: int|
            0 <= i < inputs.len() ==> is_whole(#[trigger] inputs[i], shape::ratio_of(il as int)),
    ensures
        ({
            let ratio = shape::ratio_of(il as int);
            let l = offered(three_tier::empty_layer(il, ctx), inputs, exp);
            let window = swa::empty_window(
                if 128 < ctx {
                    128
                } else {
                    ctx
                },
                512,
            );
            &&& l.swa == swa::fed(window, latents(inputs))
            &&& ratio == 0 ==> l.compressed is None
            &&& ratio != 0 ==> l.compressed == Some(
                compressed::streamed(
                    compressed::empty_pool(ctx / ratio + 2, ratio, 512),
                    compressed_tokens(inputs, ratio),
                    exp,
                ),
            )
            &&& ratio != 4 ==> l.indexer is None
            &&& ratio == 4 ==> l.indexer == Some(
                compressed::streamed(
                    compressed::empty_pool(ctx / 4 + 2, 4, 128),
                    indexer_tokens(inputs),
                    exp,
                ),
            )
            &&& forall|next: LayerAppend<'_>|
                is_whole(next, ratio) ==> #[trigger] l.refusal(next) is None
        }),
    decreases inputs.len(),
{
    let ratio = shape::ratio_of(il as int);
    let start = three_tier::empty_layer(il, ctx);
    let window = start.swa;
    if inputs.len() == 0 {
        assert(latents(inputs) =~= Seq::empty());
        assert(compressed_tokens(inputs, ratio) =~= Seq::empty());
        assert(indexer_tokens(inputs) =~= Seq::empty());
    } else {
        let init = inputs.drop_last();
        let last = inputs.last();
        assert(last == inputs[inputs.len() - 1]);
        assert forall|i: int| 0 <= i < init.len() implies is_whole(#[trigger] init[i], ratio) by {
            assert(init[i] == inputs[i]);
        }
        law_tiers_of_a_stream(il, ctx, init, exp);
        assert(latents(inputs).drop_last() =~= latents(init));
        assert(compressed_tokens(inputs, ratio).drop_last() =~= compressed_tokens(init, ratio));
        assert(indexer_tokens(inputs).drop_last() =~= indexer_tokens(init));
        if ratio != 0 {
            lemma_pool_takes(ctx, ratio, 512, compressed_tokens(init, ratio), exp);
        }
        if ratio == 4 {
            lemma_pool_takes(ctx, 4, 128, indexer_tokens(init), exp);
        }
    }
    lemma_window_width(window, latents(inputs));
    if ratio != 0 {
        lemma_pool_takes(ctx, ratio, 512, compressed_tokens(inputs, ratio), exp);
    }
    if ratio == 4 {
        lemma_pool_takes(ctx, 4, 128, indexer_tokens(inputs), exp);
    }
}

/// A window keeps its width.
proof fn lemma_window_width(w: swa::WindowView, rows: Seq<Seq<u32>>)
    ensures
        swa::fed(w, rows).head_dim == w.head_dim,
    decreases rows.len(),
{
    if rows.len() > 0 {
        lemma_window_width(w, rows.drop_last());
    }
}

/// After any whole tokens of a context, a layer takes the next one exactly where
/// it is whole too. A latent of another width leaves the layer as it was.
pub proof fn law_only_whole_tokens(
    il: nat,
    ctx: nat,
    inputs: Seq<LayerAppend<'_>>,
    exp: spec_fn(u32) -> u32,
    next: LayerAppend<'_>,
)
    requires
        0 < ctx,
        inputs.len() <= ctx,
        forall|i: int|
            0 <= i < inputs.len() ==> is_whole(#[trigger] inputs[i], shape::ratio_of(il as int)),
    ensures
        ({
            let l = offered(three_tier::empty_layer(il, ctx), inputs, exp);
            &&& l.refusal(next) is None <==> is_whole(next, shape::ratio_of(il as int))
            &&& next.kv_latent@.len() != 512 ==> l.after(next, exp) == l
        }),
{
    let ratio = shape::ratio_of(il as int);
    law_tiers_of_a_stream(il, ctx, inputs, exp);
    lemma_window_width(three_tier::empty_layer(il, ctx).swa, latents(inputs));
    if ratio != 0 {
        lemma_pool_takes(ctx, ratio, 512, compressed_tokens(inputs, ratio), exp);
    }
    if ratio == 4 {
        lemma_pool_takes(ctx, 4, 128, indexer_tokens(inputs), exp);
    }
}

} // verus!
