//! What the rows of a pool are made of, said of the tokens that went in.

use crate::float::fold::NEG_INF;
use crate::kvcache::dsv4::compressed;
use crate::kvcache::dsv4::compressed::{PoolView, Token};
use crate::kvcache::Error;
use vstd::prelude::*;

verus! {

/// The values that column `j` of row `w` is pooled from, where a window is four
/// tokens: in turn the first lane of a token of the window before and the second
/// lane of the token at the same place of this one. Before the first window
/// there is nothing.
pub open spec fn overlapping(
    tokens: Seq<Token>,
    head_dim: nat,
    w: int,
    j: int,
    nothing: u32,
    of: spec_fn(Token) -> Seq<u32>,
) -> Seq<u32> {
    Seq::new(
        8,
        |k: int|
            if k % 2 == 1 {
                of(tokens[4 * w + k / 2])[head_dim + j]
            } else if w == 0 {
                nothing
            } else {
                of(tokens[4 * (w - 1) + k / 2])[j]
            },
    )
}

/// The values that column `j` of row `w` is pooled from, where a window is any
/// other number of tokens: column `j` of its tokens.
pub open spec fn apart(
    tokens: Seq<Token>,
    ratio: nat,
    w: int,
    j: int,
    of: spec_fn(Token) -> Seq<u32>,
) -> Seq<u32> {
    Seq::new(ratio, |k: int| of(tokens[ratio * w + k])[j])
}

/// The values of a token.
pub open spec fn kv_of(t: Token) -> Seq<u32> {
    t.kv
}

/// The scores of a token.
pub open spec fn score_of(t: Token) -> Seq<u32> {
    t.score
}

/// Column `j` of row `w` of a pool that took in tokens.
pub open spec fn entry(
    tokens: Seq<Token>,
    ratio: nat,
    head_dim: nat,
    w: int,
    j: int,
    exp: spec_fn(u32) -> u32,
) -> u32 {
    let kv = |t: Token| kv_of(t);
    let score = |t: Token| score_of(t);
    if ratio == 4 {
        compressed::pooled(
            overlapping(tokens, head_dim, w, j, 0, kv),
            overlapping(tokens, head_dim, w, j, NEG_INF, score),
            2,
            4,
            exp,
        )
    } else {
        compressed::pooled(
            apart(tokens, ratio, w, j, kv),
            apart(tokens, ratio, w, j, score),
            1,
            ratio,
            exp,
        )
    }
}

/// Whether tokens have the width of a state row.
pub open spec fn of_width(tokens: Seq<Token>, width: nat) -> bool {
    forall|i: int|
        0 <= i < tokens.len() ==> (#[trigger] tokens[i]).kv.len() == width
            && tokens[i].score.len() == width
}

/// Whether the rows of a pool are those of the tokens that went in.
#[verifier::opaque]
spec fn rows_held(p: PoolView, tokens: Seq<Token>, exp: spec_fn(u32) -> u32) -> bool {
    forall|w: int, j: int|
        0 <= w < p.emitted && 0 <= j < p.head_dim ==> #[trigger] p.rows[w * p.head_dim + j]
            == entry(tokens, p.ratio, p.head_dim, w, j, exp)
}

/// Whether a pool has in its state the tokens of the current window and, with
/// overlapping windows, those of the one before.
#[verifier::opaque]
spec fn state_held(p: PoolView, tokens: Seq<Token>) -> bool {
    let n = p.ratio as int;
    let e = p.emitted as int;
    &&& p.ratio == 4 ==> {
        &&& forall|r: int|
            0 <= r < 4 ==> (#[trigger] p.kv[r]) == if e == 0 {
                p.filled(0)
            } else {
                tokens[4 * (e - 1) + r].kv
            }
        &&& forall|r: int|
            0 <= r < 4 ==> (#[trigger] p.score[r]) == if e == 0 {
                p.filled(NEG_INF)
            } else {
                tokens[4 * (e - 1) + r].score
            }
        &&& forall|r: int|
            4 <= r < 4 + p.count ==> (#[trigger] p.kv[r]) == tokens[4 * e + (r - 4)].kv
        &&& forall|r: int|
            4 <= r < 4 + p.count ==> (#[trigger] p.score[r]) == tokens[4 * e + (r - 4)].score
    }
    &&& p.ratio != 4 ==> {
        &&& forall|r: int| 0 <= r < p.count ==> (#[trigger] p.kv[r]) == tokens[n * e + r].kv
        &&& forall|r: int| 0 <= r < p.count ==> (#[trigger] p.score[r]) == tokens[n * e + r].score
    }
}

/// What a pool holds after tokens.
spec fn holds(p: PoolView, tokens: Seq<Token>, exp: spec_fn(u32) -> u32) -> bool {
    &&& compressed::shaped(p)
    &&& p.emitted * p.ratio + p.count == tokens.len()
    &&& p.rows.len() == p.emitted * p.head_dim
    &&& rows_held(p, tokens, exp)
    &&& state_held(p, tokens)
}

/// The rows so far do not depend on later tokens.
proof fn lemma_entry_stays(
    before: Seq<Token>,
    t: Token,
    ratio: nat,
    head_dim: nat,
    w: int,
    j: int,
    exp: spec_fn(u32) -> u32,
)
    requires
        0 < ratio,
        0 <= w,
        (w + 1) * ratio <= before.len(),
    ensures
        entry(before.push(t), ratio, head_dim, w, j, exp) == entry(
            before,
            ratio,
            head_dim,
            w,
            j,
            exp,
        ),
{
    let after = before.push(t);
    let kv = |t: Token| kv_of(t);
    let score = |t: Token| score_of(t);
    assert((w + 1) * ratio == ratio * w + ratio) by (nonlinear_arith);
    assert(0 <= ratio * w) by (nonlinear_arith)
        requires
            0 <= w,
    ;
    if ratio == 4 {
        assert(overlapping(after, head_dim, w, j, 0, kv) =~= overlapping(
            before,
            head_dim,
            w,
            j,
            0,
            kv,
        ));
        assert(overlapping(after, head_dim, w, j, NEG_INF, score) =~= overlapping(
            before,
            head_dim,
            w,
            j,
            NEG_INF,
            score,
        ));
    } else {
        assert(apart(after, ratio, w, j, kv) =~= apart(before, ratio, w, j, kv));
        assert(apart(after, ratio, w, j, score) =~= apart(before, ratio, w, j, score));
    }
}

/// The row that a token completes.
proof fn lemma_summary(p: PoolView, before: Seq<Token>, t: Token, exp: spec_fn(u32) -> u32, j: int)
    requires
        holds(p, before, exp),
        p.count + 1 == p.ratio,
        of_width(before, p.width()),
        t.kv.len() == p.width(),
        t.score.len() == p.width(),
        0 <= j < p.head_dim,
    ensures
        p.written(t.kv, t.score).summary(exp)[j] == entry(
            before.push(t),
            p.ratio,
            p.head_dim,
            p.emitted as int,
            j,
            exp,
        ),
{
    let tokens = before.push(t);
    let w = p.written(t.kv, t.score);
    let kv = |t: Token| kv_of(t);
    let score = |t: Token| score_of(t);
    let e = p.emitted as int;
    let n = p.ratio as int;
    let h = p.head_dim;
    reveal(state_held);
    assert(e * n == n * e) by (nonlinear_arith);
    assert(tokens[tokens.len() - 1] == t);
    if p.ratio == 4 {
        assert(p.width() == 2 * h);
        assert forall|k: int| 0 <= k < 8 implies #[trigger] compressed::column(w.kv, 4, h, j)[k]
            == overlapping(tokens, h, e, j, 0, kv)[k] by {
            assert(w.kv[k / 2] == p.kv[k / 2]);
            assert(k / 2 < 3 ==> w.kv[4 + k / 2] == p.kv[4 + k / 2]);
        }
        assert(compressed::column(w.kv, 4, h, j) =~= overlapping(tokens, h, e, j, 0, kv));
        assert forall|k: int| 0 <= k < 8 implies #[trigger] compressed::column(w.score, 4, h, j)[k]
            == overlapping(tokens, h, e, j, NEG_INF, score)[k] by {
            assert(w.score[k / 2] == p.score[k / 2]);
            assert(k / 2 < 3 ==> w.score[4 + k / 2] == p.score[4 + k / 2]);
        }
        assert(compressed::column(w.score, 4, h, j) =~= overlapping(
            tokens,
            h,
            e,
            j,
            NEG_INF,
            score,
        ));
    } else {
        assert forall|k: int| 0 <= k < n implies #[trigger] compressed::column(
            w.kv,
            p.ratio,
            h,
            j,
        )[k] == apart(tokens, p.ratio, e, j, kv)[k] by {
            if k < n - 1 {
                assert(w.kv[k] == p.kv[k]);
            }
        }
        assert(compressed::column(w.kv, p.ratio, h, j) =~= apart(tokens, p.ratio, e, j, kv));
        assert forall|k: int| 0 <= k < n implies #[trigger] compressed::column(
            w.score,
            p.ratio,
            h,
            j,
        )[k] == apart(tokens, p.ratio, e, j, score)[k] by {
            if k < n - 1 {
                assert(w.score[k] == p.score[k]);
            }
        }
        assert(compressed::column(w.score, p.ratio, h, j) =~= apart(tokens, p.ratio, e, j, score));
    }
}

/// The rows after one more token.
proof fn lemma_taken_rows(p: PoolView, before: Seq<Token>, t: Token, exp: spec_fn(u32) -> u32)
    requires
        holds(p, before, exp),
        p.emitted < p.cap || p.count + 1 < p.ratio,
        of_width(before, p.width()),
        t.kv.len() == p.width(),
        t.score.len() == p.width(),
    ensures
        rows_held(p.taken(t.kv, t.score, exp), before.push(t), exp),
{
    let q = p.taken(t.kv, t.score, exp);
    let tokens = before.push(t);
    let e = p.emitted as int;
    let n = p.ratio as int;
    let h = p.head_dim as int;
    reveal(rows_held);
    assert forall|i: int, j: int| 0 <= i < e && 0 <= j < h implies #[trigger] p.rows[i * h + j]
        == entry(tokens, p.ratio, p.head_dim, i, j, exp) by {
        assert((i + 1) * n <= e * n) by (nonlinear_arith)
            requires
                i + 1 <= e,
                n >= 0,
        ;
        lemma_entry_stays(before, t, p.ratio, p.head_dim, i, j, exp);
    }
    if p.count + 1 < p.ratio {
        assert(q.rows == p.rows);
    } else {
        let row = p.written(t.kv, t.score).summary(exp);
        assert(q.rows == p.rows + row);
        assert forall|i: int, j: int| 0 <= i < e + 1 && 0 <= j < h implies #[trigger] q.rows[i * h
            + j] == entry(tokens, p.ratio, p.head_dim, i, j, exp) by {
            if i < e {
                assert((i + 1) * h <= e * h) by (nonlinear_arith)
                    requires
                        i + 1 <= e,
                        h >= 0,
                ;
                assert((i + 1) * h == i * h + h && 0 <= i * h) by (nonlinear_arith)
                    requires
                        0 <= i,
                        0 <= h,
                ;
                assert(q.rows[i * h + j] == p.rows[i * h + j]);
            } else {
                lemma_summary(p, before, t, exp, j);
                assert(0 <= e * h) by (nonlinear_arith)
                    requires
                        0 <= e,
                        0 <= h,
                ;
                assert(q.rows[e * h + j] == row[j]);
            }
        }
    }
}

/// The state after one more token.
proof fn lemma_taken_state(p: PoolView, before: Seq<Token>, t: Token, exp: spec_fn(u32) -> u32)
    requires
        holds(p, before, exp),
        p.emitted < p.cap || p.count + 1 < p.ratio,
    ensures
        state_held(p.taken(t.kv, t.score, exp), before.push(t)),
{
    let q = p.taken(t.kv, t.score, exp);
    let tokens = before.push(t);
    let e = p.emitted as int;
    let n = p.ratio as int;
    reveal(state_held);
    compressed::lemma_state_rows(p.ratio);
    assert(e * n == n * e) by (nonlinear_arith);
    assert(tokens[tokens.len() - 1] == t);
    let w = p.written(t.kv, t.score);
    if p.count + 1 == p.ratio && p.ratio == 4 {
        assert forall|r: int| 0 <= r < 4 implies (#[trigger] q.kv[r]) == tokens[4 * e + r].kv by {
            assert(q.kv[r] == w.kv[4 + r % 4]);
            assert(p.kv[4 + r] == p.kv[4 + r]);
        }
        assert forall|r: int| 0 <= r < 4 implies (#[trigger] q.score[r]) == tokens[4 * e
            + r].score by {
            assert(q.score[r] == w.score[4 + r % 4]);
            assert(p.score[4 + r] == p.score[4 + r]);
        }
    }
}

proof fn lemma_taken_holds(p: PoolView, before: Seq<Token>, t: Token, exp: spec_fn(u32) -> u32)
    requires
        holds(p, before, exp),
        p.emitted < p.cap || p.count + 1 < p.ratio,
        of_width(before, p.width()),
        t.kv.len() == p.width(),
        t.score.len() == p.width(),
    ensures
        holds(p.taken(t.kv, t.score, exp), before.push(t), exp),
{
    let e = p.emitted as int;
    let n = p.ratio as int;
    let h = p.head_dim as int;
    compressed::lemma_state_rows(p.ratio);
    lemma_taken_rows(p, before, t, exp);
    lemma_taken_state(p, before, t, exp);
    assert((e + 1) * n == e * n + n) by (nonlinear_arith);
    assert((e + 1) * h == e * h + h) by (nonlinear_arith);
}

proof fn lemma_streamed_holds(
    cap: nat,
    ratio: nat,
    head_dim: nat,
    tokens: Seq<Token>,
    exp: spec_fn(u32) -> u32,
)
    requires
        0 < ratio,
        tokens.len() / ratio <= cap,
        of_width(tokens, compressed::lanes(ratio) * head_dim),
    ensures
        ({
            let p = compressed::streamed(
                compressed::empty_pool(cap, ratio, head_dim),
                tokens,
                exp,
            );
            holds(p, tokens, exp) && p.cap == cap && p.ratio == ratio && p.head_dim == head_dim
        }),
    decreases tokens.len(),
{
    let start = compressed::empty_pool(cap, ratio, head_dim);
    if tokens.len() == 0 {
        assert(0 * (ratio as int) == 0 && 0 * (head_dim as int) == 0) by (nonlinear_arith);
        compressed::lemma_state_rows(ratio);
        reveal(rows_held);
        reveal(state_held);
    } else {
        let before = tokens.drop_last();
        let t = tokens.last();
        let n = ratio as int;
        vstd::arithmetic::div_mod::lemma_div_is_ordered(
            before.len() as int,
            tokens.len() as int,
            n,
        );
        assert forall|i: int| 0 <= i < before.len() implies (#[trigger] before[i]).kv.len()
            == compressed::lanes(ratio) * head_dim && before[i].score.len() == compressed::lanes(ratio)
            * head_dim by {
            assert(before[i] == tokens[i]);
        }
        lemma_streamed_holds(cap, ratio, head_dim, before, exp);
        let p = compressed::streamed(start, before, exp);
        assert(t == tokens[tokens.len() - 1]);
        if p.emitted >= cap && p.count + 1 == ratio {
            assert((p.emitted + 1) * n == p.emitted * n + n) by (nonlinear_arith);
            vstd::arithmetic::div_mod::lemma_fundamental_div_mod_converse(
                tokens.len() as int,
                n,
                (p.emitted + 1) as int,
                0,
            );
        }
        lemma_taken_holds(p, before, t, exp);
        assert(tokens =~= before.push(t));
    }
}

/// Row `w` of a pool that took in tokens, in column `j`: the values there,
/// weighted by the softmax of the scores there. With windows of four these are
/// the first lane of the window before and the second lane of this window;
/// otherwise the tokens of this window.
pub proof fn law_rows_of_tokens(
    cap: nat,
    ratio: nat,
    head_dim: nat,
    tokens: Seq<Token>,
    exp: spec_fn(u32) -> u32,
    w: int,
    j: int,
)
    requires
        0 < ratio,
        tokens.len() / ratio <= cap,
        of_width(tokens, compressed::lanes(ratio) * head_dim),
        0 <= w < tokens.len() / ratio,
        0 <= j < head_dim,
    ensures
        compressed::streamed(compressed::empty_pool(cap, ratio, head_dim), tokens, exp).rows[w
            * head_dim + j] == entry(tokens, ratio, head_dim, w, j, exp),
{
    reveal(rows_held);
    lemma_streamed_holds(cap, ratio, head_dim, tokens, exp);
    compressed::law_one_row_per_window(cap, ratio, head_dim, tokens, exp);
    let p = compressed::streamed(compressed::empty_pool(cap, ratio, head_dim), tokens, exp);
    assert(p.rows[w * p.head_dim + j] == entry(tokens, p.ratio, p.head_dim, w, j, exp));
}

/// With windows of four, the second lane of the window before does not matter to
/// a row, nor does the first lane of its own window.
pub proof fn law_lanes_that_do_not_matter(
    a: Seq<Token>,
    b: Seq<Token>,
    head_dim: nat,
    exp: spec_fn(u32) -> u32,
    w: int,
    j: int,
)
    requires
        0 <= w,
        0 <= j < head_dim,
        4 * (w + 1) <= a.len(),
        4 * (w + 1) <= b.len(),
        w > 0 ==> forall|r: int|
            0 <= r < 4 ==> (#[trigger] a[4 * (w - 1) + r]).kv[j] == b[4 * (w - 1) + r].kv[j]
                && a[4 * (w - 1) + r].score[j] == b[4 * (w - 1) + r].score[j],
        forall|r: int|
            0 <= r < 4 ==> (#[trigger] a[4 * w + r]).kv[head_dim + j] == b[4 * w + r].kv[head_dim + j]
                && a[4 * w + r].score[head_dim + j] == b[4 * w + r].score[head_dim + j],
    ensures
        entry(a, 4, head_dim, w, j, exp) == entry(b, 4, head_dim, w, j, exp),
{
    let kv = |t: Token| kv_of(t);
    let score = |t: Token| score_of(t);
    let p = overlapping(a, head_dim, w, j, 0, kv);
    let q = overlapping(b, head_dim, w, j, 0, kv);
    let r = overlapping(a, head_dim, w, j, NEG_INF, score);
    let s = overlapping(b, head_dim, w, j, NEG_INF, score);
    assert forall|k: int| 0 <= k < 8 implies #[trigger] p[k] == q[k] && r[k] == s[k] by {
        let m = k / 2;
        assert(a[4 * w + m].kv[head_dim + j] == b[4 * w + m].kv[head_dim + j]);
        if w > 0 {
            assert(a[4 * (w - 1) + m].kv[j] == b[4 * (w - 1) + m].kv[j]);
        }
    }
    assert(p =~= q);
    assert(r =~= s);
}

/// The token that completes window `w` is answered with `w`, any other token
/// with nothing.
pub proof fn law_answers(
    cap: nat,
    ratio: nat,
    head_dim: nat,
    tokens: Seq<Token>,
    exp: spec_fn(u32) -> u32,
)
    requires
        0 < ratio,
        (tokens.len() + 1) / ratio <= cap,
        cap <= usize::MAX,
    ensures
        compressed::streamed(compressed::empty_pool(cap, ratio, head_dim), tokens, exp).answer()
            == Ok::<Option<usize>, Error>(
            if (tokens.len() + 1) % ratio == 0 {
                Some(((tokens.len() + 1) / ratio - 1) as usize)
            } else {
                None
            },
        ),
{
    let n = ratio as int;
    let len = tokens.len() as int;
    vstd::arithmetic::div_mod::lemma_div_is_ordered(len, len + 1, n);
    compressed::lemma_streamed_counts(cap, ratio, head_dim, tokens, exp);
    let p = compressed::streamed(compressed::empty_pool(cap, ratio, head_dim), tokens, exp);
    let (e, c) = (p.emitted as int, p.count as int);
    if c + 1 == n {
        assert((e + 1) * n == e * n + n) by (nonlinear_arith);
        vstd::arithmetic::div_mod::lemma_fundamental_div_mod_converse(len + 1, n, e + 1, 0);
    } else {
        vstd::arithmetic::div_mod::lemma_fundamental_div_mod_converse(len + 1, n, e, c + 1);
    }
}

} // verus!
