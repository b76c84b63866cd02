//! Ranking of numbers from the highest down.

use crate::float;
use crate::float::arith::nan;
use crate::float::fold::NEG_INF;
use crate::float::order;
use crate::float::order::flt;
use vstd::prelude::*;

verus! {

/// A score for comparing: what is no number counts as the lowest one.
pub open spec fn comparable(s: u32) -> u32 {
    if float::is_nan(s) {
        NEG_INF
    } else {
        s
    }
}

/// Whether index `c` comes before index `d`: it scores higher, or the same and
/// stands first.
pub open spec fn beats(scores: Seq<u32>, c: int, d: int) -> bool {
    ||| order::less(comparable(scores[d]), comparable(scores[c]))
    ||| !order::less(comparable(scores[c]), comparable(scores[d])) && c < d
}

/// Whether `out` lists different indices, each of which beats every index that
/// is not listed up to it.
pub open spec fn is_selection(scores: Seq<u32>, out: Seq<u32>) -> bool {
    &&& forall|i: int| 0 <= i < out.len() ==> #[trigger] out[i] < scores.len()
    &&& forall|i: int, j: int| 0 <= i < j < out.len() ==> out[i] != out[j]
    &&& forall|i: int, d: int|
        0 <= i < out.len() && 0 <= d < scores.len() && (forall|k: int|
            0 <= k <= i ==> out[k] != d) ==> #[trigger] beats(scores, out[i] as int, d)
}

/// The `k` indices that score highest, best first.
pub open spec fn top(scores: Seq<u32>, k: nat) -> Seq<u32> {
    choose|out: Seq<u32>| #[trigger] is_selection(scores, out) && out.len() == k
}

/// A score for comparing.
fn comparable_of(s: u32) -> (r: u32)
    ensures
        r == comparable(s),
{
    if nan(s) {
        NEG_INF
    } else {
        s
    }
}

/// Whether index `c` comes before index `d`.
fn is_before(scores: &[u32], c: u32, d: u32) -> (r: bool)
    requires
        c < scores@.len(),
        d < scores@.len(),
    ensures
        r == beats(scores@, c as int, d as int),
{
    let a: u32 = comparable_of(scores[c as usize]);
    let b: u32 = comparable_of(scores[d as usize]);
    flt(b, a) || (!flt(a, b) && c < d)
}

proof fn lemma_beats(scores: Seq<u32>, a: int, b: int, c: int)
    requires
        beats(scores, a, b),
        beats(scores, b, c),
    ensures
        beats(scores, a, c),
{
}

/// Whether each index beats those listed after it.
spec fn is_ranked(scores: Seq<u32>, out: Seq<u32>) -> bool {
    &&& forall|i: int| 0 <= i < out.len() ==> #[trigger] out[i] < scores.len()
    &&& forall|i: int, j: int|
        0 <= i < j < out.len() ==> beats(scores, #[trigger] out[i] as int, #[trigger] out[j] as int)
}

/// Whether `out` lists the indices from `lo` up to `hi`.
spec fn covers(out: Seq<u32>, lo: int, hi: int) -> bool {
    &&& out.len() == hi - lo
    &&& forall|i: int| 0 <= i < out.len() ==> lo <= #[trigger] out[i] < hi
    &&& forall|d: int| lo <= d < hi ==> #[trigger] lists(out, d)
}

spec fn lists(out: Seq<u32>, d: int) -> bool {
    exists|i: int| 0 <= i < out.len() && out[i] == d
}

/// Merges two rankings of adjacent ranges.
fn merge(
    scores: &[u32],
    a: &[u32],
    b: &[u32],
    Ghost(lo): Ghost<int>,
    Ghost(mid): Ghost<int>,
    Ghost(hi): Ghost<int>,
) -> (out: Vec<u32>)
    requires
        is_ranked(scores@, a@),
        is_ranked(scores@, b@),
        covers(a@, lo, mid),
        covers(b@, mid, hi),
    ensures
        is_ranked(scores@, out@),
        covers(out@, lo, hi),
{
    let mut out: Vec<u32> = Vec::new();
    let mut i: usize = 0;
    let mut j: usize = 0;
    let an: usize = a.len();
    let bn: usize = b.len();
    while i < an || j < bn
        invariant
            an == a@.len(),
            bn == b@.len(),
            i <= an,
            j <= bn,
            is_ranked(scores@, a@),
            is_ranked(scores@, b@),
            covers(a@, lo, mid),
            covers(b@, mid, hi),
            out@.len() == i + j,
            is_ranked(scores@, out@),
            forall|k: int| 0 <= k < out@.len() ==> lo <= #[trigger] out@[k] < hi,
            forall|k: int, m: int|
                0 <= k < out@.len() && i <= m < an ==> beats(
                    scores@,
                    #[trigger] out@[k] as int,
                    #[trigger] a@[m] as int,
                ),
            forall|k: int, m: int|
                0 <= k < out@.len() && j <= m < bn ==> beats(
                    scores@,
                    #[trigger] out@[k] as int,
                    #[trigger] b@[m] as int,
                ),
            forall|m: int| 0 <= m < i ==> lists(out@, #[trigger] a@[m] as int),
            forall|m: int| 0 <= m < j ==> lists(out@, #[trigger] b@[m] as int),
        decreases an + bn - i - j,
    {
        let ghost before = out@;
        let left: bool = if i >= an {
            false
        } else if j >= bn {
            true
        } else {
            is_before(scores, a[i], b[j])
        };
        let v: u32 = if left {
            a[i]
        } else {
            b[j]
        };
        proof {
            if i < an && j < bn {
                let x = a@[i as int] as int;
                let y = b@[j as int] as int;
                assert(x < mid <= y);
                assert(!left ==> beats(scores@, y, x));
                assert forall|m: int| j <= m < bn && left implies beats(
                    scores@,
                    x,
                    #[trigger] b@[m] as int,
                ) by {
                    if m > j {
                        lemma_beats(scores@, x, y, b@[m] as int);
                    }
                }
                assert forall|m: int| i <= m < an && !left implies beats(
                    scores@,
                    y,
                    #[trigger] a@[m] as int,
                ) by {
                    if m > i {
                        lemma_beats(scores@, y, x, a@[m] as int);
                    }
                }
            }
        }
        out.push(v);
        assert forall|d: int| lists(before, d) implies #[trigger] lists(out@, d) by {
            let k = choose|k: int| 0 <= k < before.len() && before[k] == d;
            assert(out@[k] == d);
        }
        assert(out@[before.len() as int] == v);
        assert(lists(out@, v as int));
        assert forall|k: int| 0 <= k < before.len() implies out@[k] == before[k] by {
        }
        if left {
            i = i + 1;
        } else {
            j = j + 1;
        }
    }
    assert forall|d: int| lo <= d < hi implies #[trigger] lists(out@, d) by {
        if d < mid {
            assert(lists(a@, d));
            let m = choose|m: int| 0 <= m < a@.len() && a@[m] == d;
            assert(lists(out@, a@[m] as int));
        } else {
            assert(lists(b@, d));
            let m = choose|m: int| 0 <= m < b@.len() && b@[m] == d;
            assert(lists(out@, b@[m] as int));
        }
    }
    out
}

/// Ranks the indices from `lo` up to `hi`.
fn rank_range(scores: &[u32], lo: u32, hi: u32) -> (out: Vec<u32>)
    requires
        lo <= hi <= scores@.len(),
    ensures
        is_ranked(scores@, out@),
        covers(out@, lo as int, hi as int),
    decreases hi - lo,
{
    if hi - lo == 0 {
        Vec::new()
    } else if hi - lo == 1 {
        let mut out: Vec<u32> = Vec::new();
        out.push(lo);
        assert(out@[0] == lo);
        assert(lists(out@, lo as int));
        out
    } else {
        let mid: u32 = lo + (hi - lo) / 2;
        let a: Vec<u32> = rank_range(scores, lo, mid);
        let b: Vec<u32> = rank_range(scores, mid, hi);
        merge(
            scores,
            a.as_slice(),
            b.as_slice(),
            Ghost(lo as int),
            Ghost(mid as int),
            Ghost(hi as int),
        )
    }
}

/// The `k` indices that score highest, best first.
pub fn pick_highest(scores: &[u32], k: usize) -> (out: Vec<u32>)
    requires
        k <= scores@.len(),
        scores@.len() <= u32::MAX,
    ensures
        out@.len() == k,
        is_selection(scores@, out@),
        out@ == top(scores@, k as nat),
{
    let n: usize = scores.len();
    let mut out: Vec<u32> = rank_range(scores, 0, n as u32);
    let ghost all = out@;
    out.truncate(k);
    proof {
        assert(out@ =~= all.take(k as int));
        lemma_first_are_selected(scores@, all, k as nat);
        law_selection_is_unique(scores@, out@, top(scores@, k as nat));
    }
    out
}

/// The first ones of a full ranking are a selection.
proof fn lemma_first_are_selected(scores: Seq<u32>, all: Seq<u32>, k: nat)
    requires
        is_ranked(scores, all),
        covers(all, 0, scores.len() as int),
        k <= all.len(),
    ensures
        is_selection(scores, all.take(k as int)),
{
    let out = all.take(k as int);
    assert forall|i: int, d: int|
        0 <= i < out.len() && 0 <= d < scores.len() && (forall|m: int|
            0 <= m <= i ==> out[m] != d) implies #[trigger] beats(scores, out[i] as int, d) by {
        assert(lists(all, d));
        let m = choose|m: int| 0 <= m < all.len() && all[m] == d;
        if m <= i {
            assert(out[m] == d);
        }
        assert(beats(scores, all[i] as int, all[m] as int));
    }
    assert forall|i: int, j: int| 0 <= i < j < out.len() implies out[i] != out[j] by {
        assert(beats(scores, all[i] as int, all[j] as int));
    }
}

/// A ranking with one more index in its place.
spec fn ranked_in(scores: Seq<u32>, list: Seq<u32>, c: u32) -> Seq<u32>
    decreases list.len(),
{
    if list.len() == 0 || beats(scores, list.last() as int, c as int) {
        list.push(c)
    } else {
        ranked_in(scores, list.drop_last(), c).push(list.last())
    }
}

proof fn lemma_ranked_in(scores: Seq<u32>, list: Seq<u32>, c: u32)
    requires
        is_ranked(scores, list),
        c < scores.len(),
        forall|i: int| 0 <= i < list.len() ==> #[trigger] list[i] != c,
    ensures
        is_ranked(scores, ranked_in(scores, list, c)),
        ranked_in(scores, list, c).len() == list.len() + 1,
        lists(ranked_in(scores, list, c), c as int),
        forall|d: int| lists(list, d) ==> #[trigger] lists(ranked_in(scores, list, c), d),
        forall|i: int|
            0 <= i <= list.len() ==> lists(list, #[trigger] ranked_in(scores, list, c)[i] as int)
                || ranked_in(scores, list, c)[i] == c,
    decreases list.len(),
{
    let out = ranked_in(scores, list, c);
    if list.len() == 0 || beats(scores, list.last() as int, c as int) {
        assert(out[list.len() as int] == c);
        assert forall|i: int, j: int| 0 <= i < j < out.len() implies beats(
            scores,
            #[trigger] out[i] as int,
            #[trigger] out[j] as int,
        ) by {
            if j == list.len() && i < list.len() - 1 {
                assert(beats(scores, list[i] as int, list[list.len() - 1] as int));
                lemma_beats(scores, list[i] as int, list.last() as int, c as int);
            }
        }
        assert forall|d: int| lists(list, d) implies #[trigger] lists(out, d) by {
            let k = choose|k: int| 0 <= k < list.len() && list[k] == d;
            assert(out[k] == d);
        }
        assert forall|i: int| 0 <= i <= list.len() implies lists(list, #[trigger] out[i] as int)
            || out[i] == c by {
            if i < list.len() {
                assert(list[i] == out[i]);
            }
        }
    } else {
        let shorter = list.drop_last();
        let last = list.last();
        assert(list[list.len() - 1] == last);
        lemma_ranked_in(scores, shorter, c);
        let inner = ranked_in(scores, shorter, c);
        assert(beats(scores, c as int, last as int));
        assert forall|i: int| 0 <= i < inner.len() implies beats(
            scores,
            #[trigger] inner[i] as int,
            last as int,
        ) by {
            if inner[i] != c {
                assert(lists(shorter, inner[i] as int));
                let k = choose|k: int| 0 <= k < shorter.len() && shorter[k] == inner[i] as int;
                assert(beats(scores, list[k] as int, list[list.len() - 1] as int));
            }
        }
        assert(out[inner.len() as int] == last);
        assert forall|d: int| lists(list, d) implies #[trigger] lists(out, d) by {
            let k = choose|k: int| 0 <= k < list.len() && list[k] == d;
            if k < list.len() - 1 {
                assert(shorter[k] == d);
                assert(lists(shorter, d));
                assert(lists(inner, d));
                let m = choose|m: int| 0 <= m < inner.len() && inner[m] == d;
                assert(out[m] == d);
            }
        }
        let at = choose|m: int| 0 <= m < inner.len() && inner[m] == c;
        assert(lists(inner, c as int));
        assert(out[at] == c);
        assert forall|i: int| 0 <= i <= list.len() implies lists(list, #[trigger] out[i] as int)
            || out[i] == c by {
            if i < inner.len() {
                if inner[i] != c {
                    assert(lists(shorter, inner[i] as int));
                    let k = choose|k: int| 0 <= k < shorter.len() && shorter[k] == inner[i] as int;
                    assert(list[k] == out[i]);
                }
            } else {
                assert(list[list.len() - 1] == out[i]);
            }
        }
    }
}

/// The indices below `n`, ranked.
spec fn ranking_of(scores: Seq<u32>, n: nat) -> Seq<u32>
    decreases n,
{
    if n == 0 {
        Seq::empty()
    } else {
        ranked_in(scores, ranking_of(scores, (n - 1) as nat), (n - 1) as u32)
    }
}

proof fn lemma_ranking_of(scores: Seq<u32>, n: nat)
    requires
        n <= scores.len() <= u32::MAX,
    ensures
        is_ranked(scores, ranking_of(scores, n)),
        covers(ranking_of(scores, n), 0, n as int),
    decreases n,
{
    if n > 0 {
        let before = ranking_of(scores, (n - 1) as nat);
        lemma_ranking_of(scores, (n - 1) as nat);
        lemma_ranked_in(scores, before, (n - 1) as u32);
        let out = ranking_of(scores, n);
        assert forall|i: int| 0 <= i < out.len() implies 0 <= #[trigger] out[i] < n by {
            if out[i] != n - 1 {
                assert(lists(before, out[i] as int));
            }
        }
        assert forall|d: int| 0 <= d < n implies #[trigger] lists(out, d) by {
            if d < n - 1 {
                assert(lists(before, d));
            }
        }
    }
}

/// There is a selection of every length up to the number of scores.
pub proof fn law_selection_exists(scores: Seq<u32>, k: nat)
    requires
        k <= scores.len() <= u32::MAX,
    ensures
        is_selection(scores, top(scores, k)),
        top(scores, k).len() == k,
{
    let all = ranking_of(scores, scores.len());
    lemma_ranking_of(scores, scores.len());
    lemma_first_are_selected(scores, all, k);
    assert(is_selection(scores, all.take(k as int)) && all.take(k as int).len() == k);
}

/// There is one selection of each length.
pub proof fn law_selection_is_unique(scores: Seq<u32>, a: Seq<u32>, b: Seq<u32>)
    requires
        is_selection(scores, a),
        is_selection(scores, b),
        a.len() == b.len(),
    ensures
        a == b,
{
    lemma_same_up_to(scores, a, b, a.len());
    assert(a =~= b);
}

proof fn lemma_same_up_to(scores: Seq<u32>, a: Seq<u32>, b: Seq<u32>, n: nat)
    requires
        is_selection(scores, a),
        is_selection(scores, b),
        a.len() == b.len(),
        n <= a.len(),
    ensures
        forall|i: int| 0 <= i < n ==> a[i] == b[i],
    decreases n,
{
    if n > 0 {
        lemma_same_up_to(scores, a, b, (n - 1) as nat);
        let i = n - 1;
        if a[i] != b[i] {
            assert(a[i] < scores.len() && b[i] < scores.len());
            assert(forall|k: int| 0 <= k < i ==> a[k] == b[k]);
            assert forall|k: int| 0 <= k <= i implies a[k] != b[i] by {
                if k < i {
                    assert(b[k] != b[i]);
                }
            }
            assert forall|k: int| 0 <= k <= i implies b[k] != a[i] by {
                if k < i {
                    assert(a[k] != a[i]);
                }
            }
            assert(beats(scores, a[i] as int, b[i] as int));
            assert(beats(scores, b[i] as int, a[i] as int));
        }
    }
}

/// No index that is left out scores higher than a selected one.
pub proof fn law_selected_score_highest(scores: Seq<u32>, out: Seq<u32>, i: int, d: int)
    requires
        is_selection(scores, out),
        0 <= i < out.len(),
        0 <= d < scores.len(),
        forall|k: int| 0 <= k < out.len() ==> #[trigger] out[k] != d,
    ensures
        !order::less(comparable(scores[out[i] as int]), comparable(scores[d])),
{
    assert(forall|k: int| 0 <= k <= i ==> out[k] != d);
    assert(beats(scores, out[i] as int, d));
}

/// Selected indices come in the order of their scores, the highest first, and of
/// equal scores the first index first.
pub proof fn law_selection_order(scores: Seq<u32>, out: Seq<u32>, i: int, j: int)
    requires
        is_selection(scores, out),
        0 <= i < j < out.len(),
    ensures
        !order::less(comparable(scores[out[i] as int]), comparable(scores[out[j] as int])),
        order::same(comparable(scores[out[i] as int]), comparable(scores[out[j] as int]))
            ==> out[i] < out[j],
{
    assert(out[j] < scores.len());
    assert forall|k: int| 0 <= k <= i implies out[k] != out[j] by {
    }
    assert(beats(scores, out[i] as int, out[j] as int));
}

} // verus!
