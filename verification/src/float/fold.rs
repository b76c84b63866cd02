//! Highest number and sum of a sequence of numbers.

use crate::float;
use crate::float::arith;
use crate::float::arith::{fabs, fadd, fmul, fsub};
use crate::float::order;
use crate::float::order::flt;
use vstd::prelude::*;

verus! {

/// Minus infinity, below every number.
pub const NEG_INF: u32 = 0xFF80_0000;

/// One.
pub const ONE: u32 = 0x3F80_0000;

/// The highest number of a sequence, `start` where none is higher than that.
pub open spec fn highest(s: Seq<u32>, start: u32) -> u32
    decreases s.len(),
{
    if s.len() == 0 {
        start
    } else {
        let m = highest(s.drop_last(), start);
        if order::less(m, s.last()) {
            s.last()
        } else {
            m
        }
    }
}

/// The numbers of a sequence, added up from the first to the last.
pub open spec fn total(s: Seq<u32>) -> u32
    decreases s.len(),
{
    if s.len() == 0 {
        0
    } else {
        arith::sum(total(s.drop_last()), s.last())
    }
}

/// `start` and the numbers of a sequence, added up from the first to the last.
pub open spec fn total_from(s: Seq<u32>, start: u32) -> u32
    decreases s.len(),
{
    if s.len() == 0 {
        start
    } else {
        arith::sum(total_from(s.drop_last(), start), s.last())
    }
}

/// Each number times `k`.
pub open spec fn scaled(s: Seq<u32>, k: u32) -> Seq<u32> {
    Seq::new(s.len(), |i: int| arith::product(s[i], k))
}

/// Each number less `k`.
pub open spec fn lowered(s: Seq<u32>, k: u32) -> Seq<u32> {
    Seq::new(s.len(), |i: int| arith::difference(s[i], k))
}

/// The numbers without their signs.
pub open spec fn magnitudes(s: Seq<u32>) -> Seq<u32> {
    Seq::new(s.len(), |i: int| float::magnitude(s[i]) as u32)
}

/// The first `n` products of two sequences, added up from the first on.
pub open spec fn dot(a: Seq<u32>, b: Seq<u32>, n: nat) -> u32
    decreases n,
{
    if n == 0 {
        0
    } else {
        arith::sum(dot(a, b, (n - 1) as nat), arith::product(a[n - 1], b[n - 1]))
    }
}

/// The highest number of a slice.
pub fn highest_of(s: &[u32], start: u32) -> (m: u32)
    ensures
        m == highest(s@, start),
{
    let mut m: u32 = start;
    let n: usize = s.len();
    for k in 0..n
        invariant
            n == s@.len(),
            m == highest(s@.take(k as int), start),
    {
        assert(s@.take(k + 1).drop_last() =~= s@.take(k as int));
        if flt(m, s[k]) {
            m = s[k];
        }
    }
    assert(s@.take(n as int) =~= s@);
    m
}

/// The sum of a slice.
pub fn total_of(s: &[u32]) -> (t: u32)
    ensures
        t == total(s@),
{
    let mut t: u32 = 0;
    let n: usize = s.len();
    for k in 0..n
        invariant
            n == s@.len(),
            t == total(s@.take(k as int)),
    {
        assert(s@.take(k + 1).drop_last() =~= s@.take(k as int));
        t = fadd(t, s[k]);
    }
    assert(s@.take(n as int) =~= s@);
    t
}

/// The sum of `start` and a slice.
pub fn total_on(s: &[u32], start: u32) -> (t: u32)
    ensures
        t == total_from(s@, start),
{
    let mut t: u32 = start;
    let n: usize = s.len();
    for k in 0..n
        invariant
            n == s@.len(),
            t == total_from(s@.take(k as int), start),
    {
        assert(s@.take(k + 1).drop_last() =~= s@.take(k as int));
        t = fadd(t, s[k]);
    }
    assert(s@.take(n as int) =~= s@);
    t
}

/// Multiplies each number by `k`.
pub fn scale(s: &[u32], k: u32) -> (r: Vec<u32>)
    ensures
        r@ == scaled(s@, k),
{
    let mut r: Vec<u32> = Vec::new();
    let n: usize = s.len();
    for i in 0..n
        invariant
            n == s@.len(),
            r@ =~= scaled(s@, k).take(i as int),
    {
        r.push(fmul(s[i], k));
    }
    assert(r@ =~= scaled(s@, k));
    r
}

/// Takes `k` off each number.
pub fn lower(s: &[u32], k: u32) -> (r: Vec<u32>)
    ensures
        r@ == lowered(s@, k),
{
    let mut r: Vec<u32> = Vec::new();
    let n: usize = s.len();
    for i in 0..n
        invariant
            n == s@.len(),
            r@ =~= lowered(s@, k).take(i as int),
    {
        r.push(fsub(s[i], k));
    }
    assert(r@ =~= lowered(s@, k));
    r
}

/// Takes the sign off each number.
pub fn magnitudes_of(s: &[u32]) -> (r: Vec<u32>)
    ensures
        r@ == magnitudes(s@),
{
    let mut r: Vec<u32> = Vec::new();
    let n: usize = s.len();
    for i in 0..n
        invariant
            n == s@.len(),
            r@ =~= magnitudes(s@).take(i as int),
    {
        r.push(fabs(s[i]));
    }
    assert(r@ =~= magnitudes(s@));
    r
}

/// The products of `n` numbers from `at` in one slice and from `bt` in another,
/// added up.
pub fn dot_of(a: &[u32], at: usize, b: &[u32], bt: usize, n: usize) -> (d: u32)
    requires
        at + n <= a@.len(),
        bt + n <= b@.len(),
    ensures
        d == dot(a@.subrange(at as int, at + n), b@.subrange(bt as int, bt + n), n as nat),
{
    let alen: usize = a.len();
    let blen: usize = b.len();
    let ghost left = a@.subrange(at as int, at + n);
    let ghost right = b@.subrange(bt as int, bt + n);
    let mut d: u32 = 0;
    for i in 0..n
        invariant
            alen == a@.len(),
            blen == b@.len(),
            at + n <= alen,
            bt + n <= blen,
            left == a@.subrange(at as int, at + n),
            right == b@.subrange(bt as int, bt + n),
            d == dot(left, right, i as nat),
    {
        assert(left[i as int] == a@[at + i]);
        assert(right[i as int] == b@[bt + i]);
        d = fadd(d, fmul(a[at + i], b[bt + i]));
    }
    d
}

/// The highest number is one of the sequence or `start`, and none is higher.
pub proof fn law_highest(s: Seq<u32>, start: u32)
    requires
        !float::is_nan(start),
    ensures
        highest(s, start) == start || s.contains(highest(s, start)),
        !float::is_nan(highest(s, start)),
        !order::less(highest(s, start), start),
        forall|i: int| 0 <= i < s.len() ==> !order::less(highest(s, start), #[trigger] s[i]),
    decreases s.len(),
{
    if s.len() > 0 {
        let rest = s.drop_last();
        law_highest(rest, start);
        let m = highest(s, start);
        if m != start {
            if order::less(highest(rest, start), s.last()) {
                assert(s[s.len() - 1] == m);
            } else {
                let k = choose|k: int| 0 <= k < rest.len() && rest[k] == m;
                assert(s[k] == m);
            }
        }
        assert forall|i: int| 0 <= i < s.len() implies !order::less(m, #[trigger] s[i]) by {
            if i < rest.len() {
                assert(rest[i] == s[i]);
            }
        }
    }
}

/// A sum starts from zero.
pub proof fn law_total_starts_from_zero(s: Seq<u32>)
    ensures
        total(s) == total_from(s, 0),
    decreases s.len(),
{
    if s.len() > 0 {
        law_total_starts_from_zero(s.drop_last());
    }
}

/// A sum of numbers that are not negative is no smaller than any of them.
pub proof fn law_total_is_no_smaller(s: Seq<u32>, start: u32)
    requires
        !float::is_nan(start),
        !float::is_negative(start),
        forall|i: int|
            0 <= i < s.len() ==> !float::is_nan(#[trigger] s[i]) && !float::is_negative(s[i]),
    ensures
        !float::is_negative(total_from(s, start)),
        order::at_most(start, total_from(s, start)),
        forall|i: int|
            0 <= i < s.len() ==> order::at_most(#[trigger] s[i], total_from(s, start)),
    decreases s.len(),
{
    if s.len() > 0 {
        let rest = s.drop_last();
        let last = s.last();
        assert(last == s[s.len() - 1]);
        assert forall|i: int| 0 <= i < rest.len() implies !float::is_nan(#[trigger] rest[i])
            && !float::is_negative(rest[i]) by {
            assert(rest[i] == s[i]);
        }
        law_total_is_no_smaller(rest, start);
        order::law_sum_is_no_smaller(total_from(rest, start), last);
        assert forall|i: int| 0 <= i < s.len() implies order::at_most(
            #[trigger] s[i],
            total_from(s, start),
        ) by {
            if i < rest.len() {
                assert(rest[i] == s[i]);
            }
        }
    }
}

} // verus!
