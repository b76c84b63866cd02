//! Copying and writing runs of numbers.

use vstd::prelude::*;

verus! {

/// The numbers of `s` with those from `at` on replaced by `with`.
pub open spec fn spliced(s: Seq<u32>, at: int, with: Seq<u32>) -> Seq<u32> {
    Seq::new(
        s.len(),
        |i: int|
            if at <= i < at + with.len() {
                with[i - at]
            } else {
                s[i]
            },
    )
}

/// A copy of a slice.
pub fn copied(s: &[u32]) -> (r: Vec<u32>)
    ensures
        r@ == s@,
{
    let mut r: Vec<u32> = Vec::new();
    r.extend_from_slice(s);
    assert(r@ =~= s@);
    r
}

/// A copy of `n` numbers from `at` on.
pub fn copied_from(s: &[u32], at: usize, n: usize) -> (r: Vec<u32>)
    requires
        at + n <= s@.len(),
    ensures
        r@ == s@.subrange(at as int, at + n),
{
    let len: usize = s.len();
    copied(vstd::slice::slice_subrange(s, at, at + n))
}

/// `n` times `v`.
pub fn filled(n: usize, v: u32) -> (r: Vec<u32>)
    ensures
        r@ == Seq::new(n as nat, |i: int| v),
{
    let mut r: Vec<u32> = Vec::new();
    for i in 0..n
        invariant
            r@ =~= Seq::new(i as nat, |k: int| v),
    {
        r.push(v);
    }
    r
}

/// Writes numbers from `at` on.
pub fn write_at(s: &mut [u32], at: usize, with: &[u32])
    requires
        at + with@.len() <= old(s)@.len(),
    ensures
        final(s)@ == spliced(old(s)@, at as int, with@),
{
    let len: usize = s.len();
    let n: usize = with.len();
    for i in 0..n
        invariant
            n == with@.len(),
            len == old(s)@.len(),
            at + n <= len,
            s@.len() == len,
            forall|k: int|
                0 <= k < len ==> #[trigger] s@[k] == if at <= k < at + i {
                    with@[k - at]
                } else {
                    old(s)@[k]
                },
    {
        s[at + i] = with[i];
    }
    assert(s@ =~= spliced(old(s)@, at as int, with@));
}

/// Writes numbers over a whole slice.
pub fn overwrite(s: &mut [u32], with: &[u32])
    requires
        old(s)@.len() == with@.len(),
    ensures
        final(s)@ == with@,
{
    write_at(s, 0, with);
    assert(s@ =~= with@);
}

/// Whether `n` is the product of three numbers.
pub fn is_product(n: usize, a: usize, b: usize, c: usize) -> (r: bool)
    ensures
        r == (n == a * b * c),
{
    match a.checked_mul(b) {
        None => {
            if c == 0 {
                assert(a * b * c == 0) by (nonlinear_arith)
                    requires
                        c == 0,
                ;
                n == 0
            } else {
                assert(a * b * c >= a * b) by (nonlinear_arith)
                    requires
                        c >= 1,
                        a * b >= 0,
                ;
                false
            }
        },
        Some(ab) => {
            match ab.checked_mul(c) {
                None => false,
                Some(abc) => n == abc,
            }
        },
    }
}

} // verus!
