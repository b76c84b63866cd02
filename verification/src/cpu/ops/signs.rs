//! What the Hadamard transform is: sums with signs.

use crate::cpu::ops::hadamard;
use vstd::arithmetic::div_mod::*;
use vstd::prelude::*;

verus! {

/// Whether the binary digit at `h` is one in both numbers.
pub open spec fn both(i: int, k: int, h: int) -> int {
    if (i / h) % 2 == 1 && (k / h) % 2 == 1 {
        1
    } else {
        0
    }
}

/// How many binary digits are one in both of two numbers below 128.
pub open spec fn common(i: int, k: int) -> int {
    both(i, k, 1) + both(i, k, 2) + both(i, k, 4) + both(i, k, 8) + both(i, k, 16) + both(i, k, 32)
        + both(i, k, 64)
}

/// The sum of the first `n` numbers, each taken off where its index has an odd
/// number of binary digits in common with `k`.
pub open spec fn signed_sum(x: Seq<int>, k: int, n: nat) -> int
    decreases n,
{
    if n == 0 {
        0
    } else {
        signed_sum(x, k, (n - 1) as nat) + if common(n - 1, k) % 2 == 0 {
            x[n - 1]
        } else {
            -x[n - 1]
        }
    }
}

/// The sign from the binary digits at `h` and above.
spec fn sign_from(i: int, k: int, h: int) -> int
    decreases 128 - h,
{
    if h <= 0 || h > 64 {
        1
    } else if both(i, k, h) == 1 {
        -sign_from(i, k, 2 * h)
    } else {
        sign_from(i, k, 2 * h)
    }
}

/// One number `v` at `j`, else zeros.
spec fn unit(j: int, v: int) -> Seq<int> {
    Seq::new(128, |i: int| if i == j { v } else { 0 })
}

spec fn plus(a: Seq<int>, b: Seq<int>) -> Seq<int> {
    Seq::new(128, |i: int| a[i] + b[i])
}

proof fn lemma_plus(a: Seq<int>, b: Seq<int>, h: int)
    requires
        a.len() == 128,
        b.len() == 128,
        hadamard::is_stride(h) || h == 128,
    ensures
        hadamard::stages(plus(a, b), h) == plus(hadamard::stages(a, h), hadamard::stages(b, h)),
        hadamard::stages(a, h).len() == 128,
    decreases 128 - h,
{
    if h <= 64 {
        let (c, d) = (hadamard::spread(a, h), hadamard::spread(b, h));
        assert forall|i: int| 0 <= i < 128 implies #[trigger] hadamard::spread(plus(a, b), h)[i]
            == c[i] + d[i] by {
            hadamard::lemma_partner(i, h);
        }
        assert(hadamard::spread(plus(a, b), h) =~= plus(c, d));
        lemma_plus(c, d, 2 * h);
    } else {
        assert(plus(a, b) =~= plus(hadamard::stages(a, h), hadamard::stages(b, h)));
    }
}

/// A stage on a single number.
proof fn lemma_spread_unit(j: int, v: int, h: int)
    requires
        0 <= j < 128,
        hadamard::is_stride(h),
    ensures
        (j / h) % 2 == 0 ==> hadamard::spread(unit(j, v), h) == plus(unit(j, v), unit(j + h, v)),
        (j / h) % 2 != 0 ==> hadamard::spread(unit(j, v), h) == plus(unit(j - h, v), unit(j, -v)),
{
    let y = hadamard::spread(unit(j, v), h);
    hadamard::lemma_partner(j, h);
    let z = if (j / h) % 2 == 0 {
        plus(unit(j, v), unit(j + h, v))
    } else {
        plus(unit(j - h, v), unit(j, -v))
    };
    assert forall|i: int| 0 <= i < 128 implies #[trigger] y[i] == z[i] by {
        hadamard::lemma_partner(i, h);
    }
    assert(y =~= z);
}

/// The higher digits decide alone.
proof fn lemma_same_sign(i: int, j: int, k: int, h: int)
    requires
        hadamard::is_stride(h) || h == 128,
        forall|g: int|
            hadamard::is_stride(g) && g >= h ==> (#[trigger] (i / g)) % 2 == (j / g) % 2,
    ensures
        sign_from(i, k, h) == sign_from(j, k, h),
    decreases 128 - h,
{
    if h <= 64 {
        assert((i / h) % 2 == (j / h) % 2);
        lemma_same_sign(i, j, k, 2 * h);
    }
}

proof fn lemma_partner_sign(j: int, k: int, h: int)
    requires
        0 <= j < 128,
        hadamard::is_stride(h),
    ensures
        (j / h) % 2 == 0 ==> sign_from(j + h, k, 2 * h) == sign_from(j, k, 2 * h),
        (j / h) % 2 != 0 ==> sign_from(j - h, k, 2 * h) == sign_from(j, k, 2 * h),
{
    assert forall|g: int| hadamard::is_stride(g) && g >= 2 * h implies {
        &&& (j / h) % 2 == 0 ==> (#[trigger] ((j + h) / g)) % 2 == (j / g) % 2
        &&& (j / h) % 2 != 0 ==> ((j - h) / g) % 2 == (j / g) % 2
    } by {
        hadamard::lemma_sides(j, h, g);
    }
    if (j / h) % 2 == 0 {
        lemma_same_sign(j + h, j, k, 2 * h);
    } else {
        assert forall|g: int| hadamard::is_stride(g) && g >= 2 * h implies (#[trigger] ((j - h)
            / g)) % 2 == (j / g) % 2 by {
            hadamard::lemma_sides(j, h, g);
        }
        lemma_same_sign(j - h, j, k, 2 * h);
    }
}

/// Two numbers end alike up to a digit where they end alike below it and have it
/// in common.
proof fn lemma_ends(j: int, k: int, h: int)
    requires
        0 <= j < 128,
        0 <= k < 128,
        hadamard::is_stride(h),
    ensures
        j % (2 * h) == k % (2 * h) <==> j % h == k % h && (j / h) % 2 == (k / h) % 2,
        (j / h) % 2 == 0 ==> (j + h < 128 && (j + h) % h == j % h && ((j + h) / h) % 2 == 1),
        (j / h) % 2 != 0 ==> (j >= h && (j - h) % h == j % h && ((j - h) / h) % 2 == 0),
{
    lemma_mod_breakdown(j, h, 2);
    lemma_mod_breakdown(k, h, 2);
    assert(h * 2 == 2 * h);
    let (a, b) = ((j / h) % 2, (k / h) % 2);
    assert(a == 0 ==> h * a == 0) by (nonlinear_arith);
    assert(a == 1 ==> h * a == h) by (nonlinear_arith);
    assert(b == 0 ==> h * b == 0) by (nonlinear_arith);
    assert(b == 1 ==> h * b == h) by (nonlinear_arith);
    hadamard::lemma_partner(j, h);
    lemma_mod_add_multiples_vanish(j, h);
    lemma_mod_sub_multiples_vanish(j, h);
}

/// The stages from stride `h` on, of a single number.
proof fn lemma_unit(j: int, v: int, k: int, h: int)
    requires
        0 <= j < 128,
        0 <= k < 128,
        hadamard::is_stride(h) || h == 128,
    ensures
        hadamard::stages(unit(j, v), h)[k] == if j % h != k % h {
            0
        } else if sign_from(j, k, h) == 1 {
            v
        } else {
            -v
        },
        sign_from(j, k, h) == 1 || sign_from(j, k, h) == -1,
    decreases 128 - h,
{
    if h <= 64 {
        lemma_spread_unit(j, v, h);
        lemma_partner_sign(j, k, h);
        lemma_ends(j, k, h);
        if (j / h) % 2 == 0 {
            lemma_ends(j + h, k, h);
            lemma_plus(unit(j, v), unit(j + h, v), 2 * h);
            lemma_unit(j, v, k, 2 * h);
            lemma_unit(j + h, v, k, 2 * h);
        } else {
            lemma_ends(j - h, k, h);
            lemma_plus(unit(j - h, v), unit(j, -v), 2 * h);
            lemma_unit(j - h, v, k, 2 * h);
            lemma_unit(j, -v, k, 2 * h);
        }
    } else {
        assert(j % 128 == j && k % 128 == k);
    }
}

proof fn lemma_sign_is_parity(i: int, k: int)
    ensures
        sign_from(i, k, 1) == if common(i, k) % 2 == 0 {
            1int
        } else {
            -1
        },
{
    reveal_with_fuel(sign_from, 8);
}

/// The first `n` numbers, then zeros.
spec fn first(x: Seq<int>, n: nat) -> Seq<int> {
    Seq::new(128, |i: int| if i < n { x[i] } else { 0 })
}

proof fn lemma_first(x: Seq<int>, k: int, n: nat)
    requires
        0 <= k < 128,
        n <= 128,
    ensures
        hadamard::stages(first(x, n), 1)[k] == signed_sum(x, k, n),
    decreases n,
{
    if n == 0 {
        lemma_unit(0, 0, k, 1);
        assert(first(x, 0) =~= unit(0, 0));
    } else {
        let (a, b) = (first(x, (n - 1) as nat), unit(n - 1, x[n - 1]));
        lemma_first(x, k, (n - 1) as nat);
        lemma_unit(n - 1, x[n - 1], k, 1);
        lemma_sign_is_parity(n - 1, k);
        lemma_plus(a, b, 1);
        assert(first(x, n) =~= plus(a, b));
    }
}

/// Result `k` of the exact transform is the sum of all numbers, each taken off
/// where its index and `k` have an odd number of binary digits in common.
pub proof fn law_transform_is_a_signed_sum(x: Seq<int>, k: int)
    requires
        x.len() == 128,
        0 <= k < 128,
    ensures
        hadamard::stages(x, 1)[k] == signed_sum(x, k, 128),
{
    lemma_first(x, k, 128);
    assert(first(x, 128) =~= x);
}

} // verus!
