//! Byte counts for people, and how much memory a context takes.

use crate::float::rounding;
use crate::kvcache::dsv4::shape::{
    DSV4_HEAD_DIM, DSV4_N_INDEXER_HEAD, DSV4_N_INDEXER_HEAD_DIM, DSV4_N_LAYER, DSV4_N_SWA,
};
use crate::text;
use crate::text::{decimal_of, wrapped};
use vstd::prelude::*;

verus! {

/// The least power of two times `unit` of which fewer than 2^53 make `n`.
pub open spec fn spacing(n: nat, unit: nat) -> nat
    decreases n - unit,
{
    if unit == 0 || n < 0x20_0000_0000_0000 * unit {
        unit
    } else {
        spacing(n, 2 * unit)
    }
}

/// A count in double precision: 53 significant bits, the nearest such number,
/// the even one of two that are as near.
pub open spec fn in_double(n: nat) -> nat {
    rounding::nearest_even(n, spacing(n, 1)) * spacing(n, 1)
}

/// The name of a unit, and its size in bytes: the largest that the count
/// reaches.
pub open spec fn unit_of(n: nat) -> (Seq<char>, nat) {
    if n < 0x400 {
        ("B"@, 1)
    } else if n < 0x10_0000 {
        ("KiB"@, 0x400)
    } else if n < 0x4000_0000 {
        ("MiB"@, 0x10_0000)
    } else if n < 0x100_0000_0000 {
        ("GiB"@, 0x4000_0000)
    } else {
        ("TiB"@, 0x100_0000_0000)
    }
}

/// A number of hundredths with two digits after the point.
pub open spec fn two_places(h: nat) -> Seq<char> {
    text::decimal(h / 100).push('.').push(text::digit(h % 100 / 10)).push(text::digit(h % 10))
}

/// A byte count in the largest unit that it reaches: as it is in bytes, and to
/// the nearest hundredth in any other unit.
pub open spec fn bytes_text(bytes: nat) -> Seq<char> {
    let n = in_double(bytes);
    let unit = unit_of(n);
    if unit.1 == 1 {
        text::decimal(bytes) + " "@ + "B"@
    } else {
        two_places(rounding::nearest_even(n * 100, unit.1)) + " "@ + unit.0
    }
}

/// The quotient nearest to `num / den`.
fn nearest(num: u128, den: u128) -> (q: u128)
    requires
        0 < den <= 0x100_0000_0000,
        num < 0x100_0000_0000_0000_0000_0000,
    ensures
        q == rounding::nearest_even(num as nat, den as nat),
        q <= num / den + 1,
{
    let floor: u128 = num / den;
    let rest: u128 = num % den;
    proof {
        assert(floor <= num) by (nonlinear_arith)
            requires
                floor == num / den,
                den > 0,
        ;
        assert(0 <= rest < den) by (nonlinear_arith)
            requires
                rest == num % den,
                den > 0,
        ;
    }
    if 2 * rest > den || (2 * rest == den && floor % 2 == 1) {
        floor + 1
    } else {
        floor
    }
}

/// A count in double precision.
fn double(n: u64) -> (r: u128)
    ensures
        r == in_double(n as nat),
        r < 0x2_0000_0000_0000_0000,
{
    let mut unit: u128 = 1;
    let whole: u128 = n as u128;
    while whole >= 0x20_0000_0000_0000 * unit
        invariant
            whole == n,
            1 <= unit < 0x1000,
            spacing(n as nat, 1) == spacing(n as nat, unit as nat),
        decreases 0x1000 - unit,
    {
        unit = 2 * unit;
    }
    let q: u128 = nearest(whole, unit);
    proof {
        assert(q * unit < 0x2_0000_0000_0000_0000) by (nonlinear_arith)
            requires
                q <= whole / unit + 1,
                1 <= unit < 0x1000,
                whole < 0x1_0000_0000_0000_0000,
        ;
        assert(q * unit == rounding::nearest_even(n as nat, spacing(n as nat, 1)) * spacing(
            n as nat,
            1,
        ));
    }
    q * unit
}

/// A number of hundredths with two digits after the point.
fn hundredths(h: u64) -> (s: String)
    ensures
        s@ == two_places(h as nat),
{
    let digits: &str = "0123456789";
    proof {
        reveal_strlit("0123456789");
        reveal_strlit(".");
    }
    let mut s: String = decimal_of(h / 100);
    let tens: usize = (h % 100 / 10) as usize;
    let ones: usize = (h % 10) as usize;
    let ghost whole = s@;
    s.append(".");
    s.append(digits.substring_char(tens, tens + 1));
    s.append(digits.substring_char(ones, ones + 1));
    assert(s@ =~= two_places(h as nat));
    s
}

/// A byte count for people, in binary units.
pub fn format_bytes(bytes: u64) -> (s: String)
    ensures
        s@ == bytes_text(bytes as nat),
{
    let n: u128 = double(bytes);
    if n < 0x400 {
        let digits: String = decimal_of(bytes);
        return wrapped(digits.as_str(), " ", "B");
    }
    let (name, size): (&str, u128) = if n < 0x10_0000 {
        ("KiB", 0x400)
    } else if n < 0x4000_0000 {
        ("MiB", 0x10_0000)
    } else if n < 0x100_0000_0000 {
        ("GiB", 0x4000_0000)
    } else {
        ("TiB", 0x100_0000_0000)
    };
    let h: u128 = nearest(n * 100, size);
    proof {
        assert(h < 0x1_0000_0000_0000_0000) by (nonlinear_arith)
            requires
                h <= (n * 100) / size as int + 1,
                size >= 0x400,
                n < 0x2_0000_0000_0000_0000,
        ;
    }
    let shown: String = hundredths(h as u64);
    wrapped(shown.as_str(), " ", name)
}

/// How many layers keep an index.
pub const INDEXED_LAYERS: u64 = 21;

/// How much memory a context takes, in bytes.
#[derive(Debug, Clone, Copy, PartialEq, Eq, Structural)]
pub struct KvEstimate {
    /// The windows of the latest tokens.
    pub raw: u64,
    /// The compressed rows.
    pub compressed: u64,
    /// The index rows.
    pub indexer: u64,
    /// All of it.
    pub total: u64,
}

/// Bytes of the windows: single precision rows, one window a layer.
pub open spec fn raw_bytes() -> nat {
    (DSV4_N_LAYER * DSV4_N_SWA * DSV4_HEAD_DIM * 4) as nat
}

/// Bytes of the compressed rows: a third of the context and two more a layer.
pub open spec fn compressed_bytes(ctx_size: nat) -> nat {
    (DSV4_N_LAYER * (ctx_size / 3 + 2) * DSV4_HEAD_DIM * 4) as nat
}

/// Bytes of the index rows: a quarter of the context and two more an indexed
/// layer.
pub open spec fn indexer_bytes(ctx_size: nat) -> nat {
    (INDEXED_LAYERS * (ctx_size / 4 + 2) * DSV4_N_INDEXER_HEAD_DIM * DSV4_N_INDEXER_HEAD * 4) as nat
}

/// Bytes of a context.
pub open spec fn context_bytes(ctx_size: nat) -> nat {
    raw_bytes() + compressed_bytes(ctx_size) + indexer_bytes(ctx_size)
}

/// How much memory a context takes; `None` where the bytes cannot be counted.
pub fn kv_breakdown(ctx_size: usize) -> (r: Option<KvEstimate>)
    ensures
        r == (if context_bytes(ctx_size as nat) <= u64::MAX {
            Some(
                KvEstimate {
                    raw: raw_bytes() as u64,
                    compressed: compressed_bytes(ctx_size as nat) as u64,
                    indexer: indexer_bytes(ctx_size as nat) as u64,
                    total: context_bytes(ctx_size as nat) as u64,
                },
            )
        } else {
            None
        }),
{
    let tokens: u64 = ctx_size as u64;
    let ctx: u128 = tokens as u128;
    let raw: u128 = 43 * 128 * 512 * 4;
    let row: u128 = 43 * 512 * 4;
    let index_row: u128 = 21 * 128 * 64 * 4;
    assert(row == 88_064 && index_row == 688_128);
    let third: u128 = ctx / 3 + 2;
    let quarter: u128 = ctx / 4 + 2;
    let compressed: u128 = row * third;
    let indexer: u128 = index_row * quarter;
    let total: u128 = raw + compressed + indexer;
    proof {
        assert(compressed == compressed_bytes(ctx_size as nat));
        assert(indexer == indexer_bytes(ctx_size as nat));
    }
    if total > u64::MAX as u128 {
        return None;
    }
    Some(
        KvEstimate {
            raw: raw as u64,
            compressed: compressed as u64,
            indexer: indexer as u64,
            total: total as u64,
        },
    )
}

/// A larger context takes no less memory.
pub proof fn law_larger_context_takes_more(a: nat, b: nat)
    requires
        a <= b,
    ensures
        context_bytes(a) <= context_bytes(b),
{
    assert(compressed_bytes(a) <= compressed_bytes(b)) by (nonlinear_arith)
        requires
            a <= b,
    ;
    assert(indexer_bytes(a) <= indexer_bytes(b)) by (nonlinear_arith)
        requires
            a <= b,
    ;
}

/// A count of at most 2^53 is shown from its exact value.
pub proof fn law_small_counts_are_exact(n: nat)
    requires
        n <= 0x20_0000_0000_0000,
    ensures
        in_double(n) == n,
{
    if n < 0x20_0000_0000_0000 {
        assert(spacing(n, 1) == 1);
        assert(n / 1 == n && n % 1 == 0);
    } else {
        assert(spacing(n, 2) == 2);
        assert(spacing(n, 1) == 2);
    }
}

/// Twelve more tokens take four more rows of 512 numbers in each of 43 layers,
/// and three more rows of 64 heads of 128 numbers in each of 21.
pub proof fn law_twelve_more_tokens(ctx_size: nat)
    ensures
        compressed_bytes(ctx_size + 12) == compressed_bytes(ctx_size) + 43 * 4 * 512 * 4,
        indexer_bytes(ctx_size + 12) == indexer_bytes(ctx_size) + 21 * 3 * 64 * 128 * 4,
        context_bytes(ctx_size + 12) == context_bytes(ctx_size) + 43 * 4 * 512 * 4 + 21 * 3 * 64
            * 128 * 4,
{
    assert((ctx_size + 12) / 3 == ctx_size / 3 + 4);
    assert((ctx_size + 12) / 4 == ctx_size / 4 + 3);
}

/// A window of 128 rows of 512 numbers in each of 43 layers is there in any
/// context, and two rows more in every pool.
pub proof fn law_least_context(ctx_size: nat)
    ensures
        raw_bytes() == 43 * 128 * 512 * 4,
        compressed_bytes(ctx_size) == 43 * (ctx_size / 3 + 2) * 512 * 4,
        indexer_bytes(ctx_size) == 21 * (ctx_size / 4 + 2) * 64 * 128 * 4,
        context_bytes(ctx_size) == raw_bytes() + compressed_bytes(ctx_size) + indexer_bytes(
            ctx_size,
        ),
{
}

/// A count is shown in the largest unit that it reaches, to the nearest
/// hundredth of it.
pub proof fn law_units(n: nat) -> (h: nat)
    requires
        0x400 <= n < 0x20_0000_0000_0000,
    ensures
        ({
            let (name, unit) = unit_of(n);
            &&& name == "KiB"@ && unit == 1024 || name == "MiB"@ && unit == 1024 * 1024 || name
                == "GiB"@ && unit == 1024 * 1024 * 1024 || name == "TiB"@ && unit == 1024 * 1024
                * 1024 * 1024
            &&& unit <= n
            &&& n < 1024 * unit || name == "TiB"@
            &&& 2 * (h * unit - 100 * n) <= unit
            &&& 2 * (100 * n - h * unit) <= unit
            &&& bytes_text(n) == text::decimal(h / 100) + seq!['.', text::digit(h / 10 % 10)] + seq![
                text::digit(h % 10),
            ] + " "@ + name
        }),
{
    law_small_counts_are_exact(n);
    let (name, unit) = unit_of(n);
    let h = rounding::nearest_even(n * 100, unit);
    let q = n * 100 / unit;
    vstd::arithmetic::div_mod::lemma_fundamental_div_mod((n * 100) as int, unit as int);
    assert((q + 1) * unit == q * unit + unit) by (nonlinear_arith);
    assert(unit * q == q * unit) by (nonlinear_arith);
    assert(h % 100 / 10 == h / 10 % 10);
    assert(two_places(h) =~= text::decimal(h / 100) + seq!['.', text::digit(h / 10 % 10)] + seq![
        text::digit(h % 10),
    ]);
    h
}

} // verus!
