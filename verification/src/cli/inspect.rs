//! A summary of the tensors of a model.

use crate::cli::info;
use crate::cli::info::format_bytes;
use crate::gguf::tensor;
use crate::gguf::tensor::{TensorInfo, TensorView};
use crate::text;
use crate::text::decimal_of;
use std::collections::BTreeMap;
use vstd::prelude::*;
use vstd::std_specs::cmp::OrdSpec;
use vstd::std_specs::iter::IteratorSpec;

verus! {

/// The metadata that a summary starts with.
pub fn summary_keys() -> (keys: [&'static str; 12])
    ensures
        keys@ == seq![
            "general.architecture",
            "general.name",
            "general.quantization_version",
            "deepseek.block_count",
            "deepseek.embedding_length",
            "deepseek.feed_forward_length",
            "deepseek.attention.head_count",
            "deepseek.attention.head_count_kv",
            "deepseek.attention.key_length",
            "deepseek.attention.value_length",
            "deepseek.expert_count",
            "deepseek.expert_used_count",
        ],
{
    [
        "general.architecture",
        "general.name",
        "general.quantization_version",
        "deepseek.block_count",
        "deepseek.embedding_length",
        "deepseek.feed_forward_length",
        "deepseek.attention.head_count",
        "deepseek.attention.head_count_kv",
        "deepseek.attention.key_length",
        "deepseek.attention.value_length",
        "deepseek.expert_count",
        "deepseek.expert_used_count",
    ]
}

/// The tensors of one type.
#[derive(Debug, Clone, Copy, PartialEq, Eq, Structural)]
pub struct TypeShare {
    /// Code of the type.
    pub raw_type: u32,
    /// How many tensors are of it.
    pub count: usize,
    /// How many bytes they take, as far as that is known and can be counted.
    pub bytes: u64,
}

/// How many tensors are of a type.
pub open spec fn count_of(tensors: Seq<TensorView>, raw_type: u32) -> nat
    decreases tensors.len(),
{
    if tensors.len() == 0 {
        0
    } else {
        count_of(tensors.drop_last(), raw_type) + if tensors.last().raw_type == raw_type {
            1nat
        } else {
            0
        }
    }
}

/// The known bytes of a tensor.
pub open spec fn known_bytes(t: TensorView) -> nat {
    match t.byte_size {
        Some(n) => n as nat,
        None => 0,
    }
}

/// How many bytes the tensors of a type take, as far as that is known.
pub open spec fn bytes_of(tensors: Seq<TensorView>, raw_type: u32) -> nat
    decreases tensors.len(),
{
    if tensors.len() == 0 {
        0
    } else {
        bytes_of(tensors.drop_last(), raw_type) + if tensors.last().raw_type == raw_type {
            known_bytes(tensors.last())
        } else {
            0
        }
    }
}

/// At most the largest count of bytes.
pub open spec fn capped(n: nat) -> nat {
    if n <= u64::MAX {
        n
    } else {
        u64::MAX as nat
    }
}

/// Whether a share says what there is of its type.
pub open spec fn is_share(s: TypeShare, tensors: Seq<TensorView>) -> bool {
    &&& s.count > 0
    &&& s.count == count_of(tensors, s.raw_type)
    &&& s.bytes == capped(bytes_of(tensors, s.raw_type))
}

/// Whether shares are sorted by type.
pub open spec fn ascending(d: Seq<TypeShare>) -> bool {
    forall|i: int, j: int|
        0 <= i < j < d.len() ==> (#[trigger] d[i]).raw_type < (#[trigger] d[j]).raw_type
}

/// Whether a type has a share.
pub open spec fn has_type(d: Seq<TypeShare>, raw_type: u32) -> bool {
    exists|i: int| 0 <= i < d.len() && (#[trigger] d[i]).raw_type == raw_type
}

/// Whether shares say what there is of each type: one for each type that
/// occurs, in the order of the types.
pub open spec fn is_distribution(d: Seq<TypeShare>, tensors: Seq<TensorView>) -> bool {
    &&& ascending(d)
    &&& forall|i: int| 0 <= i < d.len() ==> is_share(#[trigger] d[i], tensors)
    &&& forall|rt: u32| #[trigger] count_of(tensors, rt) > 0 ==> has_type(d, rt)
}

proof fn lemma_count_bound(tensors: Seq<TensorView>, raw_type: u32)
    ensures
        count_of(tensors, raw_type) <= tensors.len(),
        count_of(tensors, raw_type) == 0 ==> bytes_of(tensors, raw_type) == 0,
    decreases tensors.len(),
{
    if tensors.len() > 0 {
        lemma_count_bound(tensors.drop_last(), raw_type);
    }
}

/// Whether a table says, under each type that occurs, what there is of it.
pub open spec fn tallies(table: Map<u32, (usize, u64)>, tensors: Seq<TensorView>) -> bool {
    &&& forall|rt: u32| #[trigger] table.contains_key(rt) <==> count_of(tensors, rt) > 0
    &&& forall|rt: u32| #[trigger]
        table.contains_key(rt) ==> table[rt].0 == count_of(tensors, rt) && table[rt].1 == capped(
            bytes_of(tensors, rt),
        )
}

/// One tensor more.
proof fn lemma_one_more(seen: Seq<TensorView>, t: TensorView, rt: u32)
    ensures
        count_of(seen.push(t), rt) == count_of(seen, rt) + if t.raw_type == rt {
            1nat
        } else {
            0
        },
        bytes_of(seen.push(t), rt) == bytes_of(seen, rt) + if t.raw_type == rt {
            known_bytes(t)
        } else {
            0
        },
{
    assert(seen.push(t).drop_last() =~= seen);
}

/// What there is of each type, by type.
fn tally(tensors: &[TensorInfo]) -> (table: BTreeMap<u32, (usize, u64)>)
    ensures
        tallies(table@, tensor::views(tensors@)),
{
    broadcast use vstd::std_specs::btree::group_btree_axioms;

    let n: usize = tensors.len();
    let mut table: BTreeMap<u32, (usize, u64)> = BTreeMap::new();
    let ghost all = tensor::views(tensors@);
    assert(all.take(0) =~= Seq::<TensorView>::empty());
    for i in 0..n
        invariant
            n == tensors@.len(),
            all == tensor::views(tensors@),
            tallies(table@, all.take(i as int)),
    {
        let raw_type: u32 = tensors[i].raw_type;
        let more: u64 = match tensors[i].byte_size {
            Some(bytes) => bytes,
            None => 0,
        };
        let ghost seen = all.take(i as int);
        proof {
            assert(seen.push(all[i as int]) =~= all.take(i + 1));
            lemma_count_bound(seen, raw_type);
        }
        let (count, bytes): (usize, u64) = match table.get(&raw_type) {
            Some(entry) => *entry,
            None => (0, 0),
        };
        table.insert(raw_type, (count + 1, bytes.saturating_add(more)));
        proof {
            assert forall|rt: u32| #[trigger] table@.contains_key(rt) <==> count_of(
                all.take(i + 1),
                rt,
            ) > 0 by {
                lemma_one_more(seen, all[i as int], rt);
            }
            assert forall|rt: u32| #[trigger] table@.contains_key(rt) implies table@[rt].0
                == count_of(all.take(i + 1), rt) && table@[rt].1 == capped(
                bytes_of(all.take(i + 1), rt),
            ) by {
                lemma_one_more(seen, all[i as int], rt);
            }
        }
    }
    assert(all.take(n as int) =~= all);
    table
}

/// What there is of each type.
pub fn quant_distribution(tensors: &[TensorInfo]) -> (d: Vec<TypeShare>)
    ensures
        is_distribution(d@, tensor::views(tensors@)),
{
    broadcast use vstd::std_specs::btree::group_btree_axioms;

    let table: BTreeMap<u32, (usize, u64)> = tally(tensors);
    let entries = table.iter();
    let ghost pairs = IteratorSpec::remaining(&entries);
    let ghost keys = pairs.map_values(|kv: (&u32, &(usize, u64))| *kv.0);
    assert(vstd::std_specs::btree::increasing_seq(keys));
    let mut d: Vec<TypeShare> = Vec::new();
    for entry in it: entries
        invariant
            it.seq() == pairs,
            d@.len() == it.index(),
            forall|k: int|
                0 <= k < d@.len() ==> #[trigger] d@[k] == (TypeShare {
                    raw_type: *pairs[k].0,
                    count: pairs[k].1.0,
                    bytes: pairs[k].1.1,
                }),
    {
        d.push(TypeShare { raw_type: *entry.0, count: entry.1.0, bytes: entry.1.1 });
    }
    proof {
        let all = tensor::views(tensors@);
        assert forall|i: int, j: int| 0 <= i < j < d@.len() implies (#[trigger] d@[i]).raw_type < (
        #[trigger] d@[j]).raw_type by {
            assert(keys[i] == d@[i].raw_type && keys[j] == d@[j].raw_type);
            assert(keys[i].cmp_spec(&keys[j]) is Less);
        }
        assert forall|i: int| 0 <= i < d@.len() implies is_share(#[trigger] d@[i], all) by {
            assert(table@.contains_key(*pairs[i].0));
        }
        assert forall|rt: u32| #[trigger] count_of(all, rt) > 0 implies has_type(d@, rt) by {
            assert(table@.contains_key(rt));
            assert(pairs.contains((&rt, &table@[rt])));
            let i = pairs.index_of((&rt, &table@[rt]));
            assert(d@[i].raw_type == rt);
        }
    }
    d
}

/// Dimensions with a times sign between them.
pub open spec fn shape_shown(shape: Seq<u64>) -> Seq<char>
    decreases shape.len(),
{
    if shape.len() == 0 {
        Seq::empty()
    } else if shape.len() == 1 {
        text::decimal(shape[0] as nat)
    } else {
        shape_shown(shape.drop_last()) + " × "@ + text::decimal(shape.last() as nat)
    }
}

/// Dimensions with a times sign between them.
pub fn shape_text(shape: &[u64]) -> (s: String)
    ensures
        s@ == shape_shown(shape@),
{
    let n: usize = shape.len();
    let mut s: String = String::new();
    let mut i: usize = 0;
    assert(shape@.take(0) =~= Seq::<u64>::empty());
    assert(s@ =~= Seq::<char>::empty());
    while i < n
        invariant
            n == shape@.len(),
            i <= n,
            s@ == shape_shown(shape@.take(i as int)),
        decreases n - i,
    {
        let digits: String = decimal_of(shape[i]);
        let ghost before = s@;
        proof {
            assert(shape@.take(i + 1).drop_last() =~= shape@.take(i as int));
        }
        if i > 0 {
            s.append(" × ");
        }
        s.append(digits.as_str());
        assert(i == 0 ==> before + digits@ =~= digits@);
        i = i + 1;
    }
    assert(shape@.take(n as int) =~= shape@);
    s
}

/// A size in bytes, if it is known.
pub fn size_text(size: Option<u64>) -> (s: String)
    ensures
        s@ == match size {
            Some(n) => info::bytes_text(n as nat),
            None => "?"@,
        },
{
    match size {
        Some(n) => format_bytes(n),
        None => "?".to_owned(),
    }
}

/// Only one list of shares says what there is of each type.
pub proof fn law_distribution_is_unique(
    a: Seq<TypeShare>,
    b: Seq<TypeShare>,
    tensors: Seq<TensorView>,
)
    requires
        is_distribution(a, tensors),
        is_distribution(b, tensors),
    ensures
        a == b,
{
    lemma_same_start(a, b, tensors, a.len());
    lemma_same_start(b, a, tensors, b.len());
    assert(a =~= b);
}

proof fn lemma_same_start(
    a: Seq<TypeShare>,
    b: Seq<TypeShare>,
    tensors: Seq<TensorView>,
    k: nat,
)
    requires
        is_distribution(a, tensors),
        is_distribution(b, tensors),
        k <= a.len(),
    ensures
        k <= b.len(),
        forall|i: int| 0 <= i < k ==> #[trigger] a[i] == b[i],
    decreases k,
{
    if k > 0 {
        lemma_same_start(a, b, tensors, (k - 1) as nat);
        let x = a[k - 1];
        assert(is_share(x, tensors));
        assert(has_type(b, x.raw_type));
        let j = choose|j: int| 0 <= j < b.len() && (#[trigger] b[j]).raw_type == x.raw_type;
        if j < k - 1 {
            assert(a[j] == b[j]);
            assert(a[j].raw_type < x.raw_type);
        }
        let y = b[k - 1];
        assert(is_share(y, tensors));
        assert(has_type(a, y.raw_type));
        let m = choose|m: int| 0 <= m < a.len() && (#[trigger] a[m]).raw_type == y.raw_type;
        if m < k - 1 {
            assert(a[m] == b[m]);
            assert(b[m].raw_type < y.raw_type);
        }
        if j > k - 1 {
            assert(y.raw_type < b[j].raw_type);
        }
        if m > k - 1 {
            assert(x.raw_type < a[m].raw_type);
        }
    }
}

/// How many tensors the first `n` shares count.
pub open spec fn counts(d: Seq<TypeShare>, n: nat) -> nat
    decreases n,
{
    if n == 0 {
        0
    } else {
        counts(d, (n - 1) as nat) + d[n - 1].count as nat
    }
}

/// How many bytes the first `n` shares count.
pub open spec fn sizes(d: Seq<TypeShare>, n: nat) -> nat
    decreases n,
{
    if n == 0 {
        0
    } else {
        sizes(d, (n - 1) as nat) + d[n - 1].bytes as nat
    }
}

/// The known bytes of all tensors.
pub open spec fn all_bytes(tensors: Seq<TensorView>) -> nat
    decreases tensors.len(),
{
    if tensors.len() == 0 {
        0
    } else {
        all_bytes(tensors.drop_last()) + known_bytes(tensors.last())
    }
}

/// What the first `n` types have, tensor by tensor.
spec fn held(d: Seq<TypeShare>, tensors: Seq<TensorView>, n: nat) -> (nat, nat)
    decreases n,
{
    if n == 0 {
        (0, 0)
    } else {
        let (c, b) = held(d, tensors, (n - 1) as nat);
        let rt = d[n - 1].raw_type;
        (c + count_of(tensors, rt), b + bytes_of(tensors, rt))
    }
}

/// A tensor counts once, under its type.
proof fn lemma_held_last(d: Seq<TypeShare>, tensors: Seq<TensorView>, n: nat)
    requires
        ascending(d),
        n <= d.len(),
        tensors.len() > 0,
    ensures
        ({
            let (c, b) = held(d, tensors.drop_last(), n);
            let t = tensors.last();
            held(d, tensors, n) == if exists|i: int|
                0 <= i < n && (#[trigger] d[i]).raw_type == t.raw_type {
                (c + 1, b + known_bytes(t))
            } else {
                (c, b)
            }
        }),
    decreases n,
{
    if n > 0 {
        lemma_held_last(d, tensors, (n - 1) as nat);
        let t = tensors.last();
        if d[n - 1].raw_type == t.raw_type {
            assert forall|i: int| 0 <= i < n - 1 implies (#[trigger] d[i]).raw_type
                != t.raw_type by {
            }
        }
    }
}

proof fn lemma_held_all(d: Seq<TypeShare>, tensors: Seq<TensorView>)
    requires
        ascending(d),
        forall|k: int|
            0 <= k < tensors.len() ==> has_type(d, (#[trigger] tensors[k]).raw_type),
    ensures
        held(d, tensors, d.len()) == (tensors.len(), all_bytes(tensors)),
    decreases tensors.len(),
{
    if tensors.len() == 0 {
        lemma_held_none(d, tensors, d.len());
    } else {
        let init = tensors.drop_last();
        assert forall|k: int| 0 <= k < init.len() implies has_type(
            d,
            (#[trigger] init[k]).raw_type,
        ) by {
            assert(init[k] == tensors[k]);
        }
        lemma_held_all(d, init);
        lemma_held_last(d, tensors, d.len());
        assert(has_type(d, tensors[tensors.len() - 1].raw_type));
    }
}

proof fn lemma_held_none(d: Seq<TypeShare>, tensors: Seq<TensorView>, n: nat)
    requires
        tensors.len() == 0,
    ensures
        held(d, tensors, n) == (0nat, 0nat),
    decreases n,
{
    if n > 0 {
        lemma_held_none(d, tensors, (n - 1) as nat);
    }
}

proof fn lemma_type_occurs(tensors: Seq<TensorView>, k: int)
    requires
        0 <= k < tensors.len(),
    ensures
        count_of(tensors, tensors[k].raw_type) > 0,
    decreases tensors.len(),
{
    if k < tensors.len() - 1 {
        assert(tensors.drop_last()[k] == tensors[k]);
        lemma_type_occurs(tensors.drop_last(), k);
    }
}

proof fn lemma_part_of_bytes(tensors: Seq<TensorView>, raw_type: u32)
    ensures
        bytes_of(tensors, raw_type) <= all_bytes(tensors),
    decreases tensors.len(),
{
    if tensors.len() > 0 {
        lemma_part_of_bytes(tensors.drop_last(), raw_type);
    }
}

proof fn lemma_shares_held(d: Seq<TypeShare>, tensors: Seq<TensorView>, n: nat)
    requires
        is_distribution(d, tensors),
        n <= d.len(),
    ensures
        counts(d, n) == held(d, tensors, n).0,
        all_bytes(tensors) <= u64::MAX ==> sizes(d, n) == held(d, tensors, n).1,
    decreases n,
{
    if n > 0 {
        lemma_shares_held(d, tensors, (n - 1) as nat);
        assert(is_share(d[n - 1], tensors));
        lemma_part_of_bytes(tensors, d[n - 1].raw_type);
    }
}

/// The shares of all types add up to all tensors, and their bytes to all known
/// bytes where these can be counted.
pub proof fn law_shares_add_up(d: Seq<TypeShare>, tensors: Seq<TensorView>)
    requires
        is_distribution(d, tensors),
    ensures
        counts(d, d.len()) == tensors.len(),
        all_bytes(tensors) <= u64::MAX ==> sizes(d, d.len()) == all_bytes(tensors),
{
    assert forall|k: int| 0 <= k < tensors.len() implies has_type(
        d,
        (#[trigger] tensors[k]).raw_type,
    ) by {
        lemma_type_occurs(tensors, k);
    }
    lemma_held_all(d, tensors);
    lemma_shares_held(d, tensors, d.len());
}

/// Dimensions are shown in turn: the first, a times sign and the others.
pub proof fn law_dimensions_in_turn(first: u64, others: Seq<u64>)
    requires
        others.len() > 0,
    ensures
        shape_shown(seq![first] + others) == text::decimal(first as nat) + " × "@ + shape_shown(
            others,
        ),
    decreases others.len(),
{
    let all = seq![first] + others;
    assert(all.drop_last() =~= seq![first] + others.drop_last());
    assert(all.last() == others.last());
    let sign = " × "@;
    let last = text::decimal(others.last() as nat);
    if others.len() == 1 {
        assert(others.drop_last() =~= seq![]);
        assert(seq![first] + others.drop_last() =~= seq![first]);
        assert(shape_shown(seq![first]) == text::decimal(first as nat));
    } else {
        law_dimensions_in_turn(first, others.drop_last());
        let start = text::decimal(first as nat);
        let middle = shape_shown(others.drop_last());
        assert((start + sign + middle) + sign + last =~= start + sign + (middle + sign + last));
    }
}

} // verus!
