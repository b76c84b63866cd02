//! A fingerprint of the tensor layout of a model.
//!
//! It is the SHA-256 digest of names, types and shapes, in the order of the
//! names. Neither the data nor its place in the file matter to it.

pub mod layout;

use crate::gguf::reader;
use crate::gguf::tensor;
use crate::gguf::tensor::{TensorInfo, TensorView};
use crate::text;
use vstd::prelude::*;
use vstd::utf8::*;

verus! {

/// A layout entry added where the order of the names wants it, behind those of
/// the same name.
pub open spec fn insert_by_name(sorted: Seq<TensorView>, t: TensorView) -> Seq<TensorView>
    decreases sorted.len(),
{
    if sorted.len() == 0 || !text::before(t.name, sorted.last().name) {
        sorted.push(t)
    } else {
        insert_by_name(sorted.drop_last(), t).push(sorted.last())
    }
}

/// Tensors in the order of their names; those of the same name stay in their
/// order.
pub open spec fn by_name(tensors: Seq<TensorView>) -> Seq<TensorView>
    decreases tensors.len(),
{
    if tensors.len() == 0 {
        Seq::empty()
    } else {
        insert_by_name(by_name(tensors.drop_last()), tensors.last())
    }
}

/// The bytes of dimensions.
pub open spec fn dims_bytes(shape: Seq<u64>) -> Seq<u8>
    decreases shape.len(),
{
    if shape.len() == 0 {
        Seq::empty()
    } else {
        dims_bytes(shape.drop_last()) + reader::le_bytes(shape.last() as nat, 8)
    }
}

/// The number of dimensions as it enters the fingerprint.
pub open spec fn rank_of(shape: Seq<u64>) -> nat {
    if shape.len() > u32::MAX {
        u32::MAX as nat
    } else {
        shape.len()
    }
}

/// The bytes of a tensor: its name, a zero, the code of its type, the number
/// of its dimensions, the dimensions, a zero.
pub open spec fn entry_bytes(t: TensorView) -> Seq<u8> {
    encode_utf8(t.name) + seq![0u8] + reader::le_bytes(t.raw_type as nat, 4) + reader::le_bytes(
        rank_of(t.shape),
        4,
    ) + dims_bytes(t.shape) + seq![0u8]
}

/// The bytes of tensors in a row.
pub open spec fn entries_bytes(tensors: Seq<TensorView>) -> Seq<u8>
    decreases tensors.len(),
{
    if tensors.len() == 0 {
        Seq::empty()
    } else {
        entries_bytes(tensors.drop_last()) + entry_bytes(tensors.last())
    }
}

/// The bytes that the fingerprint is the digest of.
pub open spec fn layout_bytes(tensors: Seq<TensorView>) -> Seq<u8> {
    entries_bytes(by_name(tensors))
}

/// The SHA-256 digest of bytes.
pub uninterp spec fn sha256_of(data: Seq<u8>) -> Seq<u8>;

/// `sha2::Sha256::digest`: the digest is a function of the bytes alone.
#[verifier::external_body]
fn sha256(data: &[u8]) -> (digest: [u8; 32])
    ensures
        digest@ == sha256_of(data@),
{
    <sha2::Sha256 as sha2::Digest>::digest(data).into()
}

/// Inserting by name is inserting before the first later name.
proof fn lemma_insert_at(sorted: Seq<TensorView>, t: TensorView, pos: int)
    requires
        0 <= pos <= sorted.len(),
        forall|j: int| pos <= j < sorted.len() ==> text::before(t.name, #[trigger] sorted[j].name),
        pos > 0 ==> !text::before(t.name, sorted[pos - 1].name),
    ensures
        insert_by_name(sorted, t) == sorted.insert(pos, t),
    decreases sorted.len(),
{
    if pos == sorted.len() {
        assert(sorted.insert(pos, t) =~= sorted.push(t));
    } else {
        let shorter = sorted.drop_last();
        assert(sorted[sorted.len() - 1] == sorted.last());
        lemma_insert_at(shorter, t, pos);
        assert(sorted.insert(pos, t) =~= shorter.insert(pos, t).push(sorted.last()));
    }
}

/// The little-endian bytes of a `u32`.
fn push_u32(out: &mut Vec<u8>, v: u32)
    ensures
        final(out)@ == old(out)@ + reader::le_bytes(v as nat, 4),
{
    proof {
        reveal_with_fuel(reader::le_bytes, 5);
    }
    out.push((v % 256) as u8);
    out.push((v / 256 % 256) as u8);
    out.push((v / 0x1_0000 % 256) as u8);
    out.push((v / 0x100_0000) as u8);
    assert(out@ =~= old(out)@ + reader::le_bytes(v as nat, 4));
}

/// The little-endian bytes of a `u64`.
fn push_u64(out: &mut Vec<u8>, v: u64)
    ensures
        final(out)@ == old(out)@ + reader::le_bytes(v as nat, 8),
{
    let mut rest: u64 = v;
    let mut i: u32 = 0;
    while i < 8
        invariant
            i <= 8,
            old(out)@ + reader::le_bytes(v as nat, 8) == out@ + reader::le_bytes(
                rest as nat,
                (8 - i) as nat,
            ),
        decreases 8 - i,
    {
        let ghost before = out@;
        out.push((rest % 256) as u8);
        assert(before + reader::le_bytes(rest as nat, (8 - i) as nat) =~= out@ + reader::le_bytes(
            rest as nat / 256,
            (7 - i) as nat,
        ));
        rest = rest / 256;
        i = i + 1;
    }
    assert(out@ + reader::le_bytes(rest as nat, 0) =~= out@);
}

/// Bytes added at the end.
fn push_all(out: &mut Vec<u8>, bytes: &[u8])
    ensures
        final(out)@ == old(out)@ + bytes@,
{
    let mut i: usize = 0;
    assert(old(out)@ + bytes@.take(0) =~= old(out)@);
    while i < bytes.len()
        invariant
            i <= bytes.len(),
            out@ == old(out)@ + bytes@.take(i as int),
        decreases bytes.len() - i,
    {
        out.push(bytes[i]);
        assert(bytes@.take(i + 1) =~= bytes@.take(i as int).push(bytes@[i as int]));
        i = i + 1;
    }
    assert(bytes@.take(i as int) =~= bytes@);
}

/// The bytes of one tensor added at the end.
fn push_entry(out: &mut Vec<u8>, t: &TensorInfo)
    ensures
        final(out)@ == old(out)@ + entry_bytes(t@),
{
    push_all(out, t.name.as_str().as_bytes());
    out.push(0);
    push_u32(out, t.raw_type);
    let rank: u32 = if t.shape.len() > u32::MAX as usize {
        u32::MAX
    } else {
        t.shape.len() as u32
    };
    push_u32(out, rank);
    let ghost head = out@;
    let mut i: usize = 0;
    assert(t.shape@.take(0) =~= Seq::empty());
    assert(head + dims_bytes(t.shape@.take(0)) =~= head);
    while i < t.shape.len()
        invariant
            i <= t.shape.len(),
            out@ == head + dims_bytes(t.shape@.take(i as int)),
        decreases t.shape.len() - i,
    {
        push_u64(out, t.shape[i]);
        assert(t.shape@.take(i + 1).drop_last() =~= t.shape@.take(i as int));
        assert(head + dims_bytes(t.shape@.take(i as int)) + reader::le_bytes(
            t.shape@[i as int] as nat,
            8,
        ) =~= head + dims_bytes(t.shape@.take(i + 1)));
        i = i + 1;
    }
    assert(t.shape@.take(i as int) =~= t.shape@);
    out.push(0);
    assert(out@ =~= old(out)@ + entry_bytes(t@));
}

/// The tensors that indices stand for.
pub open spec fn picked(tensors: Seq<TensorView>, order: Seq<usize>) -> Seq<TensorView> {
    Seq::new(order.len(), |i: int| tensors[order[i] as int])
}

/// Indices of tensors in the order of the names.
pub fn order_by_name(tensors: &[TensorInfo]) -> (order: Vec<usize>)
    ensures
        order@.len() == tensors@.len(),
        forall|i: int| 0 <= i < order@.len() ==> #[trigger] order@[i] < tensors@.len(),
        picked(tensor::views(tensors@), order@) == by_name(tensor::views(tensors@)),
{
    let ghost all = tensor::views(tensors@);
    let mut order: Vec<usize> = Vec::new();
    let mut k: usize = 0;
    assert(all.take(0) =~= Seq::empty());
    assert(picked(all, order@) =~= Seq::empty());
    while k < tensors.len()
        invariant
            k <= tensors.len(),
            all == tensor::views(tensors@),
            order@.len() == k,
            forall|i: int| 0 <= i < order@.len() ==> #[trigger] order@[i] < k,
            picked(all, order@) == by_name(all.take(k as int)),
        decreases tensors.len() - k,
    {
        let ghost sorted = picked(all, order@);
        let ghost before = order@;
        let mut pos: usize = order.len();
        while pos > 0 && text::str_before(
            tensors[k].name.as_str(),
            tensors[order[pos - 1]].name.as_str(),
        )
            invariant
                pos <= order@.len(),
                k < tensors@.len(),
                all == tensor::views(tensors@),
                sorted == picked(all, order@),
                forall|i: int| 0 <= i < order@.len() ==> #[trigger] order@[i] < k,
                forall|j: int|
                    pos <= j < order@.len() ==> text::before(
                        all[k as int].name,
                        #[trigger] sorted[j].name,
                    ),
            ensures
                pos <= order@.len(),
                forall|j: int|
                    pos <= j < order@.len() ==> text::before(
                        all[k as int].name,
                        #[trigger] sorted[j].name,
                    ),
                pos > 0 ==> !text::before(all[k as int].name, sorted[pos - 1].name),
            decreases pos,
        {
            pos = pos - 1;
        }
        proof {
            lemma_insert_at(sorted, all[k as int], pos as int);
        }
        order.insert(pos, k);
        assert(picked(all, order@) =~= sorted.insert(pos as int, all[k as int]));
        assert(all.take(k + 1).drop_last() =~= all.take(k as int));
        assert(all.take(k + 1).last() == all[k as int]);
        k = k + 1;
    }
    assert(all.take(k as int) =~= all);
    order
}

/// The bytes that the fingerprint is the digest of.
pub fn layout(tensors: &[TensorInfo]) -> (out: Vec<u8>)
    ensures
        out@ == layout_bytes(tensor::views(tensors@)),
{
    let order: Vec<usize> = order_by_name(tensors);
    let ghost all = tensor::views(tensors@);
    let ghost sorted = picked(all, order@);
    let mut out: Vec<u8> = Vec::new();
    let mut i: usize = 0;
    assert(sorted.take(0) =~= Seq::empty());
    assert(out@ =~= entries_bytes(sorted.take(0)));
    while i < order.len()
        invariant
            i <= order@.len(),
            all == tensor::views(tensors@),
            sorted == picked(all, order@),
            forall|i: int| 0 <= i < order@.len() ==> #[trigger] order@[i] < tensors@.len(),
            out@ == entries_bytes(sorted.take(i as int)),
        decreases order@.len() - i,
    {
        push_entry(&mut out, &tensors[order[i]]);
        assert(sorted.take(i + 1).drop_last() =~= sorted.take(i as int));
        assert(sorted.take(i + 1).last() == tensors@[order@[i as int] as int]@);
        i = i + 1;
    }
    assert(sorted.take(i as int) =~= sorted);
    out
}

/// The SHA-256 digest of the tensor layout.
pub fn compute_fingerprint(tensors: &[TensorInfo]) -> (digest: [u8; 32])
    ensures
        digest@ == sha256_of(layout_bytes(tensor::views(tensors@))),
{
    let bytes: Vec<u8> = layout(tensors);
    sha256(bytes.as_slice())
}

/// Names in order, each before all that follow it.
pub open spec fn strictly_ordered(s: Seq<TensorView>) -> bool {
    forall|i: int, j: int|
        0 <= i < j < s.len() ==> text::before(#[trigger] s[i].name, #[trigger] s[j].name)
}

/// No two tensors have the same name.
pub open spec fn distinct_names(s: Seq<TensorView>) -> bool {
    forall|i: int, j: int|
        0 <= i < s.len() && 0 <= j < s.len() && i != j ==> #[trigger] s[i].name
            != #[trigger] s[j].name
}

/// Inserting a name that is not there keeps the strict order.
proof fn lemma_insert_ordered(s: Seq<TensorView>, t: TensorView)
    requires
        strictly_ordered(s),
        forall|i: int| 0 <= i < s.len() ==> #[trigger] s[i].name != t.name,
    ensures
        strictly_ordered(insert_by_name(s, t)),
        insert_by_name(s, t).to_multiset() == s.to_multiset().insert(t),
        insert_by_name(s, t).len() == s.len() + 1,
        forall|i: int|
            0 <= i < insert_by_name(s, t).len() ==> (#[trigger] insert_by_name(s, t)[i]) == t
                || s.contains(insert_by_name(s, t)[i]),
    decreases s.len(),
{
    broadcast use vstd::seq_lib::group_to_multiset_ensures;

    let r = insert_by_name(s, t);
    if s.len() == 0 || !text::before(t.name, s.last().name) {
        assert forall|i: int, j: int| 0 <= i < j < r.len() implies text::before(
            #[trigger] r[i].name,
            #[trigger] r[j].name,
        ) by {
            if j == s.len() {
                text::lemma_total(t.name, s.last().name);
                if i < s.len() - 1 {
                    text::lemma_transitive(s[i].name, s.last().name, t.name);
                }
            }
        }
        assert forall|i: int| 0 <= i < r.len() implies (#[trigger] r[i]) == t || s.contains(r[i]) by {
            if i < s.len() {
                assert(s[i] == r[i]);
            }
        }
    } else {
        let shorter = s.drop_last();
        lemma_insert_ordered(shorter, t);
        let q = insert_by_name(shorter, t);
        assert forall|i: int, j: int| 0 <= i < j < r.len() implies text::before(
            #[trigger] r[i].name,
            #[trigger] r[j].name,
        ) by {
            if j == q.len() {
                assert(r[i] == q[i]);
                if q[i] != t {
                    let m = shorter.index_of(q[i]);
                    assert(s[m] == q[i]);
                    assert(s[s.len() - 1] == s.last());
                }
            } else {
                assert(r[i] == q[i] && r[j] == q[j]);
            }
        }
        assert(s =~= shorter.push(s.last()));
        assert(r.to_multiset() =~= s.to_multiset().insert(t));
        assert forall|i: int| 0 <= i < r.len() implies (#[trigger] r[i]) == t || s.contains(r[i]) by {
            if i < q.len() {
                assert(r[i] == q[i]);
                if q[i] != t {
                    let m = shorter.index_of(q[i]);
                    assert(s[m] == q[i]);
                }
            } else {
                assert(s[s.len() - 1] == r[i]);
            }
        }
    }
}

/// Sorting distinct names gives a strict order of the same tensors.
pub proof fn lemma_by_name_ordered(s: Seq<TensorView>)
    requires
        distinct_names(s),
    ensures
        strictly_ordered(by_name(s)),
        by_name(s).to_multiset() == s.to_multiset(),
        by_name(s).len() == s.len(),
        forall|i: int| 0 <= i < s.len() ==> s.contains(#[trigger] by_name(s)[i]),
    decreases s.len(),
{
    broadcast use vstd::seq_lib::group_to_multiset_ensures;

    if s.len() == 0 {
        assert(by_name(s) =~= s);
    } else {
        let shorter = s.drop_last();
        lemma_by_name_ordered(shorter);
        let q = by_name(shorter);
        assert forall|i: int| 0 <= i < q.len() implies #[trigger] q[i].name != s.last().name by {
            assert(shorter.contains(q[i]));
            let m = shorter.index_of(q[i]);
            assert(s[m] == q[i]);
            assert(s[s.len() - 1] == s.last());
        }
        lemma_insert_ordered(q, s.last());
        assert(s =~= shorter.push(s.last()));
        assert forall|i: int| 0 <= i < s.len() implies s.contains(#[trigger] by_name(s)[i]) by {
            let x = by_name(s)[i];
            if x != s.last() {
                assert(q.contains(x));
                let m = q.index_of(x);
                assert(shorter.contains(q[m]));
                let n = shorter.index_of(x);
                assert(s[n] == x);
            } else {
                assert(s[s.len() - 1] == x);
            }
        }
    }
}

/// Two strict orders of the same tensors are the same sequence.
proof fn lemma_orders_equal(a: Seq<TensorView>, b: Seq<TensorView>)
    requires
        strictly_ordered(a),
        strictly_ordered(b),
        a.to_multiset() == b.to_multiset(),
    ensures
        a == b,
    decreases a.len(),
{
    broadcast use vstd::seq_lib::group_to_multiset_ensures;
    broadcast use vstd::multiset::group_multiset_axioms;

    assert(a.to_multiset().len() == a.len());
    assert(b.to_multiset().len() == b.len());
    if a.len() > 0 {
        let x = a.last();
        let y = b.last();
        assert(a.contains(x)) by {
            assert(a[a.len() - 1] == x);
        }
        assert(b.contains(y)) by {
            assert(b[b.len() - 1] == y);
        }
        assert(b.to_multiset().count(x) > 0);
        assert(a.to_multiset().count(y) > 0);
        assert(b.contains(x));
        assert(a.contains(y));
        let j = b.index_of(x);
        let i = a.index_of(y);
        if j < b.len() - 1 {
            assert(text::before(b[j].name, b[b.len() - 1].name));
            if i < a.len() - 1 {
                assert(text::before(a[i].name, a[a.len() - 1].name));
            }
            text::lemma_strict(x.name, y.name);
        }
        assert(x == y);
        assert(a =~= a.drop_last().push(x));
        assert(b =~= b.drop_last().push(y));
        assert(a.drop_last().to_multiset() =~= a.to_multiset().remove(x));
        assert(b.drop_last().to_multiset() =~= b.to_multiset().remove(y));
        lemma_orders_equal(a.drop_last(), b.drop_last());
    } else {
        assert(a =~= b);
    }
}

/// A tensor with its name, the code of its type and its shape alone.
pub open spec fn bare(t: TensorView) -> TensorView {
    TensorView {
        name: t.name,
        dtype: None,
        raw_type: t.raw_type,
        shape: t.shape,
        elements: 0,
        relative_offset: 0,
        byte_size: None,
    }
}

/// Tensors with their names, the codes of their types and their shapes alone.
pub open spec fn all_bare(s: Seq<TensorView>) -> Seq<TensorView> {
    s.map_values(|t: TensorView| bare(t))
}

/// Inserting does not look at what [`bare`] leaves out.
proof fn lemma_bare_insert(s: Seq<TensorView>, t: TensorView)
    ensures
        insert_by_name(all_bare(s), bare(t)) == all_bare(insert_by_name(s, t)),
    decreases s.len(),
{
    if s.len() == 0 || !text::before(t.name, s.last().name) {
        assert(all_bare(s.push(t)) =~= all_bare(s).push(bare(t)));
    } else {
        let shorter = s.drop_last();
        lemma_bare_insert(shorter, t);
        let q = insert_by_name(shorter, t);
        assert(all_bare(s).drop_last() =~= all_bare(shorter));
        assert(all_bare(q.push(s.last())) =~= all_bare(q).push(bare(s.last())));
    }
}

/// Sorting does not look at what [`bare`] leaves out.
proof fn lemma_bare_by_name(s: Seq<TensorView>)
    ensures
        by_name(all_bare(s)) == all_bare(by_name(s)),
    decreases s.len(),
{
    if s.len() == 0 {
        assert(by_name(all_bare(s)) =~= all_bare(by_name(s)));
    } else {
        let shorter = s.drop_last();
        lemma_bare_by_name(shorter);
        assert(all_bare(s).drop_last() =~= all_bare(shorter));
        lemma_bare_insert(by_name(shorter), s.last());
    }
}

/// The bytes of tensors do not hold what [`bare`] leaves out.
proof fn lemma_bare_entries(s: Seq<TensorView>)
    ensures
        entries_bytes(all_bare(s)) == entries_bytes(s),
    decreases s.len(),
{
    if s.len() > 0 {
        lemma_bare_entries(s.drop_last());
        assert(all_bare(s).drop_last() =~= all_bare(s.drop_last()));
        assert(entry_bytes(all_bare(s).last()) == entry_bytes(s.last()));
    }
}

/// The fingerprint depends on names, types and shapes alone, and not on the
/// order in which tensors are declared: directories with the same names, no two
/// of them alike, and the same types and shapes under them, have the same
/// layout bytes and so the same digest.
pub proof fn law_order_does_not_matter(a: Seq<TensorView>, b: Seq<TensorView>)
    requires
        distinct_names(a),
        distinct_names(b),
        all_bare(a).to_multiset() == all_bare(b).to_multiset(),
    ensures
        layout_bytes(a) == layout_bytes(b),
        sha256_of(layout_bytes(a)) == sha256_of(layout_bytes(b)),
{
    lemma_bare_by_name(a);
    lemma_bare_by_name(b);
    lemma_bare_entries(by_name(a));
    lemma_bare_entries(by_name(b));
    lemma_bare_distinct(a);
    lemma_bare_distinct(b);
    lemma_by_name_ordered(all_bare(a));
    lemma_by_name_ordered(all_bare(b));
    lemma_orders_equal(by_name(all_bare(a)), by_name(all_bare(b)));
}

proof fn lemma_bare_distinct(s: Seq<TensorView>)
    requires
        distinct_names(s),
    ensures
        distinct_names(all_bare(s)),
{
    let q = all_bare(s);
    assert forall|i: int, j: int|
        0 <= i < q.len() && 0 <= j < q.len() && i != j implies #[trigger] q[i].name
        != #[trigger] q[j].name by {
        assert(s[i].name != s[j].name);
    }
}

} // verus!
