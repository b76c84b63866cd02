//! Where names, types and shapes stand in what a fingerprint is made of.

use crate::gguf::fingerprint;
use crate::gguf::reader;
use crate::gguf::tensor::TensorView;
use crate::gguf::writing;
use crate::text;
use vstd::prelude::*;
use vstd::utf8::*;

verus! {

proof fn lemma_dims(shape: Seq<u64>, k: int)
    requires
        0 <= k < shape.len(),
    ensures
        fingerprint::dims_bytes(shape).len() == 8 * shape.len(),
        fingerprint::dims_bytes(shape).subrange(8 * k, 8 * k + 8) == writing::number(
            shape[k] as nat,
            8,
        ),
    decreases shape.len(),
{
    let rest = shape.drop_last();
    let n = shape.len() as int;
    let bytes = fingerprint::dims_bytes(shape);
    writing::lemma_number(shape[n - 1] as nat, 8);
    let tail = reader::le_bytes(shape.last() as nat, 8);
    if rest.len() == 0 {
        assert(fingerprint::dims_bytes(rest) =~= Seq::empty());
        assert(bytes.subrange(8 * k, 8 * k + 8) =~= tail);
    } else {
        let at = if k < n - 1 {
            k
        } else {
            0
        };
        lemma_dims(rest, at);
        if k < n - 1 {
            assert(rest[k] == shape[k]);
            assert(bytes.subrange(8 * k, 8 * k + 8) =~= fingerprint::dims_bytes(rest).subrange(
                8 * k,
                8 * k + 8,
            ));
        } else {
            assert(bytes.subrange(8 * k, 8 * k + 8) =~= tail);
        }
    }
}

/// A tensor enters a fingerprint with the bytes of its name, a zero, the code of
/// its type, the number of its dimensions, each dimension and a zero.
pub proof fn law_entry_places(t: TensorView, k: int)
    requires
        0 <= k < t.shape.len() <= u32::MAX,
    ensures
        ({
            let name = encode_utf8(t.name);
            let n = name.len() as int;
            let bytes = fingerprint::entry_bytes(t);
            &&& bytes.len() == n + 10 + 8 * t.shape.len()
            &&& bytes.subrange(0, n) == name
            &&& bytes[n] == 0
            &&& bytes.subrange(n + 1, n + 5) == writing::number(t.raw_type as nat, 4)
            &&& bytes.subrange(n + 5, n + 9) == writing::number(t.shape.len(), 4)
            &&& bytes.subrange(n + 9 + 8 * k, n + 17 + 8 * k) == writing::number(
                t.shape[k] as nat,
                8,
            )
            &&& bytes.last() == 0
        }),
{
    let name = encode_utf8(t.name);
    let n = name.len() as int;
    let bytes = fingerprint::entry_bytes(t);
    writing::lemma_number(t.raw_type as nat, 4);
    writing::lemma_number(t.shape.len(), 4);
    lemma_dims(t.shape, k);
    let dims = fingerprint::dims_bytes(t.shape);
    assert(bytes.subrange(0, n) =~= name);
    assert(bytes.subrange(n + 1, n + 5) =~= writing::number(t.raw_type as nat, 4));
    assert(bytes.subrange(n + 5, n + 9) =~= writing::number(t.shape.len(), 4));
    assert(bytes.subrange(n + 9 + 8 * k, n + 17 + 8 * k) =~= dims.subrange(8 * k, 8 * k + 8));
}

/// Tensors enter a fingerprint one after another in the order of their names,
/// each of them once.
pub proof fn law_entries_in_order(s: Seq<TensorView>, i: int)
    requires
        fingerprint::distinct_names(s),
        0 <= i < s.len(),
    ensures
        ({
            let sorted = fingerprint::by_name(s);
            &&& sorted.to_multiset() == s.to_multiset()
            &&& forall|a: int, b: int|
                0 <= a < b < sorted.len() ==> text::before(
                    #[trigger] sorted[a].name,
                    #[trigger] sorted[b].name,
                )
            &&& fingerprint::entries_bytes(sorted.take(i + 1)) == fingerprint::entries_bytes(
                sorted.take(i),
            ) + fingerprint::entry_bytes(sorted[i])
            &&& fingerprint::layout_bytes(s) == fingerprint::entries_bytes(
                sorted.take(s.len() as int),
            )
        }),
{
    fingerprint::lemma_by_name_ordered(s);
    let sorted = fingerprint::by_name(s);
    assert(sorted.take(i + 1).drop_last() =~= sorted.take(i));
    assert(sorted.take(s.len() as int) =~= sorted);
}

} // verus!
