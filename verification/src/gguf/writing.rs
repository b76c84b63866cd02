//! How values, tensors and files are written down, and that they are read back.

use crate::gguf::error::ErrorView;
use crate::gguf::file;
use crate::gguf::file::ParsedView;
use crate::gguf::metadata;
use crate::gguf::metadata::{ValueType, ValueView, MAX_ARRAY_DEPTH};
use crate::gguf::reader;
use crate::gguf::tensor;
use crate::gguf::tensor::{GgmlType, TensorView};
use vstd::arithmetic::power::*;
use vstd::prelude::*;
use vstd::utf8::*;

verus! {

/// Byte `i` of a number, lowest first.
pub open spec fn byte_of(v: nat, i: int) -> u8 {
    (v as int / pow(256, i as nat) % 256) as u8
}

/// The `n` bytes of a number, lowest first.
pub open spec fn number(v: nat, n: nat) -> Seq<u8> {
    Seq::new(n, |i: int| byte_of(v, i))
}

/// A signed number as the unsigned one with the same last `8n` digits.
pub open spec fn wrapped(v: int, n: nat) -> nat {
    if v < 0 {
        (v + pow(256, n)) as nat
    } else {
        v as nat
    }
}

/// A text: the number of its bytes, and its bytes.
pub open spec fn text(s: Seq<char>) -> Seq<u8> {
    number(encode_utf8(s).len(), 8) + encode_utf8(s)
}

/// Whether bytes stand at a position of others.
pub open spec fn stands(data: Seq<u8>, at: nat, bytes: Seq<u8>) -> bool {
    &&& at + bytes.len() <= data.len()
    &&& forall|i: int| 0 <= i < bytes.len() ==> #[trigger] data[at + i] == bytes[i]
}

/// Where two pieces stand in a row, each of them stands.
proof fn lemma_pieces(data: Seq<u8>, at: nat, a: Seq<u8>, b: Seq<u8>)
    requires
        stands(data, at, a + b),
    ensures
        stands(data, at, a),
        stands(data, at + a.len(), b),
        (a + b).len() == a.len() + b.len(),
{
    let all = a + b;
    assert forall|i: int| 0 <= i < a.len() implies #[trigger] data[at + i] == a[i] by {
        assert(data[at + i] == all[i]);
    }
    assert forall|i: int| 0 <= i < b.len() implies #[trigger] data[at + a.len() + i] == b[i] by {
        assert(data[at + (a.len() + i)] == all[a.len() + i]);
    }
}

/// Bytes that stand at a position are found there.
proof fn lemma_found(data: Seq<u8>, at: nat, bytes: Seq<u8>)
    requires
        stands(data, at, bytes),
    ensures
        data.subrange(at as int, (at + bytes.len()) as int) == bytes,
{
    let part = data.subrange(at as int, (at + bytes.len()) as int);
    assert forall|i: int| 0 <= i < bytes.len() implies part[i] == bytes[i] by {
        assert(data[at + i] == bytes[i]);
    }
    assert(part =~= bytes);
}

/// The bytes of a number, one after another.
pub proof fn lemma_number(v: nat, n: nat)
    ensures
        number(v, n) == reader::le_bytes(v, n),
    decreases n,
{
    if n == 0 {
        assert(number(v, 0) =~= Seq::empty());
    } else {
        let rest = (n - 1) as nat;
        lemma_number(v / 256, rest);
        lemma_pow0(256);
        assert forall|i: int| 0 <= i < rest implies number(v, n)[i + 1]
            == #[trigger] number(v / 256, rest)[i] by {
            let p = pow(256, i as nat);
            lemma_pow_adds(256, 1, i as nat);
            lemma_pow1(256);
            lemma_pow_positive(256, i as nat);
            vstd::arithmetic::div_mod::lemma_div_denominator(v as int, 256, p);
        }
        assert(v as int / 1 == v);
        assert(number(v, n)[0] == (v % 256) as u8);
        let all = seq![(v % 256) as u8] + reader::le_bytes(v / 256, rest);
        assert forall|i: int| 0 <= i < n implies number(v, n)[i] == all[i] by {
            if i > 0 {
                assert(number(v, n)[(i - 1) + 1] == number(v / 256, rest)[i - 1]);
            }
        }
        assert(number(v, n) =~= all);
    }
}

/// A number that fits its bytes is read back from where they stand.
proof fn lemma_unsigned(data: Seq<u8>, at: nat, v: nat, n: nat)
    requires
        stands(data, at, number(v, n)),
        v < pow(256, n),
    ensures
        reader::unsigned_at(data, at, n) == (Ok::<nat, ErrorView>(v), at + n),
{
    lemma_number(v, n);
    reader::law_le_round_trip(v, n);
    lemma_found(data, at, number(v, n));
}

proof fn lemma_powers()
    ensures
        pow(256, 1) == 0x100,
        pow(256, 2) == 0x1_0000,
        pow(256, 4) == 0x1_0000_0000,
        pow(256, 8) == 0x1_0000_0000_0000_0000,
{
    lemma_pow1(256);
    lemma_pow_adds(256, 1, 1);
    lemma_pow_adds(256, 2, 2);
    lemma_pow_adds(256, 4, 4);
    let a = pow(256, 2);
    let b = pow(256, 4);
    assert(a * a == 0x1_0000_0000) by (nonlinear_arith)
        requires
            a == 0x1_0000,
    ;
    assert(b * b == 0x1_0000_0000_0000_0000) by (nonlinear_arith)
        requires
            b == 0x1_0000_0000,
    ;
}

/// A text is read back from where its bytes stand.
pub proof fn law_text_is_read_back(data: Seq<u8>, at: nat, s: Seq<char>)
    requires
        stands(data, at, text(s)),
        encode_utf8(s).len() <= u64::MAX,
    ensures
        reader::str_at(data, at) == (Ok::<Seq<char>, ErrorView>(s), at + text(s).len()),
{
    let bytes = encode_utf8(s);
    lemma_powers();
    lemma_pieces(data, at, number(bytes.len(), 8), bytes);
    lemma_unsigned(data, at, bytes.len(), 8);
    lemma_found(data, at + 8, bytes);
    encode_utf8_valid_utf8(s);
    encode_utf8_decode_utf8(s);
}

/// The bytes of a value that is no array.
pub open spec fn scalar(v: ValueView) -> Seq<u8> {
    match v {
        ValueView::U8(x) => number(x as nat, 1),
        ValueView::I8(x) => number(wrapped(x as int, 1), 1),
        ValueView::U16(x) => number(x as nat, 2),
        ValueView::I16(x) => number(wrapped(x as int, 2), 2),
        ValueView::U32(x) => number(x as nat, 4),
        ValueView::I32(x) => number(wrapped(x as int, 4), 4),
        ValueView::F32(x) => number(x as nat, 4),
        ValueView::Bool(x) => number(
            if x {
                1
            } else {
                0
            },
            1,
        ),
        ValueView::String(x) => text(x),
        ValueView::U64(x) => number(x as nat, 8),
        ValueView::I64(x) => number(wrapped(x as int, 8), 8),
        ValueView::F64(x) => number(x as nat, 8),
        ValueView::Array { .. } => Seq::empty(),
    }
}

/// The bytes of a value: an array is the code of its element type, the number of
/// elements and the elements.
pub open spec fn value(v: ValueView, levels: nat) -> Seq<u8>
    decreases levels, 0nat,
{
    match v {
        ValueView::Array { item, items } => if levels == 0 {
            Seq::empty()
        } else {
            number(item.code() as nat, 4) + number(items.len(), 8) + all_values(
                items,
                (levels - 1) as nat,
                items.len(),
            )
        },
        _ => scalar(v),
    }
}

/// The bytes of the first `n` values.
pub open spec fn all_values(items: Seq<ValueView>, levels: nat, n: nat) -> Seq<u8>
    decreases levels, 1nat, n,
{
    if n == 0 {
        Seq::empty()
    } else {
        all_values(items, levels, (n - 1) as nat) + value(items[n - 1], levels)
    }
}

/// Whether a value can be written: texts and arrays are not too long, the
/// elements of an array have its type, and arrays nest no deeper than `levels`.
pub open spec fn fits(v: ValueView, levels: nat) -> bool
    decreases levels,
{
    match v {
        ValueView::Array { item, items } => {
            &&& levels > 0
            &&& items.len() <= u64::MAX
            &&& metadata::length_error(item, items.len() as u64) is None
            &&& forall|i: int|
                0 <= i < items.len() ==> fits(#[trigger] items[i], (levels - 1) as nat)
                    && items[i].ty() == item
        },
        ValueView::String(s) => encode_utf8(s).len() <= u64::MAX,
        _ => true,
    }
}

#[verifier::rlimit(40)]
#[verifier::spinoff_prover]
proof fn lemma_scalar(data: Seq<u8>, at: nat, v: ValueView)
    requires
        stands(data, at, scalar(v)),
        !(v is Array),
        v matches ValueView::String(s) ==> encode_utf8(s).len() <= u64::MAX,
    ensures
        metadata::scalar_at(data, at, v.ty()) == (Ok::<ValueView, ErrorView>(v), at + scalar(
            v,
        ).len()),
{
    lemma_powers();
    match v {
        ValueView::U8(x) => lemma_unsigned(data, at, x as nat, 1),
        ValueView::I8(x) => lemma_unsigned(data, at, wrapped(x as int, 1), 1),
        ValueView::U16(x) => lemma_unsigned(data, at, x as nat, 2),
        ValueView::I16(x) => lemma_unsigned(data, at, wrapped(x as int, 2), 2),
        ValueView::U32(x) => lemma_unsigned(data, at, x as nat, 4),
        ValueView::I32(x) => lemma_unsigned(data, at, wrapped(x as int, 4), 4),
        ValueView::F32(x) => lemma_unsigned(data, at, x as nat, 4),
        ValueView::Bool(x) => lemma_unsigned(
            data,
            at,
            if x {
                1
            } else {
                0
            },
            1,
        ),
        ValueView::String(x) => law_text_is_read_back(data, at, x),
        ValueView::U64(x) => lemma_unsigned(data, at, x as nat, 8),
        ValueView::I64(x) => lemma_unsigned(data, at, wrapped(x as int, 8), 8),
        ValueView::F64(x) => lemma_unsigned(data, at, x as nat, 8),
        ValueView::Array { .. } => {},
    }
}

/// A value is read back from where its bytes stand.
pub proof fn law_value_is_read_back(data: Seq<u8>, at: nat, v: ValueView, depth: nat)
    requires
        1 <= depth <= MAX_ARRAY_DEPTH + 1,
        fits(v, (MAX_ARRAY_DEPTH + 1 - depth) as nat),
        stands(data, at, value(v, (MAX_ARRAY_DEPTH + 1 - depth) as nat)),
    ensures
        metadata::value_at(data, at, v.ty(), depth) == (Ok::<ValueView, ErrorView>(v), at + value(
            v,
            (MAX_ARRAY_DEPTH + 1 - depth) as nat,
        ).len()),
    decreases MAX_ARRAY_DEPTH + 1 - depth, 0nat, 0nat,
{
    let levels = (MAX_ARRAY_DEPTH + 1 - depth) as nat;
    match v {
        ValueView::Array { item, items } => {
            let head = number(item.code() as nat, 4);
            let count = number(items.len(), 8);
            let body = all_values(items, (levels - 1) as nat, items.len());
            lemma_powers();
            lemma_pieces(data, at, head + count, body);
            lemma_pieces(data, at, head, count);
            lemma_unsigned(data, at, item.code() as nat, 4);
            lemma_unsigned(data, at + 4, items.len(), 8);
            metadata::law_type_codes(item, item.code());
            lemma_items(data, at + 12, item, items, depth + 1, items.len());
            assert(items.take(items.len() as int) =~= items);
            assert(value(v, levels).len() == 12 + body.len());
        },
        _ => {
            lemma_scalar(data, at, v);
        },
    }
}

proof fn lemma_items(
    data: Seq<u8>,
    at: nat,
    item: ValueType,
    items: Seq<ValueView>,
    depth: nat,
    n: nat,
)
    requires
        2 <= depth <= MAX_ARRAY_DEPTH + 1,
        n <= items.len(),
        forall|i: int|
            0 <= i < items.len() ==> fits(
                #[trigger] items[i],
                (MAX_ARRAY_DEPTH + 1 - depth) as nat,
            ) && items[i].ty() == item,
        stands(data, at, all_values(items, (MAX_ARRAY_DEPTH + 1 - depth) as nat, n)),
    ensures
        metadata::items_at(data, at, item, n, depth) == (Ok::<Seq<ValueView>, ErrorView>(
            items.take(n as int),
        ), at + all_values(items, (MAX_ARRAY_DEPTH + 1 - depth) as nat, n).len()),
    decreases MAX_ARRAY_DEPTH + 1 - depth, 1nat, n,
{
    let levels = (MAX_ARRAY_DEPTH + 1 - depth) as nat;
    if n == 0 {
        assert(items.take(0) =~= Seq::empty());
    } else {
        let m = (n - 1) as nat;
        let before = all_values(items, levels, m);
        let last = value(items[n - 1], levels);
        lemma_pieces(data, at, before, last);
        lemma_items(data, at, item, items, depth, m);
        assert(fits(items[n - 1], levels) && items[n - 1].ty() == item);
        law_value_is_read_back(data, at + before.len(), items[n - 1], depth);
        assert(items.take(m as int).push(items[n - 1]) =~= items.take(n as int));
    }
}

/// An entry of the metadata: a key and a value.
pub struct Entry {
    pub key: Seq<char>,
    pub value: ValueView,
}

/// The bytes of an entry: its key, the code of its type and its value.
pub open spec fn entry(e: Entry) -> Seq<u8> {
    text(e.key) + number(e.value.ty().code() as nat, 4) + value(e.value, MAX_ARRAY_DEPTH as nat)
}

/// The bytes of entries in a row.
pub open spec fn entries(es: Seq<Entry>) -> Seq<u8>
    decreases es.len(),
{
    if es.len() == 0 {
        Seq::empty()
    } else {
        entries(es.drop_last()) + entry(es.last())
    }
}

/// What entries say; the last one of several with the same key counts.
pub open spec fn table(es: Seq<Entry>) -> Map<Seq<char>, ValueView>
    decreases es.len(),
{
    if es.len() == 0 {
        Map::empty()
    } else {
        table(es.drop_last()).insert(es.last().key, es.last().value)
    }
}

/// Whether an entry can be written.
pub open spec fn entry_fits(e: Entry) -> bool {
    encode_utf8(e.key).len() <= u64::MAX && fits(e.value, MAX_ARRAY_DEPTH as nat)
}

/// The entries of the metadata are read back from where their bytes stand.
pub proof fn law_entries_are_read_back(data: Seq<u8>, at: nat, es: Seq<Entry>)
    requires
        forall|i: int| 0 <= i < es.len() ==> entry_fits(#[trigger] es[i]),
        stands(data, at, entries(es)),
    ensures
        metadata::table_at(data, at, es.len()) == (Ok::<Map<Seq<char>, ValueView>, ErrorView>(
            table(es),
        ), at + entries(es).len()),
    decreases es.len(),
{
    if es.len() > 0 {
        let rest = es.drop_last();
        let e = es.last();
        assert(e == es[es.len() - 1]);
        assert forall|i: int| 0 <= i < rest.len() implies entry_fits(#[trigger] rest[i]) by {
            assert(rest[i] == es[i]);
        }
        lemma_pieces(data, at, entries(rest), entry(e));
        law_entries_are_read_back(data, at, rest);
        let start = at + entries(rest).len();
        let key = text(e.key);
        let code = number(e.value.ty().code() as nat, 4);
        let body = value(e.value, MAX_ARRAY_DEPTH as nat);
        lemma_powers();
        lemma_pieces(data, start, key + code, body);
        lemma_pieces(data, start, key, code);
        law_text_is_read_back(data, start, e.key);
        lemma_unsigned(data, start + key.len(), e.value.ty().code() as nat, 4);
        metadata::law_type_codes(e.value.ty(), e.value.ty().code());
        law_value_is_read_back(data, start + key.len() + 4, e.value, 1);
    }
}

/// What a directory says of a tensor.
pub struct Listed {
    pub name: Seq<char>,
    pub shape: Seq<u64>,
    pub code: u32,
    pub offset: u64,
}

/// The bytes of the first `n` dimensions.
pub open spec fn dimensions(shape: Seq<u64>, n: nat) -> Seq<u8>
    decreases n,
{
    if n == 0 {
        Seq::empty()
    } else {
        dimensions(shape, (n - 1) as nat) + number(shape[n - 1] as nat, 8)
    }
}

/// The bytes of a tensor of the directory: its name, the number of dimensions,
/// the dimensions, the code of its type and the offset of its data.
pub open spec fn listed(t: Listed) -> Seq<u8> {
    text(t.name) + number(t.shape.len(), 4) + dimensions(t.shape, t.shape.len()) + number(
        t.code as nat,
        4,
    ) + number(t.offset as nat, 8)
}

/// Whether a tensor can be listed: it has one to four dimensions, and they do
/// not give too many numbers.
pub open spec fn listed_fits(t: Listed) -> bool {
    &&& encode_utf8(t.name).len() <= u64::MAX
    &&& 1 <= t.shape.len() <= 4
    &&& forall|k: nat|
        k <= t.shape.len() ==> #[trigger] tensor::product(t.shape.take(k as int)) <= u64::MAX
}

/// What is read of a tensor of the directory.
pub open spec fn tensor_of(t: Listed) -> TensorView {
    let dtype = GgmlType::of_code(t.code);
    TensorView {
        name: t.name,
        dtype,
        raw_type: t.code,
        shape: t.shape,
        elements: tensor::product(t.shape),
        relative_offset: t.offset,
        byte_size: match dtype {
            Some(ty) => ty.size_of(tensor::product(t.shape) as u64),
            None => None,
        },
    }
}

proof fn lemma_dimensions(data: Seq<u8>, at: nat, t: Listed, n: nat)
    requires
        listed_fits(t),
        n <= t.shape.len(),
        stands(data, at, dimensions(t.shape, n)),
    ensures
        tensor::shape_at(data, at, n) == (Ok::<Seq<u64>, ErrorView>(t.shape.take(n as int)), at + 8
            * n),
        dimensions(t.shape, n).len() == 8 * n,
    decreases n,
{
    if n == 0 {
        assert(t.shape.take(0) =~= Seq::empty());
    } else {
        let m = (n - 1) as nat;
        let d = t.shape[n - 1];
        lemma_powers();
        lemma_pieces(data, at, dimensions(t.shape, m), number(d as nat, 8));
        lemma_dimensions(data, at, t, m);
        lemma_unsigned(data, at + 8 * m, d as nat, 8);
        let shape = t.shape.take(m as int);
        assert(shape.push(d) =~= t.shape.take(n as int));
        assert(tensor::product(t.shape.take(n as int)) <= u64::MAX);
        assert(t.shape.take(n as int).drop_last() =~= shape);
        assert(tensor::product(shape.push(d)) == tensor::product(shape) * d as nat);
    }
}

/// A tensor of the directory is read back from where its bytes stand.
pub proof fn law_listed_is_read_back(data: Seq<u8>, at: nat, t: Listed)
    requires
        listed_fits(t),
        stands(data, at, listed(t)),
    ensures
        tensor::tensor_at(data, at) == (Ok::<TensorView, ErrorView>(tensor_of(t)), at + listed(
            t,
        ).len()),
{
    let name = text(t.name);
    let rank = number(t.shape.len(), 4);
    let dims = dimensions(t.shape, t.shape.len());
    let code = number(t.code as nat, 4);
    let offset = number(t.offset as nat, 8);
    let n = t.shape.len();
    lemma_powers();
    lemma_pieces(data, at, name + rank + dims + code, offset);
    lemma_pieces(data, at, name + rank + dims, code);
    lemma_pieces(data, at, name + rank, dims);
    lemma_pieces(data, at, name, rank);
    law_text_is_read_back(data, at, t.name);
    lemma_unsigned(data, at + name.len(), n, 4);
    lemma_dimensions(data, at + name.len() + 4, t, n);
    lemma_unsigned(data, at + name.len() + 4 + 8 * n, t.code as nat, 4);
    lemma_unsigned(data, at + name.len() + 8 + 8 * n, t.offset as nat, 8);
    assert(t.shape.take(n as int) =~= t.shape);
    assert(tensor::product(t.shape.take(n as int)) <= u64::MAX);
}

/// The bytes of a directory.
pub open spec fn directory(ts: Seq<Listed>) -> Seq<u8>
    decreases ts.len(),
{
    if ts.len() == 0 {
        Seq::empty()
    } else {
        directory(ts.drop_last()) + listed(ts.last())
    }
}

/// A directory is read back from where its bytes stand.
pub proof fn law_directory_is_read_back(data: Seq<u8>, at: nat, ts: Seq<Listed>)
    requires
        forall|i: int| 0 <= i < ts.len() ==> listed_fits(#[trigger] ts[i]),
        stands(data, at, directory(ts)),
    ensures
        tensor::tensors_at(data, at, ts.len()) == (Ok::<Seq<TensorView>, ErrorView>(
            ts.map_values(|t: Listed| tensor_of(t)),
        ), at + directory(ts).len()),
    decreases ts.len(),
{
    let read = ts.map_values(|t: Listed| tensor_of(t));
    if ts.len() == 0 {
        assert(read =~= Seq::empty());
    } else {
        let rest = ts.drop_last();
        assert(ts.last() == ts[ts.len() - 1]);
        assert forall|i: int| 0 <= i < rest.len() implies listed_fits(#[trigger] rest[i]) by {
            assert(rest[i] == ts[i]);
        }
        lemma_pieces(data, at, directory(rest), listed(ts.last()));
        law_directory_is_read_back(data, at, rest);
        law_listed_is_read_back(data, at + directory(rest).len(), ts.last());
        assert(rest.map_values(|t: Listed| tensor_of(t)).push(tensor_of(ts.last())) =~= read);
    }
}

/// The bytes of a file up to its data: the magic, version three, the numbers of
/// tensors and of entries, the entries and the directory.
pub open spec fn front(es: Seq<Entry>, ts: Seq<Listed>) -> Seq<u8> {
    seq![0x47u8, 0x47u8, 0x55u8, 0x46u8] + number(3, 4) + number(ts.len(), 8) + number(es.len(), 8)
        + entries(es) + directory(ts)
}

/// A file is read back from its bytes: its metadata and its tensors are those
/// that were written, and its data begins at the next multiple of the alignment.
pub proof fn law_file_is_read_back(data: Seq<u8>, es: Seq<Entry>, ts: Seq<Listed>, file_size: nat)
    requires
        forall|i: int| 0 <= i < es.len() ==> entry_fits(#[trigger] es[i]),
        forall|i: int| 0 <= i < ts.len() ==> listed_fits(#[trigger] ts[i]),
        es.len() <= u64::MAX,
        ts.len() <= usize::MAX,
        ts.len() <= u64::MAX,
        stands(data, 0, front(es, ts)),
        0 < file::alignment_of(table(es)) <= 65536,
        file::aligned(front(es, ts).len(), file::alignment_of(table(es))) <= u64::MAX,
        file::first_misplaced(
            ts.map_values(|t: Listed| tensor_of(t)),
            file::aligned(front(es, ts).len(), file::alignment_of(table(es))),
            file_size,
        ) is None,
    ensures
        file::file_of(data, file_size) == Ok::<ParsedView, ErrorView>(
            ParsedView {
                version: 3,
                alignment: file::alignment_of(table(es)),
                tensor_data_offset: file::aligned(
                    front(es, ts).len(),
                    file::alignment_of(table(es)),
                ),
                metadata: table(es),
                tensors: ts.map_values(|t: Listed| tensor_of(t)),
            },
        ),
{
    let magic = seq![0x47u8, 0x47u8, 0x55u8, 0x46u8];
    let version = number(3, 4);
    let n_tensors = number(ts.len(), 8);
    let n_kv = number(es.len(), 8);
    let kv = entries(es);
    let dir = directory(ts);
    lemma_powers();
    lemma_pieces(data, 0, magic + version + n_tensors + n_kv + kv, dir);
    lemma_pieces(data, 0, magic + version + n_tensors + n_kv, kv);
    lemma_pieces(data, 0, magic + version + n_tensors, n_kv);
    lemma_pieces(data, 0, magic + version, n_tensors);
    lemma_pieces(data, 0, magic, version);
    lemma_found(data, 0, magic);
    assert(magic =~= crate::gguf::MAGIC@);
    lemma_unsigned(data, 4, 3, 4);
    lemma_unsigned(data, 8, ts.len(), 8);
    lemma_unsigned(data, 16, es.len(), 8);
    law_entries_are_read_back(data, 24, es);
    law_directory_is_read_back(data, 24 + kv.len(), ts);
}

/// A value that is no text and no array takes as many bytes as its type says.
pub proof fn law_scalar_sizes(v: ValueView)
    requires
        !(v is Array),
        !(v is String),
    ensures
        v.ty().size() == Some(scalar(v).len() as u64),
{
}

/// The data of a tensor that was listed begins where the data of the file does
/// and its offset says, and takes the bytes of its type.
pub proof fn law_data_of_listed(t: Listed, start: nat)
    requires
        listed_fits(t),
        GgmlType::of_code(t.code) is Some,
        GgmlType::of_code(t.code)->0.size_of(tensor::product(t.shape) as u64) is Some,
    ensures
        file::data_range(tensor_of(t), start) == Some(
            (
                start + t.offset as nat,
                start + t.offset as nat + GgmlType::of_code(t.code)->0.size_of(
                    tensor::product(t.shape) as u64,
                )->0 as nat,
            ),
        ),
{
}

} // verus!
