//! When metadata are equal: fractions by their values, so that no NaN equals
//! anything and both zeros are equal.

use crate::float::order;
use crate::float::order::feq;
use crate::gguf::metadata::{Array, Metadata, Value, ValueView};
use crate::text;
use vstd::prelude::*;
use vstd::std_specs::cmp::PartialEqSpecImpl;

verus! {

/// Whether two double-precision numbers, given as bits, are equal.
pub open spec fn same_double(a: u64, b: u64) -> bool {
    let x = a % 0x8000_0000_0000_0000;
    let y = b % 0x8000_0000_0000_0000;
    &&& x <= 0x7FF0_0000_0000_0000
    &&& y <= 0x7FF0_0000_0000_0000
    &&& a == b || (x == 0 && y == 0)
}

/// Whether two values are equal.
pub open spec fn alike(a: ValueView, b: ValueView) -> bool
    decreases a,
{
    match (a, b) {
        (ValueView::F32(x), ValueView::F32(y)) => order::same(x, y),
        (ValueView::F64(x), ValueView::F64(y)) => same_double(x, y),
        (
            ValueView::Array { item: t, items: s },
            ValueView::Array { item: u, items: r },
        ) => t == u && s.len() == r.len() && forall|i: int|
            0 <= i < s.len() ==> alike(#[trigger] s[i], r[i]),
        _ => a == b,
    }
}

/// Whether two double-precision numbers are equal.
fn deq(a: u64, b: u64) -> (r: bool)
    ensures
        r == same_double(a, b),
{
    let x: u64 = a % 0x8000_0000_0000_0000;
    let y: u64 = b % 0x8000_0000_0000_0000;
    x <= 0x7FF0_0000_0000_0000 && y <= 0x7FF0_0000_0000_0000 && (a == b || (x == 0 && y == 0))
}

/// Whether two arrays have equal elements at `i`.
fn same_item(a: &Array, b: &Array, i: usize) -> (r: bool)
    requires
        a.item() == b.item(),
        i < a.items().len(),
        i < b.items().len(),
    ensures
        r == alike(a.items()[i as int], b.items()[i as int]),
    decreases *a, 0nat,
{
    match (a, b) {
        (Array::U8(v), Array::U8(w)) => v[i] == w[i],
        (Array::I8(v), Array::I8(w)) => v[i] == w[i],
        (Array::U16(v), Array::U16(w)) => v[i] == w[i],
        (Array::I16(v), Array::I16(w)) => v[i] == w[i],
        (Array::U32(v), Array::U32(w)) => v[i] == w[i],
        (Array::I32(v), Array::I32(w)) => v[i] == w[i],
        (Array::F32(v), Array::F32(w)) => feq(v[i], w[i]),
        (Array::Bool(v), Array::Bool(w)) => v[i] == w[i],
        (Array::String(v), Array::String(w)) => text::same(v[i].as_str(), w[i].as_str()),
        (Array::U64(v), Array::U64(w)) => v[i] == w[i],
        (Array::I64(v), Array::I64(w)) => v[i] == w[i],
        (Array::F64(v), Array::F64(w)) => deq(v[i], w[i]),
        (Array::Array(v), Array::Array(w)) => same_array(&v[i], &w[i]),
        _ => false,
    }
}

/// Whether two arrays are equal.
fn same_array(a: &Array, b: &Array) -> (r: bool)
    ensures
        r == alike(a@, b@),
    decreases *a, 1nat,
{
    if a.item_type() != b.item_type() || a.len() != b.len() {
        return false;
    }
    let n: usize = a.len();
    for i in 0..n
        invariant
            n == a.items().len(),
            n == b.items().len(),
            a.item() == b.item(),
            forall|k: int| 0 <= k < i ==> alike(#[trigger] a.items()[k], b.items()[k]),
    {
        if !same_item(a, b, i) {
            assert(!alike(a.items()[i as int], b.items()[i as int]));
            return false;
        }
    }
    true
}

/// Whether two values are equal.
fn same_value(a: &Value, b: &Value) -> (r: bool)
    ensures
        r == alike(a@, b@),
{
    match (a, b) {
        (Value::U8(x), Value::U8(y)) => *x == *y,
        (Value::I8(x), Value::I8(y)) => *x == *y,
        (Value::U16(x), Value::U16(y)) => *x == *y,
        (Value::I16(x), Value::I16(y)) => *x == *y,
        (Value::U32(x), Value::U32(y)) => *x == *y,
        (Value::I32(x), Value::I32(y)) => *x == *y,
        (Value::F32(x), Value::F32(y)) => feq(*x, *y),
        (Value::Bool(x), Value::Bool(y)) => *x == *y,
        (Value::String(x), Value::String(y)) => text::same(x.as_str(), y.as_str()),
        (Value::U64(x), Value::U64(y)) => *x == *y,
        (Value::I64(x), Value::I64(y)) => *x == *y,
        (Value::F64(x), Value::F64(y)) => deq(*x, *y),
        (Value::Array(x), Value::Array(y)) => same_array(x, y),
        _ => false,
    }
}

impl PartialEq for Array {
    fn eq(&self, other: &Self) -> (r: bool) {
        same_array(self, other)
    }
}

impl PartialEqSpecImpl for Array {
    open spec fn obeys_eq_spec() -> bool {
        true
    }

    open spec fn eq_spec(&self, other: &Self) -> bool {
        alike(self@, other@)
    }
}

impl PartialEq for Value {
    fn eq(&self, other: &Self) -> (r: bool) {
        same_value(self, other)
    }
}

impl PartialEqSpecImpl for Value {
    open spec fn obeys_eq_spec() -> bool {
        true
    }

    open spec fn eq_spec(&self, other: &Self) -> bool {
        alike(self@, other@)
    }
}

impl Metadata {
    /// Whether two tables have the same keys in the same order, and equal
    /// values under them.
    pub closed spec fn matches(&self, other: &Metadata) -> bool {
        &&& self.keyed() == other.keyed()
        &&& forall|i: int|
            0 <= i < self.entries@.len() ==> alike(
                (#[trigger] self.entries@[i]).1@,
                other.entries@[i].1@,
            )
    }
}

impl PartialEq for Metadata {
    fn eq(&self, other: &Self) -> (r: bool) {
        let n: usize = self.entries.len();
        if n != other.entries.len() {
            assert(self.keyed().len() != other.keyed().len());
            return false;
        }
        for i in 0..n
            invariant
                n == self.entries@.len(),
                n == other.entries@.len(),
                forall|k: int| 0 <= k < i ==> #[trigger] self.keyed()[k] == other.keyed()[k],
                forall|k: int|
                    0 <= k < i ==> alike(
                        (#[trigger] self.entries@[k]).1@,
                        other.entries@[k].1@,
                    ),
        {
            if !text::same(self.entries[i].0.as_str(), other.entries[i].0.as_str()) {
                assert(self.keyed()[i as int] != other.keyed()[i as int]);
                return false;
            }
            if !same_value(&self.entries[i].1, &other.entries[i].1) {
                assert(!alike(self.entries@[i as int].1@, other.entries@[i as int].1@));
                return false;
            }
            assert(self.keyed()[i as int] == other.keyed()[i as int]);
        }
        assert(self.keyed() =~= other.keyed());
        true
    }
}

impl PartialEqSpecImpl for Metadata {
    open spec fn obeys_eq_spec() -> bool {
        true
    }

    open spec fn eq_spec(&self, other: &Self) -> bool {
        self.matches(other)
    }
}

/// Tables are equal exactly where they have the same keys and equal values
/// under them.
pub proof fn law_equal_tables(a: &Metadata, b: &Metadata)
    requires
        a.wf(),
        b.wf(),
    ensures
        a.matches(b) <==> {
            &&& a@.dom() == b@.dom()
            &&& forall|key: Seq<char>| #[trigger]
                a@.contains_key(key) ==> alike(a@[key], b@[key])
        },
{
    if a.matches(b) {
        assert(a@.dom() =~= b@.dom());
        assert forall|key: Seq<char>| #[trigger] a@.contains_key(key) implies alike(
            a@[key],
            b@[key],
        ) by {
            let i = a.keyed().index_of(key);
            a.lemma_entry(i);
            b.lemma_entry(i);
            assert(a.keyed()[i] == key && b.keyed()[i] == key);
        }
    }
    if a@.dom() == b@.dom() && forall|key: Seq<char>| #[trigger]
        a@.contains_key(key) ==> alike(a@[key], b@[key]) {
        lemma_same_order(a, b);
        assert forall|i: int| 0 <= i < a.entries@.len() implies alike(
            (#[trigger] a.entries@[i]).1@,
            b.entries@[i].1@,
        ) by {
            a.lemma_entry(i);
            b.lemma_entry(i);
            assert(a.keyed()[i] == b.keyed()[i]);
            assert(a@.contains_key(a.entries@[i].0@));
        }
    }
}

/// Tables with the same keys have them in the same order.
proof fn lemma_same_order(a: &Metadata, b: &Metadata)
    requires
        a.wf(),
        b.wf(),
        a@.dom() == b@.dom(),
    ensures
        a.keyed() == b.keyed(),
{
    lemma_increasing_is_unique(a.keyed(), b.keyed(), a@.dom());
}

/// There is one way to put keys in order.
proof fn lemma_increasing_is_unique(s: Seq<Seq<char>>, r: Seq<Seq<char>>, keys: Set<Seq<char>>)
    requires
        crate::gguf::metadata::increasing(s),
        crate::gguf::metadata::increasing(r),
        forall|key: Seq<char>| keys.contains(key) <==> #[trigger] s.contains(key),
        forall|key: Seq<char>| keys.contains(key) <==> #[trigger] r.contains(key),
    ensures
        s == r,
    decreases s.len(),
{
    if s.len() == 0 {
        if r.len() > 0 {
            assert(r.contains(r[0]));
            assert(s.contains(r[0]));
        }
        assert(s =~= r);
    } else {
        let x = s.last();
        assert(s[s.len() - 1] == x);
        assert(s.contains(x));
        assert(r.contains(x));
        let y = r.last();
        assert(r[r.len() - 1] == y);
        assert(r.contains(y));
        assert(s.contains(y));
        let i = s.index_of(y);
        let j = r.index_of(x);
        if i < s.len() - 1 {
            assert(text::before(s[i], s[s.len() - 1]));
            if j < r.len() - 1 {
                assert(text::before(r[j], r[r.len() - 1]));
            }
            text::lemma_strict(x, y);
        }
        assert(x == y);
        let p = s.drop_last();
        let q = r.drop_last();
        let fewer = keys.remove(x);
        assert forall|key: Seq<char>| fewer.contains(key) <==> #[trigger] p.contains(key) by {
            lemma_without_last(s, key);
        }
        assert forall|key: Seq<char>| fewer.contains(key) <==> #[trigger] q.contains(key) by {
            lemma_without_last(r, key);
        }
        assert forall|a: int, b: int| 0 <= a < b < p.len() implies text::before(
            #[trigger] p[a],
            #[trigger] p[b],
        ) by {
            assert(p[a] == s[a] && p[b] == s[b]);
        }
        assert forall|a: int, b: int| 0 <= a < b < q.len() implies text::before(
            #[trigger] q[a],
            #[trigger] q[b],
        ) by {
            assert(q[a] == r[a] && q[b] == r[b]);
        }
        lemma_increasing_is_unique(p, q, fewer);
        assert(s =~= p.push(x));
        assert(r =~= q.push(y));
    }
}

/// What is left without the last key of an order.
proof fn lemma_without_last(s: Seq<Seq<char>>, key: Seq<char>)
    requires
        crate::gguf::metadata::increasing(s),
        s.len() > 0,
    ensures
        s.drop_last().contains(key) <==> s.contains(key) && key != s.last(),
{
    let p = s.drop_last();
    if p.contains(key) {
        let i = p.index_of(key);
        assert(s[i] == key);
        assert(text::before(s[i], s[s.len() - 1]));
        text::lemma_strict(key, s.last());
    }
    if s.contains(key) && key != s.last() {
        let i = s.index_of(key);
        assert(p[i] == key);
    }
}

} // verus!
