//! Metadata: a table of typed values by key.

pub mod equality;

use crate::gguf::error;
use crate::gguf::error::{Error, ErrorView};
use crate::gguf::reader;
use crate::gguf::reader::{Read, Reader};
use crate::text;
use vstd::prelude::*;

verus! {

/// Maximum nesting of metadata arrays; 1 is an array that holds no arrays.
pub const MAX_ARRAY_DEPTH: u32 = 8;

/// The types of metadata values, in the order of their codes.
#[derive(Debug, Clone, Copy, PartialEq, Eq, Structural)]
pub enum ValueType {
    U8,
    I8,
    U16,
    I16,
    U32,
    I32,
    F32,
    Bool,
    String,
    Array,
    U64,
    I64,
    F64,
}

impl ValueType {
    /// The code of this type in a file.
    pub open spec fn code(self) -> u32 {
        match self {
            ValueType::U8 => 0,
            ValueType::I8 => 1,
            ValueType::U16 => 2,
            ValueType::I16 => 3,
            ValueType::U32 => 4,
            ValueType::I32 => 5,
            ValueType::F32 => 6,
            ValueType::Bool => 7,
            ValueType::String => 8,
            ValueType::Array => 9,
            ValueType::U64 => 10,
            ValueType::I64 => 11,
            ValueType::F64 => 12,
        }
    }

    /// Convert a code as stored in a file to a type.
    pub fn from_u32(v: u32) -> (r: Result<Self, Error>)
        ensures
            error::seen(r) == type_of_code(v),
    {
        match v {
            0 => Ok(ValueType::U8),
            1 => Ok(ValueType::I8),
            2 => Ok(ValueType::U16),
            3 => Ok(ValueType::I16),
            4 => Ok(ValueType::U32),
            5 => Ok(ValueType::I32),
            6 => Ok(ValueType::F32),
            7 => Ok(ValueType::Bool),
            8 => Ok(ValueType::String),
            9 => Ok(ValueType::Array),
            10 => Ok(ValueType::U64),
            11 => Ok(ValueType::I64),
            12 => Ok(ValueType::F64),
            other => Err(Error::UnknownValueType(other)),
        }
    }

    /// Bytes of a value of this type; strings and arrays have no fixed size.
    pub open spec fn size(self) -> Option<u64> {
        match self {
            ValueType::U8 | ValueType::I8 | ValueType::Bool => Some(1),
            ValueType::U16 | ValueType::I16 => Some(2),
            ValueType::U32 | ValueType::I32 | ValueType::F32 => Some(4),
            ValueType::U64 | ValueType::I64 | ValueType::F64 => Some(8),
            ValueType::String | ValueType::Array => None,
        }
    }

    /// The fixed byte size of a scalar value of this type.
    ///
    /// Returns `None` for `String` and `Array`, which are variable-length.
    pub fn scalar_size(self) -> (r: Option<u64>)
        ensures
            r == self.size(),
    {
        match self {
            ValueType::U8 | ValueType::I8 | ValueType::Bool => Some(1),
            ValueType::U16 | ValueType::I16 => Some(2),
            ValueType::U32 | ValueType::I32 | ValueType::F32 => Some(4),
            ValueType::U64 | ValueType::I64 | ValueType::F64 => Some(8),
            ValueType::String | ValueType::Array => None,
        }
    }
}

impl View for ValueType {
    type V = ValueType;

    open spec fn view(&self) -> ValueType {
        *self
    }
}

/// The type that a code stands for.
pub open spec fn type_of_code(v: u32) -> Result<ValueType, ErrorView> {
    match v {
        0 => Ok(ValueType::U8),
        1 => Ok(ValueType::I8),
        2 => Ok(ValueType::U16),
        3 => Ok(ValueType::I16),
        4 => Ok(ValueType::U32),
        5 => Ok(ValueType::I32),
        6 => Ok(ValueType::F32),
        7 => Ok(ValueType::Bool),
        8 => Ok(ValueType::String),
        9 => Ok(ValueType::Array),
        10 => Ok(ValueType::U64),
        11 => Ok(ValueType::I64),
        12 => Ok(ValueType::F64),
        _ => Err(ErrorView::UnknownValueType(v)),
    }
}

/// Every type is read back from its code, and no other code is recognized.
pub proof fn law_type_codes(ty: ValueType, v: u32)
    ensures
        type_of_code(ty.code()) == Ok::<ValueType, ErrorView>(ty),
        type_of_code(v) == Ok::<ValueType, ErrorView>(ty) <==> v == ty.code(),
{
}

/// A metadata value. Floating-point values are kept as their bits.
#[derive(Debug)]
pub enum Value {
    U8(u8),
    I8(i8),
    U16(u16),
    I16(i16),
    U32(u32),
    I32(i32),
    F32(u32),
    Bool(bool),
    String(String),
    U64(u64),
    I64(i64),
    F64(u64),
    Array(Array),
}

/// An array of values of one type. Floating-point values are kept as their bits.
#[derive(Debug)]
pub enum Array {
    U8(Vec<u8>),
    I8(Vec<i8>),
    U16(Vec<u16>),
    I16(Vec<i16>),
    U32(Vec<u32>),
    I32(Vec<i32>),
    F32(Vec<u32>),
    Bool(Vec<bool>),
    String(Vec<String>),
    U64(Vec<u64>),
    I64(Vec<i64>),
    F64(Vec<u64>),
    /// Nested arrays.
    Array(Vec<Array>),
}

/// What a value is, with text as characters and arrays as sequences.
#[verifier::ext_equal]
pub enum ValueView {
    U8(u8),
    I8(i8),
    U16(u16),
    I16(i16),
    U32(u32),
    I32(i32),
    F32(u32),
    Bool(bool),
    String(Seq<char>),
    U64(u64),
    I64(i64),
    F64(u64),
    Array { item: ValueType, items: Seq<ValueView> },
}

impl View for Array {
    type V = ValueView;

    open spec fn view(&self) -> ValueView {
        ValueView::Array { item: self.item(), items: self.items() }
    }
}

impl Array {
    /// The type of the elements.
    pub open spec fn item(&self) -> ValueType {
        match *self {
            Array::U8(_) => ValueType::U8,
            Array::I8(_) => ValueType::I8,
            Array::U16(_) => ValueType::U16,
            Array::I16(_) => ValueType::I16,
            Array::U32(_) => ValueType::U32,
            Array::I32(_) => ValueType::I32,
            Array::F32(_) => ValueType::F32,
            Array::Bool(_) => ValueType::Bool,
            Array::String(_) => ValueType::String,
            Array::U64(_) => ValueType::U64,
            Array::I64(_) => ValueType::I64,
            Array::F64(_) => ValueType::F64,
            Array::Array(_) => ValueType::Array,
        }
    }

    /// The elements.
    pub open spec fn items(&self) -> Seq<ValueView>
        decreases *self, 0nat,
    {
        match *self {
            Array::U8(v) => Seq::new(v@.len(), |i: int| ValueView::U8(v@[i])),
            Array::I8(v) => Seq::new(v@.len(), |i: int| ValueView::I8(v@[i])),
            Array::U16(v) => Seq::new(v@.len(), |i: int| ValueView::U16(v@[i])),
            Array::I16(v) => Seq::new(v@.len(), |i: int| ValueView::I16(v@[i])),
            Array::U32(v) => Seq::new(v@.len(), |i: int| ValueView::U32(v@[i])),
            Array::I32(v) => Seq::new(v@.len(), |i: int| ValueView::I32(v@[i])),
            Array::F32(v) => Seq::new(v@.len(), |i: int| ValueView::F32(v@[i])),
            Array::Bool(v) => Seq::new(v@.len(), |i: int| ValueView::Bool(v@[i])),
            Array::String(v) => Seq::new(v@.len(), |i: int| ValueView::String(v@[i]@)),
            Array::U64(v) => Seq::new(v@.len(), |i: int| ValueView::U64(v@[i])),
            Array::I64(v) => Seq::new(v@.len(), |i: int| ValueView::I64(v@[i])),
            Array::F64(v) => Seq::new(v@.len(), |i: int| ValueView::F64(v@[i])),
            Array::Array(v) => Self::nested(v),
        }
    }

    /// The elements of an array of arrays.
    pub open spec fn nested(v: Vec<Array>) -> Seq<ValueView>
        decreases v, 1nat,
    {
        Seq::new(
            v@.len(),
            |i: int|
                if 0 <= i < v@.len() {
                    ValueView::Array { item: v[i].item(), items: v[i].items() }
                } else {
                    arbitrary()
                },
        )
    }
}

/// A value that is no array, at a position.
pub open spec fn scalar_at(data: Seq<u8>, at: nat, ty: ValueType) -> Read<ValueView> {
    match ty {
        ValueType::U8 => match reader::u8_at(data, at) {
            (Ok(v), next) => (Ok(ValueView::U8(v)), next),
            (Err(e), next) => (Err(e), next),
        },
        ValueType::I8 => match reader::i8_at(data, at) {
            (Ok(v), next) => (Ok(ValueView::I8(v)), next),
            (Err(e), next) => (Err(e), next),
        },
        ValueType::U16 => match reader::u16_at(data, at) {
            (Ok(v), next) => (Ok(ValueView::U16(v)), next),
            (Err(e), next) => (Err(e), next),
        },
        ValueType::I16 => match reader::i16_at(data, at) {
            (Ok(v), next) => (Ok(ValueView::I16(v)), next),
            (Err(e), next) => (Err(e), next),
        },
        ValueType::U32 => match reader::u32_at(data, at) {
            (Ok(v), next) => (Ok(ValueView::U32(v)), next),
            (Err(e), next) => (Err(e), next),
        },
        ValueType::I32 => match reader::i32_at(data, at) {
            (Ok(v), next) => (Ok(ValueView::I32(v)), next),
            (Err(e), next) => (Err(e), next),
        },
        ValueType::F32 => match reader::u32_at(data, at) {
            (Ok(v), next) => (Ok(ValueView::F32(v)), next),
            (Err(e), next) => (Err(e), next),
        },
        ValueType::Bool => match reader::bool_at(data, at) {
            (Ok(v), next) => (Ok(ValueView::Bool(v)), next),
            (Err(e), next) => (Err(e), next),
        },
        ValueType::String => match reader::str_at(data, at) {
            (Ok(v), next) => (Ok(ValueView::String(v)), next),
            (Err(e), next) => (Err(e), next),
        },
        ValueType::U64 => match reader::u64_at(data, at) {
            (Ok(v), next) => (Ok(ValueView::U64(v)), next),
            (Err(e), next) => (Err(e), next),
        },
        ValueType::I64 => match reader::i64_at(data, at) {
            (Ok(v), next) => (Ok(ValueView::I64(v)), next),
            (Err(e), next) => (Err(e), next),
        },
        ValueType::F64 => match reader::u64_at(data, at) {
            (Ok(v), next) => (Ok(ValueView::F64(v)), next),
            (Err(e), next) => (Err(e), next),
        },
        ValueType::Array => arbitrary(),
    }
}

/// A value at a position, where an array would be nested `depth` deep.
pub open spec fn value_at(data: Seq<u8>, at: nat, ty: ValueType, depth: nat) -> Read<ValueView>
    decreases (MAX_ARRAY_DEPTH + 1 - depth), 2int, 0int,
{
    if ty == ValueType::Array {
        array_at(data, at, depth)
    } else {
        scalar_at(data, at, ty)
    }
}

/// What the declared length of an array is refused for, if it is.
pub open spec fn length_error(item: ValueType, len: u64) -> Option<ErrorView> {
    match item.size() {
        Some(size) if len > u64::MAX / size || len > usize::MAX => Some(
            ErrorView::ArrayTooLarge { len: len as nat, item_size: size as nat },
        ),
        None if len > usize::MAX => Some(
            ErrorView::ArrayTooLarge { len: len as nat, item_size: 0 },
        ),
        _ => None,
    }
}

/// An array at a position: the code of its element type, the number of
/// elements, and the elements.
pub open spec fn array_at(data: Seq<u8>, at: nat, depth: nat) -> Read<ValueView>
    decreases (MAX_ARRAY_DEPTH + 1 - depth), 1int, 0int,
{
    if depth > MAX_ARRAY_DEPTH {
        (Err(ErrorView::NestingTooDeep), at)
    } else {
        match reader::u32_at(data, at) {
            (Err(e), next) => (Err(e), next),
            (Ok(code), length_at) => match type_of_code(code) {
                Err(e) => (Err(e), length_at),
                Ok(item) => match reader::u64_at(data, length_at) {
                    (Err(e), next) => (Err(e), next),
                    (Ok(len), start) => match length_error(item, len) {
                        Some(e) => (Err(e), start),
                        None => match items_at(data, start, item, len as nat, depth + 1) {
                            (Ok(items), next) => (Ok(ValueView::Array { item, items }), next),
                            (Err(e), next) => (Err(e), next),
                        },
                    },
                },
            },
        }
    }
}

/// `n` values in a row; the first error ends the read.
pub open spec fn items_at(data: Seq<u8>, at: nat, ty: ValueType, n: nat, depth: nat) -> Read<
    Seq<ValueView>,
>
    decreases (MAX_ARRAY_DEPTH + 1 - depth), 3int, n,
{
    if n == 0 {
        (Ok(Seq::empty()), at)
    } else {
        match items_at(data, at, ty, (n - 1) as nat, depth) {
            (Err(e), next) => (Err(e), next),
            (Ok(items), next) => match value_at(data, next, ty, depth) {
                (Ok(v), after) => (Ok(items.push(v)), after),
                (Err(e), after) => (Err(e), after),
            },
        }
    }
}

/// An error among the first elements is the error of the whole array.
proof fn lemma_items_error(data: Seq<u8>, at: nat, ty: ValueType, k: nat, n: nat, depth: nat)
    requires
        k <= n,
        items_at(data, at, ty, k, depth).0 is Err,
    ensures
        items_at(data, at, ty, n, depth) == items_at(data, at, ty, k, depth),
    decreases n,
{
    if k < n {
        lemma_items_error(data, at, ty, k, (n - 1) as nat, depth);
    }
}

/// Whether arrays are nested at most `levels` deep in a value.
pub open spec fn within(v: ValueView, levels: nat) -> bool
    decreases levels,
{
    match v {
        ValueView::Array { item, items } => levels > 0 && forall|i: int|
            0 <= i < items.len() ==> within(#[trigger] items[i], (levels - 1) as nat),
        _ => true,
    }
}

/// Whatever the bytes are, the value that is read of them nests its arrays at
/// most [`MAX_ARRAY_DEPTH`] deep.
pub proof fn law_nesting_is_bounded(data: Seq<u8>, at: nat, ty: ValueType)
    requires
        value_at(data, at, ty, 1).0 is Ok,
    ensures
        within(value_at(data, at, ty, 1).0->Ok_0, MAX_ARRAY_DEPTH as nat),
{
    lemma_value_nesting(data, at, ty, 1);
}

proof fn lemma_value_nesting(data: Seq<u8>, at: nat, ty: ValueType, depth: nat)
    requires
        depth <= MAX_ARRAY_DEPTH + 1,
        value_at(data, at, ty, depth).0 is Ok,
    ensures
        within(value_at(data, at, ty, depth).0->Ok_0, (MAX_ARRAY_DEPTH + 1 - depth) as nat),
    decreases (MAX_ARRAY_DEPTH + 1 - depth), 1int, 0int,
{
    if ty == ValueType::Array {
        let (code, length_at) = reader::u32_at(data, at);
        let item = type_of_code(code->Ok_0)->Ok_0;
        let (len, start) = reader::u64_at(data, length_at);
        lemma_items_nesting(data, start, item, len->Ok_0 as nat, depth + 1);
    }
}

proof fn lemma_items_nesting(data: Seq<u8>, at: nat, ty: ValueType, n: nat, depth: nat)
    requires
        depth <= MAX_ARRAY_DEPTH + 1,
        items_at(data, at, ty, n, depth).0 is Ok,
    ensures
        forall|i: int|
            0 <= i < items_at(data, at, ty, n, depth).0->Ok_0.len() ==> within(
                #[trigger] items_at(data, at, ty, n, depth).0->Ok_0[i],
                (MAX_ARRAY_DEPTH + 1 - depth) as nat,
            ),
    decreases (MAX_ARRAY_DEPTH + 1 - depth), 2int, n,
{
    if n > 0 {
        lemma_items_nesting(data, at, ty, (n - 1) as nat, depth);
        let (items, next) = items_at(data, at, ty, (n - 1) as nat, depth);
        lemma_value_nesting(data, next, ty, depth);
    }
}

/// How the elements of one type are read and what they are.
trait Item {
    type Out;

    spec fn ty() -> ValueType;

    spec fn shown(x: Self::Out) -> ValueView;

    fn read(reader: &mut Reader<'_>) -> (r: Result<Self::Out, Error>)
        requires
            old(reader).wf(),
        ensures
            Self::ty() != ValueType::Array,
            final(reader).wf(),
            final(reader).bytes() == old(reader).bytes(),
            final(reader).at() == scalar_at(old(reader).bytes(), old(reader).at(), Self::ty()).1,
            match r {
                Ok(x) => scalar_at(old(reader).bytes(), old(reader).at(), Self::ty()).0 == Ok::<
                    ValueView,
                    ErrorView,
                >(Self::shown(x)),
                Err(e) => scalar_at(old(reader).bytes(), old(reader).at(), Self::ty()).0 == Err::<
                    ValueView,
                    ErrorView,
                >(e@),
            },
    ;
}

struct U8Item;

impl Item for U8Item {
    type Out = u8;

    spec fn ty() -> ValueType {
        ValueType::U8
    }

    spec fn shown(x: u8) -> ValueView {
        ValueView::U8(x)
    }

    fn read(reader: &mut Reader<'_>) -> (r: Result<u8, Error>) {
        reader.read_u8()
    }
}

struct I8Item;

impl Item for I8Item {
    type Out = i8;

    spec fn ty() -> ValueType {
        ValueType::I8
    }

    spec fn shown(x: i8) -> ValueView {
        ValueView::I8(x)
    }

    fn read(reader: &mut Reader<'_>) -> (r: Result<i8, Error>) {
        reader.read_i8()
    }
}

struct U16Item;

impl Item for U16Item {
    type Out = u16;

    spec fn ty() -> ValueType {
        ValueType::U16
    }

    spec fn shown(x: u16) -> ValueView {
        ValueView::U16(x)
    }

    fn read(reader: &mut Reader<'_>) -> (r: Result<u16, Error>) {
        reader.read_u16_le()
    }
}

struct I16Item;

impl Item for I16Item {
    type Out = i16;

    spec fn ty() -> ValueType {
        ValueType::I16
    }

    spec fn shown(x: i16) -> ValueView {
        ValueView::I16(x)
    }

    fn read(reader: &mut Reader<'_>) -> (r: Result<i16, Error>) {
        reader.read_i16_le()
    }
}

struct U32Item;

impl Item for U32Item {
    type Out = u32;

    spec fn ty() -> ValueType {
        ValueType::U32
    }

    spec fn shown(x: u32) -> ValueView {
        ValueView::U32(x)
    }

    fn read(reader: &mut Reader<'_>) -> (r: Result<u32, Error>) {
        reader.read_u32_le()
    }
}

struct I32Item;

impl Item for I32Item {
    type Out = i32;

    spec fn ty() -> ValueType {
        ValueType::I32
    }

    spec fn shown(x: i32) -> ValueView {
        ValueView::I32(x)
    }

    fn read(reader: &mut Reader<'_>) -> (r: Result<i32, Error>) {
        reader.read_i32_le()
    }
}

struct F32Item;

impl Item for F32Item {
    type Out = u32;

    spec fn ty() -> ValueType {
        ValueType::F32
    }

    spec fn shown(x: u32) -> ValueView {
        ValueView::F32(x)
    }

    fn read(reader: &mut Reader<'_>) -> (r: Result<u32, Error>) {
        reader.read_f32_le()
    }
}

struct BoolItem;

impl Item for BoolItem {
    type Out = bool;

    spec fn ty() -> ValueType {
        ValueType::Bool
    }

    spec fn shown(x: bool) -> ValueView {
        ValueView::Bool(x)
    }

    fn read(reader: &mut Reader<'_>) -> (r: Result<bool, Error>) {
        reader.read_bool()
    }
}

struct StringItem;

impl Item for StringItem {
    type Out = String;

    spec fn ty() -> ValueType {
        ValueType::String
    }

    spec fn shown(x: String) -> ValueView {
        ValueView::String(x@)
    }

    fn read(reader: &mut Reader<'_>) -> (r: Result<String, Error>) {
        match reader.read_str() {
            Ok(s) => Ok(s.to_owned()),
            Err(e) => Err(e),
        }
    }
}

struct U64Item;

impl Item for U64Item {
    type Out = u64;

    spec fn ty() -> ValueType {
        ValueType::U64
    }

    spec fn shown(x: u64) -> ValueView {
        ValueView::U64(x)
    }

    fn read(reader: &mut Reader<'_>) -> (r: Result<u64, Error>) {
        reader.read_u64_le()
    }
}

struct I64Item;

impl Item for I64Item {
    type Out = i64;

    spec fn ty() -> ValueType {
        ValueType::I64
    }

    spec fn shown(x: i64) -> ValueView {
        ValueView::I64(x)
    }

    fn read(reader: &mut Reader<'_>) -> (r: Result<i64, Error>) {
        reader.read_i64_le()
    }
}

struct F64Item;

impl Item for F64Item {
    type Out = u64;

    spec fn ty() -> ValueType {
        ValueType::F64
    }

    spec fn shown(x: u64) -> ValueView {
        ValueView::F64(x)
    }

    fn read(reader: &mut Reader<'_>) -> (r: Result<u64, Error>) {
        reader.read_f64_le()
    }
}

/// Elements as values.
spec fn shown_all<T: Item>(v: Seq<T::Out>) -> Seq<ValueView> {
    Seq::new(v.len(), |i: int| T::shown(v[i]))
}

/// Read `len` elements that are no arrays.
fn read_items<T: Item>(reader: &mut Reader<'_>, len: u64, Ghost(depth): Ghost<nat>) -> (r: Result<
    Vec<T::Out>,
    Error,
>)
    requires
        old(reader).wf(),
        T::ty() != ValueType::Array,
    ensures
        final(reader).wf(),
        final(reader).bytes() == old(reader).bytes(),
        final(reader).at() == items_at(
            old(reader).bytes(),
            old(reader).at(),
            T::ty(),
            len as nat,
            depth,
        ).1,
        match r {
            Ok(v) => items_at(old(reader).bytes(), old(reader).at(), T::ty(), len as nat, depth).0
                == Ok::<Seq<ValueView>, ErrorView>(shown_all::<T>(v@)),
            Err(e) => items_at(old(reader).bytes(), old(reader).at(), T::ty(), len as nat, depth).0
                == Err::<Seq<ValueView>, ErrorView>(e@),
        },
{
    let ghost data = reader.bytes();
    let ghost start = reader.at();
    let mut out: Vec<T::Out> = Vec::new();
    let mut i: u64 = 0;
    assert(shown_all::<T>(out@) =~= Seq::empty());
    while i < len
        invariant
            T::ty() != ValueType::Array,
            data == old(reader).bytes(),
            start == old(reader).at(),
            i <= len,
            reader.wf(),
            reader.bytes() == data,
            items_at(data, start, T::ty(), i as nat, depth) == (
                Ok::<Seq<ValueView>, ErrorView>(shown_all::<T>(out@)),
                reader.at(),
            ),
        decreases len - i,
    {
        let ghost before = out@;
        let ghost at = reader.at();
        assert(value_at(data, at, T::ty(), depth) == scalar_at(data, at, T::ty()));
        assert(items_at(data, start, T::ty(), (i + 1) as nat, depth) == match value_at(
            data,
            at,
            T::ty(),
            depth,
        ) {
            (Ok(v), after) => (Ok(shown_all::<T>(before).push(v)), after),
            (Err(e), after) => (Err(e), after),
        });
        match T::read(reader) {
            Ok(x) => {
                out.push(x);
                assert(shown_all::<T>(out@) =~= shown_all::<T>(before).push(T::shown(x)));
            },
            Err(e) => {
                proof {
                    lemma_items_error(data, start, T::ty(), (i + 1) as nat, len as nat, depth);
                }
                return Err(e);
            },
        }
        i = i + 1;
    }
    Ok(out)
}

/// Read an array whose own type code was read already. `depth` is the nesting
/// of the array; 1 is an array that is in no other.
pub fn parse_array(reader: &mut Reader<'_>, depth: u32) -> (r: Result<Array, Error>)
    requires
        old(reader).wf(),
    ensures
        final(reader).has_read(
            old(reader),
            r,
            array_at(old(reader).bytes(), old(reader).at(), depth as nat),
        ),
    decreases MAX_ARRAY_DEPTH + 1 - depth,
{
    if depth > MAX_ARRAY_DEPTH {
        return Err(Error::NestingTooDeep);
    }
    let code: u32 = match reader.read_u32_le() {
        Ok(v) => v,
        Err(e) => return Err(e),
    };
    let item: ValueType = match ValueType::from_u32(code) {
        Ok(t) => t,
        Err(e) => return Err(e),
    };
    let len: u64 = match reader.read_u64_le() {
        Ok(v) => v,
        Err(e) => return Err(e),
    };
    match item.scalar_size() {
        Some(size) => {
            if len > u64::MAX / size || len > usize::MAX as u64 {
                return Err(Error::ArrayTooLarge { len, item_size: size });
            }
        },
        None => {
            if len > usize::MAX as u64 {
                return Err(Error::ArrayTooLarge { len, item_size: 0 });
            }
        },
    }
    let ghost inner = (depth + 1) as nat;
    match item {
        ValueType::U8 => match read_items::<U8Item>(reader, len, Ghost(inner)) {
            Ok(v) => {
                let a: Array = Array::U8(v);
                assert(a.items() =~= shown_all::<U8Item>(v@));
                Ok(a)
            },
            Err(e) => Err(e),
        },
        ValueType::I8 => match read_items::<I8Item>(reader, len, Ghost(inner)) {
            Ok(v) => {
                let a: Array = Array::I8(v);
                assert(a.items() =~= shown_all::<I8Item>(v@));
                Ok(a)
            },
            Err(e) => Err(e),
        },
        ValueType::U16 => match read_items::<U16Item>(reader, len, Ghost(inner)) {
            Ok(v) => {
                let a: Array = Array::U16(v);
                assert(a.items() =~= shown_all::<U16Item>(v@));
                Ok(a)
            },
            Err(e) => Err(e),
        },
        ValueType::I16 => match read_items::<I16Item>(reader, len, Ghost(inner)) {
            Ok(v) => {
                let a: Array = Array::I16(v);
                assert(a.items() =~= shown_all::<I16Item>(v@));
                Ok(a)
            },
            Err(e) => Err(e),
        },
        ValueType::U32 => match read_items::<U32Item>(reader, len, Ghost(inner)) {
            Ok(v) => {
                let a: Array = Array::U32(v);
                assert(a.items() =~= shown_all::<U32Item>(v@));
                Ok(a)
            },
            Err(e) => Err(e),
        },
        ValueType::I32 => match read_items::<I32Item>(reader, len, Ghost(inner)) {
            Ok(v) => {
                let a: Array = Array::I32(v);
                assert(a.items() =~= shown_all::<I32Item>(v@));
                Ok(a)
            },
            Err(e) => Err(e),
        },
        ValueType::F32 => match read_items::<F32Item>(reader, len, Ghost(inner)) {
            Ok(v) => {
                let a: Array = Array::F32(v);
                assert(a.items() =~= shown_all::<F32Item>(v@));
                Ok(a)
            },
            Err(e) => Err(e),
        },
        ValueType::Bool => match read_items::<BoolItem>(reader, len, Ghost(inner)) {
            Ok(v) => {
                let a: Array = Array::Bool(v);
                assert(a.items() =~= shown_all::<BoolItem>(v@));
                Ok(a)
            },
            Err(e) => Err(e),
        },
        ValueType::String => match read_items::<StringItem>(reader, len, Ghost(inner)) {
            Ok(v) => {
                let a: Array = Array::String(v);
                assert(a.items() =~= shown_all::<StringItem>(v@));
                Ok(a)
            },
            Err(e) => Err(e),
        },
        ValueType::U64 => match read_items::<U64Item>(reader, len, Ghost(inner)) {
            Ok(v) => {
                let a: Array = Array::U64(v);
                assert(a.items() =~= shown_all::<U64Item>(v@));
                Ok(a)
            },
            Err(e) => Err(e),
        },
        ValueType::I64 => match read_items::<I64Item>(reader, len, Ghost(inner)) {
            Ok(v) => {
                let a: Array = Array::I64(v);
                assert(a.items() =~= shown_all::<I64Item>(v@));
                Ok(a)
            },
            Err(e) => Err(e),
        },
        ValueType::F64 => match read_items::<F64Item>(reader, len, Ghost(inner)) {
            Ok(v) => {
                let a: Array = Array::F64(v);
                assert(a.items() =~= shown_all::<F64Item>(v@));
                Ok(a)
            },
            Err(e) => Err(e),
        },
        ValueType::Array => {
            let ghost data = reader.bytes();
            let ghost start = reader.at();
            let mut out: Vec<Array> = Vec::new();
            let mut i: u64 = 0;
            assert(Array::nested(out) =~= Seq::empty());
            while i < len
                invariant
                    depth <= MAX_ARRAY_DEPTH,
                    inner == depth + 1,
                    data == old(reader).bytes(),
                    array_at(data, old(reader).at(), depth as nat) == match items_at(
                        data,
                        start,
                        ValueType::Array,
                        len as nat,
                        inner,
                    ) {
                        (Ok(items), next) => (
                            Ok(ValueView::Array { item: ValueType::Array, items }),
                            next,
                        ),
                        (Err(e), next) => (Err(e), next),
                    },
                    i <= len,
                    reader.wf(),
                    reader.bytes() == data,
                    items_at(data, start, ValueType::Array, i as nat, inner) == (
                        Ok::<Seq<ValueView>, ErrorView>(Array::nested(out)),
                        reader.at(),
                    ),
                decreases len - i,
            {
                let ghost before = out;
                let ghost at = reader.at();
                assert(value_at(data, at, ValueType::Array, inner) == array_at(data, at, inner));
                assert(items_at(data, start, ValueType::Array, (i + 1) as nat, inner)
                    == match value_at(data, at, ValueType::Array, inner) {
                    (Ok(v), after) => (Ok(Array::nested(before).push(v)), after),
                    (Err(e), after) => (Err(e), after),
                });
                match parse_array(reader, depth + 1) {
                    Ok(a) => {
                        out.push(a);
                        assert(Array::nested(out) =~= Array::nested(before).push(a@));
                    },
                    Err(e) => {
                        proof {
                            lemma_items_error(
                                data,
                                start,
                                ValueType::Array,
                                (i + 1) as nat,
                                len as nat,
                                inner,
                            );
                        }
                        return Err(e);
                    },
                }
                i = i + 1;
            }
            Ok(Array::Array(out))
        },
    }
}


/// Read a value of a metadata entry.
pub fn parse_value(reader: &mut Reader<'_>, ty: ValueType) -> (r: Result<Value, Error>)
    requires
        old(reader).wf(),
    ensures
        final(reader).has_read(
            old(reader),
            r,
            value_at(old(reader).bytes(), old(reader).at(), ty, 1),
        ),
{
    match ty {
        ValueType::U8 => match reader.read_u8() {
            Ok(v) => Ok(Value::U8(v)),
            Err(e) => Err(e),
        },
        ValueType::I8 => match reader.read_i8() {
            Ok(v) => Ok(Value::I8(v)),
            Err(e) => Err(e),
        },
        ValueType::U16 => match reader.read_u16_le() {
            Ok(v) => Ok(Value::U16(v)),
            Err(e) => Err(e),
        },
        ValueType::I16 => match reader.read_i16_le() {
            Ok(v) => Ok(Value::I16(v)),
            Err(e) => Err(e),
        },
        ValueType::U32 => match reader.read_u32_le() {
            Ok(v) => Ok(Value::U32(v)),
            Err(e) => Err(e),
        },
        ValueType::I32 => match reader.read_i32_le() {
            Ok(v) => Ok(Value::I32(v)),
            Err(e) => Err(e),
        },
        ValueType::F32 => match reader.read_f32_le() {
            Ok(v) => Ok(Value::F32(v)),
            Err(e) => Err(e),
        },
        ValueType::Bool => match reader.read_bool() {
            Ok(v) => Ok(Value::Bool(v)),
            Err(e) => Err(e),
        },
        ValueType::String => match reader.read_str() {
            Ok(s) => Ok(Value::String(s.to_owned())),
            Err(e) => Err(e),
        },
        ValueType::U64 => match reader.read_u64_le() {
            Ok(v) => Ok(Value::U64(v)),
            Err(e) => Err(e),
        },
        ValueType::I64 => match reader.read_i64_le() {
            Ok(v) => Ok(Value::I64(v)),
            Err(e) => Err(e),
        },
        ValueType::F64 => match reader.read_f64_le() {
            Ok(v) => Ok(Value::F64(v)),
            Err(e) => Err(e),
        },
        ValueType::Array => match parse_array(reader, 1) {
            Ok(a) => Ok(Value::Array(a)),
            Err(e) => Err(e),
        },
    }
}

impl View for Value {
    type V = ValueView;

    open spec fn view(&self) -> ValueView {
        match *self {
            Value::U8(v) => ValueView::U8(v),
            Value::I8(v) => ValueView::I8(v),
            Value::U16(v) => ValueView::U16(v),
            Value::I16(v) => ValueView::I16(v),
            Value::U32(v) => ValueView::U32(v),
            Value::I32(v) => ValueView::I32(v),
            Value::F32(v) => ValueView::F32(v),
            Value::Bool(v) => ValueView::Bool(v),
            Value::String(v) => ValueView::String(v@),
            Value::U64(v) => ValueView::U64(v),
            Value::I64(v) => ValueView::I64(v),
            Value::F64(v) => ValueView::F64(v),
            Value::Array(v) => v@,
        }
    }
}

impl ValueView {
    /// The type of a value.
    pub open spec fn ty(self) -> ValueType {
        match self {
            ValueView::U8(_) => ValueType::U8,
            ValueView::I8(_) => ValueType::I8,
            ValueView::U16(_) => ValueType::U16,
            ValueView::I16(_) => ValueType::I16,
            ValueView::U32(_) => ValueType::U32,
            ValueView::I32(_) => ValueType::I32,
            ValueView::F32(_) => ValueType::F32,
            ValueView::Bool(_) => ValueType::Bool,
            ValueView::String(_) => ValueType::String,
            ValueView::U64(_) => ValueType::U64,
            ValueView::I64(_) => ValueType::I64,
            ValueView::F64(_) => ValueType::F64,
            ValueView::Array { .. } => ValueType::Array,
        }
    }

    /// An unsigned value of any width.
    pub open spec fn unsigned(self) -> Option<nat> {
        match self {
            ValueView::U8(v) => Some(v as nat),
            ValueView::U16(v) => Some(v as nat),
            ValueView::U32(v) => Some(v as nat),
            ValueView::U64(v) => Some(v as nat),
            _ => None,
        }
    }

    /// An unsigned value that fits 32 bits.
    pub open spec fn narrow(self) -> Option<u32> {
        match self.unsigned() {
            Some(v) if v <= u32::MAX => Some(v as u32),
            _ => None,
        }
    }

    /// An unsigned value as 64 bits.
    pub open spec fn wide(self) -> Option<u64> {
        match self.unsigned() {
            Some(v) => Some(v as u64),
            None => None,
        }
    }

    /// The bits of a single-precision value.
    pub open spec fn single(self) -> Option<u32> {
        match self {
            ValueView::F32(v) => Some(v),
            _ => None,
        }
    }

    /// A boolean value.
    pub open spec fn truth(self) -> Option<bool> {
        match self {
            ValueView::Bool(v) => Some(v),
            _ => None,
        }
    }
}

impl Value {
    /// The type of this value.
    pub fn ty(&self) -> (t: ValueType)
        ensures
            t == self@.ty(),
    {
        match self {
            Value::U8(_) => ValueType::U8,
            Value::I8(_) => ValueType::I8,
            Value::U16(_) => ValueType::U16,
            Value::I16(_) => ValueType::I16,
            Value::U32(_) => ValueType::U32,
            Value::I32(_) => ValueType::I32,
            Value::F32(_) => ValueType::F32,
            Value::Bool(_) => ValueType::Bool,
            Value::String(_) => ValueType::String,
            Value::U64(_) => ValueType::U64,
            Value::I64(_) => ValueType::I64,
            Value::F64(_) => ValueType::F64,
            Value::Array(_) => ValueType::Array,
        }
    }

    /// Borrow this value as a string if it is one.
    pub fn as_str(&self) -> (r: Option<&str>)
        ensures
            match r {
                Some(s) => self@ == ValueView::String(s@),
                None => self@.ty() != ValueType::String,
            },
    {
        match self {
            Value::String(s) => Some(s.as_str()),
            _ => None,
        }
    }

    /// Read this value as `u32`, widening narrower unsigned types.
    ///
    /// Returns `None` if the value is no unsigned number or out of range.
    pub fn as_u32(&self) -> (r: Option<u32>)
        ensures
            r == self@.narrow(),
    {
        match self {
            Value::U8(v) => Some(*v as u32),
            Value::U16(v) => Some(*v as u32),
            Value::U32(v) => Some(*v),
            Value::U64(v) => if *v <= u32::MAX as u64 {
                Some(*v as u32)
            } else {
                None
            },
            _ => None,
        }
    }

    /// Read this value as `u64`, widening narrower unsigned types.
    pub fn as_u64(&self) -> (r: Option<u64>)
        ensures
            r == self@.wide(),
    {
        match self {
            Value::U8(v) => Some(*v as u64),
            Value::U16(v) => Some(*v as u64),
            Value::U32(v) => Some(*v as u64),
            Value::U64(v) => Some(*v),
            _ => None,
        }
    }

    /// The bits of this value if it is a single-precision number.
    pub fn as_f32(&self) -> (r: Option<u32>)
        ensures
            r == self@.single(),
    {
        match self {
            Value::F32(v) => Some(*v),
            _ => None,
        }
    }

    /// Read this value as `bool`.
    pub fn as_bool(&self) -> (r: Option<bool>)
        ensures
            r == self@.truth(),
    {
        match self {
            Value::Bool(v) => Some(*v),
            _ => None,
        }
    }
}

impl Array {
    /// The element type of this array.
    pub fn item_type(&self) -> (t: ValueType)
        ensures
            t == self.item(),
    {
        match self {
            Array::U8(_) => ValueType::U8,
            Array::I8(_) => ValueType::I8,
            Array::U16(_) => ValueType::U16,
            Array::I16(_) => ValueType::I16,
            Array::U32(_) => ValueType::U32,
            Array::I32(_) => ValueType::I32,
            Array::F32(_) => ValueType::F32,
            Array::Bool(_) => ValueType::Bool,
            Array::String(_) => ValueType::String,
            Array::U64(_) => ValueType::U64,
            Array::I64(_) => ValueType::I64,
            Array::F64(_) => ValueType::F64,
            Array::Array(_) => ValueType::Array,
        }
    }

    /// Number of elements in this array.
    pub fn len(&self) -> (n: usize)
        ensures
            n == self.items().len(),
    {
        match self {
            Array::U8(v) => v.len(),
            Array::I8(v) => v.len(),
            Array::U16(v) => v.len(),
            Array::I16(v) => v.len(),
            Array::U32(v) => v.len(),
            Array::I32(v) => v.len(),
            Array::F32(v) => v.len(),
            Array::Bool(v) => v.len(),
            Array::String(v) => v.len(),
            Array::U64(v) => v.len(),
            Array::I64(v) => v.len(),
            Array::F64(v) => v.len(),
            Array::Array(v) => v.len(),
        }
    }

    /// Whether this array is empty.
    pub fn is_empty(&self) -> (r: bool)
        ensures
            r == (self.items().len() == 0),
    {
        self.len() == 0
    }
}

/// A metadata table, in the order of the keys.
#[derive(Debug)]
pub struct Metadata {
    entries: Vec<(String, Value)>,
}

/// Keys in strictly increasing order.
pub open spec fn increasing(keys: Seq<Seq<char>>) -> bool {
    forall|i: int, j: int|
        0 <= i < j < keys.len() ==> text::before(#[trigger] keys[i], #[trigger] keys[j])
}

/// A table of `n` entries in a row; a later entry replaces one with the same
/// key, and the first error ends the read.
pub open spec fn table_at(data: Seq<u8>, at: nat, n: nat) -> Read<Map<Seq<char>, ValueView>>
    decreases n,
{
    if n == 0 {
        (Ok(Map::empty()), at)
    } else {
        match table_at(data, at, (n - 1) as nat) {
            (Err(e), next) => (Err(e), next),
            (Ok(table), next) => match entry_at(data, next) {
                (Ok((key, value)), after) => (Ok(table.insert(key, value)), after),
                (Err(e), after) => (Err(e), after),
            },
        }
    }
}

/// One entry: a key, the code of a type and a value.
pub open spec fn entry_at(data: Seq<u8>, at: nat) -> Read<(Seq<char>, ValueView)> {
    match reader::str_at(data, at) {
        (Err(e), next) => (Err(e), next),
        (Ok(key), code_at) => match reader::u32_at(data, code_at) {
            (Err(e), next) => (Err(e), next),
            (Ok(code), value_start) => match type_of_code(code) {
                Err(e) => (Err(e), value_start),
                Ok(ty) => match value_at(data, value_start, ty, 1) {
                    (Ok(value), next) => (Ok((key, value)), next),
                    (Err(e), next) => (Err(e), next),
                },
            },
        },
    }
}

/// An error among the first entries is the error of the whole table.
proof fn lemma_table_error(data: Seq<u8>, at: nat, k: nat, n: nat)
    requires
        k <= n,
        table_at(data, at, k).0 is Err,
    ensures
        table_at(data, at, n) == table_at(data, at, k),
    decreases n,
{
    if k < n {
        lemma_table_error(data, at, k, (n - 1) as nat);
    }
}

impl View for Metadata {
    type V = Map<Seq<char>, ValueView>;

    closed spec fn view(&self) -> Map<Seq<char>, ValueView> {
        Map::new(|key: Seq<char>| self.keyed().contains(key), |key: Seq<char>| self.found(key))
    }
}

impl Default for Metadata {
    fn default() -> (m: Self)
        ensures
            m.wf(),
            m@ == Map::<Seq<char>, ValueView>::empty(),
    {
        Metadata::new()
    }
}

impl Metadata {
    /// The keys in the order of the table.
    pub closed spec fn keyed(&self) -> Seq<Seq<char>> {
        Seq::new(self.entries@.len(), |i: int| self.entries@[i].0@)
    }

    /// The value that the first entry with a key has.
    spec fn found(&self, key: Seq<char>) -> ValueView {
        self.entries@[self.keyed().index_of(key)].1@
    }

    /// The keys are in strictly increasing order, so each occurs once.
    pub open spec fn wf(&self) -> bool {
        increasing(self.keyed())
    }

    /// Each entry is found under its key.
    proof fn lemma_entry(&self, i: int)
        requires
            self.wf(),
            0 <= i < self.entries@.len(),
        ensures
            self@.contains_key(self.entries@[i].0@),
            self@[self.entries@[i].0@] == self.entries@[i].1@,
    {
        let key = self.keyed()[i];
        assert(self.keyed().contains(key));
        let j = self.keyed().index_of(key);
        assert(0 <= j < self.keyed().len() && self.keyed()[j] == key);
        if j != i {
            text::lemma_strict(key, key);
        }
    }

    /// The table has as many keys as entries.
    proof fn lemma_size(&self)
        requires
            self.wf(),
        ensures
            self@.dom().finite(),
            self@.dom().len() == self.entries@.len(),
    {
        let keys = self.keyed();
        assert(keys.no_duplicates()) by {
            assert forall|i: int, j: int| 0 <= i < j < keys.len() implies keys[i] != keys[j] by {
                text::lemma_strict(keys[i], keys[j]);
            }
        }
        keys.unique_seq_to_set();
        assert(self@.dom() =~= keys.to_set());
    }

    /// Construct an empty metadata table.
    pub fn new() -> (m: Self)
        ensures
            m.wf(),
            m@ == Map::<Seq<char>, ValueView>::empty(),
    {
        let m = Metadata { entries: Vec::new() };
        assert(m@ =~= Map::<Seq<char>, ValueView>::empty());
        m
    }

    /// Number of key-value pairs in this table.
    pub fn len(&self) -> (n: usize)
        requires
            self.wf(),
        ensures
            self@.dom().finite(),
            n == self@.dom().len(),
    {
        proof {
            self.lemma_size();
        }
        self.entries.len()
    }

    /// Whether the table is empty.
    pub fn is_empty(&self) -> (r: bool)
        requires
            self.wf(),
        ensures
            r == (self@ == Map::<Seq<char>, ValueView>::empty()),
    {
        proof {
            self.lemma_size();
            if self.entries@.len() == 0 {
                assert(self@ =~= Map::<Seq<char>, ValueView>::empty());
            } else {
                self.lemma_entry(0);
            }
        }
        self.entries.len() == 0
    }

    /// The first position whose key does not come before `key`.
    fn slot(&self, key: &str) -> (i: usize)
        requires
            self.wf(),
        ensures
            i <= self.entries@.len(),
            forall|j: int| 0 <= j < i ==> text::before(#[trigger] self.keyed()[j], key@),
            forall|j: int|
                i <= j < self.entries@.len() ==> !text::before(#[trigger] self.keyed()[j], key@),
    {
        let mut i: usize = 0;
        while i < self.entries.len() && text::str_before(self.entries[i].0.as_str(), key)
            invariant
                i <= self.entries@.len(),
                forall|j: int| 0 <= j < i ==> text::before(#[trigger] self.keyed()[j], key@),
            ensures
                i <= self.entries@.len(),
                forall|j: int| 0 <= j < i ==> text::before(#[trigger] self.keyed()[j], key@),
                i < self.entries@.len() ==> !text::before(self.keyed()[i as int], key@),
            decreases self.entries@.len() - i,
        {
            assert(self.keyed()[i as int] == self.entries@[i as int].0@);
            i = i + 1;
        }
        proof {
            assert forall|j: int| i <= j < self.entries@.len() implies !text::before(
                #[trigger] self.keyed()[j],
                key@,
            ) by {
                if i < j && text::before(self.keyed()[j], key@) {
                    text::lemma_transitive(self.keyed()[i as int], self.keyed()[j], key@);
                }
            }
        }
        i
    }

    /// Look up a value by key.
    pub fn get(&self, key: &str) -> (r: Option<&Value>)
        requires
            self.wf(),
        ensures
            match r {
                Some(v) => self@.contains_key(key@) && self@[key@] == v@,
                None => !self@.contains_key(key@),
            },
    {
        let i: usize = self.slot(key);
        if i < self.entries.len() && !text::str_before(key, self.entries[i].0.as_str()) {
            proof {
                text::lemma_total(key@, self.keyed()[i as int]);
                self.lemma_entry(i as int);
            }
            return Some(&self.entries[i].1);
        }
        proof {
            if self.keyed().contains(key@) {
                let j = self.keyed().index_of(key@);
                assert(self.keyed()[j] == key@);
                if j < i {
                    text::lemma_strict(key@, key@);
                } else if i < j {
                    text::lemma_strict(self.keyed()[i as int], key@);
                } else {
                    text::lemma_bytes_irreflexive(vstd::utf8::encode_utf8(key@));
                }
            }
        }
        None
    }

    /// All pairs, in the order of the keys.
    pub fn iter(&self) -> (r: Vec<(&str, &Value)>)
        requires
            self.wf(),
        ensures
            increasing(Seq::new(r@.len(), |i: int| r@[i].0@)),
            forall|i: int|
                0 <= i < r@.len() ==> self@.contains_key((#[trigger] r@[i]).0@) && self@[r@[i].0@]
                    == r@[i].1@,
            forall|key: Seq<char>|
                self@.contains_key(key) ==> exists|i: int|
                    0 <= i < r@.len() && (#[trigger] r@[i]).0@ == key,
    {
        let mut r: Vec<(&str, &Value)> = Vec::new();
        let mut i: usize = 0;
        while i < self.entries.len()
            invariant
                i <= self.entries@.len(),
                r@.len() == i,
                forall|j: int|
                    0 <= j < i ==> (#[trigger] r@[j]).0@ == self.entries@[j].0@ && *r@[j].1
                        == self.entries@[j].1,
            decreases self.entries@.len() - i,
        {
            let entry: &(String, Value) = &self.entries[i];
            r.push((entry.0.as_str(), &entry.1));
            i = i + 1;
        }
        proof {
            let keys = Seq::new(r@.len(), |i: int| r@[i].0@);
            assert(keys =~= self.keyed());
            assert forall|i: int| 0 <= i < r@.len() implies self@.contains_key((#[trigger] r@[i]).0@)
                && self@[r@[i].0@] == r@[i].1@ by {
                self.lemma_entry(i);
            }
            assert forall|key: Seq<char>| self@.contains_key(key) implies exists|i: int|
                0 <= i < r@.len() && (#[trigger] r@[i]).0@ == key by {
                let j = self.keyed().index_of(key);
                assert(self.keyed()[j] == key);
                assert(r@[j].0@ == key);
            }
        }
        r
    }

    /// All keys, in their order.
    pub fn keys(&self) -> (r: Vec<&str>)
        requires
            self.wf(),
        ensures
            increasing(Seq::new(r@.len(), |i: int| r@[i]@)),
            forall|key: Seq<char>|
                self@.contains_key(key) <==> exists|i: int|
                    0 <= i < r@.len() && (#[trigger] r@[i])@ == key,
    {
        let pairs: Vec<(&str, &Value)> = self.iter();
        let mut r: Vec<&str> = Vec::new();
        let mut i: usize = 0;
        while i < pairs.len()
            invariant
                i <= pairs@.len(),
                r@.len() == i,
                forall|j: int| 0 <= j < i ==> (#[trigger] r@[j]) == pairs@[j].0,
            decreases pairs@.len() - i,
        {
            r.push(pairs[i].0);
            i = i + 1;
        }
        proof {
            assert(Seq::new(r@.len(), |i: int| r@[i]@) =~= Seq::new(
                pairs@.len(),
                |i: int| pairs@[i].0@,
            ));
            assert forall|key: Seq<char>| self@.contains_key(key) implies exists|i: int|
                0 <= i < r@.len() && (#[trigger] r@[i])@ == key by {
                let j = choose|j: int| 0 <= j < pairs@.len() && (#[trigger] pairs@[j]).0@ == key;
                assert(r@[j]@ == key);
            }
            assert forall|i: int| 0 <= i < r@.len() implies self@.contains_key((#[trigger] r@[i])@) by {
                assert(pairs@[i].0@ == r@[i]@);
            }
        }
        r
    }

    /// Get a value as `&str`.
    pub fn get_str(&self, key: &str) -> (r: Option<&str>)
        requires
            self.wf(),
        ensures
            match r {
                Some(s) => self@.contains_key(key@) && self@[key@] == ValueView::String(s@),
                None => !self@.contains_key(key@) || self@[key@].ty() != ValueType::String,
            },
    {
        match self.get(key) {
            Some(v) => v.as_str(),
            None => None,
        }
    }

    /// Get a value as `u32`, with widening from narrower types.
    pub fn get_u32(&self, key: &str) -> (r: Option<u32>)
        requires
            self.wf(),
        ensures
            r == if self@.contains_key(key@) {
                self@[key@].narrow()
            } else {
                None
            },
    {
        match self.get(key) {
            Some(v) => v.as_u32(),
            None => None,
        }
    }

    /// Get a value as `u64`, with widening from narrower types.
    pub fn get_u64(&self, key: &str) -> (r: Option<u64>)
        requires
            self.wf(),
        ensures
            r == if self@.contains_key(key@) {
                self@[key@].wide()
            } else {
                None
            },
    {
        match self.get(key) {
            Some(v) => v.as_u64(),
            None => None,
        }
    }

    /// Get the bits of a single-precision value.
    pub fn get_f32(&self, key: &str) -> (r: Option<u32>)
        requires
            self.wf(),
        ensures
            r == if self@.contains_key(key@) {
                self@[key@].single()
            } else {
                None
            },
    {
        match self.get(key) {
            Some(v) => v.as_f32(),
            None => None,
        }
    }

    /// Get a value as `bool`.
    pub fn get_bool(&self, key: &str) -> (r: Option<bool>)
        requires
            self.wf(),
        ensures
            r == if self@.contains_key(key@) {
                self@[key@].truth()
            } else {
                None
            },
    {
        match self.get(key) {
            Some(v) => v.as_bool(),
            None => None,
        }
    }

    /// Set the value of a key, replacing the value that it has.
    fn insert(&mut self, key: String, value: Value)
        requires
            old(self).wf(),
        ensures
            final(self).wf(),
            final(self)@ == old(self)@.insert(key@, value@),
    {
        let i: usize = self.slot(key.as_str());
        let ghost before = *self;
        let present: bool = i < self.entries.len() && !text::str_before(
            key.as_str(),
            self.entries[i].0.as_str(),
        );
        if present {
            proof {
                text::lemma_total(key@, self.keyed()[i as int]);
            }
            self.entries.set(i, (key, value));
            assert(self.keyed() =~= before.keyed());
        } else {
            self.entries.insert(i, (key, value));
            assert(self.keyed() =~= before.keyed().insert(i as int, key@));
            proof {
                let keys = self.keyed();
                assert forall|a: int, b: int| 0 <= a < b < keys.len() implies text::before(
                    #[trigger] keys[a],
                    #[trigger] keys[b],
                ) by {
                    if a < i && b > i {
                        assert(keys[a] == before.keyed()[a]);
                        assert(keys[b] == before.keyed()[b - 1]);
                    } else if a < i && b < i {
                        assert(keys[a] == before.keyed()[a]);
                        assert(keys[b] == before.keyed()[b]);
                    } else if a == i {
                        let next = before.keyed()[i as int];
                        assert(keys[b] == before.keyed()[b - 1]);
                        if b - 1 > i {
                            text::lemma_transitive(key@, next, keys[b]);
                        }
                    } else if b == i {
                        assert(keys[a] == before.keyed()[a]);
                    } else {
                        assert(keys[a] == before.keyed()[a - 1]);
                        assert(keys[b] == before.keyed()[b - 1]);
                    }
                }
            }
        }
        proof {
            let expected = before@.insert(key@, value@);
            assert forall|k: Seq<char>| self@.contains_key(k) <==> expected.contains_key(k) by {
                if self.keyed().contains(k) && k != key@ {
                    let j = self.keyed().index_of(k);
                    if present || j < i {
                        assert(before.keyed()[j] == k);
                    } else {
                        assert(before.keyed()[j - 1] == k);
                    }
                }
                if before.keyed().contains(k) {
                    let j = before.keyed().index_of(k);
                    if present || j < i {
                        assert(self.keyed()[j] == k);
                    } else {
                        assert(self.keyed()[j + 1] == k);
                    }
                }
                assert(self.keyed()[i as int] == key@);
            }
            assert forall|k: Seq<char>| self@.contains_key(k) implies self@[k] == expected[k] by {
                let j = self.keyed().index_of(k);
                assert(self.keyed()[j] == k);
                self.lemma_entry(j);
                if j == i {
                    assert(k == key@);
                } else {
                    text::lemma_strict(
                        self.keyed()[if j < i { j } else { i as int }],
                        self.keyed()[if j < i { i as int } else { j }],
                    );
                    assert(k != key@);
                    let m = if present || j < i { j } else { j - 1 };
                    before.lemma_entry(m);
                }
            }
            assert(self@ =~= expected);
        }
    }

    /// Read `n_kv` entries.
    pub fn parse(reader: &mut Reader<'_>, n_kv: u64) -> (r: Result<Self, Error>)
        requires
            old(reader).wf(),
        ensures
            final(reader).has_read(
                old(reader),
                r,
                table_at(old(reader).bytes(), old(reader).at(), n_kv as nat),
            ),
            r matches Ok(m) ==> m.wf(),
    {
        let ghost data = reader.bytes();
        let ghost start = reader.at();
        let mut table: Metadata = Metadata::new();
        let mut i: u64 = 0;
        while i < n_kv
            invariant
                data == old(reader).bytes(),
                start == old(reader).at(),
                i <= n_kv,
                reader.wf(),
                reader.bytes() == data,
                table.wf(),
                table_at(data, start, i as nat) == (
                    Ok::<Map<Seq<char>, ValueView>, ErrorView>(table@),
                    reader.at(),
                ),
            decreases n_kv - i,
        {
            match Self::parse_entry(reader) {
                Ok((key, value)) => {
                    table.insert(key, value);
                },
                Err(e) => {
                    proof {
                        lemma_table_error(data, start, (i + 1) as nat, n_kv as nat);
                    }
                    return Err(e);
                },
            }
            i = i + 1;
        }
        Ok(table)
    }

    /// Read one entry.
    fn parse_entry(reader: &mut Reader<'_>) -> (r: Result<(String, Value), Error>)
        requires
            old(reader).wf(),
        ensures
            final(reader).has_read(
                old(reader),
                r,
                entry_at(old(reader).bytes(), old(reader).at()),
            ),
    {
        let key: String = match reader.read_str() {
            Ok(s) => s.to_owned(),
            Err(e) => return Err(e),
        };
        let code: u32 = match reader.read_u32_le() {
            Ok(v) => v,
            Err(e) => return Err(e),
        };
        let ty: ValueType = match ValueType::from_u32(code) {
            Ok(t) => t,
            Err(e) => return Err(e),
        };
        match parse_value(reader, ty) {
            Ok(value) => Ok((key, value)),
            Err(e) => Err(e),
        }
    }
}

/// An unsigned value of any width is the same number in 64 bits, and in 32 bits
/// where it fits. No other value is a number.
pub proof fn law_widths(a: u8, b: u16, c: u32, d: u64, v: ValueView)
    ensures
        ValueView::U8(a).wide() == Some(a as u64),
        ValueView::U16(b).wide() == Some(b as u64),
        ValueView::U32(c).wide() == Some(c as u64),
        ValueView::U64(d).wide() == Some(d),
        v.wide() is Some <==> v is U8 || v is U16 || v is U32 || v is U64,
        v.narrow() is Some <==> v.wide() is Some && v.wide()->0 < 0x1_0000_0000,
        v.narrow() is Some ==> v.narrow()->0 == v.wide()->0,
{
}

/// How files number the types of values.
pub proof fn law_value_numbering()
    ensures
        ValueType::U8.code() == 0,
        ValueType::I8.code() == 1,
        ValueType::U16.code() == 2,
        ValueType::I16.code() == 3,
        ValueType::U32.code() == 4,
        ValueType::I32.code() == 5,
        ValueType::F32.code() == 6,
        ValueType::Bool.code() == 7,
        ValueType::String.code() == 8,
        ValueType::Array.code() == 9,
        ValueType::U64.code() == 10,
        ValueType::I64.code() == 11,
        ValueType::F64.code() == 12,
        forall|v: u32| v > 12 ==> (#[trigger] type_of_code(v)) is Err,
{
}

} // verus!
