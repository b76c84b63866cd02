//! Tensor descriptors and the element types of tensors.

use crate::gguf::error::{Error, ErrorView};
use crate::gguf::reader;
use crate::gguf::reader::{Read, Reader};
use vstd::prelude::*;

verus! {

/// Maximum number of dimensions of a tensor.
pub const MAX_DIMS: usize = 4;

/// The element types of tensors that are recognized.
///
/// Every one can be located in a file; only some can be decoded, see
/// [`GgmlType::is_decodable_v0_1_0`].
#[allow(non_camel_case_types)]
#[derive(Debug, Clone, Copy, PartialEq, Eq, Structural)]
pub enum GgmlType {
    /// 32-bit floating point.
    F32,
    /// 16-bit floating point.
    F16,
    /// 32 elements in 18 bytes.
    Q4_0,
    /// 32 elements in 20 bytes.
    Q4_1,
    /// 32 elements in 22 bytes.
    Q5_0,
    /// 32 elements in 24 bytes.
    Q5_1,
    /// 32 elements in 34 bytes.
    Q8_0,
    /// 32 elements in 40 bytes.
    Q8_1,
    /// 256 elements in 84 bytes.
    Q2_K,
    /// 256 elements in 110 bytes.
    Q3_K,
    /// 256 elements in 144 bytes.
    Q4_K,
    /// 256 elements in 176 bytes.
    Q5_K,
    /// 256 elements in 210 bytes.
    Q6_K,
    /// 256 elements in 292 bytes.
    Q8_K,
    /// 256 elements in 66 bytes.
    IQ2_XXS,
    /// 256 elements in 74 bytes.
    IQ2_XS,
    /// 256 elements in 98 bytes.
    IQ3_XXS,
    /// 256 elements in 110 bytes.
    IQ1_S,
    /// 256 elements in 50 bytes.
    IQ4_NL,
    /// 256 elements in 110 bytes.
    IQ3_S,
    /// 256 elements in 82 bytes.
    IQ2_S,
    /// 256 elements in 136 bytes.
    IQ4_XS,
    /// Signed integer, 8 bits.
    I8,
    /// Signed integer, 16 bits.
    I16,
    /// Signed integer, 32 bits.
    I32,
    /// Signed integer, 64 bits.
    I64,
    /// 64-bit floating point.
    F64,
    /// 256 elements in 56 bytes.
    IQ1_M,
    /// Brain floating point, 16 bits.
    BF16,
}

impl GgmlType {
    /// The code of this type in a file. The codes 4 and 5 are not in use.
    pub open spec fn code(self) -> u32 {
        match self {
            GgmlType::F32 => 0,
            GgmlType::F16 => 1,
            GgmlType::Q4_0 => 2,
            GgmlType::Q4_1 => 3,
            GgmlType::Q5_0 => 6,
            GgmlType::Q5_1 => 7,
            GgmlType::Q8_0 => 8,
            GgmlType::Q8_1 => 9,
            GgmlType::Q2_K => 10,
            GgmlType::Q3_K => 11,
            GgmlType::Q4_K => 12,
            GgmlType::Q5_K => 13,
            GgmlType::Q6_K => 14,
            GgmlType::Q8_K => 15,
            GgmlType::IQ2_XXS => 16,
            GgmlType::IQ2_XS => 17,
            GgmlType::IQ3_XXS => 18,
            GgmlType::IQ1_S => 19,
            GgmlType::IQ4_NL => 20,
            GgmlType::IQ3_S => 21,
            GgmlType::IQ2_S => 22,
            GgmlType::IQ4_XS => 23,
            GgmlType::I8 => 24,
            GgmlType::I16 => 25,
            GgmlType::I32 => 26,
            GgmlType::I64 => 27,
            GgmlType::F64 => 28,
            GgmlType::IQ1_M => 29,
            GgmlType::BF16 => 30,
        }
    }

    /// The type that a code stands for.
    pub open spec fn of_code(v: u32) -> Option<GgmlType> {
        match v {
            0 => Some(GgmlType::F32),
            1 => Some(GgmlType::F16),
            2 => Some(GgmlType::Q4_0),
            3 => Some(GgmlType::Q4_1),
            6 => Some(GgmlType::Q5_0),
            7 => Some(GgmlType::Q5_1),
            8 => Some(GgmlType::Q8_0),
            9 => Some(GgmlType::Q8_1),
            10 => Some(GgmlType::Q2_K),
            11 => Some(GgmlType::Q3_K),
            12 => Some(GgmlType::Q4_K),
            13 => Some(GgmlType::Q5_K),
            14 => Some(GgmlType::Q6_K),
            15 => Some(GgmlType::Q8_K),
            16 => Some(GgmlType::IQ2_XXS),
            17 => Some(GgmlType::IQ2_XS),
            18 => Some(GgmlType::IQ3_XXS),
            19 => Some(GgmlType::IQ1_S),
            20 => Some(GgmlType::IQ4_NL),
            21 => Some(GgmlType::IQ3_S),
            22 => Some(GgmlType::IQ2_S),
            23 => Some(GgmlType::IQ4_XS),
            24 => Some(GgmlType::I8),
            25 => Some(GgmlType::I16),
            26 => Some(GgmlType::I32),
            27 => Some(GgmlType::I64),
            28 => Some(GgmlType::F64),
            29 => Some(GgmlType::IQ1_M),
            30 => Some(GgmlType::BF16),
            _ => None,
        }
    }

    /// Elements of a block.
    pub open spec fn elements(self) -> u32 {
        match self {
            GgmlType::F32
            | GgmlType::F16
            | GgmlType::I8
            | GgmlType::I16
            | GgmlType::I32
            | GgmlType::I64
            | GgmlType::F64
            | GgmlType::BF16 => 1,
            GgmlType::Q4_0
            | GgmlType::Q4_1
            | GgmlType::Q5_0
            | GgmlType::Q5_1
            | GgmlType::Q8_0
            | GgmlType::Q8_1 => 32,
            _ => 256,
        }
    }

    /// Bytes of a block.
    pub open spec fn bytes(self) -> u32 {
        match self {
            GgmlType::F32 => 4,
            GgmlType::F16 => 2,
            GgmlType::Q4_0 => 18,
            GgmlType::Q4_1 => 20,
            GgmlType::Q5_0 => 22,
            GgmlType::Q5_1 => 24,
            GgmlType::Q8_0 => 34,
            GgmlType::Q8_1 => 40,
            GgmlType::Q2_K => 84,
            GgmlType::Q3_K => 110,
            GgmlType::Q4_K => 144,
            GgmlType::Q5_K => 176,
            GgmlType::Q6_K => 210,
            GgmlType::Q8_K => 292,
            GgmlType::IQ2_XXS => 66,
            GgmlType::IQ2_XS => 74,
            GgmlType::IQ3_XXS => 98,
            GgmlType::IQ1_S => 110,
            GgmlType::IQ4_NL => 50,
            GgmlType::IQ3_S => 110,
            GgmlType::IQ2_S => 82,
            GgmlType::IQ4_XS => 136,
            GgmlType::I8 => 1,
            GgmlType::I16 => 2,
            GgmlType::I32 => 4,
            GgmlType::I64 => 8,
            GgmlType::F64 => 8,
            GgmlType::IQ1_M => 56,
            GgmlType::BF16 => 2,
        }
    }

    /// Bytes of a tensor: as many blocks as hold its elements.
    pub open spec fn size_of(self, elements: u64) -> Option<u64> {
        let step = self.elements() as int;
        let blocks = (elements + step - 1) / step;
        if elements + step - 1 <= u64::MAX && blocks * self.bytes() <= u64::MAX {
            Some((blocks * self.bytes()) as u64)
        } else {
            None
        }
    }

    /// The types that can be decoded.
    pub open spec fn decodable(self) -> bool {
        match self {
            GgmlType::F32
            | GgmlType::F16
            | GgmlType::BF16
            | GgmlType::Q4_0
            | GgmlType::Q4_1
            | GgmlType::Q4_K
            | GgmlType::Q5_K
            | GgmlType::Q6_K
            | GgmlType::Q8_0 => true,
            _ => false,
        }
    }

    /// Convert a code as stored in a tensor directory into a type. Returns
    /// `None` for codes that are not recognized.
    pub fn from_u32(v: u32) -> (r: Option<Self>)
        ensures
            r == Self::of_code(v),
    {
        match v {
            0 => Some(GgmlType::F32),
            1 => Some(GgmlType::F16),
            2 => Some(GgmlType::Q4_0),
            3 => Some(GgmlType::Q4_1),
            6 => Some(GgmlType::Q5_0),
            7 => Some(GgmlType::Q5_1),
            8 => Some(GgmlType::Q8_0),
            9 => Some(GgmlType::Q8_1),
            10 => Some(GgmlType::Q2_K),
            11 => Some(GgmlType::Q3_K),
            12 => Some(GgmlType::Q4_K),
            13 => Some(GgmlType::Q5_K),
            14 => Some(GgmlType::Q6_K),
            15 => Some(GgmlType::Q8_K),
            16 => Some(GgmlType::IQ2_XXS),
            17 => Some(GgmlType::IQ2_XS),
            18 => Some(GgmlType::IQ3_XXS),
            19 => Some(GgmlType::IQ1_S),
            20 => Some(GgmlType::IQ4_NL),
            21 => Some(GgmlType::IQ3_S),
            22 => Some(GgmlType::IQ2_S),
            23 => Some(GgmlType::IQ4_XS),
            24 => Some(GgmlType::I8),
            25 => Some(GgmlType::I16),
            26 => Some(GgmlType::I32),
            27 => Some(GgmlType::I64),
            28 => Some(GgmlType::F64),
            29 => Some(GgmlType::IQ1_M),
            30 => Some(GgmlType::BF16),
            _ => None,
        }
    }

    /// The code of this type in a file.
    pub fn id(self) -> (v: u32)
        ensures
            v == self.code(),
    {
        match self {
            GgmlType::F32 => 0,
            GgmlType::F16 => 1,
            GgmlType::Q4_0 => 2,
            GgmlType::Q4_1 => 3,
            GgmlType::Q5_0 => 6,
            GgmlType::Q5_1 => 7,
            GgmlType::Q8_0 => 8,
            GgmlType::Q8_1 => 9,
            GgmlType::Q2_K => 10,
            GgmlType::Q3_K => 11,
            GgmlType::Q4_K => 12,
            GgmlType::Q5_K => 13,
            GgmlType::Q6_K => 14,
            GgmlType::Q8_K => 15,
            GgmlType::IQ2_XXS => 16,
            GgmlType::IQ2_XS => 17,
            GgmlType::IQ3_XXS => 18,
            GgmlType::IQ1_S => 19,
            GgmlType::IQ4_NL => 20,
            GgmlType::IQ3_S => 21,
            GgmlType::IQ2_S => 22,
            GgmlType::IQ4_XS => 23,
            GgmlType::I8 => 24,
            GgmlType::I16 => 25,
            GgmlType::I32 => 26,
            GgmlType::I64 => 27,
            GgmlType::F64 => 28,
            GgmlType::IQ1_M => 29,
            GgmlType::BF16 => 30,
        }
    }

    /// Number of elements per block; 1 for types that are not quantized.
    pub fn block_elements(self) -> (n: u32)
        ensures
            n == self.elements(),
            n == 1 || n == 32 || n == 256,
    {
        match self {
            GgmlType::F32
            | GgmlType::F16
            | GgmlType::I8
            | GgmlType::I16
            | GgmlType::I32
            | GgmlType::I64
            | GgmlType::F64
            | GgmlType::BF16 => 1,
            GgmlType::Q4_0
            | GgmlType::Q4_1
            | GgmlType::Q5_0
            | GgmlType::Q5_1
            | GgmlType::Q8_0
            | GgmlType::Q8_1 => 32,
            _ => 256,
        }
    }

    /// Number of bytes per block in a file.
    pub fn block_bytes(self) -> (n: u32)
        ensures
            n == self.bytes(),
            1 <= n <= 292,
    {
        match self {
            GgmlType::F32 => 4,
            GgmlType::F16 => 2,
            GgmlType::Q4_0 => 18,
            GgmlType::Q4_1 => 20,
            GgmlType::Q5_0 => 22,
            GgmlType::Q5_1 => 24,
            GgmlType::Q8_0 => 34,
            GgmlType::Q8_1 => 40,
            GgmlType::Q2_K => 84,
            GgmlType::Q3_K => 110,
            GgmlType::Q4_K => 144,
            GgmlType::Q5_K => 176,
            GgmlType::Q6_K => 210,
            GgmlType::Q8_K => 292,
            GgmlType::IQ2_XXS => 66,
            GgmlType::IQ2_XS => 74,
            GgmlType::IQ3_XXS => 98,
            GgmlType::IQ1_S => 110,
            GgmlType::IQ4_NL => 50,
            GgmlType::IQ3_S => 110,
            GgmlType::IQ2_S => 82,
            GgmlType::IQ4_XS => 136,
            GgmlType::I8 => 1,
            GgmlType::I16 => 2,
            GgmlType::I32 => 4,
            GgmlType::I64 => 8,
            GgmlType::F64 => 8,
            GgmlType::IQ1_M => 56,
            GgmlType::BF16 => 2,
        }
    }

    /// Number of bytes that a tensor of this type with `elements` elements has
    /// in a file. Returns `None` on overflow.
    pub fn byte_size(self, elements: u64) -> (r: Option<u64>)
        ensures
            r == self.size_of(elements),
    {
        let step: u64 = self.block_elements() as u64;
        let size: u64 = self.block_bytes() as u64;
        if elements > u64::MAX - (step - 1) {
            return None;
        }
        let blocks: u64 = (elements + (step - 1)) / step;
        blocks.checked_mul(size)
    }

    /// Short name of a type.
    pub open spec fn label(self) -> Seq<char> {
        match self {
            GgmlType::F32 => "f32"@,
            GgmlType::F16 => "f16"@,
            GgmlType::Q4_0 => "q4_0"@,
            GgmlType::Q4_1 => "q4_1"@,
            GgmlType::Q5_0 => "q5_0"@,
            GgmlType::Q5_1 => "q5_1"@,
            GgmlType::Q8_0 => "q8_0"@,
            GgmlType::Q8_1 => "q8_1"@,
            GgmlType::Q2_K => "q2_k"@,
            GgmlType::Q3_K => "q3_k"@,
            GgmlType::Q4_K => "q4_k"@,
            GgmlType::Q5_K => "q5_k"@,
            GgmlType::Q6_K => "q6_k"@,
            GgmlType::Q8_K => "q8_k"@,
            GgmlType::IQ2_XXS => "iq2_xxs"@,
            GgmlType::IQ2_XS => "iq2_xs"@,
            GgmlType::IQ3_XXS => "iq3_xxs"@,
            GgmlType::IQ1_S => "iq1_s"@,
            GgmlType::IQ4_NL => "iq4_nl"@,
            GgmlType::IQ3_S => "iq3_s"@,
            GgmlType::IQ2_S => "iq2_s"@,
            GgmlType::IQ4_XS => "iq4_xs"@,
            GgmlType::I8 => "i8"@,
            GgmlType::I16 => "i16"@,
            GgmlType::I32 => "i32"@,
            GgmlType::I64 => "i64"@,
            GgmlType::F64 => "f64"@,
            GgmlType::IQ1_M => "iq1_m"@,
            GgmlType::BF16 => "bf16"@,
        }
    }

    /// Stable short name used in messages.
    pub fn name(self) -> (s: &'static str)
        ensures
            s@ == self.label(),
    {
        match self {
            GgmlType::F32 => "f32",
            GgmlType::F16 => "f16",
            GgmlType::Q4_0 => "q4_0",
            GgmlType::Q4_1 => "q4_1",
            GgmlType::Q5_0 => "q5_0",
            GgmlType::Q5_1 => "q5_1",
            GgmlType::Q8_0 => "q8_0",
            GgmlType::Q8_1 => "q8_1",
            GgmlType::Q2_K => "q2_k",
            GgmlType::Q3_K => "q3_k",
            GgmlType::Q4_K => "q4_k",
            GgmlType::Q5_K => "q5_k",
            GgmlType::Q6_K => "q6_k",
            GgmlType::Q8_K => "q8_k",
            GgmlType::IQ2_XXS => "iq2_xxs",
            GgmlType::IQ2_XS => "iq2_xs",
            GgmlType::IQ3_XXS => "iq3_xxs",
            GgmlType::IQ1_S => "iq1_s",
            GgmlType::IQ4_NL => "iq4_nl",
            GgmlType::IQ3_S => "iq3_s",
            GgmlType::IQ2_S => "iq2_s",
            GgmlType::IQ4_XS => "iq4_xs",
            GgmlType::I8 => "i8",
            GgmlType::I16 => "i16",
            GgmlType::I32 => "i32",
            GgmlType::I64 => "i64",
            GgmlType::F64 => "f64",
            GgmlType::IQ1_M => "iq1_m",
            GgmlType::BF16 => "bf16",
        }
    }

    /// Whether this build can decode this type to single precision.
    pub fn is_decodable_v0_1_0(self) -> (r: bool)
        ensures
            r == self.decodable(),
    {
        match self {
            GgmlType::F32
            | GgmlType::F16
            | GgmlType::BF16
            | GgmlType::Q4_0
            | GgmlType::Q4_1
            | GgmlType::Q4_K
            | GgmlType::Q5_K
            | GgmlType::Q6_K
            | GgmlType::Q8_0 => true,
            _ => false,
        }
    }
}

/// Every type is read back from its code, and no other code stands for it.
pub proof fn law_codes(ty: GgmlType, v: u32)
    ensures
        GgmlType::of_code(ty.code()) == Some(ty),
        GgmlType::of_code(v) == Some(ty) <==> v == ty.code(),
{
}

/// The size of a tensor is the least number of whole blocks that holds it.
pub proof fn law_size_is_least(ty: GgmlType, elements: u64)
    requires
        ty.size_of(elements) is Some,
    ensures
        ({
            let blocks = ty.size_of(elements)->0 as int / ty.bytes() as int;
            &&& ty.size_of(elements)->0 == blocks * ty.bytes()
            &&& blocks * ty.elements() >= elements
            &&& (blocks - 1) * ty.elements() < elements
        }),
{
    let step = ty.elements() as int;
    let size = ty.bytes() as int;
    let blocks = (elements + step - 1) / step;
    vstd::arithmetic::div_mod::lemma_div_multiples_vanish(blocks, size);
    vstd::arithmetic::mul::lemma_mul_is_commutative(blocks, size);
}

/// Description of a tensor in a file.
#[derive(Debug, Clone, PartialEq, Eq)]
pub struct TensorInfo {
    /// Tensor name.
    pub name: String,
    /// Element type; `None` if its code is not recognized.
    pub dtype: Option<GgmlType>,
    /// Code of the element type.
    pub raw_type: u32,
    /// Tensor shape, at most [`MAX_DIMS`] entries.
    pub shape: Vec<u64>,
    /// Total element count: the product of `shape`.
    pub elements: u64,
    /// Offset of the tensor's bytes relative to the tensor data area.
    pub relative_offset: u64,
    /// Bytes of the tensor's data; `None` if `dtype` is unknown or the size
    /// does not fit.
    pub byte_size: Option<u64>,
}

/// What a [`TensorInfo`] says.
#[verifier::ext_equal]
pub struct TensorView {
    pub name: Seq<char>,
    pub dtype: Option<GgmlType>,
    pub raw_type: u32,
    pub shape: Seq<u64>,
    pub elements: nat,
    pub relative_offset: u64,
    pub byte_size: Option<u64>,
}

impl View for TensorInfo {
    type V = TensorView;

    open spec fn view(&self) -> TensorView {
        TensorView {
            name: self.name@,
            dtype: self.dtype,
            raw_type: self.raw_type,
            shape: self.shape@,
            elements: self.elements as nat,
            relative_offset: self.relative_offset,
            byte_size: self.byte_size,
        }
    }
}

/// The product of dimensions.
pub open spec fn product(shape: Seq<u64>) -> nat
    decreases shape.len(),
{
    if shape.len() == 0 {
        1
    } else {
        product(shape.drop_last()) * shape.last() as nat
    }
}

/// `n` dimensions in a row; the product of those read so far must fit 64 bits.
pub open spec fn shape_at(data: Seq<u8>, at: nat, n: nat) -> Read<Seq<u64>>
    decreases n,
{
    if n == 0 {
        (Ok(Seq::empty()), at)
    } else {
        match shape_at(data, at, (n - 1) as nat) {
            (Err(e), next) => (Err(e), next),
            (Ok(shape), next) => match reader::u64_at(data, next) {
                (Err(e), after) => (Err(e), after),
                (Ok(d), after) => if product(shape) * d as nat <= u64::MAX {
                    (Ok(shape.push(d)), after)
                } else {
                    (
                        Err(
                            ErrorView::ArrayTooLarge {
                                len: product(shape),
                                item_size: d as nat,
                            },
                        ),
                        after,
                    )
                },
            },
        }
    }
}

/// The data of a tensor of a recognized type.
pub open spec fn data_size(dtype: Option<GgmlType>, elements: nat) -> Option<u64> {
    match dtype {
        Some(t) => t.size_of(elements as u64),
        None => None,
    }
}

/// An entry of the tensor directory: a name, the number of dimensions, the
/// dimensions, the code of a type and an offset.
pub open spec fn tensor_at(data: Seq<u8>, at: nat) -> Read<TensorView> {
    match reader::str_at(data, at) {
        (Err(e), next) => (Err(e), next),
        (Ok(name), ndim_at) => match reader::u32_at(data, ndim_at) {
            (Err(e), next) => (Err(e), next),
            (Ok(ndim), dims_at) => if ndim == 0 || ndim > MAX_DIMS {
                (Err(ErrorView::InvalidTensorDims { name, ndim, max: MAX_DIMS as u32 }), dims_at)
            } else {
                match shape_at(data, dims_at, ndim as nat) {
                    (Err(e), next) => (Err(e), next),
                    (Ok(shape), type_at) => match reader::u32_at(data, type_at) {
                        (Err(e), next) => (Err(e), next),
                        (Ok(raw_type), offset_at) => match reader::u64_at(data, offset_at) {
                            (Err(e), next) => (Err(e), next),
                            (Ok(relative_offset), next) => {
                                let dtype = GgmlType::of_code(raw_type);
                                let elements = product(shape);
                                let byte_size = data_size(dtype, elements);
                                (
                                    Ok(
                                        TensorView {
                                            name,
                                            dtype,
                                            raw_type,
                                            shape,
                                            elements,
                                            relative_offset,
                                            byte_size,
                                        },
                                    ),
                                    next,
                                )
                            },
                        },
                    },
                }
            },
        },
    }
}

/// `n` entries of the directory in a row; the first error ends the read.
pub open spec fn tensors_at(data: Seq<u8>, at: nat, n: nat) -> Read<Seq<TensorView>>
    decreases n,
{
    if n == 0 {
        (Ok(Seq::empty()), at)
    } else {
        match tensors_at(data, at, (n - 1) as nat) {
            (Err(e), next) => (Err(e), next),
            (Ok(tensors), next) => match tensor_at(data, next) {
                (Ok(t), after) => (Ok(tensors.push(t)), after),
                (Err(e), after) => (Err(e), after),
            },
        }
    }
}

/// The directory of `n` tensors, whose number must fit an index.
pub open spec fn directory_at(data: Seq<u8>, at: nat, n: u64) -> Read<Seq<TensorView>> {
    if n > usize::MAX {
        (Err(ErrorView::ArrayTooLarge { len: n as nat, item_size: 1 }), at)
    } else {
        tensors_at(data, at, n as nat)
    }
}

/// An error among the first dimensions is the error of the shape.
proof fn lemma_shape_error(data: Seq<u8>, at: nat, k: nat, n: nat)
    requires
        k <= n,
        shape_at(data, at, k).0 is Err,
    ensures
        shape_at(data, at, n) == shape_at(data, at, k),
    decreases n,
{
    if k < n {
        lemma_shape_error(data, at, k, (n - 1) as nat);
    }
}

/// An error among the first entries is the error of the directory.
proof fn lemma_tensors_error(data: Seq<u8>, at: nat, k: nat, n: nat)
    requires
        k <= n,
        tensors_at(data, at, k).0 is Err,
    ensures
        tensors_at(data, at, n) == tensors_at(data, at, k),
    decreases n,
{
    if k < n {
        lemma_tensors_error(data, at, k, (n - 1) as nat);
    }
}

/// Read `ndim` dimensions and their product.
fn parse_shape(reader: &mut Reader<'_>, ndim: u32) -> (r: Result<(Vec<u64>, u64), Error>)
    requires
        old(reader).wf(),
    ensures
        final(reader).wf(),
        final(reader).bytes() == old(reader).bytes(),
        final(reader).at() == shape_at(old(reader).bytes(), old(reader).at(), ndim as nat).1,
        match r {
            Ok((shape, elements)) => shape_at(old(reader).bytes(), old(reader).at(), ndim as nat).0
                == Ok::<Seq<u64>, ErrorView>(shape@) && elements == product(shape@),
            Err(e) => shape_at(old(reader).bytes(), old(reader).at(), ndim as nat).0 == Err::<
                Seq<u64>,
                ErrorView,
            >(e@),
        },
{
    let ghost data = reader.bytes();
    let ghost start = reader.at();
    let mut shape: Vec<u64> = Vec::new();
    let mut elements: u64 = 1;
    let mut i: u32 = 0;
    while i < ndim
        invariant
            data == old(reader).bytes(),
            start == old(reader).at(),
            i <= ndim,
            reader.wf(),
            reader.bytes() == data,
            elements == product(shape@),
            shape_at(data, start, i as nat) == (Ok::<Seq<u64>, ErrorView>(shape@), reader.at()),
        decreases ndim - i,
    {
        let d: u64 = match reader.read_u64_le() {
            Ok(d) => d,
            Err(e) => {
                proof {
                    lemma_shape_error(data, start, (i + 1) as nat, ndim as nat);
                }
                return Err(e);
            },
        };
        match elements.checked_mul(d) {
            Some(p) => {
                let ghost before = shape@;
                shape.push(d);
                assert(shape@.drop_last() =~= before);
                elements = p;
            },
            None => {
                proof {
                    lemma_shape_error(data, start, (i + 1) as nat, ndim as nat);
                }
                return Err(Error::ArrayTooLarge { len: elements, item_size: d });
            },
        }
        i = i + 1;
    }
    Ok((shape, elements))
}

impl TensorInfo {
    /// Read one entry of the tensor directory.
    pub fn parse(reader: &mut Reader<'_>) -> (r: Result<Self, Error>)
        requires
            old(reader).wf(),
        ensures
            final(reader).has_read(
                old(reader),
                r,
                tensor_at(old(reader).bytes(), old(reader).at()),
            ),
    {
        let name: String = match reader.read_str() {
            Ok(s) => s.to_owned(),
            Err(e) => return Err(e),
        };
        let ndim: u32 = match reader.read_u32_le() {
            Ok(v) => v,
            Err(e) => return Err(e),
        };
        if ndim == 0 || ndim > MAX_DIMS as u32 {
            return Err(Error::InvalidTensorDims { name, ndim, max: MAX_DIMS as u32 });
        }
        let (shape, elements) = match parse_shape(reader, ndim) {
            Ok(p) => p,
            Err(e) => return Err(e),
        };
        let raw_type: u32 = match reader.read_u32_le() {
            Ok(v) => v,
            Err(e) => return Err(e),
        };
        let relative_offset: u64 = match reader.read_u64_le() {
            Ok(v) => v,
            Err(e) => return Err(e),
        };
        let dtype: Option<GgmlType> = GgmlType::from_u32(raw_type);
        let byte_size: Option<u64> = match dtype {
            Some(t) => t.byte_size(elements),
            None => None,
        };
        Ok(TensorInfo { name, dtype, raw_type, shape, elements, relative_offset, byte_size })
    }
}

/// The views of tensors.
pub open spec fn views(tensors: Seq<TensorInfo>) -> Seq<TensorView> {
    Seq::new(tensors.len(), |i: int| tensors[i]@)
}

/// Read `n_tensors` entries of the tensor directory, in their order.
pub fn parse_tensor_directory(reader: &mut Reader<'_>, n_tensors: u64) -> (r: Result<
    Vec<TensorInfo>,
    Error,
>)
    requires
        old(reader).wf(),
    ensures
        final(reader).wf(),
        final(reader).bytes() == old(reader).bytes(),
        final(reader).at() == directory_at(old(reader).bytes(), old(reader).at(), n_tensors).1,
        match r {
            Ok(tensors) => directory_at(old(reader).bytes(), old(reader).at(), n_tensors).0 == Ok::<
                Seq<TensorView>,
                ErrorView,
            >(views(tensors@)),
            Err(e) => directory_at(old(reader).bytes(), old(reader).at(), n_tensors).0 == Err::<
                Seq<TensorView>,
                ErrorView,
            >(e@),
        },
{
    if n_tensors > usize::MAX as u64 {
        return Err(Error::ArrayTooLarge { len: n_tensors, item_size: 1 });
    }
    let ghost data = reader.bytes();
    let ghost start = reader.at();
    let mut tensors: Vec<TensorInfo> = Vec::new();
    let mut i: u64 = 0;
    assert(views(tensors@) =~= Seq::empty());
    while i < n_tensors
        invariant
            n_tensors <= usize::MAX,
            data == old(reader).bytes(),
            start == old(reader).at(),
            i <= n_tensors,
            reader.wf(),
            reader.bytes() == data,
            tensors_at(data, start, i as nat) == (
                Ok::<Seq<TensorView>, ErrorView>(views(tensors@)),
                reader.at(),
            ),
        decreases n_tensors - i,
    {
        match TensorInfo::parse(reader) {
            Ok(t) => {
                let ghost before = tensors@;
                tensors.push(t);
                assert(views(tensors@) =~= views(before).push(t@));
            },
            Err(e) => {
                proof {
                    lemma_tensors_error(data, start, (i + 1) as nat, n_tensors as nat);
                }
                return Err(e);
            },
        }
        i = i + 1;
    }
    Ok(tensors)
}

/// A block holds its elements in the digits of its type, beside its scales.
pub proof fn law_block_parts(ty: GgmlType)
    ensures
        ({
            let (scales, digits) = match ty {
                GgmlType::I8 => (0nat, 8nat),
                GgmlType::F16 | GgmlType::BF16 | GgmlType::I16 => (0, 16),
                GgmlType::F32 | GgmlType::I32 => (0, 32),
                GgmlType::F64 | GgmlType::I64 => (0, 64),
                GgmlType::Q4_0 => (2, 4),
                GgmlType::Q4_1 => (2 + 2, 4),
                GgmlType::Q5_0 => (2, 5),
                GgmlType::Q5_1 => (2 + 2, 5),
                GgmlType::Q8_0 => (2, 8),
                GgmlType::Q8_1 => (4 + 4, 8),
                GgmlType::Q2_K => (16 + 2 + 2, 2),
                GgmlType::Q3_K => (12 + 2, 3),
                GgmlType::Q4_K => (12 + 2 + 2, 4),
                GgmlType::Q5_K => (12 + 2 + 2, 5),
                GgmlType::Q6_K => (16 + 2, 6),
                GgmlType::Q8_K => (4 + 2 * 16, 8),
                GgmlType::IQ2_XXS => (2, 2),
                GgmlType::IQ2_XS => (2 + 8, 2),
                GgmlType::IQ2_S => (2 + 8 + 8, 2),
                GgmlType::IQ3_XXS => (2, 3),
                GgmlType::IQ3_S => (2 + 8 + 4, 3),
                GgmlType::IQ4_XS => (2 + 2 + 4, 4),
                GgmlType::IQ1_M => (24, 1),
                GgmlType::IQ1_S => (110, 0),
                GgmlType::IQ4_NL => (50, 0),
            };
            8 * ty.bytes() == 8 * scales + ty.elements() * digits
        }),
{
}

/// How files number the types.
pub proof fn law_numbering()
    ensures
        GgmlType::F32.code() == 0,
        GgmlType::F16.code() == 1,
        GgmlType::Q4_0.code() == 2,
        GgmlType::Q4_1.code() == 3,
        GgmlType::Q5_0.code() == 6,
        GgmlType::Q5_1.code() == 7,
        GgmlType::Q8_0.code() == 8,
        GgmlType::Q8_1.code() == 9,
        GgmlType::Q2_K.code() == 10,
        GgmlType::Q3_K.code() == 11,
        GgmlType::Q4_K.code() == 12,
        GgmlType::Q5_K.code() == 13,
        GgmlType::Q6_K.code() == 14,
        GgmlType::Q8_K.code() == 15,
        GgmlType::IQ2_XXS.code() == 16,
        GgmlType::IQ2_XS.code() == 17,
        GgmlType::IQ3_XXS.code() == 18,
        GgmlType::IQ1_S.code() == 19,
        GgmlType::IQ4_NL.code() == 20,
        GgmlType::IQ3_S.code() == 21,
        GgmlType::IQ2_S.code() == 22,
        GgmlType::IQ4_XS.code() == 23,
        GgmlType::I8.code() == 24,
        GgmlType::I16.code() == 25,
        GgmlType::I32.code() == 26,
        GgmlType::I64.code() == 27,
        GgmlType::F64.code() == 28,
        GgmlType::IQ1_M.code() == 29,
        GgmlType::BF16.code() == 30,
        forall|v: u32| v == 4 || v == 5 || v > 30 ==> GgmlType::of_code(v) is None,
{
}

} // verus!
