//! Errors produced by the GGUF parser and the tensor decoders.

use crate::text;
use crate::text::{around, continued, joined, numbered, wrapped};
use vstd::prelude::*;

verus! {

/// Errors returned by GGUF parsing operations.
#[derive(Debug, PartialEq, Eq)]
pub enum Error {
    /// Opening or mapping a file failed; holds what the system says of it.
    Io(String),
    /// The first four bytes are not the magic `GGUF`.
    BadMagic {
        /// The four bytes that were actually read.
        found: [u8; 4],
    },
    /// The file's format version is not supported.
    UnsupportedVersion(u32),
    /// A read was attempted past the end of the bytes.
    Truncated {
        /// Position at which the read started.
        pos: u64,
        /// Number of bytes requested.
        need: u64,
        /// Number of bytes that were available.
        have: u64,
    },
    /// The file is too small to hold a complete header.
    TooSmall(u64),
    /// A metadata value declared a type that is none of the recognized ones.
    UnknownValueType(u32),
    /// Metadata arrays are nested too deep.
    NestingTooDeep,
    /// A length-prefixed string is not valid UTF-8; holds where it starts.
    InvalidUtf8(u64),
    /// A boolean is stored as a byte other than 0 and 1.
    InvalidBool(u8),
    /// The size of an array or tensor does not fit a machine integer.
    ArrayTooLarge {
        /// Declared number of elements.
        len: u64,
        /// Size of an element.
        item_size: u64,
    },
    /// Source bytes do not have the size that the element count implies.
    DequantSizeMismatch {
        /// Number of bytes in the source.
        src_bytes: usize,
        /// Number of bytes expected.
        expected_bytes: usize,
    },
    /// The element type cannot be decoded by this build.
    UnsupportedDequant(&'static str),
    /// A tensor declared a number of dimensions outside the legal range.
    InvalidTensorDims {
        /// Name of the tensor.
        name: String,
        /// Declared number of dimensions.
        ndim: u32,
        /// Largest supported number of dimensions.
        max: u32,
    },
    /// The alignment of the tensor data is zero or unreasonably large.
    InvalidAlignment(u64),
}

/// What an [`Error`] says, with text as characters.
#[verifier::ext_equal]
pub enum ErrorView {
    Io(Seq<char>),
    BadMagic { found: Seq<u8> },
    UnsupportedVersion(u32),
    Truncated { pos: nat, need: nat, have: nat },
    TooSmall(nat),
    UnknownValueType(u32),
    NestingTooDeep,
    InvalidUtf8(nat),
    InvalidBool(u8),
    ArrayTooLarge { len: nat, item_size: nat },
    DequantSizeMismatch { src_bytes: nat, expected_bytes: nat },
    UnsupportedDequant(Seq<char>),
    InvalidTensorDims { name: Seq<char>, ndim: u32, max: u32 },
    InvalidAlignment(nat),
}

impl View for Error {
    type V = ErrorView;

    open spec fn view(&self) -> ErrorView {
        match *self {
            Error::Io(s) => ErrorView::Io(s@),
            Error::BadMagic { found } => ErrorView::BadMagic { found: found@ },
            Error::UnsupportedVersion(v) => ErrorView::UnsupportedVersion(v),
            Error::Truncated { pos, need, have } => ErrorView::Truncated {
                pos: pos as nat,
                need: need as nat,
                have: have as nat,
            },
            Error::TooSmall(n) => ErrorView::TooSmall(n as nat),
            Error::UnknownValueType(t) => ErrorView::UnknownValueType(t),
            Error::NestingTooDeep => ErrorView::NestingTooDeep,
            Error::InvalidUtf8(at) => ErrorView::InvalidUtf8(at as nat),
            Error::InvalidBool(b) => ErrorView::InvalidBool(b),
            Error::ArrayTooLarge { len, item_size } => ErrorView::ArrayTooLarge {
                len: len as nat,
                item_size: item_size as nat,
            },
            Error::DequantSizeMismatch { src_bytes, expected_bytes } => ErrorView::DequantSizeMismatch {
                src_bytes: src_bytes as nat,
                expected_bytes: expected_bytes as nat,
            },
            Error::UnsupportedDequant(name) => ErrorView::UnsupportedDequant(name@),
            Error::InvalidTensorDims { name, ndim, max } => ErrorView::InvalidTensorDims {
                name: name@,
                ndim,
                max,
            },
            Error::InvalidAlignment(a) => ErrorView::InvalidAlignment(a as nat),
        }
    }
}

/// What a fallible operation returned, seen through the views.
pub open spec fn seen<T: View>(r: Result<T, Error>) -> Result<T::V, ErrorView> {
    match r {
        Ok(v) => Ok(v@),
        Err(e) => Err(e@),
    }
}

impl ErrorView {
    /// What the user is told.
    pub open spec fn told(self) -> Seq<char> {
        match self {
            ErrorView::Io(s) => "I/O error: "@ + s,
            ErrorView::BadMagic { found } => "not a GGUF file (expected magic 'GGUF', found ["@
                + text::decimal(found[0] as nat) + ", "@ + text::decimal(found[1] as nat) + ", "@
                + text::decimal(found[2] as nat) + ", "@ + text::decimal(found[3] as nat) + "])"@,
            ErrorView::UnsupportedVersion(v) => "unsupported GGUF version "@ + text::decimal(
                v as nat,
            ) + " (this build supports v3)"@,
            ErrorView::Truncated { pos, need, have } => "truncated read at offset "@
                + text::decimal(pos) + ": need "@ + text::decimal(need) + " bytes, only "@
                + text::decimal(have) + " remaining"@,
            ErrorView::TooSmall(n) => "file too small to be GGUF (size "@ + text::decimal(n)
                + " bytes, need at least 32)"@,
            ErrorView::UnknownValueType(t) => "unknown metadata value type "@ + text::decimal(
                t as nat,
            ),
            ErrorView::NestingTooDeep => "metadata array nesting too deep (max 8)"@,
            ErrorView::InvalidUtf8(at) => "invalid UTF-8 in string at offset "@ + text::decimal(at),
            ErrorView::InvalidBool(b) => "invalid boolean byte "@ + text::decimal(b as nat)
                + " (must be 0 or 1)"@,
            ErrorView::ArrayTooLarge { len, item_size } => "metadata array too large: "@
                + text::decimal(len) + " × "@ + text::decimal(item_size) + " bytes overflows"@,
            ErrorView::DequantSizeMismatch { src_bytes, expected_bytes } =>
                "dequant size mismatch: src has "@ + text::decimal(src_bytes) + " bytes, expected "@
                + text::decimal(expected_bytes),
            ErrorView::UnsupportedDequant(name) => "dtype `"@ + name
                + "` is not yet supported for dequantization in this build"@,
            ErrorView::InvalidTensorDims { name, ndim, max } => "tensor `"@ + name
                + "` has invalid dimension count "@ + text::decimal(ndim as nat)
                + " (must be 1..="@ + text::decimal(max as nat) + ")"@,
            ErrorView::InvalidAlignment(a) => "invalid tensor data alignment "@ + text::decimal(a)
                + " (must be 1..=65536, power of two recommended)"@,
        }
    }
}

impl Error {
    /// What the user is told.
    pub fn message(&self) -> (s: String)
        ensures
            s@ == self@.told(),
    {
        match self {
            Error::Io(s) => joined("I/O error: ", s.as_str()),
            Error::BadMagic { found } => {
                let s: String = around(
                    "not a GGUF file (expected magic 'GGUF', found [",
                    found[0] as u64,
                    ", ",
                );
                let s: String = continued(numbered(s, found[1] as u64), ", ");
                let s: String = continued(numbered(s, found[2] as u64), ", ");
                continued(numbered(s, found[3] as u64), "])")
            },
            Error::UnsupportedVersion(v) => around(
                "unsupported GGUF version ",
                *v as u64,
                " (this build supports v3)",
            ),
            Error::Truncated { pos, need, have } => {
                let s: String = around("truncated read at offset ", *pos, ": need ");
                let s: String = continued(numbered(s, *need), " bytes, only ");
                continued(numbered(s, *have), " remaining")
            },
            Error::TooSmall(n) => around(
                "file too small to be GGUF (size ",
                *n,
                " bytes, need at least 32)",
            ),
            Error::UnknownValueType(t) => numbered(
                "unknown metadata value type ".to_owned(),
                *t as u64,
            ),
            Error::NestingTooDeep => "metadata array nesting too deep (max 8)".to_owned(),
            Error::InvalidUtf8(at) => numbered(
                "invalid UTF-8 in string at offset ".to_owned(),
                *at,
            ),
            Error::InvalidBool(b) => around(
                "invalid boolean byte ",
                *b as u64,
                " (must be 0 or 1)",
            ),
            Error::ArrayTooLarge { len, item_size } => {
                let s: String = around("metadata array too large: ", *len, " × ");
                continued(numbered(s, *item_size), " bytes overflows")
            },
            Error::DequantSizeMismatch { src_bytes, expected_bytes } => {
                let s: String = around(
                    "dequant size mismatch: src has ",
                    *src_bytes as u64,
                    " bytes, expected ",
                );
                numbered(s, *expected_bytes as u64)
            },
            Error::UnsupportedDequant(name) => wrapped(
                "dtype `",
                name,
                "` is not yet supported for dequantization in this build",
            ),
            Error::InvalidTensorDims { name, ndim, max } => {
                let s: String = wrapped("tensor `", name.as_str(), "` has invalid dimension count ");
                let s: String = continued(numbered(s, *ndim as u64), " (must be 1..=");
                continued(numbered(s, *max as u64), ")")
            },
            Error::InvalidAlignment(a) => around(
                "invalid tensor data alignment ",
                *a,
                " (must be 1..=65536, power of two recommended)",
            ),
        }
    }
}

} // verus!
