//! GGUF container format: header, metadata, tensor directory and the decoders
//! of the quantized tensor formats.

pub mod dequant;
pub mod error;
pub mod file;
pub mod fingerprint;
pub mod metadata;
pub mod reader;
pub mod tensor;
pub mod writing;

use vstd::prelude::*;

verus! {

/// The first four bytes of every file.
pub const MAGIC: [u8; 4] = [0x47, 0x47, 0x55, 0x46];

/// The format version that this build reads.
pub const SUPPORTED_VERSION: u32 = 3;

/// Returns the supported GGUF format version for this build.
#[must_use]
pub fn supported_gguf_version() -> (v: u32)
    ensures
        v == 3,
{
    SUPPORTED_VERSION
}

} // verus!
