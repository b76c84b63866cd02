//! What a kernel refuses.

use crate::text;
use crate::text::{continued, joined, numbered, wrapped};
use vstd::prelude::*;

verus! {

/// What a kernel refuses.
#[derive(Debug, PartialEq, Eq)]
pub enum Error {
    /// The lengths of the arguments do not fit together.
    ShapeMismatch(&'static str),
    /// A length is no multiple of the block size.
    NotBlockAligned {
        /// The argument.
        what: &'static str,
        /// Its length.
        actual: usize,
        /// The block size.
        block: usize,
    },
    /// An argument holds a NaN or an infinity where a number is needed.
    NonFiniteInput(&'static str),
    /// The host lacks an instruction set.
    UnsupportedTier(&'static str),
}

impl Error {
    /// What the user is told.
    pub open spec fn told(self) -> Seq<char> {
        match self {
            Error::ShapeMismatch(what) => "kernel argument shape mismatch: "@ + what@,
            Error::NotBlockAligned { what, actual, block } => "`"@ + what@ + "` length "@
                + text::decimal(actual as nat) + " is not a multiple of "@ + text::decimal(
                block as nat,
            ),
            Error::NonFiniteInput(what) => "`"@ + what@
                + "` contains a non-finite value (NaN or Inf)"@,
            Error::UnsupportedTier(tier) => "the host does not support the `"@ + tier@ + "` tier"@,
        }
    }

    /// What the user is told.
    pub fn message(&self) -> (s: String)
        ensures
            s@ == self.told(),
    {
        match self {
            Error::ShapeMismatch(what) => joined("kernel argument shape mismatch: ", what),
            Error::NotBlockAligned { what, actual, block } => {
                let s: String = numbered(wrapped("`", what, "` length "), *actual as u64);
                numbered(continued(s, " is not a multiple of "), *block as u64)
            },
            Error::NonFiniteInput(what) => wrapped(
                "`",
                what,
                "` contains a non-finite value (NaN or Inf)",
            ),
            Error::UnsupportedTier(tier) => wrapped(
                "the host does not support the `",
                tier,
                "` tier",
            ),
        }
    }
}

} // verus!
