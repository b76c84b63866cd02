//! Key/value caches: what attention reads of the tokens seen so far.

pub mod dsv4;

use crate::text;
use crate::text::{around, continued, joined, numbered};
use vstd::prelude::*;

verus! {

/// How a cache lays out its rows.
#[derive(Debug, Clone, Copy, PartialEq, Eq, Structural)]
pub enum KvLayout {
    /// DeepSeek V4 Flash: sliding window, compressed pool and indexer.
    DsV4ThreeTier,
}

/// What a cache operation refuses.
#[derive(Debug, PartialEq, Eq)]
pub enum Error {
    /// A buffer does not have the length that the operation needs.
    ShapeMismatch {
        /// The operation and the argument.
        what: &'static str,
        /// The length needed.
        expected: usize,
        /// The length given.
        actual: usize,
    },
    /// An index lies past the rows held.
    IndexOutOfRange {
        /// The operation.
        what: &'static str,
        /// The index asked for.
        idx: usize,
        /// Number of rows held.
        len: usize,
    },
    /// A layer index lies past the layers of the model.
    InvalidLayer {
        /// The index asked for.
        idx: usize,
        /// Number of layers.
        max: usize,
    },
    /// A compressed row is due, but the pool has no room for it.
    CompressedPoolFull {
        /// Number of rows the pool can hold.
        cap: usize,
    },
}

impl Error {
    /// What the user is told.
    pub open spec fn told(self) -> Seq<char> {
        match self {
            Error::ShapeMismatch { what, expected, actual } => what@ + ": expected "@
                + text::decimal(expected as nat) + ", got "@ + text::decimal(actual as nat),
            Error::IndexOutOfRange { what, idx, len } => what@ + ": index "@ + text::decimal(
                idx as nat,
            ) + " out of range (len = "@ + text::decimal(len as nat) + ")"@,
            Error::InvalidLayer { idx, max } => "layer index "@ + text::decimal(idx as nat)
                + " out of range (max "@ + text::decimal(max as nat) + ")"@,
            Error::CompressedPoolFull { cap } => "compressed KV pool is full (capacity "@
                + text::decimal(cap as nat) + ")"@,
        }
    }

    /// What the user is told.
    pub fn message(&self) -> (s: String)
        ensures
            s@ == self.told(),
    {
        match self {
            Error::ShapeMismatch { what, expected, actual } => {
                let s: String = numbered(joined(what, ": expected "), *expected as u64);
                numbered(continued(s, ", got "), *actual as u64)
            },
            Error::IndexOutOfRange { what, idx, len } => {
                let s: String = numbered(joined(what, ": index "), *idx as u64);
                continued(numbered(continued(s, " out of range (len = "), *len as u64), ")")
            },
            Error::InvalidLayer { idx, max } => {
                let s: String = around("layer index ", *idx as u64, " out of range (max ");
                continued(numbered(s, *max as u64), ")")
            },
            Error::CompressedPoolFull { cap } => around(
                "compressed KV pool is full (capacity ",
                *cap as u64,
                ")",
            ),
        }
    }
}

} // verus!
