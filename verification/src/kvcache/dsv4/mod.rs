//! The three-tier cache of DeepSeek V4 Flash.
//!
//! Each layer keeps its latest rows verbatim in a sliding window. Older rows
//! live on in a pool of compressed rows, one for every few tokens. On layers
//! that compress four to one, an indexer picks the compressed rows that matter
//! for the current query.

pub mod compressed;
pub mod indexer;
pub mod means;
pub mod scoring;
pub mod shape;
pub mod streams;
pub mod swa;
pub mod three_tier;
pub mod windows;
