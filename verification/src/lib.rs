//! Detects and quantifies change between two versions of a markup document.
//!
//! A raw markup string is split into normalized tag and text tokens, the
//! tokens are grouped into fixed-size chunks, each chunk is hashed into a
//! stable hex digest, and two digest collections are compared as sets to
//! yield a symmetric-difference ratio. Ordered digests can also be
//! aggregated into a binary hash tree, and token-level additions and
//! removals can be mapped back to human-readable line ranges.

pub mod cache;
pub mod chunking;
pub mod digests;
pub mod linediff;
pub mod merkle;
pub mod numfmt;
pub mod pipeline;
pub mod setdiff;
pub mod text;
pub mod token;
