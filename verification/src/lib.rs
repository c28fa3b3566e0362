//! Single-file, fixed-block content deduplication.
//!
//! A file is cut into aligned blocks of `2^k` bytes. Every block is indexed by a
//! weak rolling fingerprint and a strong digest; a byte-by-byte scan then finds,
//! for each block, an earlier byte range with the same content and records how
//! far back it lies.

pub mod dedupe;
pub mod digest;
pub mod fingerprint;
pub mod halves;
pub mod laws;
pub mod model;
pub mod remap;
pub mod rolling;
