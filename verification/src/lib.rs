//! Reconstruction of raw pixel buffers from already-parsed QOI chunks.
//!
//! The core is a verified reconstruction engine: it consumes a sequence of
//! chunk values (literal colors, runs, delta-coded colors, cache references)
//! left to right, maintains the previous pixel and a 64-slot color cache, and
//! appends the reconstructed pixels to a flat byte buffer. A lead-in discard
//! count allows inspection of a stream from an arbitrary chunk offset.

pub mod cache;
pub mod chunk;
pub mod engine;
pub mod decode;
