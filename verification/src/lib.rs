//! A verified encoder for a fixed-size firmware flashing format.
//!
//! A raw firmware image is cut into 512-byte frames, each carrying at most
//! 476 payload bytes together with magic words, addressing and counting
//! fields.  A small combiner concatenates single-frame inputs back into one
//! byte stream.

pub mod block;
pub mod combine;
pub mod encode;

use vstd::prelude::*;

verus! {

/// Errors reported by the encoder and the combiner.
#[derive(Clone, Copy, Debug, PartialEq, Eq, Structural)]
pub enum Uf2Error {
    /// The source length is not a multiple of the requested page size.
    IncompatibleLength,
    /// An input chunk holds fewer bytes than one full frame.
    ShortRead,
}

} // verus!
