//! Least-significant-bit steganography on flat byte buffers.
//!
//! A payload is hidden in a carrier buffer by overwriting only the low
//! `step` bits of each carrier byte. The [`byte`] module holds the raw bit
//! packer and the length-framed codec built on it.
use vstd::prelude::*;

pub mod byte;

verus! {

/// What can go wrong while packing into or unpacking from a carrier.
#[derive(Debug, Clone, Copy, PartialEq, Eq, Structural)]
pub enum Error {
    /// The carrier holds fewer bytes than the operation needs.
    BufferTooSmall { actual: usize, required: usize },
}

} // verus!
