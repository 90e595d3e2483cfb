//! The LZ4 frame format.

pub mod decompress;
pub mod encode;
pub mod format;
pub mod header;
pub mod laws;
pub mod model;
pub mod reading;
pub mod session;
pub mod stream;

use crate::block::DecompressError;
use vstd::prelude::*;

verus! {

/// An error in a frame.
#[derive(Debug, Clone, Copy, PartialEq, Eq, Structural)]
pub enum Error {
    /// The stream does not start with the magic number of a frame.
    WrongMagicNumber,
    /// The frame is of a version that is not supported.
    UnsupportedVersion(u8),
    /// A bit of the frame header that must be zero is not.
    ReservedBitsSet,
    /// The frame header names a block size that is not supported.
    UnsupportedBlocksize(u8),
    /// The checksum of the frame header does not match it.
    HeaderChecksumError,
    /// A block holds invalid compressed data.
    DecompressionError(DecompressError),
    /// A block is bigger than the frame header allows.
    BlockTooBig,
    /// The checksum of a block does not match it.
    BlockChecksumError,
    /// The checksum of the content does not match it.
    ContentChecksumError,
    /// The content is not as long as the frame header says.
    ContentLengthError { expected: u64, actual: u64 },
}

} // verus!
