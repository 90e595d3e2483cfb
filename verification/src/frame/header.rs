//! The headers of frames and blocks.

use crate::bytes::{le_value, read_u32, read_u64};
use crate::frame::Error;
use crate::hash::{checksum, xxh32};
use vstd::prelude::*;

verus! {

/// The number that a frame starts with.
pub const MAGIC_NUMBER: u32 = 0x184D2204;

/// The size of the shortest frame header.
pub const MIN_FRAME_INFO_SIZE: usize = 7;

/// The size of the longest frame header.
pub const MAX_FRAME_INFO_SIZE: usize = 19;

/// The size of a block header.
pub const BLOCK_INFO_SIZE: usize = 4;

/// The size of a checksum of a block or of the content.
pub const CHECKSUM_SIZE: usize = 4;

/// The bit of a block header that says that the block is not compressed.
pub const UNCOMPRESSED_SIZE_BIT: u32 = 0x80000000;

/// The maximum size of a block before compression.
#[derive(Debug, Clone, Copy, PartialEq, Eq, Structural)]
pub enum BlockSize {
    Max64KB,
    Max256KB,
    Max1MB,
    Max4MB,
}

impl BlockSize {
    /// The size in bytes.
    pub open spec fn size(self) -> int {
        match self {
            BlockSize::Max64KB => 0x10000,
            BlockSize::Max256KB => 0x40000,
            BlockSize::Max1MB => 0x100000,
            BlockSize::Max4MB => 0x400000,
        }
    }

    /// The size in bytes.
    pub fn get_size(&self) -> (size: usize)
        ensures
            size == self.size(),
    {
        match self {
            BlockSize::Max64KB => 0x10000,
            BlockSize::Max256KB => 0x40000,
            BlockSize::Max1MB => 0x100000,
            BlockSize::Max4MB => 0x400000,
        }
    }
}

/// Whether a block may refer to the blocks before it.
#[derive(Debug, Clone, Copy, PartialEq, Eq, Structural)]
pub enum BlockMode {
    /// Every block stands for itself.
    Independent,
    /// A block may refer to the content that comes before it.
    Linked,
}

/// What the header of a frame says.
#[derive(Debug, Clone, Copy, PartialEq, Eq)]
pub struct FrameInfo {
    /// The length of the content, if it is given.
    pub content_size: Option<u64>,
    /// The number of a dictionary, if one is given.
    pub dict_id: Option<u32>,
    /// The maximum size of a block.
    pub block_size: BlockSize,
    /// Whether a block may refer to the blocks before it.
    pub block_mode: BlockMode,
    /// Whether a checksum follows each block.
    pub block_checksums: bool,
    /// Whether a checksum follows the content.
    pub content_checksum: bool,
}

/// Whether the bit of that weight is set in `byte`.
pub open spec fn flag(byte: u8, weight: u8) -> bool {
    byte / weight % 2 == 1
}

/// The number of bytes of the frame header that starts with `input`. The fifth
/// byte says which of the optional fields, a content size of eight bytes and a
/// dictionary number of four, are there.
pub open spec fn info_size(input: Seq<u8>) -> Result<int, Error> {
    if le_value(input.take(4)) != MAGIC_NUMBER {
        Err(Error::WrongMagicNumber)
    } else {
        Ok(
            MIN_FRAME_INFO_SIZE + (if flag(input[4], 8) {
                8int
            } else {
                0
            }) + (if flag(input[4], 1) {
                4int
            } else {
                0
            }),
        )
    }
}

/// The part of a frame header that its checksum is about: all but the magic
/// number and the checksum.
pub open spec fn descriptor(input: Seq<u8>) -> Seq<u8> {
    input.subrange(4, input.len() - 1)
}

/// The block size that the field of that value stands for.
pub open spec fn block_size_of(field: u8) -> Result<BlockSize, Error> {
    if field < 4 || field > 7 {
        Err(Error::UnsupportedBlocksize(field))
    } else if field == 4 {
        Ok(BlockSize::Max64KB)
    } else if field == 5 {
        Ok(BlockSize::Max256KB)
    } else if field == 6 {
        Ok(BlockSize::Max1MB)
    } else {
        Ok(BlockSize::Max4MB)
    }
}

/// What the frame header `input` says, `hash` being the hash of its descriptor.
/// The second byte of the hash is the checksum.
pub open spec fn info_of(input: Seq<u8>, hash: u32) -> Result<FrameInfo, Error> {
    let flags = input[4];
    let sizes = input[5];
    if le_value(input.take(4)) != MAGIC_NUMBER {
        Err(Error::WrongMagicNumber)
    } else if flags / 64 != 1 {
        Err(Error::UnsupportedVersion(flags / 64))
    } else if flag(flags, 2) || flag(sizes, 128) || sizes % 16 != 0 {
        Err(Error::ReservedBitsSet)
    } else {
        match block_size_of(sizes / 16) {
            Err(e) => Err(e),
            Ok(block_size) => if hash / 256 % 256 != input.last() {
                Err(Error::HeaderChecksumError)
            } else {
                Ok(
                    FrameInfo {
                        content_size: if flag(flags, 8) {
                            Some(le_value(input.subrange(6, 14)) as u64)
                        } else {
                            None
                        },
                        dict_id: if flag(flags, 1) {
                            Some(
                                le_value(
                                    input.subrange(input.len() - 5, input.len() - 1),
                                ) as u32,
                            )
                        } else {
                            None
                        },
                        block_size,
                        block_mode: if flag(flags, 32) {
                            BlockMode::Independent
                        } else {
                            BlockMode::Linked
                        },
                        block_checksums: flag(flags, 16),
                        content_checksum: flag(flags, 4),
                    },
                )
            },
        }
    }
}

/// Whether `input` is as long as the frame header that it starts.
pub open spec fn is_whole_info(input: Seq<u8>) -> bool {
    &&& MIN_FRAME_INFO_SIZE <= input.len()
    &&& info_size(input) matches Ok(n) ==> n == input.len()
}

impl FrameInfo {
    /// What of the content a checksum at the end of the frame is about: all of it
    /// where there is one, nothing where there is none.
    pub open spec fn checked(self, content: Seq<u8>) -> Seq<u8> {
        if self.content_checksum {
            content
        } else {
            Seq::empty()
        }
    }

    /// Finds the size of a frame header from its first bytes.
    pub fn read_size(input: &[u8]) -> (result: Result<usize, Error>)
        requires
            MIN_FRAME_INFO_SIZE <= input@.len(),
        ensures
            match info_size(input@) {
                Ok(n) => result == Ok::<usize, Error>(n as usize) && MIN_FRAME_INFO_SIZE <= n
                    <= MAX_FRAME_INFO_SIZE,
                Err(e) => result == Err::<usize, Error>(e),
            },
    {
        assert(input@.subrange(0, 4) =~= input@.take(4));
        if read_u32(input, 0) != MAGIC_NUMBER {
            return Err(Error::WrongMagicNumber);
        }
        let mut required: usize = MIN_FRAME_INFO_SIZE;
        if input[4] / 8 % 2 == 1 {
            required = required + 8;
        }
        if input[4] % 2 == 1 {
            required = required + 4;
        }
        Ok(required)
    }

    /// Reads a frame header, `hash` being the hash of its descriptor.
    pub fn parse(input: &[u8], hash: u32) -> (result: Result<FrameInfo, Error>)
        requires
            is_whole_info(input@),
        ensures
            result == info_of(input@, hash),
    {
        assert(input@.subrange(0, 4) =~= input@.take(4));
        if read_u32(input, 0) != MAGIC_NUMBER {
            return Err(Error::WrongMagicNumber);
        }
        let flags: u8 = input[4];
        let sizes: u8 = input[5];
        if flags / 64 != 1 {
            return Err(Error::UnsupportedVersion(flags / 64));
        }
        if flags / 2 % 2 == 1 || sizes / 128 % 2 == 1 || sizes % 16 != 0 {
            return Err(Error::ReservedBitsSet);
        }
        let block_size = match sizes / 16 {
            4 => BlockSize::Max64KB,
            5 => BlockSize::Max256KB,
            6 => BlockSize::Max1MB,
            7 => BlockSize::Max4MB,
            other => {
                return Err(Error::UnsupportedBlocksize(other));
            },
        };
        let last: usize = input.len() - 1;
        if hash / 256 % 256 != input[last] as u32 {
            return Err(Error::HeaderChecksumError);
        }
        let content_size: Option<u64> = if flags / 8 % 2 == 1 {
            Some(read_u64(input, 6))
        } else {
            None
        };
        let dict_id: Option<u32> = if flags % 2 == 1 {
            Some(read_u32(input, last - 4))
        } else {
            None
        };
        let block_mode = if flags / 32 % 2 == 1 {
            BlockMode::Independent
        } else {
            BlockMode::Linked
        };
        Ok(
            FrameInfo {
                content_size,
                dict_id,
                block_size,
                block_mode,
                block_checksums: flags / 16 % 2 == 1,
                content_checksum: flags / 4 % 2 == 1,
            },
        )
    }

    /// Reads a frame header.
    pub fn read(input: &[u8]) -> (result: Result<FrameInfo, Error>)
        requires
            is_whole_info(input@),
        ensures
            result == info_of(input@, xxh32(0, descriptor(input@))),
    {
        let hash: u32 = checksum(vstd::slice::slice_subrange(input, 4, input.len() - 1));
        FrameInfo::parse(input, hash)
    }
}

/// What the header of a block says.
#[derive(Debug, Clone, Copy, PartialEq, Eq, Structural)]
pub enum BlockInfo {
    /// A compressed block of that size follows.
    Compressed(u32),
    /// A block of that size follows as it is.
    Uncompressed(u32),
    /// There is no further block.
    EndMark,
}

/// What the block header `input` says.
pub open spec fn block_info_of(input: Seq<u8>) -> BlockInfo {
    let word = le_value(input);
    if word == 0 {
        BlockInfo::EndMark
    } else if word >= UNCOMPRESSED_SIZE_BIT {
        BlockInfo::Uncompressed((word - UNCOMPRESSED_SIZE_BIT) as u32)
    } else {
        BlockInfo::Compressed(word as u32)
    }
}

impl BlockInfo {
    /// Reads a block header.
    pub fn read(input: &[u8]) -> (info: BlockInfo)
        requires
            input@.len() == BLOCK_INFO_SIZE,
        ensures
            info == block_info_of(input@),
    {
        assert(input@.subrange(0, 4) =~= input@);
        let word: u32 = read_u32(input, 0);
        if word == 0 {
            BlockInfo::EndMark
        } else if word >= UNCOMPRESSED_SIZE_BIT {
            BlockInfo::Uncompressed(word - UNCOMPRESSED_SIZE_BIT)
        } else {
            BlockInfo::Compressed(word)
        }
    }
}

/// The checksum at the end of a frame is about all of the content, if there is one.
pub proof fn law_checked(info: FrameInfo, content: Seq<u8>)
    ensures
        info.content_checksum ==> info.checked(content) == content,
        !info.content_checksum ==> info.checked(content).len() == 0,
{
}

} // verus!
