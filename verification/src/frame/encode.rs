//! Frames written down from what they are to say and to hold. What is written is
//! read back as just that, and nothing else is read at all.

use crate::block::decompress::decode_block;
use crate::block::sequences::{law_block_is_decoded, law_decoded_is_a_block, Block};
use crate::bytes::{
    law_le_bytes_of_value, law_le_u32, law_le_u64, law_le_value_8, le_bytes, le_value,
    lemma_joined, lemma_le_value_4,
};
use crate::frame::format::{
    block_content, blocks_content, end_content, frame_content, frame_header, Cap,
};
use crate::frame::header::{
    block_info_of, descriptor, flag, info_of, info_size, is_whole_info, BlockInfo,
    BlockMode, BlockSize, FrameInfo,
};
use crate::frame::model::{dst_size, MAX_BUFFER_SIZE};
use crate::frame::Error;
use crate::hash::xxh32;
use vstd::prelude::*;

verus! {

/// The bytes that every frame starts with.
pub open spec fn magic_bytes() -> Seq<u8> {
    seq![0x04u8, 0x22u8, 0x4du8, 0x18u8]
}

/// `n` where `there` holds, else nothing.
pub open spec fn if_there(there: bool, n: int) -> int {
    if there {
        n
    } else {
        0
    }
}

/// The first byte of a descriptor: the version in the two highest bits, then a bit
/// for each of the things that there can be.
pub open spec fn flags_byte(info: FrameInfo) -> int {
    64 + if_there(info.block_mode is Independent, 32) + if_there(info.block_checksums, 16)
        + if_there(info.content_size is Some, 8) + if_there(info.content_checksum, 4) + if_there(
        info.dict_id is Some,
        1,
    )
}

/// The number that stands for a block size.
pub open spec fn size_number(size: BlockSize) -> int {
    match size {
        BlockSize::Max64KB => 4,
        BlockSize::Max256KB => 5,
        BlockSize::Max1MB => 6,
        BlockSize::Max4MB => 7,
    }
}

/// The descriptor of a frame.
pub open spec fn descriptor_bytes(info: FrameInfo) -> Seq<u8> {
    seq![flags_byte(info) as u8, (16 * size_number(info.block_size)) as u8] + (
    match info.content_size {
        Some(n) => le_bytes(n as nat, 8),
        None => Seq::empty(),
    }) + (match info.dict_id {
        Some(n) => le_bytes(n as nat, 4),
        None => Seq::empty(),
    })
}

/// The header of a frame, `hash` being the hash of the descriptor: of its four
/// bytes, the second lowest is the checksum.
pub open spec fn header_bytes(info: FrameInfo, hash: u32) -> Seq<u8> {
    magic_bytes() + descriptor_bytes(info) + seq![(hash / 256 % 256) as u8]
}

/// A block size is 2 to the power of 8 and twice its number.
pub proof fn law_block_sizes(size: BlockSize)
    ensures
        size.size() == vstd::arithmetic::power2::pow2((8 + 2 * size_number(size)) as nat),
{
    vstd::arithmetic::power2::lemma2_to64();
}

proof fn lemma_magic(input: Seq<u8>)
    requires
        input.len() >= 4,
    ensures
        le_value(input.take(4)) == 0x184D2204 <==> input.take(4) == magic_bytes(),
{
    lemma_le_value_4(input.take(4));
    lemma_le_value_4(magic_bytes());
    if le_value(input.take(4)) == 0x184D2204 {
        assert(input.take(4) =~= magic_bytes());
    }
}

proof fn lemma_header_parts(info: FrameInfo, hash: u32)
    ensures
        ({
            let head = header_bytes(info, hash);
            let d = descriptor_bytes(info);
            &&& head.len() == 7 + if_there(info.content_size is Some, 8) + if_there(
                info.dict_id is Some,
                4,
            )
            &&& head.take(4) == magic_bytes()
            &&& head.subrange(4, head.len() - 1) == d
            &&& head[4] == flags_byte(info)
            &&& head[5] == 16 * size_number(info.block_size)
            &&& head.last() == hash / 256 % 256
            &&& info.content_size matches Some(n) ==> le_value(head.subrange(6, 14)) == n
            &&& info.dict_id matches Some(n) ==> le_value(
                head.subrange(head.len() - 5, head.len() - 1),
            ) == n
        }),
{
    let head = header_bytes(info, hash);
    if let Some(n) = info.content_size {
        law_le_u64(n as nat);
        assert(head.subrange(6, 14) =~= le_bytes(n as nat, 8)) by {
            if let Some(m) = info.dict_id {
                law_le_u32(m as nat);
            }
        }
    }
    if let Some(n) = info.dict_id {
        law_le_u32(n as nat);
        assert(head.subrange(head.len() - 5, head.len() - 1) =~= le_bytes(n as nat, 4));
    }
    assert(head.take(4) =~= magic_bytes());
    assert(head.subrange(4, head.len() - 1) =~= descriptor_bytes(info));
}

/// A header that is written down is read back: its size is found, and all that it
/// says comes back as it was.
pub proof fn law_header_is_read(info: FrameInfo, hash: u32)
    ensures
        ({
            let head = header_bytes(info, hash);
            &&& 7 <= head.len() <= 19
            &&& is_whole_info(head)
            &&& info_size(head) == Ok::<int, Error>(head.len() as int)
            &&& descriptor(head) == descriptor_bytes(info)
            &&& info_of(head, hash) == Ok::<FrameInfo, Error>(info)
        }),
{
    let head = header_bytes(info, hash);
    lemma_header_parts(info, hash);
    lemma_magic(head);
    let flags = head[4];
    assert(flag(flags, 8) == info.content_size is Some);
    assert(flag(flags, 1) == info.dict_id is Some);
    assert(flag(flags, 32) == info.block_mode is Independent);
    assert(flag(flags, 16) == info.block_checksums);
    assert(flag(flags, 4) == info.content_checksum);
    assert(!flag(flags, 2));
    assert(flags / 64 == 1);
    assert(info_of(head, hash).unwrap().content_size == info.content_size);
    assert(info_of(head, hash).unwrap().dict_id == info.dict_id);
}

proof fn lemma_flags(flags: u8)
    ensures
        flags == 64 * (flags / 64) + if_there(flag(flags, 32), 32) + if_there(flag(flags, 16), 16)
            + if_there(flag(flags, 8), 8) + if_there(flag(flags, 4), 4) + if_there(
            flag(flags, 2),
            2,
        ) + if_there(flag(flags, 1), 1),
{
    assert(flags == 64 * (flags / 64) + 32 * (flags / 32 % 2) + 16 * (flags / 16 % 2) + 8 * (flags
        / 8 % 2) + 4 * (flags / 4 % 2) + 2 * (flags / 2 % 2) + flags / 1 % 2) by (bit_vector);
}

/// Nothing but headers is read: what is read is a header, written down.
#[verifier::rlimit(30)]
pub proof fn law_read_is_a_header(input: Seq<u8>, hash: u32)
    requires
        is_whole_info(input),
    ensures
        info_of(input, hash) matches Ok(info) ==> input == header_bytes(info, hash),
{
    if let Ok(info) = info_of(input, hash) {
        let flags = input[4];
        let n = input.len();
        lemma_magic(input);
        assert(flags / 64 == 1);
        lemma_flags(flags);
        assert(flags_byte(info) == flags);
        assert(input[5] == 16 * size_number(info.block_size));
        if flag(flags, 8) {
            law_le_bytes_of_value(input.subrange(6, 14));
            law_le_value_8(input.subrange(6, 14));
        }
        if flag(flags, 1) {
            law_le_bytes_of_value(input.subrange(n - 5, n - 1));
            lemma_le_value_4(input.subrange(n - 5, n - 1));
        }
        let size = match info.content_size {
            Some(m) => le_bytes(m as nat, 8),
            None => Seq::empty(),
        };
        let dict = match info.dict_id {
            Some(m) => le_bytes(m as nat, 4),
            None => Seq::empty(),
        };
        assert(size == if flag(flags, 8) { input.subrange(6, 14) } else { Seq::empty() });
        assert(dict == if flag(flags, 1) { input.subrange(n - 5, n - 1) } else { Seq::empty() });
        assert(input =~= input.take(4) + (seq![flags, input[5]] + size + dict) + seq![input.last()]);
    }
}

/// What does not start with the magic number is refused as that, by its first
/// bytes and as a whole, and nothing else is.
pub proof fn law_magic_number(input: Seq<u8>, hash: u32)
    requires
        input.len() >= 7,
    ensures
        input.take(4) != magic_bytes() <==> info_size(input) == Err::<int, Error>(
            Error::WrongMagicNumber,
        ),
        input.take(4) != magic_bytes() <==> info_of(input, hash) == Err::<FrameInfo, Error>(
            Error::WrongMagicNumber,
        ),
        input.take(4) == magic_bytes() ==> info_size(input) is Ok,
{
    lemma_magic(input);
}

/// The size of a header follows from its fifth byte.
pub proof fn law_header_size(input: Seq<u8>)
    requires
        input.len() >= 7,
        input.take(4) == magic_bytes(),
    ensures
        info_size(input) == Ok::<int, Error>(
            7 + if_there(input[4] & 0x08 != 0, 8) + if_there(input[4] & 0x01 != 0, 4),
        ),
{
    lemma_magic(input);
    let f = input[4];
    assert((f & 0x08 != 0) == (f / 8 % 2 == 1)) by (bit_vector);
    assert((f & 0x01 != 0) == (f / 1 % 2 == 1)) by (bit_vector);
}

/// Why a header with the right magic number is refused: the version is not 1;
/// else, a reserved bit is set; else, there is no such block size; else, the
/// checksum is not the second lowest byte of the hash. Where none of these holds,
/// it is not refused.
pub proof fn law_header_is_refused(input: Seq<u8>, hash: u32)
    requires
        is_whole_info(input),
        input.take(4) == magic_bytes(),
    ensures
        ({
            let flags = input[4];
            let sizes = input[5];
            let result = info_of(input, hash);
            if flags & 0xc0 != 0x40 {
                result == Err::<FrameInfo, Error>(Error::UnsupportedVersion(flags >> 6))
            } else if flags & 0x02 != 0 || sizes & 0x8f != 0 {
                result == Err::<FrameInfo, Error>(Error::ReservedBitsSet)
            } else if sizes < 0x40 {
                result == Err::<FrameInfo, Error>(Error::UnsupportedBlocksize(sizes >> 4))
            } else if input.last() != (hash >> 8) & 0xff {
                result == Err::<FrameInfo, Error>(Error::HeaderChecksumError)
            } else {
                result is Ok
            }
        }),
{
    lemma_magic(input);
    let f = input[4];
    let s = input[5];
    assert((f & 0xc0 != 0x40) == (f / 64 != 1)) by (bit_vector);
    assert(f >> 6 == f / 64) by (bit_vector);
    assert((f & 0x02 != 0) == (f / 2 % 2 == 1)) by (bit_vector);
    assert((s & 0x8f != 0) == (s / 128 % 2 == 1 || s % 16 != 0)) by (bit_vector);
    assert(s >> 4 == s / 16) by (bit_vector);
    assert((hash >> 8) & 0xff == hash / 256 % 256) by (bit_vector);
}

/// The header of a block is four bytes: zero at the end of the frame; else the
/// size of the block, with the highest bit set where the block is not compressed.
pub proof fn law_block_header(n: nat)
    requires
        n < 0x80000000,
    ensures
        block_info_of(seq![0u8, 0u8, 0u8, 0u8]) == BlockInfo::EndMark,
        n > 0 ==> (block_info_of(le_bytes(n, 4)) matches BlockInfo::Compressed(len) && len == n),
        block_info_of(le_bytes(0x80000000 + n, 4)) matches BlockInfo::Uncompressed(len) && len == n,
{
    lemma_le_value_4(seq![0u8, 0u8, 0u8, 0u8]);
    law_le_u32(n);
    law_le_u32(0x80000000 + n);
}

/// Whatever the header of a block is read as, it is written as.
pub proof fn law_block_header_is_written(input: Seq<u8>)
    requires
        input.len() == 4,
    ensures
        match block_info_of(input) {
            BlockInfo::EndMark => input == seq![0u8, 0u8, 0u8, 0u8],
            BlockInfo::Compressed(len) => 0 < len < 0x80000000 && input == le_bytes(len as nat, 4),
            BlockInfo::Uncompressed(len) => len < 0x80000000 && input == le_bytes(
                0x80000000 + len as nat,
                4,
            ),
        },
{
    lemma_le_value_4(input);
    law_le_bytes_of_value(input);
    if block_info_of(input) == BlockInfo::EndMark {
        assert(input =~= seq![0u8, 0u8, 0u8, 0u8]);
    }
}

/// A checksum, where there is one.
pub open spec fn sum_bytes(there: bool, data: Seq<u8>) -> Seq<u8> {
    if there {
        le_bytes(xxh32(0, data) as nat, 4)
    } else {
        Seq::empty()
    }
}

/// A block of a frame: stored as it is, or compressed.
pub enum FrameBlock {
    /// The content as it is.
    Stored(Seq<u8>),
    /// A block to be decompressed.
    Packed(Block),
}

/// What a block of that frame can refer to, `before` being the content before it.
pub open spec fn within_reach(info: FrameInfo, before: Seq<u8>) -> Seq<u8> {
    match info.block_mode {
        BlockMode::Linked => before,
        BlockMode::Independent => Seq::empty(),
    }
}

impl FrameBlock {
    /// The bytes of the block in the stream.
    pub open spec fn body(self) -> Seq<u8> {
        match self {
            FrameBlock::Stored(data) => data,
            FrameBlock::Packed(block) => block.bytes(),
        }
    }

    /// The number in the header of the block.
    pub open spec fn word(self) -> nat {
        match self {
            FrameBlock::Stored(data) => 0x80000000 + data.len(),
            FrameBlock::Packed(block) => block.bytes().len(),
        }
    }

    /// The block with its header and its checksum.
    pub open spec fn bytes(self, info: FrameInfo) -> Seq<u8> {
        le_bytes(self.word(), 4) + self.body() + sum_bytes(info.block_checksums, self.body())
    }

    /// The content of the block.
    pub open spec fn data(self, info: FrameInfo, before: Seq<u8>) -> Seq<u8> {
        match self {
            FrameBlock::Stored(data) => data,
            FrameBlock::Packed(block) => block.data(within_reach(info, before)),
        }
    }

    /// Whether there can be such a block in that frame: it takes no more bytes than
    /// the frame allows, and is decompressed to no more than `cap`.
    pub open spec fn fits(self, info: FrameInfo, cap: int, before: Seq<u8>) -> bool {
        &&& self.body().len() <= info.block_size.size()
        &&& self matches FrameBlock::Packed(block) ==> {
            &&& block.fits(within_reach(info, before))
            &&& block.data(within_reach(info, before)).len() <= cap
        }
    }
}

/// Blocks one after the other, written down.
pub open spec fn blocks_bytes(info: FrameInfo, blocks: Seq<FrameBlock>) -> Seq<u8>
    decreases blocks.len(),
{
    if blocks.len() == 0 {
        Seq::empty()
    } else {
        blocks[0].bytes(info) + blocks_bytes(info, blocks.skip(1))
    }
}

/// `before` with the content of the blocks behind it.
pub open spec fn with_blocks(info: FrameInfo, before: Seq<u8>, blocks: Seq<FrameBlock>) -> Seq<u8>
    decreases blocks.len(),
{
    if blocks.len() == 0 {
        before
    } else {
        with_blocks(info, before + blocks[0].data(info, before), blocks.skip(1))
    }
}

/// Whether there can be such blocks behind `before`.
pub open spec fn blocks_fit(
    info: FrameInfo,
    cap: int,
    before: Seq<u8>,
    blocks: Seq<FrameBlock>,
) -> bool
    decreases blocks.len(),
{
    blocks.len() > 0 ==> {
        &&& blocks[0].fits(info, cap, before)
        &&& blocks_fit(info, cap, before + blocks[0].data(info, before), blocks.skip(1))
    }
}

/// The end of a frame with that content.
pub open spec fn end_bytes(info: FrameInfo, content: Seq<u8>) -> Seq<u8> {
    seq![0u8, 0u8, 0u8, 0u8] + sum_bytes(info.content_checksum, content)
}

/// A frame.
pub struct Frame {
    /// What the header says.
    pub info: FrameInfo,
    /// The blocks.
    pub blocks: Seq<FrameBlock>,
}

impl Frame {
    /// The content.
    pub open spec fn content(self) -> Seq<u8> {
        with_blocks(self.info, Seq::empty(), self.blocks)
    }

    /// The frame, written down.
    pub open spec fn bytes(self) -> Seq<u8> {
        header_bytes(self.info, xxh32(0, descriptor_bytes(self.info))) + blocks_bytes(
            self.info,
            self.blocks,
        ) + end_bytes(self.info, self.content())
    }

    /// Whether there can be such a frame, no block being decompressed to more than
    /// `cap` bytes.
    pub open spec fn fits(self, cap: int) -> bool {
        &&& blocks_fit(self.info, cap, Seq::empty(), self.blocks)
        &&& self.info.content_size matches Some(n) ==> n == self.content().len()
    }
}

/// The most that a block may decompress to: what the header says, or what a buffer
/// holds, which for linked blocks is two blocks and 65536 bytes.
pub proof fn law_caps(info: FrameInfo)
    ensures
        Cap::Declared.of(info) == info.block_size.size(),
        Cap::Buffer.of(info) == dst_size(info),
        info.block_mode is Independent ==> dst_size(info) == info.block_size.size(),
        info.block_mode is Linked ==> dst_size(info) == info.block_size.size()
            + info.block_size.size() + 65536,
        dst_size(info) <= MAX_BUFFER_SIZE,
        MAX_BUFFER_SIZE == 4194304 + 4194304 + 65536,
{
}

proof fn lemma_regroup(a: Seq<u8>, b: Seq<u8>, c: Seq<u8>, d: Seq<u8>)
    ensures
        a + (b + c + d) == a + b + c + d,
{
    lemma_joined(a, b + c, d);
    lemma_joined(a, b, c);
}

/// The header of a block is taken off the stream.
proof fn lemma_header_taken(
    info: FrameInfo,
    cap: int,
    head: Seq<u8>,
    packed: bool,
    len: nat,
    body: Seq<u8>,
    before: Seq<u8>,
)
    requires
        len <= info.block_size.size(),
        packed ==> len > 0,
        head == le_bytes(
            if packed {
                len
            } else {
                0x80000000 + len
            },
            4,
        ),
    ensures
        blocks_content(info, cap, head + body, before) == block_content(
            info,
            cap,
            body,
            packed,
            len as int,
            before,
        ),
{
    law_block_header(len);
    law_le_u32(len);
    law_le_u32(0x80000000 + len);
    assert((head + body).take(4) =~= head);
    assert((head + body).skip(4) =~= body);
}

/// The body of a block and its checksum are taken off the stream.
proof fn lemma_body_taken(
    info: FrameInfo,
    cap: int,
    src: Seq<u8>,
    packed: bool,
    rest: Seq<u8>,
    before: Seq<u8>,
)
    ensures
        block_content(
            info,
            cap,
            src + sum_bytes(info.block_checksums, src) + rest,
            packed,
            src.len() as int,
            before,
        ) == match decode_block(src, within_reach(info, before), 0, cap) {
            _ if !packed => blocks_content(info, cap, rest, before + src),
            Ok(data) => blocks_content(info, cap, rest, before + data),
            Err(_) => None,
        },
{
    let len = src.len() as int;
    let sum = sum_bytes(info.block_checksums, src);
    let stream = src + sum + rest;
    law_le_u32(xxh32(0, src) as nat);
    assert(stream.take(len) =~= src);
    assert(stream.subrange(len, len + sum.len()) =~= sum);
    assert(stream.skip(len + sum.len()) =~= rest);
}

/// A compressed block is taken where it is no bigger than the frame header allows
/// and can be decompressed: its content stands behind what was there.
#[verifier::rlimit(30)]
pub proof fn law_packed_block(
    info: FrameInfo,
    cap: int,
    src: Seq<u8>,
    rest: Seq<u8>,
    before: Seq<u8>,
)
    requires
        1 <= src.len() <= info.block_size.size(),
        decode_block(src, within_reach(info, before), 0, cap) is Ok,
    ensures
        blocks_content(
            info,
            cap,
            le_bytes(src.len(), 4) + src + sum_bytes(info.block_checksums, src) + rest,
            before,
        ) == blocks_content(
            info,
            cap,
            rest,
            before + decode_block(src, within_reach(info, before), 0, cap).unwrap(),
        ),
{
    let head = le_bytes(src.len(), 4);
    let sum = sum_bytes(info.block_checksums, src);
    lemma_header_taken(info, cap, head, true, src.len(), src + sum + rest, before);
    lemma_body_taken(info, cap, src, true, rest, before);
    lemma_regroup(head, src, sum, rest);
}

/// A stored block is taken where it is no bigger than the frame header allows: it
/// stands behind what was there.
#[verifier::rlimit(30)]
pub proof fn law_plain_block(
    info: FrameInfo,
    cap: int,
    src: Seq<u8>,
    rest: Seq<u8>,
    before: Seq<u8>,
)
    requires
        src.len() <= info.block_size.size(),
    ensures
        blocks_content(
            info,
            cap,
            le_bytes(0x80000000 + src.len(), 4) + src + sum_bytes(info.block_checksums, src) + rest,
            before,
        ) == blocks_content(info, cap, rest, before + src),
{
    let head = le_bytes(0x80000000 + src.len(), 4);
    let sum = sum_bytes(info.block_checksums, src);
    lemma_header_taken(info, cap, head, false, src.len(), src + sum + rest, before);
    lemma_body_taken(info, cap, src, false, rest, before);
    lemma_regroup(head, src, sum, rest);
}

/// Blocks that are written down are taken one after the other, and then what is
/// behind them.
#[verifier::rlimit(30)]
pub proof fn law_blocks_are_taken(
    info: FrameInfo,
    cap: int,
    blocks: Seq<FrameBlock>,
    rest: Seq<u8>,
    before: Seq<u8>,
)
    requires
        blocks_fit(info, cap, before, blocks),
    ensures
        blocks_content(info, cap, blocks_bytes(info, blocks) + rest, before) == blocks_content(
            info,
            cap,
            rest,
            with_blocks(info, before, blocks),
        ),
    decreases blocks.len(),
{
    if blocks.len() == 0 {
        assert(blocks_bytes(info, blocks) + rest =~= rest);
    } else {
        let later = blocks.skip(1);
        let tail = blocks_bytes(info, later) + rest;
        let data = blocks[0].data(info, before);
        lemma_joined(blocks[0].bytes(info), blocks_bytes(info, later), rest);
        match blocks[0] {
            FrameBlock::Stored(src) => {
                law_plain_block(info, cap, src, tail, before);
            },
            FrameBlock::Packed(block) => {
                law_block_is_decoded(block, within_reach(info, before), 0, cap);
                law_packed_block(info, cap, block.bytes(), tail, before);
            },
        }
        law_blocks_are_taken(info, cap, later, rest, before + data);
    }
}

/// The end of a frame is taken where the content is as long as the header says,
/// if it does.
pub proof fn law_end_is_taken(info: FrameInfo, cap: int, content: Seq<u8>, rest: Seq<u8>)
    requires
        info.content_size matches Some(n) ==> n == content.len(),
    ensures
        blocks_content(info, cap, end_bytes(info, content) + rest, content) == Some(
            (content, rest),
        ),
{
    let mark = seq![0u8, 0u8, 0u8, 0u8];
    let sum = sum_bytes(info.content_checksum, content);
    let stream = end_bytes(info, content) + rest;
    law_block_header(0);
    law_le_u32(xxh32(0, content) as nat);
    assert(stream.take(4) =~= mark);
    assert(stream.skip(4) =~= sum + rest);
    assert((sum + rest).take(sum.len() as int) =~= sum);
    assert((sum + rest).skip(sum.len() as int) =~= rest);
}

/// A frame that is written down holds its content, whatever follows it.
#[verifier::rlimit(30)]
pub proof fn law_frame_is_decoded(cap: Cap, frame: Frame, rest: Seq<u8>)
    requires
        frame.fits(cap.of(frame.info)),
    ensures
        frame_content(cap, frame.bytes() + rest) == Some((frame.content(), rest)),
{
    let info = frame.info;
    let hash = xxh32(0, descriptor_bytes(info));
    let head = header_bytes(info, hash);
    let n = head.len() as int;
    let end = end_bytes(info, frame.content());
    let body = blocks_bytes(info, frame.blocks) + (end + rest);
    let stream = frame.bytes() + rest;
    law_header_is_read(info, hash);
    assert(stream =~= head + body);
    assert(stream.take(7).take(4) =~= head.take(4));
    assert(stream.take(n) =~= head);
    assert(stream.skip(n) =~= body);
    law_blocks_are_taken(info, cap.of(info), frame.blocks, end + rest, Seq::empty());
    law_end_is_taken(info, cap.of(info), frame.content(), rest);
}

/// The body of a block that is taken off the stream, and its checksum.
proof fn lemma_body_written(
    info: FrameInfo,
    cap: int,
    stream: Seq<u8>,
    packed: bool,
    len: int,
    before: Seq<u8>,
)
    requires
        block_content(info, cap, stream, packed, len, before) is Some,
    ensures
        0 <= len <= stream.len(),
        ({
            let src = stream.take(len);
            let sum = sum_bytes(info.block_checksums, src);
            let n = len + sum.len();
            &&& n <= stream.len()
            &&& stream.take(n) == src + sum
            &&& packed ==> decode_block(src, within_reach(info, before), 0, cap) is Ok
            &&& block_content(info, cap, stream, packed, len, before) == blocks_content(
                info,
                cap,
                stream.skip(n),
                before + (if packed {
                    decode_block(src, within_reach(info, before), 0, cap).unwrap()
                } else {
                    src
                }),
            )
        }),
{
    let src = stream.take(len);
    law_le_u32(xxh32(0, src) as nat);
    if info.block_checksums {
        let sum = stream.subrange(len, len + 4);
        law_le_bytes_of_value(sum);
        assert(sum_bytes(true, src) == sum);
        assert(stream.take(len + 4) =~= src + sum);
    } else {
        assert(stream.take(len) =~= src + sum_bytes(false, src));
    }
}

/// The block at the front of blocks that are taken.
#[verifier::rlimit(30)]
proof fn lemma_first_block(info: FrameInfo, cap: int, stream: Seq<u8>, before: Seq<u8>) -> (block:
    FrameBlock)
    requires
        blocks_content(info, cap, stream, before) is Some,
        block_info_of(stream.take(4)) != BlockInfo::EndMark,
    ensures
        block.fits(info, cap, before),
        4 <= block.bytes(info).len() <= stream.len(),
        stream.take(block.bytes(info).len() as int) == block.bytes(info),
        blocks_content(info, cap, stream, before) == blocks_content(
            info,
            cap,
            stream.skip(block.bytes(info).len() as int),
            before + block.data(info, before),
        ),
{
    let body = stream.skip(4);
    law_block_header_is_written(stream.take(4));
    let (packed, len) = match block_info_of(stream.take(4)) {
        BlockInfo::Compressed(len) => (true, len as int),
        BlockInfo::Uncompressed(len) => (false, len as int),
        BlockInfo::EndMark => (false, 0),
    };
    assert(blocks_content(info, cap, stream, before) == block_content(
        info,
        cap,
        body,
        packed,
        len,
        before,
    ));
    lemma_body_written(info, cap, body, packed, len, before);
    lemma_block_of(info, cap, stream, packed, len, before)
}

proof fn lemma_cut(stream: Seq<u8>, n: int)
    requires
        0 <= n,
        4 + n <= stream.len(),
    ensures
        stream.take(4 + n) == stream.take(4) + stream.skip(4).take(n),
        stream.skip(4 + n) == stream.skip(4).skip(n),
{
    assert(stream.take(4 + n) =~= stream.take(4) + stream.skip(4).take(n));
    assert(stream.skip(4 + n) =~= stream.skip(4).skip(n));
}

#[verifier::rlimit(30)]
proof fn lemma_block_of(
    info: FrameInfo,
    cap: int,
    stream: Seq<u8>,
    packed: bool,
    len: int,
    before: Seq<u8>,
) -> (block: FrameBlock)
    requires
        4 <= stream.len(),
        0 <= len <= info.block_size.size(),
        stream.take(4) == le_bytes(
            (if packed {
                len
            } else {
                0x80000000 + len
            }) as nat,
            4,
        ),
        ({
            let body = stream.skip(4);
            let src = body.take(len);
            let sum = sum_bytes(info.block_checksums, src);
            &&& len + sum.len() <= body.len()
            &&& body.take(len + sum.len()) == src + sum
            &&& packed ==> decode_block(src, within_reach(info, before), 0, cap) is Ok
        }),
    ensures
        block.fits(info, cap, before),
        ({
            let body = stream.skip(4);
            let src = body.take(len);
            let sum = sum_bytes(info.block_checksums, src);
            let n = 4 + len + sum.len();
            &&& block.bytes(info).len() == n
            &&& stream.take(n) == block.bytes(info)
            &&& stream.skip(n) == body.skip(len + sum.len())
            &&& block.data(info, before) == if packed {
                decode_block(src, within_reach(info, before), 0, cap).unwrap()
            } else {
                src
            }
        }),
{
    let body = stream.skip(4);
    let src = body.take(len);
    let sum = sum_bytes(info.block_checksums, src);
    let n = 4 + len + sum.len();
    let block = if packed {
        FrameBlock::Packed(law_decoded_is_a_block(src, within_reach(info, before), 0, cap))
    } else {
        FrameBlock::Stored(src)
    };
    assert(block.body() == src);
    lemma_cut(stream, len + sum.len());
    lemma_regroup(stream.take(4), src, sum, Seq::empty());
    assert(stream.take(4) + src + sum + Seq::empty() =~= stream.take(4) + src + sum);
    assert(src + sum + Seq::empty() =~= src + sum);
    assert(stream.take(n) == block.bytes(info));
    block
}

/// The end of a frame that is taken off the stream.
proof fn lemma_end_written(info: FrameInfo, cap: int, stream: Seq<u8>, before: Seq<u8>)
    requires
        blocks_content(info, cap, stream, before) is Some,
        block_info_of(stream.take(4)) == BlockInfo::EndMark,
    ensures
        info.content_size matches Some(n) ==> n == before.len(),
        blocks_content(info, cap, stream, before) matches Some((content, rest)) && content == before
            && stream == end_bytes(info, before) + rest,
{
    let tail = stream.skip(4);
    let rest = blocks_content(info, cap, stream, before).unwrap().1;
    law_block_header_is_written(stream.take(4));
    assert(end_content(info, tail, before) == Some((before, rest)));
    if info.content_checksum {
        law_le_bytes_of_value(tail.take(4));
        assert(tail =~= tail.take(4) + rest);
    } else {
        assert(tail =~= sum_bytes(false, before) + rest);
    }
    assert(stream =~= stream.take(4) + tail);
    assert(stream =~= end_bytes(info, before) + rest);
}

/// Blocks and the end of a frame that are taken are written down so.
#[verifier::rlimit(30)]
proof fn lemma_blocks_are_written(
    info: FrameInfo,
    cap: int,
    stream: Seq<u8>,
    before: Seq<u8>,
) -> (blocks: Seq<FrameBlock>)
    requires
        blocks_content(info, cap, stream, before) is Some,
    ensures
        blocks_fit(info, cap, before, blocks),
        ({
            let (content, rest) = blocks_content(info, cap, stream, before).unwrap();
            &&& content == with_blocks(info, before, blocks)
            &&& stream == blocks_bytes(info, blocks) + end_bytes(info, content) + rest
            &&& info.content_size matches Some(n) ==> n == content.len()
        }),
    decreases stream.len(),
{
    let (content, rest) = blocks_content(info, cap, stream, before).unwrap();
    if block_info_of(stream.take(4)) == BlockInfo::EndMark {
        lemma_end_written(info, cap, stream, before);
        let blocks = Seq::<FrameBlock>::empty();
        assert(stream =~= blocks_bytes(info, blocks) + end_bytes(info, content) + rest);
        blocks
    } else {
        let block = lemma_first_block(info, cap, stream, before);
        let n = block.bytes(info).len() as int;
        let later = lemma_blocks_are_written(
            info,
            cap,
            stream.skip(n),
            before + block.data(info, before),
        );
        let blocks = seq![block] + later;
        assert(blocks.skip(1) =~= later);
        assert(stream =~= stream.take(n) + stream.skip(n));
        lemma_regroup(
            block.bytes(info),
            blocks_bytes(info, later),
            end_bytes(info, content),
            rest,
        );
        blocks
    }
}

#[verifier::rlimit(30)]
proof fn lemma_header_written(stream: Seq<u8>)
    requires
        frame_header(stream) is Some,
    ensures
        ({
            let (info, body) = frame_header(stream).unwrap();
            stream == header_bytes(info, xxh32(0, descriptor_bytes(info))) + body
        }),
{
    let (info, body) = frame_header(stream).unwrap();
    let n = info_size(stream.take(7)).unwrap();
    let head = stream.take(n);
    let hash = xxh32(0, descriptor(head));
    assert(stream.take(7).take(4) =~= head.take(4));
    law_read_is_a_header(head, hash);
    law_header_is_read(info, hash);
    assert(stream =~= head + body);
}

/// Nothing but frames holds any content: a stream that does starts with a frame,
/// written down, and the content is that of the frame.
#[verifier::rlimit(30)]
pub proof fn law_content_is_of_a_frame(cap: Cap, stream: Seq<u8>) -> (frame: Frame)
    requires
        frame_content(cap, stream) is Some,
    ensures
        frame.fits(cap.of(frame.info)),
        frame_content(cap, stream) matches Some((content, rest)) && content == frame.content()
            && stream == frame.bytes() + rest,
{
    let (info, body) = frame_header(stream).unwrap();
    let head = header_bytes(info, xxh32(0, descriptor_bytes(info)));
    lemma_header_written(stream);
    let blocks = lemma_blocks_are_written(info, cap.of(info), body, Seq::empty());
    let frame = Frame { info, blocks };
    let (content, rest) = frame_content(cap, stream).unwrap();
    lemma_regroup(head, blocks_bytes(info, blocks), end_bytes(info, content), rest);
    frame
}

} // verus!
