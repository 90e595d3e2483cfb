//! What the frame format says that a stream of bytes holds.

use crate::block::decompress::decode_block;
use crate::bytes::{law_le_u32, le_bytes, le_value, lemma_joined};
use crate::frame::header::{
    block_info_of, descriptor, info_of, info_size, BlockInfo, BlockMode, FrameInfo,
    BLOCK_INFO_SIZE, CHECKSUM_SIZE, MIN_FRAME_INFO_SIZE, UNCOMPRESSED_SIZE_BIT,
};
use crate::frame::model::dst_size;
use crate::frame::Error;
use crate::hash::xxh32;
use vstd::prelude::*;

verus! {

/// What a block may refer to, `before` being the content that comes before it.
pub open spec fn reference(info: FrameInfo, before: Seq<u8>) -> Seq<u8> {
    if info.block_mode == BlockMode::Linked {
        before
    } else {
        Seq::empty()
    }
}

/// The content of the blocks that `stream` starts with, behind the content
/// `before`, and what follows the frame. No compressed block decompresses to more
/// than `cap` bytes. `None` where the stream is no such series of blocks.
pub open spec fn blocks_content(
    info: FrameInfo,
    cap: int,
    stream: Seq<u8>,
    before: Seq<u8>,
) -> Option<(Seq<u8>, Seq<u8>)>
    decreases stream.len(), 0int,
{
    if stream.len() < BLOCK_INFO_SIZE {
        None
    } else {
        let rest = stream.skip(BLOCK_INFO_SIZE as int);
        match block_info_of(stream.take(BLOCK_INFO_SIZE as int)) {
            BlockInfo::EndMark => match info.content_size {
                Some(expected) if expected != before.len() => None,
                _ => end_content(info, rest, before),
            },
            BlockInfo::Uncompressed(len) => if len > info.block_size.size() {
                None
            } else {
                block_content(info, cap, rest, false, len as int, before)
            },
            BlockInfo::Compressed(len) => if len > info.block_size.size() {
                None
            } else {
                block_content(info, cap, rest, true, len as int, before)
            },
        }
    }
}

/// The content of the blocks that `stream` starts with, the header of the first
/// having been read: it takes `len` bytes and is compressed or not.
pub open spec fn block_content(
    info: FrameInfo,
    cap: int,
    stream: Seq<u8>,
    packed: bool,
    len: int,
    before: Seq<u8>,
) -> Option<(Seq<u8>, Seq<u8>)>
    decreases stream.len(), 1int,
{
    let src = stream.take(len);
    let size = if info.block_checksums {
        len + CHECKSUM_SIZE
    } else {
        len
    };
    if len < 0 || stream.len() < size {
        None
    } else if info.block_checksums && le_value(stream.subrange(len, size)) != xxh32(0, src) {
        None
    } else if packed {
        match decode_block(src, reference(info, before), 0, cap) {
            Ok(data) => blocks_content(info, cap, stream.skip(size), before + data),
            Err(_) => None,
        }
    } else {
        blocks_content(info, cap, stream.skip(size), before + src)
    }
}

/// The content of a frame whose end mark was read.
pub open spec fn end_content(info: FrameInfo, stream: Seq<u8>, before: Seq<u8>) -> Option<
    (Seq<u8>, Seq<u8>),
> {
    let size = CHECKSUM_SIZE as int;
    if !info.content_checksum {
        Some((before, stream))
    } else if stream.len() < size || le_value(stream.take(size)) != xxh32(0, before) {
        None
    } else {
        Some((before, stream.skip(size)))
    }
}

/// The header of the frame that `stream` starts with, and what follows it.
pub open spec fn frame_header(stream: Seq<u8>) -> Option<(FrameInfo, Seq<u8>)> {
    if stream.len() < MIN_FRAME_INFO_SIZE {
        None
    } else {
        match info_size(stream.take(MIN_FRAME_INFO_SIZE as int)) {
            Ok(n) => if stream.len() < n {
                None
            } else {
                let head = stream.take(n);
                match info_of(head, xxh32(0, descriptor(head))) {
                    Ok(info) => Some((info, stream.skip(n))),
                    Err(_) => None,
                }
            },
            Err(_) => None,
        }
    }
}

/// The most that a block may decompress to.
pub enum Cap {
    /// As much as the frame header says.
    Declared,
    /// As much as the buffer of a decoder holds.
    Buffer,
}

impl Cap {
    /// The number of bytes.
    pub open spec fn of(self, info: FrameInfo) -> int {
        match self {
            Cap::Declared => info.block_size.size(),
            Cap::Buffer => dst_size(info),
        }
    }
}

/// The content of the frame that `stream` starts with, and what follows the
/// frame. `None` where the stream does not start with a frame.
pub open spec fn frame_content(cap: Cap, stream: Seq<u8>) -> Option<(Seq<u8>, Seq<u8>)> {
    match frame_header(stream) {
        Some((info, rest)) => blocks_content(info, cap.of(info), rest, Seq::empty()),
        None => None,
    }
}

/// The checksum of `data`, where there is one.
pub open spec fn checksum_bytes(present: bool, data: Seq<u8>) -> Seq<u8> {
    if present {
        le_bytes(xxh32(0, data) as nat, CHECKSUM_SIZE as nat)
    } else {
        Seq::empty()
    }
}

/// A block that holds `data` as it is.
pub open spec fn stored_block(info: FrameInfo, data: Seq<u8>) -> Seq<u8> {
    le_bytes(UNCOMPRESSED_SIZE_BIT as nat + data.len(), BLOCK_INFO_SIZE as nat) + data
        + checksum_bytes(info.block_checksums, data)
}

/// The chunks one after the other.
pub open spec fn joined(chunks: Seq<Seq<u8>>) -> Seq<u8>
    decreases chunks.len(),
{
    if chunks.len() == 0 {
        Seq::empty()
    } else {
        chunks[0] + joined(chunks.skip(1))
    }
}

/// Blocks that hold the chunks as they are, and the end of the frame, `before`
/// being the content that comes before them.
pub open spec fn stored_blocks(info: FrameInfo, chunks: Seq<Seq<u8>>, before: Seq<u8>) -> Seq<u8>
    decreases chunks.len(),
{
    if chunks.len() == 0 {
        le_bytes(0, BLOCK_INFO_SIZE as nat) + checksum_bytes(info.content_checksum, before)
    } else {
        stored_block(info, chunks[0]) + stored_blocks(info, chunks.skip(1), before + chunks[0])
    }
}

proof fn lemma_raw_block(
    info: FrameInfo,
    cap: int,
    head: Seq<u8>,
    data: Seq<u8>,
    sum: Seq<u8>,
    rest: Seq<u8>,
    before: Seq<u8>,
)
    requires
        data.len() <= info.block_size.size(),
        head.len() == BLOCK_INFO_SIZE,
        block_info_of(head) == BlockInfo::Uncompressed(data.len() as u32),
        info.block_checksums ==> sum.len() == CHECKSUM_SIZE && le_value(sum) == xxh32(0, data),
        !info.block_checksums ==> sum.len() == 0,
    ensures
        blocks_content(info, cap, head + data + sum + rest, before) == blocks_content(
            info,
            cap,
            rest,
            before + data,
        ),
{
    let stream = head + data + sum + rest;
    let body = data + sum + rest;
    let len = data.len() as int;
    assert(stream.take(4) =~= head);
    assert(stream.skip(4) =~= body);
    assert(body.take(len) =~= data);
    assert(body.subrange(len, len + sum.len()) =~= sum);
    assert(body.skip(len + sum.len()) =~= rest);
}

proof fn lemma_end_mark(
    info: FrameInfo,
    cap: int,
    head: Seq<u8>,
    sum: Seq<u8>,
    rest: Seq<u8>,
    before: Seq<u8>,
)
    requires
        head.len() == BLOCK_INFO_SIZE,
        block_info_of(head) == BlockInfo::EndMark,
        info.content_size matches Some(n) ==> n == before.len(),
        info.content_checksum ==> sum.len() == CHECKSUM_SIZE && le_value(sum) == xxh32(0, before),
        !info.content_checksum ==> sum.len() == 0,
    ensures
        blocks_content(info, cap, head + sum + rest, before) == Some((before, rest)),
{
    let stream = head + sum + rest;
    assert(stream.take(4) =~= head);
    assert(stream.skip(4) =~= sum + rest);
    assert((sum + rest).take(sum.len() as int) =~= sum);
    assert((sum + rest).skip(sum.len() as int) =~= rest);
}

/// A block that holds data as it is has that data as its content.
pub proof fn law_stored_block(
    info: FrameInfo,
    cap: int,
    data: Seq<u8>,
    rest: Seq<u8>,
    before: Seq<u8>,
)
    requires
        data.len() <= info.block_size.size(),
    ensures
        blocks_content(info, cap, stored_block(info, data) + rest, before) == blocks_content(
            info,
            cap,
            rest,
            before + data,
        ),
{
    let word = UNCOMPRESSED_SIZE_BIT as nat + data.len();
    law_le_u32(word);
    law_le_u32(xxh32(0, data) as nat);
    lemma_raw_block(
        info,
        cap,
        le_bytes(word, BLOCK_INFO_SIZE as nat),
        data,
        checksum_bytes(info.block_checksums, data),
        rest,
        before,
    );
}

/// Blocks that hold chunks of data as they are have the chunks, one after the
/// other, as their content.
#[verifier::rlimit(30)]
pub proof fn law_stored_blocks(
    info: FrameInfo,
    cap: int,
    chunks: Seq<Seq<u8>>,
    rest: Seq<u8>,
    before: Seq<u8>,
)
    requires
        forall|i: int|
            0 <= i < chunks.len() ==> (#[trigger] chunks[i]).len() <= info.block_size.size(),
        info.content_size matches Some(n) ==> n == before.len() + joined(chunks).len(),
    ensures
        blocks_content(info, cap, stored_blocks(info, chunks, before) + rest, before) == Some(
            (before + joined(chunks), rest),
        ),
    decreases chunks.len(),
{
    if chunks.len() == 0 {
        law_le_u32(0);
        law_le_u32(xxh32(0, before) as nat);
        lemma_end_mark(
            info,
            cap,
            le_bytes(0, BLOCK_INFO_SIZE as nat),
            checksum_bytes(info.content_checksum, before),
            rest,
            before,
        );
        assert(before + joined(chunks) =~= before);
    } else {
        let tail = chunks.skip(1);
        let more = stored_blocks(info, tail, before + chunks[0]);
        law_stored_block(info, cap, chunks[0], more + rest, before);
        law_stored_blocks(info, cap, tail, rest, before + chunks[0]);
        lemma_joined(stored_block(info, chunks[0]), more, rest);
        lemma_joined(before, chunks[0], joined(tail));
    }
}

/// A frame whose blocks hold chunks of data as they are has the chunks, one after
/// the other, as its content, whatever follows the frame.
pub proof fn law_stored_frame(
    head: Seq<u8>,
    info: FrameInfo,
    chunks: Seq<Seq<u8>>,
    rest: Seq<u8>,
)
    requires
        MIN_FRAME_INFO_SIZE <= head.len(),
        info_size(head) == Ok::<int, Error>(head.len() as int),
        info_of(head, xxh32(0, descriptor(head))) == Ok::<FrameInfo, Error>(info),
        forall|i: int|
            0 <= i < chunks.len() ==> (#[trigger] chunks[i]).len() <= info.block_size.size(),
        info.content_size matches Some(n) ==> n == joined(chunks).len(),
    ensures
        frame_content(
            Cap::Declared,
            head + stored_blocks(info, chunks, Seq::empty()) + rest,
        ) == Some((joined(chunks), rest)),
{
    let blocks = stored_blocks(info, chunks, Seq::empty());
    let stream = head + blocks + rest;
    let n = head.len() as int;
    assert(stream.take(MIN_FRAME_INFO_SIZE as int).take(4) =~= head.take(4));
    assert(stream.take(n) =~= head);
    assert(stream.skip(n) =~= blocks + rest);
    law_stored_blocks(info, info.block_size.size(), chunks, rest, Seq::empty());
    assert(Seq::empty() + joined(chunks) =~= joined(chunks));
}

} // verus!
