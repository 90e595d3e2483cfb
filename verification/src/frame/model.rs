//! What a decoder does, as a function from state and bytes to state and action.

use crate::block::decompress::decode_block;
use crate::block::{DecompressError, WINDOW_SIZE};
use crate::bytes::le_value;
use crate::frame::format::reference;
use crate::frame::header::{
    block_info_of, descriptor, info_of, info_size, BlockInfo, BlockMode, FrameInfo,
    BLOCK_INFO_SIZE, CHECKSUM_SIZE, MIN_FRAME_INFO_SIZE,
};
use crate::frame::Error;
use vstd::prelude::*;

verus! {

/// The size of the largest buffer of decompressed bytes.
pub const MAX_BUFFER_SIZE: usize = 0x810000;

/// What a decoder asks of its caller.
#[derive(Debug, Clone, Copy, PartialEq, Eq)]
pub enum Action {
    /// Read once from the stream, at most that many bytes, and hand in what
    /// came, which is nothing at the end of the stream.
    Read { at_most: usize },
    /// Read exactly that many bytes from the stream and hand them in.
    ReadExact { len: usize },
    /// The read is over: that many bytes are in the buffer.
    Return { len: usize },
    /// The read is over: it failed.
    Fail(Error),
}

/// Which bytes of the stream a decoder waits for.
#[derive(Debug, Clone, Copy, PartialEq, Eq, Structural)]
pub enum Phase {
    /// None: no read is under way.
    Idle,
    /// The start of a frame header.
    FrameHead,
    /// The rest of the shortest frame header.
    FrameHeadRest,
    /// The rest of a longer frame header.
    FrameInfoRest,
    /// A block header.
    BlockHead,
    /// A block of that size that is not compressed.
    RawBody { len: usize },
    /// The checksum of such a block.
    RawChecksum { len: usize },
    /// A compressed block of that size.
    PackedBody { len: usize },
    /// The checksum of such a block.
    PackedChecksum { len: usize },
    /// The checksum of the content.
    ContentChecksum,
}

/// How the buffer of decompressed bytes is divided up.
pub struct Layout {
    /// Where the bytes start that were not yet given to the caller.
    pub start: int,
    /// Where they end.
    pub end: int,
    /// Where the bytes start that were output before those at the front of the
    /// buffer and are still part of the window.
    pub dict: int,
    /// How many those are.
    pub dict_len: int,
}

/// The size of the buffer of decompressed bytes.
pub open spec fn dst_size(info: FrameInfo) -> int {
    if info.block_mode == BlockMode::Linked {
        2 * info.block_size.size() + WINDOW_SIZE
    } else {
        info.block_size.size()
    }
}

impl Layout {
    /// An empty buffer.
    pub open spec fn empty() -> Layout {
        Layout { start: 0, end: 0, dict: 0, dict_len: 0 }
    }

    /// The layout for the next block, once all bytes were given to the caller.
    /// Where blocks are linked, output goes on behind the last block while there
    /// is room for another; then the last bytes of it, as many as the window
    /// holds, become the dictionary, and output starts at the front again. From
    /// then on the dictionary gives way to the output, so that both together
    /// hold the window.
    pub open spec fn advance(self, info: FrameInfo) -> Layout {
        let window = WINDOW_SIZE as int;
        if info.block_mode == BlockMode::Independent {
            Layout { start: 0, end: 0, ..self }
        } else if self.start + info.block_size.size() > dst_size(info) {
            Layout { start: 0, end: 0, dict: self.start - window, dict_len: window }
        } else if self.start + self.dict_len > window {
            let excess = self.start + self.dict_len - window;
            let delta = if excess < self.dict_len {
                excess
            } else {
                self.dict_len
            };
            Layout { dict: self.dict + delta, dict_len: self.dict_len - delta, ..self }
        } else {
            self
        }
    }

    /// Whether the layout is one of the buffer, `len` being the length of all that
    /// was decompressed of the frame: where there is a dictionary, the output
    /// ends before it; where blocks are linked, both together hold the window.
    pub open spec fn fits(self, info: FrameInfo, len: int) -> bool {
        &&& 0 <= self.start <= self.end <= dst_size(info)
        &&& self.end <= len
        &&& 0 <= self.dict
        &&& 0 <= self.dict_len <= WINDOW_SIZE
        &&& info.block_mode == BlockMode::Independent ==> self.dict_len == 0
        &&& self.dict_len > 0 ==> {
            &&& self.end <= self.dict
            &&& info.block_size.size() + WINDOW_SIZE < self.dict + self.dict_len <= dst_size(info)
            &&& self.end + self.dict_len <= len
        }
        &&& info.block_mode == BlockMode::Linked ==> self.end == len || WINDOW_SIZE <= self.end
            + self.dict_len
    }

    /// Whether all output was given to the caller, a block of maximum size fits,
    /// and no more is kept than the window.
    pub open spec fn ready(self, info: FrameInfo) -> bool {
        &&& self.start == self.end
        &&& self.dict_len > 0 ==> self.start + self.dict_len <= WINDOW_SIZE
        &&& self.start + info.block_size.size() <= self.limit(info)
        &&& info.block_mode == BlockMode::Independent ==> self.start == 0
    }

    /// Where the output of a block must end.
    pub open spec fn limit(self, info: FrameInfo) -> int {
        if self.dict_len > 0 {
            self.dict
        } else {
            dst_size(info)
        }
    }
}

/// The state of a decoder.
pub struct State {
    /// The header of the current frame, if there is one.
    pub info: Option<FrameInfo>,
    /// All that was decompressed of the current frame.
    pub output: Seq<u8>,
    /// How the buffer is divided up.
    pub layout: Layout,
    /// Which bytes of the stream are waited for.
    pub phase: Phase,
    /// The bytes that the current read took from the stream and that are still
    /// needed.
    pub held: Seq<u8>,
}

impl State {
    /// A decoder that has read nothing.
    pub open spec fn initial() -> State {
        State {
            info: None,
            output: Seq::empty(),
            layout: Layout::empty(),
            phase: Phase::Idle,
            held: Seq::empty(),
        }
    }

    /// The invariant of a decoder.
    pub open spec fn valid(self) -> bool {
        &&& match self.info {
            None => {
                &&& self.layout.start == self.layout.end
                &&& match self.phase {
                    Phase::Idle | Phase::FrameHead => true,
                    Phase::FrameHeadRest => 0 < self.held.len() < MIN_FRAME_INFO_SIZE,
                    Phase::FrameInfoRest => {
                        &&& self.held.len() == MIN_FRAME_INFO_SIZE
                        &&& info_size(self.held) matches Ok(n)
                        &&& MIN_FRAME_INFO_SIZE < n
                    },
                    _ => false,
                }
            },
            Some(info) => {
                &&& self.layout.fits(info, self.output.len() as int)
                &&& self.phase == Phase::Idle || self.layout.ready(info)
                &&& match self.phase {
                    Phase::Idle | Phase::BlockHead => true,
                    Phase::RawBody { len } | Phase::PackedBody { len } => len
                        <= info.block_size.size(),
                    Phase::RawChecksum { len } | Phase::PackedChecksum { len } => {
                        &&& len <= info.block_size.size()
                        &&& len == self.held.len()
                        &&& info.block_checksums
                    },
                    Phase::ContentChecksum => info.content_checksum,
                    _ => false,
                }
            },
        }
        &&& match self.phase {
            Phase::FrameHeadRest | Phase::FrameInfoRest => true,
            Phase::RawChecksum { .. } | Phase::PackedChecksum { .. } => true,
            _ => self.held == Seq::<u8>::empty(),
        }
    }

    /// How much of the output was given to the caller.
    pub open spec fn given(self) -> int {
        self.output.len() - (self.layout.end - self.layout.start)
    }

    /// What a compressed block decompresses to.
    pub open spec fn unpacked(self, src: Seq<u8>) -> Result<Seq<u8>, DecompressError> {
        decode_block(
            src,
            reference(self.info.unwrap(), self.output),
            self.layout.start,
            self.layout.limit(self.info.unwrap()),
        )
    }

    /// How many bytes may be handed in.
    pub open spec fn accepts(self, n: int) -> bool {
        match self.phase {
            Phase::Idle => false,
            Phase::FrameHead => n <= MIN_FRAME_INFO_SIZE,
            Phase::FrameHeadRest => n == MIN_FRAME_INFO_SIZE - self.held.len(),
            Phase::FrameInfoRest => info_size(self.held) == Ok::<int, Error>(
                MIN_FRAME_INFO_SIZE + n,
            ),
            Phase::BlockHead => n == BLOCK_INFO_SIZE,
            Phase::RawBody { len } => n == len,
            Phase::PackedBody { len } => n == len,
            _ => n == CHECKSUM_SIZE,
        }
    }

    /// The block that is complete with `input`, decompressed, if its checksum is
    /// right.
    pub open spec fn block(self, input: Seq<u8>) -> Seq<u8> {
        match self.phase {
            Phase::RawBody { .. } => input,
            Phase::RawChecksum { .. } => self.held,
            Phase::PackedBody { .. } => match self.unpacked(input) {
                Ok(data) => data,
                Err(_) => Seq::empty(),
            },
            Phase::PackedChecksum { .. } => match self.unpacked(self.held) {
                Ok(data) => data,
                Err(_) => Seq::empty(),
            },
            _ => Seq::empty(),
        }
    }

    /// Whether the output can still be counted in a `u64` with that block.
    pub open spec fn counts(self, input: Seq<u8>) -> bool {
        self.output.len() + self.block(input).len() <= u64::MAX
    }

    /// What has to be hashed to take `input`.
    pub open spec fn hashed(self, input: Seq<u8>) -> Seq<u8> {
        let head = self.held + input;
        match self.phase {
            Phase::FrameHead | Phase::FrameHeadRest | Phase::FrameInfoRest => if head.len()
                >= MIN_FRAME_INFO_SIZE {
                descriptor(head)
            } else {
                Seq::empty()
            },
            Phase::RawChecksum { .. } | Phase::PackedChecksum { .. } => self.held,
            Phase::ContentChecksum => self.output,
            _ => Seq::empty(),
        }
    }

    /// Waits for bytes of the stream.
    pub open spec fn wait(self, phase: Phase, held: Seq<u8>, len: int) -> (State, Action) {
        (State { phase, held, ..self }, Action::ReadExact { len: len as usize })
    }

    /// Ends the read.
    pub open spec fn end(self, action: Action) -> (State, Action) {
        (State { phase: Phase::Idle, held: Seq::empty(), ..self }, action)
    }

    /// Gives the caller, whose buffer holds `room` bytes, what there is to give;
    /// goes on to the next block where there is nothing.
    pub open spec fn deliver(self, room: int) -> (State, Action) {
        let there = self.layout.end - self.layout.start;
        if there > 0 {
            let n = if there < room {
                there
            } else {
                room
            };
            State {
                layout: Layout { start: self.layout.start + n, ..self.layout },
                ..self
            }.end(Action::Return { len: n as usize })
        } else {
            State { layout: self.layout.advance(self.info.unwrap()), ..self }.wait(
                Phase::BlockHead,
                Seq::empty(),
                BLOCK_INFO_SIZE as int,
            )
        }
    }

    /// Starts a read.
    pub open spec fn begin(self, room: int) -> (State, Action) {
        if self.info is None {
            (
                State { phase: Phase::FrameHead, held: Seq::empty(), ..self },
                Action::Read { at_most: MIN_FRAME_INFO_SIZE },
            )
        } else {
            self.deliver(room)
        }
    }

    /// Takes the first bytes of a frame header.
    pub open spec fn take_head(self, head: Seq<u8>, hash: u32, room: int) -> (State, Action) {
        match info_size(head) {
            Err(e) => self.end(Action::Fail(e)),
            Ok(n) => if n == MIN_FRAME_INFO_SIZE {
                self.take_info(head, hash, room)
            } else {
                self.wait(Phase::FrameInfoRest, head, n - MIN_FRAME_INFO_SIZE)
            },
        }
    }

    /// Takes a whole frame header: nothing of an earlier frame is kept.
    pub open spec fn take_info(self, head: Seq<u8>, hash: u32, room: int) -> (State, Action) {
        match info_of(head, hash) {
            Err(e) => self.end(Action::Fail(e)),
            Ok(info) => State {
                info: Some(info),
                output: Seq::empty(),
                layout: Layout::empty(),
                ..self
            }.deliver(room),
        }
    }

    /// Takes a block header.
    pub open spec fn take_block_info(self, block: BlockInfo) -> (State, Action) {
        let info = self.info.unwrap();
        match block {
            BlockInfo::Uncompressed(len) => if len > info.block_size.size() {
                self.end(Action::Fail(Error::BlockTooBig))
            } else {
                self.wait(Phase::RawBody { len: len as usize }, Seq::empty(), len as int)
            },
            BlockInfo::Compressed(len) => if len > info.block_size.size() {
                self.end(Action::Fail(Error::BlockTooBig))
            } else {
                self.wait(Phase::PackedBody { len: len as usize }, Seq::empty(), len as int)
            },
            BlockInfo::EndMark => match info.content_size {
                Some(expected) if expected != self.output.len() => self.end(
                    Action::Fail(
                        Error::ContentLengthError { expected, actual: self.output.len() as u64 },
                    ),
                ),
                _ => if info.content_checksum {
                    self.wait(Phase::ContentChecksum, Seq::empty(), CHECKSUM_SIZE as int)
                } else {
                    self.close()
                },
            },
        }
    }

    /// Ends the frame.
    pub open spec fn close(self) -> (State, Action) {
        State { info: None, ..self }.end(Action::Return { len: 0 })
    }

    /// Adds a block to the output.
    pub open spec fn append(self, data: Seq<u8>, room: int) -> (State, Action) {
        State {
            output: self.output + data,
            layout: Layout { end: self.layout.start + data.len(), ..self.layout },
            ..self
        }.deliver(room)
    }

    /// Decompresses a block and adds it to the output.
    pub open spec fn unpack(self, src: Seq<u8>, room: int) -> (State, Action) {
        match self.unpacked(src) {
            Ok(data) => self.append(data, room),
            Err(e) => self.end(Action::Fail(Error::DecompressionError(e))),
        }
    }

    /// Takes the bytes that were waited for, `hash` being the hash of what has to
    /// be hashed, and goes on until further bytes are needed or the read is over.
    pub open spec fn step(self, input: Seq<u8>, hash: u32, room: int) -> (State, Action) {
        match self.phase {
            Phase::Idle => (self, Action::Return { len: 0 }),
            Phase::FrameHead => if input.len() == 0 {
                self.end(Action::Return { len: 0 })
            } else if input.len() < MIN_FRAME_INFO_SIZE {
                self.wait(Phase::FrameHeadRest, input, MIN_FRAME_INFO_SIZE - input.len())
            } else {
                self.take_head(input, hash, room)
            },
            Phase::FrameHeadRest => self.take_head(self.held + input, hash, room),
            Phase::FrameInfoRest => self.take_info(self.held + input, hash, room),
            Phase::BlockHead => self.take_block_info(block_info_of(input)),
            Phase::RawBody { len } => if self.info.unwrap().block_checksums {
                self.wait(Phase::RawChecksum { len }, input, CHECKSUM_SIZE as int)
            } else {
                self.append(input, room)
            },
            Phase::RawChecksum { .. } => if hash == le_value(input) {
                self.append(self.held, room)
            } else {
                self.end(Action::Fail(Error::BlockChecksumError))
            },
            Phase::PackedBody { len } => if self.info.unwrap().block_checksums {
                self.wait(Phase::PackedChecksum { len }, input, CHECKSUM_SIZE as int)
            } else {
                self.unpack(input, room)
            },
            Phase::PackedChecksum { .. } => if hash == le_value(input) {
                self.unpack(self.held, room)
            } else {
                self.end(Action::Fail(Error::BlockChecksumError))
            },
            Phase::ContentChecksum => if hash == le_value(input) {
                self.close()
            } else {
                self.end(Action::Fail(Error::ContentChecksumError))
            },
        }
    }

    /// Whether a step from this state that comes to that result leaves the hasher
    /// and the buffers alone: so do all that come to no frame, be it that the
    /// stream ends, that a header is refused or not yet whole, or that the frame
    /// ends; so does a block header; and so do all that fail, except where a block
    /// was being decompressed.
    pub open spec fn keeps_store(self, result: (State, Action)) -> bool {
        let (t, action) = result;
        ||| t.info is None
        ||| self.phase is BlockHead
        ||| action matches Action::Fail(e) && e !is DecompressionError
    }

    /// The caller's buffer after the decoder came to this state with that action:
    /// the last bytes that were given stand at its front, and the rest of it is
    /// as it was.
    pub open spec fn filled(self, action: Action, buf: Seq<u8>) -> Seq<u8> {
        match action {
            Action::Return { len } => self.output.subrange(self.given() - len, self.given())
                + buf.skip(len as int),
            _ => buf,
        }
    }
}

} // verus!
