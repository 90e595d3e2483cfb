//! The decoder.

use crate::block::decompress::{
    copy_into, decode_block, decompress_into, decompress_into_with_dict, history,
    law_decode_appends, law_decode_window, overwrite, same_outside,
};
use crate::block::{DecompressError, WINDOW_SIZE};
use crate::bytes::{le_value, read_u32};
use crate::frame::header::{
    info_of, is_whole_info, BlockInfo, BlockMode, FrameInfo, BLOCK_INFO_SIZE, CHECKSUM_SIZE,
    MIN_FRAME_INFO_SIZE,
};
use crate::frame::model::{dst_size, Action, Layout, Phase, State};
use crate::frame::Error;
use crate::hash::{checksum, hash_finish, hash_seed, hash_write, hashed_bytes, xxh32};
use twox_hash::XxHash32;
use vstd::prelude::*;

verus! {

/// Whether the buffer `dst` holds what the layout says, `output` being all that
/// was decompressed of the frame: the output ends at the front of the buffer, and
/// the dictionary holds what came before that.
pub open spec fn holds(info: FrameInfo, dst: Seq<u8>, output: Seq<u8>, layout: Layout) -> bool {
    let Layout { end, dict, dict_len, .. } = layout;
    let behind = output.len() - end;
    &&& layout.fits(info, output.len() as int)
    &&& dst.len() == dst_size(info)
    &&& dst.take(end) == output.skip(behind)
    &&& dict_len > 0 ==> dst.subrange(dict, dict + dict_len) == output.subrange(
        behind - dict_len,
        behind,
    )
}

/// Advancing the layout keeps what the buffer holds and makes room for a block.
pub proof fn lemma_advance(info: FrameInfo, dst: Seq<u8>, output: Seq<u8>, layout: Layout)
    requires
        holds(info, dst, output, layout),
        layout.start == layout.end,
    ensures
        holds(info, dst, output, layout.advance(info)),
        layout.advance(info).ready(info),
{
    let next = layout.advance(info);
    let len = output.len() as int;
    let window = WINDOW_SIZE as int;
    assert(dst.take(0) =~= output.skip(len));
    if info.block_mode == BlockMode::Linked {
        if layout.start + info.block_size.size() > dst_size(info) {
            assert(dst.subrange(next.dict, next.dict + window) =~= dst.take(layout.end).skip(
                layout.end - window,
            ));
            assert(output.subrange(len - window, len) =~= output.skip(len - layout.end).skip(
                layout.end - window,
            ));
        } else if layout.start + layout.dict_len > window && next.dict_len > 0 {
            let delta = next.dict - layout.dict;
            assert(dst.subrange(next.dict, next.dict + next.dict_len) =~= dst.subrange(
                layout.dict,
                layout.dict + layout.dict_len,
            ).skip(delta));
            assert(output.subrange(len - layout.end - next.dict_len, len - layout.end)
                =~= output.subrange(
                len - layout.end - layout.dict_len,
                len - layout.end,
            ).skip(delta));
        }
    }
}

/// Adding a block keeps what the buffer holds.
pub proof fn lemma_append(
    info: FrameInfo,
    dst: Seq<u8>,
    output: Seq<u8>,
    layout: Layout,
    data: Seq<u8>,
)
    requires
        holds(info, dst, output, layout),
        layout.ready(info),
        layout.start + data.len() <= layout.limit(info),
    ensures
        holds(
            info,
            overwrite(dst, layout.start, data),
            output + data,
            Layout { end: layout.start + data.len(), ..layout },
        ),
{
    let end = layout.start + data.len();
    let after = overwrite(dst, layout.start, data);
    let all = output + data;
    assert(after.take(end) =~= dst.take(layout.start) + data);
    assert(all.skip(all.len() - end) =~= output.skip(output.len() - layout.start) + data);
    if layout.dict_len > 0 {
        assert(after.subrange(layout.dict, layout.dict + layout.dict_len) =~= dst.subrange(
            layout.dict,
            layout.dict + layout.dict_len,
        ));
        assert(all.subrange(all.len() - end - layout.dict_len, all.len() - end) =~= output.subrange(
            output.len() - layout.end - layout.dict_len,
            output.len() - layout.end,
        ));
    }
}

/// What a block can be decompressed against in the buffer serves as well as all
/// that it may refer to.
pub proof fn lemma_reference(
    info: FrameInfo,
    dst: Seq<u8>,
    output: Seq<u8>,
    layout: Layout,
    src: Seq<u8>,
)
    requires
        holds(info, dst, output, layout),
        layout.ready(info),
    ensures
        ({
            let dict = if layout.dict_len > 0 {
                layout.dict
            } else {
                0
            };
            let reference = if info.block_mode == BlockMode::Linked {
                output
            } else {
                Seq::empty()
            };
            let limit = layout.limit(info);
            decode_block(
                src,
                history(dst, layout.start, dict, layout.dict_len),
                layout.start,
                limit,
            ) == decode_block(src, reference, layout.start, limit)
        }),
{
    let dict = if layout.dict_len > 0 {
        layout.dict
    } else {
        0
    };
    let near = history(dst, layout.start, dict, layout.dict_len);
    let limit = layout.limit(info);
    if info.block_mode == BlockMode::Linked {
        let cut = output.len() - near.len();
        assert(near =~= output.skip(cut)) by {
            assert(output.skip(cut) =~= output.subrange(cut, output.len() - layout.end)
                + output.skip(output.len() - layout.end));
            if layout.dict_len == 0 {
                assert(near =~= dst.take(layout.end));
            }
        }
        let shift = layout.start - output.len();
        law_decode_window(src, 0, output, cut, shift, limit);
        law_decode_appends(src, 0, output, shift, limit);
        if let Ok(all) = crate::block::decompress::decode_from(src, 0, output, shift, limit) {
            assert(all.skip(cut).skip(near.len() as int) =~= all.skip(output.len() as int));
        }
    } else {
        assert(near =~= Seq::<u8>::empty());
    }
}

/// What is written behind the output, where the next block goes, changes nothing
/// of what the buffer holds.
pub proof fn lemma_scratch(
    info: FrameInfo,
    dst: Seq<u8>,
    after: Seq<u8>,
    output: Seq<u8>,
    layout: Layout,
)
    requires
        holds(info, dst, output, layout),
        same_outside(dst, after, layout.end, layout.limit(info)),
    ensures
        holds(info, after, output, layout),
{
    assert(after.take(layout.end) =~= dst.take(layout.end));
    if layout.dict_len > 0 {
        assert(after.subrange(layout.dict, layout.dict + layout.dict_len) =~= dst.subrange(
            layout.dict,
            layout.dict + layout.dict_len,
        ));
    }
}

/// A decoder for the LZ4 frame format, together with the reader that its caller
/// takes the stream from.
///
/// The decoder does not read by itself. [`FrameDecoder::read`] starts a read and
/// says what it needs; as long as that is bytes of the stream, they are handed in
/// with [`FrameDecoder::resume`]. A read whose bytes cannot be had is given up by
/// starting the next.
pub struct FrameDecoder<R> {
    /// The underlying reader.
    r: R,
    /// The header of the current frame. Cleared once the end of the frame was read.
    frame_info: Option<FrameInfo>,
    /// The hasher of the content, where the frame has a content checksum.
    content_hasher: XxHash32,
    /// Total length of decompressed output for the current frame.
    content_len: u64,
    /// The compressed bytes buffer.
    src: Vec<u8>,
    /// The decompressed bytes buffer.
    dst: Vec<u8>,
    /// Index into dst and length: starting point of bytes previously output
    /// that are still part of the decompressor window.
    ext_dict_offset: usize,
    ext_dict_len: usize,
    /// Index into dst: starting point of bytes not yet given back to caller.
    dst_start: usize,
    /// Index into dst: ending point of bytes not yet given back to caller.
    dst_end: usize,
    /// Which bytes of the stream are waited for.
    phase: Phase,
    /// The part of a frame header that was read.
    head: Vec<u8>,
    /// All that was decompressed of the current frame.
    output: Ghost<Seq<u8>>,
}

/// What a decoder keeps besides its state: the hasher of the content and the two
/// buffers.
pub struct Store {
    /// The hasher of the content.
    pub hasher: XxHash32,
    /// The compressed bytes buffer.
    pub src: Seq<u8>,
    /// The decompressed bytes buffer.
    pub dst: Seq<u8>,
}

impl<R> View for FrameDecoder<R> {
    type V = State;

    closed spec fn view(&self) -> State {
        State {
            info: self.frame_info,
            output: self.output@,
            layout: self.layout(),
            phase: self.phase,
            held: match self.phase {
                Phase::FrameHeadRest | Phase::FrameInfoRest => self.head@,
                Phase::RawChecksum { len } => self.dst@.subrange(
                    self.dst_start as int,
                    self.dst_start + len,
                ),
                Phase::PackedChecksum { len } => self.src@.take(len as int),
                _ => Seq::empty(),
            },
        }
    }
}

impl<R> FrameDecoder<R> {
    /// The underlying reader.
    pub closed spec fn reader(self) -> R {
        self.r
    }

    /// The hasher and the buffers.
    pub closed spec fn store(self) -> Store {
        Store { hasher: self.content_hasher, src: self.src@, dst: self.dst@ }
    }

    closed spec fn layout(self) -> Layout {
        Layout {
            start: self.dst_start as int,
            end: self.dst_end as int,
            dict: self.ext_dict_offset as int,
            dict_len: self.ext_dict_len as int,
        }
    }

    /// The invariant of a decoder within a frame, whichever bytes it waits for.
    closed spec fn in_frame(self) -> bool {
        &&& self.content_len == self.output@.len()
        &&& self.frame_info matches Some(info)
        &&& holds(info, self.dst@, self.output@, self.layout())
        &&& self.src@.len() == info.block_size.size()
        &&& hash_seed(self.content_hasher) == 0
        &&& hashed_bytes(self.content_hasher) == info.checked(self.output@)
    }

    /// The invariant of a decoder.
    pub closed spec fn wf(self) -> bool {
        &&& self@.valid()
        &&& self.content_len == self.output@.len()
        &&& hash_seed(self.content_hasher) == 0
        &&& self.frame_info is Some ==> self.in_frame()
    }

    /// The state of a decoder is valid. Within a frame, the hasher has been given
    /// what the checksum of the content is about, and the buffers have the sizes
    /// that the header of the frame calls for.
    pub proof fn lemma_valid(self)
        requires
            self.wf(),
        ensures
            self@.valid(),
            self@.output.len() <= u64::MAX,
            hash_seed(self.store().hasher) == 0,
            self@.info matches Some(info) ==> {
                &&& hashed_bytes(self.store().hasher) == info.checked(self@.output)
                &&& self.store().src.len() == info.block_size.size()
                &&& self.store().dst.len() == dst_size(info)
            },
    {
    }

    /// Creates a decoder for what `rdr` reads.
    pub fn new(rdr: R) -> (decoder: FrameDecoder<R>)
        ensures
            decoder.wf(),
            decoder.reader() == rdr,
            decoder@ == State::initial(),
            hashed_bytes(decoder.store().hasher) == Seq::<u8>::empty(),
            decoder.store().src == Seq::<u8>::empty(),
            decoder.store().dst == Seq::<u8>::empty(),
    {
        FrameDecoder {
            r: rdr,
            src: Vec::new(),
            dst: Vec::new(),
            ext_dict_offset: 0,
            ext_dict_len: 0,
            dst_start: 0,
            dst_end: 0,
            frame_info: None,
            content_hasher: XxHash32::with_seed(0),
            content_len: 0,
            phase: Phase::Idle,
            head: Vec::new(),
            output: Ghost(Seq::empty()),
        }
    }

    /// The header of the current frame, if there is one.
    pub fn frame_info(&mut self) -> (info: Option<&FrameInfo>)
        ensures
            *final(self) == *old(self),
            info == match old(self)@.info {
                Some(i) => Some(&i),
                None => None,
            },
    {
        self.frame_info.as_ref()
    }

    /// The header of the current frame, if there is one, from a shared reference.
    pub fn current_info(&self) -> (info: Option<&FrameInfo>)
        ensures
            info == match self@.info {
                Some(i) => Some(&i),
                None => None,
            },
    {
        self.frame_info.as_ref()
    }

    /// Gets a reference to the underlying reader in this decoder.
    pub fn get_ref(&self) -> (r: &R)
        ensures
            *r == self.reader(),
    {
        &self.r
    }

    /// Gets a mutable reference to the underlying reader in this decoder.
    ///
    /// Note that mutation of the stream may result in surprising results if
    /// this decoder is continued to be used.
    pub fn get_mut(&mut self) -> (r: &mut R)
        ensures
            *r == old(self).reader(),
            final(self).reader() == *final(r),
            final(self)@ == old(self)@,
            final(self).store() == old(self).store(),
            final(self).wf() == old(self).wf(),
    {
        &mut self.r
    }

    /// The total length of decompressed output for the current frame, or for the
    /// last one where there is none.
    pub fn content_len(&self) -> (len: u64)
        requires
            self.wf(),
        ensures
            len == self@.output.len(),
    {
        self.content_len
    }

    /// The hasher of the content.
    pub fn content_hasher(&self) -> (hasher: &XxHash32)
        requires
            self.wf(),
        ensures
            *hasher == self.store().hasher,
            hash_seed(*hasher) == 0,
            self@.info matches Some(info) ==> hashed_bytes(*hasher) == info.checked(self@.output),
    {
        &self.content_hasher
    }

    /// Where in the buffer the bytes start and end that were not yet given to the
    /// caller.
    pub fn pending(&self) -> (range: (usize, usize))
        ensures
            range.0 == self@.layout.start,
            range.1 == self@.layout.end,
    {
        (self.dst_start, self.dst_end)
    }

    /// Where in the buffer the dictionary starts, and how long it is.
    pub fn ext_dict(&self) -> (range: (usize, usize))
        ensures
            range.0 == self@.layout.dict,
            range.1 == self@.layout.dict_len,
    {
        (self.ext_dict_offset, self.ext_dict_len)
    }

    /// Gives the caller what there is to give; goes on to the next block where
    /// there is nothing.
    #[verifier::rlimit(30)]
    fn deliver(&mut self, buf: &mut [u8]) -> (action: Action)
        requires
            old(self).in_frame(),
        ensures
            final(self).wf(),
            final(self).reader() == old(self).reader(),
            final(self).store() == old(self).store(),
            (final(self)@, action) == old(self)@.deliver(old(buf)@.len() as int),
            final(buf)@ == final(self)@.filled(action, old(buf)@),
    {
        assert(self.dst.len() == self.dst@.len());
        assert(buf.len() == buf@.len());
        if self.dst_start < self.dst_end {
            let there: usize = self.dst_end - self.dst_start;
            let len: usize = if there < buf.len() {
                there
            } else {
                buf.len()
            };
            let dste: usize = self.dst_start + len;
            let given = vstd::slice::slice_subrange(self.dst.as_slice(), self.dst_start, dste);
            copy_out(given, buf);
            proof {
                let l = self.layout();
                let out = self.output@;
                let from = out.len() - l.end + l.start;
                assert(given@ =~= self.dst@.take(l.end).subrange(l.start, l.start + len));
                assert(out.subrange(from, from + len) =~= out.skip(out.len() - l.end).subrange(
                    l.start,
                    l.start + len,
                ));
            }
            self.dst_start = dste;
            self.phase = Phase::Idle;
            return Action::Return { len };
        }
        self.advance();
        self.phase = Phase::BlockHead;
        Action::ReadExact { len: BLOCK_INFO_SIZE }
    }

    /// Makes room for the next block.
    fn advance(&mut self)
        requires
            old(self).in_frame(),
            old(self).layout().start == old(self).layout().end,
        ensures
            final(self).in_frame(),
            final(self).frame_info == old(self).frame_info,
            final(self).output == old(self).output,
            final(self).reader() == old(self).reader(),
            final(self).store() == old(self).store(),
            final(self).layout() == old(self).layout().advance(old(self).frame_info.unwrap()),
            final(self).layout().ready(final(self).frame_info.unwrap()),
    {
        assert(self.dst.len() == self.dst@.len());
        let ghost before = self.layout();
        let info: FrameInfo = self.frame_info.unwrap();
        proof {
            lemma_advance(info, self.dst@, self.output@, before);
        }
        let max_block_size: usize = info.block_size.get_size();
        match info.block_mode {
            BlockMode::Linked => {
                if max_block_size > self.dst.len() - self.dst_start {
                    // Output might not fit in the buffer.
                    // The ext_dict will become the last WINDOW_SIZE bytes.
                    self.ext_dict_offset = self.dst_start - WINDOW_SIZE;
                    self.ext_dict_len = WINDOW_SIZE;
                    // Output goes in the beginning of the buffer again.
                    self.dst_start = 0;
                    self.dst_end = 0;
                } else if self.dst_start + self.ext_dict_len > WINDOW_SIZE {
                    // Shrink ext_dict in favor of output prefix.
                    let excess: usize = self.dst_start + self.ext_dict_len - WINDOW_SIZE;
                    let delta: usize = if excess < self.ext_dict_len {
                        excess
                    } else {
                        self.ext_dict_len
                    };
                    self.ext_dict_offset = self.ext_dict_offset + delta;
                    self.ext_dict_len = self.ext_dict_len - delta;
                }
            },
            BlockMode::Independent => {
                self.dst_start = 0;
                self.dst_end = 0;
            },
        }
        assert(self.layout() == before.advance(info));
    }

    /// Ends the read.
    fn end(&mut self, action: Action) -> (result: Action)
        requires
            old(self).wf(),
            action matches Action::Return { len } ==> len == 0,
        ensures
            final(self).wf(),
            final(self).reader() == old(self).reader(),
            *final(self) == (FrameDecoder { phase: Phase::Idle, ..*old(self) }),
            (final(self)@, result) == old(self)@.end(action),
            result == action,
    {
        self.phase = Phase::Idle;
        action
    }

    /// Sets the decoder up for the frame whose header is `head`, `hash` being the
    /// hash of the header's descriptor.
    fn read_frame_info(&mut self, head: &[u8], hash: u32) -> (result: Result<(), Error>)
        requires
            old(self).wf(),
            old(self).frame_info is None,
            is_whole_info(head@),
        ensures
            final(self).reader() == old(self).reader(),
            match info_of(head@, hash) {
                Ok(info) => {
                    &&& result is Ok
                    &&& final(self).in_frame()
                    &&& final(self).frame_info == Some(info)
                    &&& final(self).output@ == Seq::<u8>::empty()
                    &&& final(self).layout() == Layout::empty()
                },
                Err(e) => result == Err::<(), Error>(e) && *final(self) == *old(self),
            },
    {
        let info = match FrameInfo::parse(head, hash) {
            Ok(info) => info,
            Err(e) => {
                return Err(e);
            },
        };
        let max_block_size: usize = info.block_size.get_size();
        let dst_size: usize = match info.block_mode {
            BlockMode::Linked => max_block_size * 2 + WINDOW_SIZE,
            BlockMode::Independent => max_block_size,
        };
        self.src.resize(max_block_size, 0);
        self.dst.resize(dst_size, 0);
        self.ext_dict_offset = 0;
        self.ext_dict_len = 0;
        self.dst_start = 0;
        self.dst_end = 0;
        self.frame_info = Some(info);
        self.content_hasher = XxHash32::with_seed(0);
        self.content_len = 0;
        self.output = Ghost(Seq::empty());
        assert(self.dst@.take(0) =~= self.output@.skip(0));
        Ok(())
    }

    /// Takes a whole frame header.
    fn take_info(&mut self, head: &[u8], hash: u32, buf: &mut [u8]) -> (action: Action)
        requires
            old(self).wf(),
            old(self).frame_info is None,
            is_whole_info(head@),
        ensures
            final(self).wf(),
            final(self).reader() == old(self).reader(),
            final(self)@.info is None ==> final(self).store() == old(self).store(),
            (final(self)@, action) == old(self)@.take_info(head@, hash, old(buf)@.len() as int),
            final(buf)@ == final(self)@.filled(action, old(buf)@),
    {
        match self.read_frame_info(head, hash) {
            Ok(()) => self.deliver(buf),
            Err(e) => self.end(Action::Fail(e)),
        }
    }

    /// Takes the first bytes of a frame header.
    fn take_head(&mut self, head: &[u8], hash: u32, buf: &mut [u8]) -> (action: Action)
        requires
            old(self).wf(),
            old(self).frame_info is None,
            head@.len() == MIN_FRAME_INFO_SIZE,
        ensures
            final(self).wf(),
            final(self).reader() == old(self).reader(),
            final(self)@.info is None ==> final(self).store() == old(self).store(),
            (final(self)@, action) == old(self)@.take_head(head@, hash, old(buf)@.len() as int),
            final(buf)@ == final(self)@.filled(action, old(buf)@),
    {
        match FrameInfo::read_size(head) {
            Err(e) => self.end(Action::Fail(e)),
            Ok(required) => if required == MIN_FRAME_INFO_SIZE {
                self.take_info(head, hash, buf)
            } else {
                self.head = vstd::slice::slice_to_vec(head);
                self.phase = Phase::FrameInfoRest;
                Action::ReadExact { len: required - MIN_FRAME_INFO_SIZE }
            },
        }
    }

    /// Takes a block header.
    fn take_block_info(&mut self, block: BlockInfo) -> (action: Action)
        requires
            old(self).wf(),
            old(self).phase == Phase::BlockHead,
        ensures
            final(self).wf(),
            final(self).reader() == old(self).reader(),
            final(self).store() == old(self).store(),
            (final(self)@, action) == old(self)@.take_block_info(block),
            action matches Action::Return { len } ==> len == 0,
    {
        let info: FrameInfo = self.frame_info.unwrap();
        let max_block_size: usize = info.block_size.get_size();
        match block {
            BlockInfo::Uncompressed(len) => {
                let len: usize = len as usize;
                if len > max_block_size {
                    return self.end(Action::Fail(Error::BlockTooBig));
                }
                self.phase = Phase::RawBody { len };
                Action::ReadExact { len }
            },
            BlockInfo::Compressed(len) => {
                let len: usize = len as usize;
                if len > max_block_size {
                    return self.end(Action::Fail(Error::BlockTooBig));
                }
                self.phase = Phase::PackedBody { len };
                Action::ReadExact { len }
            },
            BlockInfo::EndMark => {
                if let Some(expected) = info.content_size {
                    if self.content_len != expected {
                        let actual: u64 = self.content_len;
                        return self.end(
                            Action::Fail(Error::ContentLengthError { expected, actual }),
                        );
                    }
                }
                if info.content_checksum {
                    self.phase = Phase::ContentChecksum;
                    return Action::ReadExact { len: CHECKSUM_SIZE };
                }
                self.close()
            },
        }
    }

    /// Ends the frame.
    fn close(&mut self) -> (action: Action)
        requires
            old(self).in_frame(),
            old(self).layout().start == old(self).layout().end,
        ensures
            final(self).wf(),
            final(self).reader() == old(self).reader(),
            *final(self) == (FrameDecoder { frame_info: None, phase: Phase::Idle, ..*old(self) }),
            (final(self)@, action) == old(self)@.close(),
            action == (Action::Return { len: 0 }),
    {
        self.frame_info = None;
        self.phase = Phase::Idle;
        Action::Return { len: 0 }
    }

    /// Adds the block of `len` bytes that stands in the buffer to the output.
    #[verifier::rlimit(30)]
    fn append(&mut self, len: usize, buf: &mut [u8]) -> (action: Action)
        requires
            old(self).frame_info matches Some(info) && {
                let start = old(self).dst_start as int;
                let data = old(self).dst@.subrange(start, start + len);
                &&& old(self).layout().ready(info)
                &&& start + len <= usize::MAX
                &&& holds(
                    info,
                    old(self).dst@,
                    old(self).output@ + data,
                    Layout { end: start + len, ..old(self).layout() },
                )
                &&& old(self).content_len == old(self).output@.len()
                &&& old(self).output@.len() + len <= u64::MAX
                &&& old(self).src@.len() == info.block_size.size()
                &&& hash_seed(old(self).content_hasher) == 0
                &&& hashed_bytes(old(self).content_hasher) == info.checked(old(self).output@)
            },
        ensures
            final(self).wf(),
            final(self).reader() == old(self).reader(),
            (final(self)@, action) == old(self)@.append(
                old(self).dst@.subrange(old(self).dst_start as int, old(self).dst_start + len),
                old(buf)@.len() as int,
            ),
            final(buf)@ == final(self)@.filled(action, old(buf)@),
    {
        let info: FrameInfo = self.frame_info.unwrap();
        let end: usize = self.dst_start + len;
        self.dst_end = end;
        self.content_len = self.content_len + len as u64;
        let data = vstd::slice::slice_subrange(self.dst.as_slice(), self.dst_start, end);
        if info.content_checksum {
            hash_write(&mut self.content_hasher, data);
        }
        self.output = Ghost(self.output@ + data@);
        self.deliver(buf)
    }

    /// Adds a block that is not compressed to the output.
    fn take_raw(&mut self, len: usize, buf: &mut [u8]) -> (action: Action)
        requires
            old(self).in_frame(),
            old(self).layout().ready(old(self).frame_info.unwrap()),
            len <= old(self).frame_info.unwrap().block_size.size(),
            old(self).output@.len() + len <= u64::MAX,
        ensures
            final(self).wf(),
            final(self).reader() == old(self).reader(),
            (final(self)@, action) == old(self)@.append(
                old(self).dst@.subrange(old(self).dst_start as int, old(self).dst_start + len),
                old(buf)@.len() as int,
            ),
            final(buf)@ == final(self)@.filled(action, old(buf)@),
    {
        proof {
            let info = self.frame_info.unwrap();
            let start = self.dst_start as int;
            let data = self.dst@.subrange(start, start + len);
            lemma_append(info, self.dst@, self.output@, self.layout(), data);
            assert(overwrite(self.dst@, start, data) =~= self.dst@);
            assert(self.dst.len() == self.dst@.len());
        }
        self.append(len, buf)
    }

    /// Decompresses the block that stands in the compressed bytes buffer.
    #[verifier::rlimit(30)]
    fn unpack_block(&mut self, len: usize) -> (result: Result<usize, DecompressError>)
        requires
            old(self).in_frame(),
            old(self).layout().ready(old(self).frame_info.unwrap()),
            len <= old(self).frame_info.unwrap().block_size.size(),
        ensures
            *final(self) == (FrameDecoder { dst: final(self).dst, ..*old(self) }),
            match old(self)@.unpacked(old(self).src@.take(len as int)) {
                Ok(data) => {
                    &&& result == Ok::<usize, DecompressError>(data.len() as usize)
                    &&& old(self).dst_start + data.len() <= old(self).layout().limit(
                        old(self).frame_info.unwrap(),
                    )
                    &&& final(self).dst@ == overwrite(
                        old(self).dst@,
                        old(self).dst_start as int,
                        data,
                    )
                },
                Err(e) => result == Err::<usize, DecompressError>(e) && final(self).in_frame(),
            },
    {
        let ghost info = self.frame_info.unwrap();
        let ghost layout = self.layout();
        let ghost dst = self.dst@;
        let start: usize = self.dst_start;
        assert(self.dst.len() == self.dst@.len());
        let input = vstd::slice::slice_subrange(self.src.as_slice(), 0, len);
        proof {
            assert(input@ =~= self.src@.take(len as int));
            lemma_reference(info, dst, self.output@, layout, input@);
            assert(history(dst, start as int, 0, 0) =~= dst.take(start as int));
        }
        let result = if self.ext_dict_len != 0 {
            decompress_into_with_dict(
                input,
                &mut self.dst,
                start,
                self.ext_dict_offset,
                self.ext_dict_len,
            )
        } else {
            // Independent blocks OR linked blocks with only prefix data
            decompress_into(input, &mut self.dst, start)
        };
        proof {
            if result is Err {
                assert forall|i: int|
                    0 <= i < start || layout.limit(info) <= i < dst.len() implies dst[i]
                    == #[trigger] self.dst@[i] by {
                    if layout.dict_len == 0 {
                        assert(dst.take(start as int)[i] == self.dst@.take(start as int)[i]);
                    }
                }
                lemma_scratch(info, dst, self.dst@, self.output@, layout);
            }
        }
        result
    }

    /// Decompresses the block that stands in the compressed bytes buffer and adds
    /// it to the output.
    #[verifier::rlimit(30)]
    fn take_packed(&mut self, len: usize, buf: &mut [u8]) -> (action: Action)
        requires
            old(self).in_frame(),
            old(self).layout().ready(old(self).frame_info.unwrap()),
            len <= old(self).frame_info.unwrap().block_size.size(),
            old(self)@.unpacked(old(self).src@.take(len as int)) matches Ok(data) ==> old(
                self,
            ).output@.len() + data.len() <= u64::MAX,
        ensures
            final(self).wf(),
            final(self).reader() == old(self).reader(),
            (final(self)@, action) == old(self)@.unpack(
                old(self).src@.take(len as int),
                old(buf)@.len() as int,
            ),
            final(buf)@ == final(self)@.filled(action, old(buf)@),
    {
        match self.unpack_block(len) {
            Ok(decomp_size) => {
                proof {
                    let info = self.frame_info.unwrap();
                    let start = self.dst_start as int;
                    let data = old(self)@.unpacked(self.src@.take(len as int)).unwrap();
                    lemma_append(info, old(self).dst@, self.output@, self.layout(), data);
                    assert(self.dst@.subrange(start, start + data.len()) =~= data);
                    assert(self.dst.len() == self.dst@.len());
                }
                self.append(decomp_size, buf)
            },
            Err(e) => {
                self.phase = Phase::Idle;
                Action::Fail(Error::DecompressionError(e))
            },
        }
    }

    /// Takes a block that is not compressed.
    #[verifier::rlimit(30)]
    fn take_raw_body(&mut self, len: usize, input: &[u8], buf: &mut [u8]) -> (action: Action)
        requires
            old(self).wf(),
            old(self).phase == (Phase::RawBody { len }),
            input@.len() == len,
            old(self).output@.len() + len <= u64::MAX,
        ensures
            final(self).wf(),
            final(self).reader() == old(self).reader(),
            (final(self)@, action) == old(self)@.step(input@, 0, old(buf)@.len() as int),
            final(buf)@ == final(self)@.filled(action, old(buf)@),
    {
        let info: FrameInfo = self.frame_info.unwrap();
        let ghost dst = self.dst@;
        assert(self.dst.len() == self.dst@.len());
        copy_into(&mut self.dst, self.dst_start, input);
        proof {
            lemma_scratch(info, dst, self.dst@, self.output@, self.layout());
            assert(self.dst@.subrange(self.dst_start as int, self.dst_start + len) =~= input@);
        }
        if info.block_checksums {
            self.phase = Phase::RawChecksum { len };
            return Action::ReadExact { len: CHECKSUM_SIZE };
        }
        self.take_raw(len, buf)
    }

    /// Takes a compressed block.
    #[verifier::rlimit(30)]
    fn take_packed_body(&mut self, len: usize, input: &[u8], buf: &mut [u8]) -> (action: Action)
        requires
            old(self).wf(),
            old(self).phase == (Phase::PackedBody { len }),
            input@.len() == len,
            old(self)@.counts(input@),
        ensures
            final(self).wf(),
            final(self).reader() == old(self).reader(),
            (final(self)@, action) == old(self)@.step(input@, 0, old(buf)@.len() as int),
            final(buf)@ == final(self)@.filled(action, old(buf)@),
    {
        let info: FrameInfo = self.frame_info.unwrap();
        copy_into(&mut self.src, 0, input);
        assert(self.src@.take(len as int) =~= input@);
        if info.block_checksums {
            self.phase = Phase::PackedChecksum { len };
            return Action::ReadExact { len: CHECKSUM_SIZE };
        }
        self.take_packed(len, buf)
    }

    /// The checksum that `bytes` spell.
    pub fn read_checksum(bytes: &[u8]) -> (checksum: u32)
        requires
            bytes@.len() == CHECKSUM_SIZE,
        ensures
            checksum == le_value(bytes@),
            checksum == bytes@[0] + 256 * bytes@[1] + 65536 * bytes@[2] + 16777216 * bytes@[3],
    {
        assert(bytes@.subrange(0, 4) =~= bytes@);
        read_u32(bytes, 0)
    }

    /// Compares the checksum that was computed of a block with that of the stream.
    pub fn compare_block_checksum(calc_checksum: u32, expected_checksum: u32) -> (result: Result<
        (),
        Error,
    >)
        ensures
            result == if calc_checksum == expected_checksum {
                Ok::<(), Error>(())
            } else {
                Err(Error::BlockChecksumError)
            },
    {
        if calc_checksum != expected_checksum {
            return Err(Error::BlockChecksumError);
        }
        Ok(())
    }

    /// Checks a block against its checksum.
    pub fn check_block_checksum(data: &[u8], expected_checksum: u32) -> (result: Result<
        (),
        Error,
    >)
        ensures
            result == if xxh32(0, data@) == expected_checksum {
                Ok::<(), Error>(())
            } else {
                Err(Error::BlockChecksumError)
            },
    {
        let calc_checksum: u32 = checksum(data);
        Self::compare_block_checksum(calc_checksum, expected_checksum)
    }

    /// Starts a read into `buf`, giving up any read that is under way.
    pub fn read(&mut self, buf: &mut [u8]) -> (action: Action)
        requires
            old(self).wf(),
        ensures
            final(self).wf(),
            final(self).reader() == old(self).reader(),
            final(self).store() == old(self).store(),
            (final(self)@, action) == old(self)@.begin(old(buf)@.len() as int),
            final(buf)@ == final(self)@.filled(action, old(buf)@),
    {
        if self.frame_info.is_none() {
            self.phase = Phase::FrameHead;
            return Action::Read { at_most: MIN_FRAME_INFO_SIZE };
        }
        self.deliver(buf)
    }

    /// Goes on with a read into `buf`: hands in the bytes of the stream that were
    /// asked for, `hash` being the hash of what has to be hashed.
    #[verifier::rlimit(30)]
    pub fn resume_hashed(&mut self, input: &[u8], hash: u32, buf: &mut [u8]) -> (action: Action)
        requires
            old(self).wf(),
            old(self)@.accepts(input@.len() as int),
            old(self)@.counts(input@),
        ensures
            final(self).wf(),
            final(self).reader() == old(self).reader(),
            old(self)@.keeps_store((final(self)@, action)) ==> final(self).store() == old(
                self,
            ).store(),
            (final(self)@, action) == old(self)@.step(input@, hash, old(buf)@.len() as int),
            final(buf)@ == final(self)@.filled(action, old(buf)@),
    {
        match self.phase {
            Phase::Idle => Action::Return { len: 0 },
            Phase::FrameHead => {
                if input.len() == 0 {
                    self.end(Action::Return { len: 0 })
                } else if input.len() < MIN_FRAME_INFO_SIZE {
                    self.head = vstd::slice::slice_to_vec(input);
                    self.phase = Phase::FrameHeadRest;
                    Action::ReadExact { len: MIN_FRAME_INFO_SIZE - input.len() }
                } else {
                    self.take_head(input, hash, buf)
                }
            },
            Phase::FrameHeadRest => {
                let head = joined(&self.head, input);
                self.take_head(head.as_slice(), hash, buf)
            },
            Phase::FrameInfoRest => {
                let head = joined(&self.head, input);
                proof {
                    assert(head@.take(4) =~= self.head@.take(4));
                }
                self.take_info(head.as_slice(), hash, buf)
            },
            Phase::BlockHead => self.take_block_info(BlockInfo::read(input)),
            Phase::RawBody { len } => self.take_raw_body(len, input, buf),
            Phase::RawChecksum { len } => {
                match Self::compare_block_checksum(hash, Self::read_checksum(input)) {
                    Ok(()) => self.take_raw(len, buf),
                    Err(e) => self.end(Action::Fail(e)),
                }
            },
            Phase::PackedBody { len } => self.take_packed_body(len, input, buf),
            Phase::PackedChecksum { len } => {
                match Self::compare_block_checksum(hash, Self::read_checksum(input)) {
                    Ok(()) => self.take_packed(len, buf),
                    Err(e) => self.end(Action::Fail(e)),
                }
            },
            Phase::ContentChecksum => {
                if hash != Self::read_checksum(input) {
                    return self.end(Action::Fail(Error::ContentChecksumError));
                }
                self.close()
            },
        }
    }

    /// The hash of what has to be hashed to take `input`.
    fn pending_hash(&self, input: &[u8]) -> (hash: u32)
        requires
            self.wf(),
            self@.accepts(input@.len() as int),
        ensures
            hash == xxh32(0, self@.hashed(input@)),
    {
        match self.phase {
            Phase::FrameHead | Phase::FrameHeadRest | Phase::FrameInfoRest => {
                let head = match self.phase {
                    Phase::FrameHead => vstd::slice::slice_to_vec(input),
                    _ => joined(&self.head, input),
                };
                assert(head@ =~= self@.held + input@);
                if head.len() < MIN_FRAME_INFO_SIZE {
                    checksum(Vec::new().as_slice())
                } else {
                    checksum(vstd::slice::slice_subrange(head.as_slice(), 4, head.len() - 1))
                }
            },
            Phase::RawChecksum { len } => checksum(
                vstd::slice::slice_subrange(
                    self.dst.as_slice(),
                    self.dst_start,
                    self.dst_start + len,
                ),
            ),
            Phase::PackedChecksum { len } => checksum(
                vstd::slice::slice_subrange(self.src.as_slice(), 0, len),
            ),
            Phase::ContentChecksum => hash_finish(&self.content_hasher) as u32,
            _ => checksum(Vec::new().as_slice()),
        }
    }

    /// Goes on with a read into `buf`: hands in the bytes of the stream that were
    /// asked for.
    pub fn resume(&mut self, input: &[u8], buf: &mut [u8]) -> (action: Action)
        requires
            old(self).wf(),
            old(self)@.accepts(input@.len() as int),
            old(self)@.counts(input@),
        ensures
            final(self).wf(),
            final(self).reader() == old(self).reader(),
            old(self)@.keeps_store((final(self)@, action)) ==> final(self).store() == old(
                self,
            ).store(),
            (final(self)@, action) == old(self)@.step(
                input@,
                xxh32(0, old(self)@.hashed(input@)),
                old(buf)@.len() as int,
            ),
            final(buf)@ == final(self)@.filled(action, old(buf)@),
    {
        let hash: u32 = self.pending_hash(input);
        self.resume_hashed(input, hash, buf)
    }
}

/// Copies `data` to the front of `buf`.
fn copy_out(data: &[u8], buf: &mut [u8])
    requires
        data@.len() <= old(buf)@.len(),
    ensures
        final(buf)@ == data@ + old(buf)@.skip(data@.len() as int),
{
    let mut i: usize = 0;
    while i < data.len()
        invariant
            i <= data@.len() <= old(buf)@.len(),
            buf@ == data@.take(i as int) + old(buf)@.skip(i as int),
        decreases data@.len() - i,
    {
        buf[i] = data[i];
        i = i + 1;
        assert(buf@ =~= data@.take(i as int) + old(buf)@.skip(i as int));
    }
    assert(data@.take(i as int) =~= data@);
}

/// `front` followed by `rest`.
fn joined(front: &Vec<u8>, rest: &[u8]) -> (all: Vec<u8>)
    ensures
        all@ == front@ + rest@,
{
    let mut all = vstd::slice::slice_to_vec(front.as_slice());
    all.extend_from_slice(rest);
    assert(all@ =~= front@ + rest@);
    all
}

} // verus!
