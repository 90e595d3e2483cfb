//! What holds of every decoder, whatever the stream and whatever the buffers of
//! its caller.

use crate::block::decompress::{decode_block, law_block_placement};
use crate::block::{DecompressError, WINDOW_SIZE};
use crate::frame::format::reference;
use crate::frame::header::{info_of, BlockMode, FrameInfo, MIN_FRAME_INFO_SIZE};
use crate::frame::model::{dst_size, Action, Layout, Phase, State, MAX_BUFFER_SIZE};
use vstd::prelude::*;

verus! {

/// Advancing a layout makes room for a block of maximum size and loses nothing of
/// the window: where output starts at the front of the buffer again, a block and
/// the window stand before the end of it.
pub proof fn law_advance_makes_room(layout: Layout, info: FrameInfo, len: int)
    requires
        layout.fits(info, len),
        layout.start == layout.end,
    ensures
        layout.advance(info).fits(info, len),
        layout.advance(info).ready(info),
        info.block_mode == BlockMode::Linked && dst_size(info) < layout.start
            + info.block_size.size() ==> info.block_size.size() + WINDOW_SIZE <= layout.start,
{
}

/// Advancing a layout a second time changes nothing.
pub proof fn law_advance_once(layout: Layout, info: FrameInfo, len: int)
    requires
        layout.fits(info, len),
        layout.start == layout.end,
    ensures
        layout.advance(info).advance(info) == layout.advance(info),
{
}

proof fn lemma_deliver_valid(s: State, room: int)
    requires
        s.info matches Some(info) && s.layout.fits(info, s.output.len() as int),
        0 <= room,
    ensures
        s.deliver(room).0.valid(),
{
    if s.layout.start == s.layout.end {
        law_advance_makes_room(s.layout, s.info.unwrap(), s.output.len() as int);
    }
}

/// Starting a read keeps the invariant.
pub proof fn law_begin_valid(s: State, room: int)
    requires
        s.valid(),
        0 <= room,
    ensures
        s.begin(room).0.valid(),
{
    if s.info is Some {
        lemma_deliver_valid(s, room);
    }
}

proof fn lemma_append_valid(s: State, data: Seq<u8>, room: int)
    requires
        s.valid(),
        s.info is Some,
        s.phase != Phase::Idle,
        s.layout.start + data.len() <= s.layout.limit(s.info.unwrap()),
        0 <= room,
    ensures
        s.append(data, room).0.valid(),
{
    let t = State {
        output: s.output + data,
        layout: Layout { end: s.layout.start + data.len(), ..s.layout },
        ..s
    };
    lemma_deliver_valid(t, room);
}

proof fn lemma_unpack_valid(s: State, src: Seq<u8>, room: int)
    requires
        s.valid(),
        s.info is Some,
        s.phase != Phase::Idle,
        0 <= room,
    ensures
        s.unpack(src, room).0.valid(),
{
    let info = s.info.unwrap();
    let limit = s.layout.limit(info);
    law_block_placement(src, reference(info, s.output), s.layout.start, limit, 0, limit);
    if let Ok(data) = s.unpacked(src) {
        lemma_append_valid(s, data, room);
    }
}

/// Going on with a read keeps the invariant.
#[verifier::rlimit(30)]
pub proof fn law_step_valid(s: State, input: Seq<u8>, hash: u32, room: int)
    requires
        s.valid(),
        s.accepts(input.len() as int),
        0 <= room,
    ensures
        s.step(input, hash, room).0.valid(),
{
    match s.phase {
        Phase::RawBody { .. } => {
            lemma_append_valid(s, input, room);
        },
        Phase::RawChecksum { .. } => {
            lemma_append_valid(s, s.held, room);
        },
        Phase::PackedBody { .. } => {
            lemma_unpack_valid(s, input, room);
        },
        Phase::PackedChecksum { .. } => {
            lemma_unpack_valid(s, s.held, room);
        },
        _ => {},
    }
}

/// Whether the bytes that are asked for are those that are accepted, and none are
/// accepted where none are asked for.
pub open spec fn asks_what_it_accepts(result: (State, Action)) -> bool {
    let (s, action) = result;
    match action {
        Action::Read { at_most } => forall|n: int| 0 <= n ==> (#[trigger] s.accepts(n) <==> n
            <= at_most),
        Action::ReadExact { len } => forall|n: int|
            0 <= n ==> (#[trigger] s.accepts(n) <==> n == len),
        _ => forall|n: int| !#[trigger] s.accepts(n),
    }
}

proof fn lemma_deliver_asks(s: State, room: int)
    ensures
        asks_what_it_accepts(s.deliver(room)),
{
}

/// Starting a read asks for what is accepted.
pub proof fn law_begin_asks(s: State, room: int)
    requires
        s.valid(),
        0 <= room,
    ensures
        asks_what_it_accepts(s.begin(room)),
{
    lemma_deliver_asks(s, room);
}

proof fn lemma_info_asks(s: State, head: Seq<u8>, hash: u32, room: int)
    ensures
        asks_what_it_accepts(s.take_info(head, hash, room)),
{
    if let Ok(info) = info_of(head, hash) {
        let t = State {
            info: Some(info),
            output: Seq::empty(),
            layout: Layout::empty(),
            ..s
        };
        lemma_deliver_asks(t, room);
    }
}

proof fn lemma_head_asks(s: State, head: Seq<u8>, hash: u32, room: int)
    requires
        head.len() == MIN_FRAME_INFO_SIZE,
    ensures
        asks_what_it_accepts(s.take_head(head, hash, room)),
{
    lemma_info_asks(s, head, hash, room);
}

proof fn lemma_append_asks(s: State, data: Seq<u8>, room: int)
    ensures
        asks_what_it_accepts(s.append(data, room)),
{
    let t = State {
        output: s.output + data,
        layout: Layout { end: s.layout.start + data.len(), ..s.layout },
        ..s
    };
    lemma_deliver_asks(t, room);
}

proof fn lemma_unpack_asks(s: State, src: Seq<u8>, room: int)
    ensures
        asks_what_it_accepts(s.unpack(src, room)),
{
    if let Ok(data) = s.unpacked(src) {
        lemma_append_asks(s, data, room);
    }
}

/// Going on with a read asks for what is accepted.
pub proof fn law_step_asks(s: State, input: Seq<u8>, hash: u32, room: int)
    requires
        s.valid(),
        s.accepts(input.len() as int),
        0 <= room,
    ensures
        asks_what_it_accepts(s.step(input, hash, room)),
{
    match s.phase {
        Phase::FrameHead => {
            if input.len() == MIN_FRAME_INFO_SIZE {
                lemma_head_asks(s, input, hash, room);
            }
        },
        Phase::FrameHeadRest => {
            lemma_head_asks(s, s.held + input, hash, room);
        },
        Phase::FrameInfoRest => {
            lemma_info_asks(s, s.held + input, hash, room);
        },
        Phase::RawBody { .. } => {
            lemma_append_asks(s, input, room);
        },
        Phase::RawChecksum { .. } => {
            lemma_append_asks(s, s.held, room);
        },
        Phase::PackedBody { .. } => {
            lemma_unpack_asks(s, input, room);
        },
        Phase::PackedChecksum { .. } => {
            lemma_unpack_asks(s, s.held, room);
        },
        _ => {},
    }
}

/// How many bytes the caller gets with an action.
pub open spec fn returned(action: Action) -> int {
    match action {
        Action::Return { len } => len as int,
        _ => 0,
    }
}

/// Whether the decoder went from `s` to that result without giving the caller any
/// byte twice, leaving one out or changing what was output: the output only
/// grows, and what is given goes on where it had stopped.
pub open spec fn gives_in_order(s: State, result: (State, Action)) -> bool {
    let (t, action) = result;
    &&& s.output.is_prefix_of(t.output)
    &&& t.given() == s.given() + returned(action)
    &&& 0 <= s.given() <= t.given() <= t.output.len()
}

proof fn lemma_deliver_in_order(s: State, room: int)
    requires
        s.info matches Some(info) && s.layout.fits(info, s.output.len() as int),
        0 <= room <= usize::MAX,
    ensures
        gives_in_order(s, s.deliver(room)),
        returned(s.deliver(room).1) <= room,
{
}

/// A read that starts goes on giving where the last one stopped.
pub proof fn law_begin_in_order(s: State, room: int)
    requires
        s.valid(),
        0 <= room <= usize::MAX,
    ensures
        gives_in_order(s, s.begin(room)),
        returned(s.begin(room).1) <= room,
{
    if s.info is Some {
        lemma_deliver_in_order(s, room);
    }
}

/// As long as a frame lasts, every step of a read goes on giving where the last
/// one stopped; with the header of the next frame the output starts anew.
#[verifier::rlimit(30)]
pub proof fn law_step_in_order(s: State, input: Seq<u8>, hash: u32, room: int)
    requires
        s.valid(),
        s.accepts(input.len() as int),
        0 <= room <= usize::MAX,
    ensures
        ({
            let (t, action) = s.step(input, hash, room);
            &&& returned(action) <= room
            &&& if s.info is None && t.info is Some {
                t.output == Seq::<u8>::empty() && t.given() == 0 && returned(action) == 0
            } else {
                gives_in_order(s, (t, action))
            }
        }),
{
    let info = s.info.unwrap();
    let limit = s.layout.limit(info);
    match s.phase {
        Phase::RawBody { .. } => {
            lemma_append_in_order(s, input, room);
        },
        Phase::RawChecksum { .. } => {
            lemma_append_in_order(s, s.held, room);
        },
        Phase::PackedBody { .. } => {
            law_block_placement(input, reference(info, s.output), s.layout.start, limit, 0, limit);
            if let Ok(data) = s.unpacked(input) {
                lemma_append_in_order(s, data, room);
            }
        },
        Phase::PackedChecksum { .. } => {
            law_block_placement(s.held, reference(info, s.output), s.layout.start, limit, 0, limit);
            if let Ok(data) = s.unpacked(s.held) {
                lemma_append_in_order(s, data, room);
            }
        },
        _ => {},
    }
}

proof fn lemma_append_in_order(s: State, data: Seq<u8>, room: int)
    requires
        s.valid(),
        s.info is Some,
        s.phase != Phase::Idle,
        s.layout.start + data.len() <= s.layout.limit(s.info.unwrap()),
        0 <= room <= usize::MAX,
    ensures
        gives_in_order(s, s.append(data, room)),
        returned(s.append(data, room).1) <= room,
{
    let t = State {
        output: s.output + data,
        layout: Layout { end: s.layout.start + data.len(), ..s.layout },
        ..s
    };
    lemma_deliver_in_order(t, room);
    assert(s.output.is_prefix_of(t.output));
}

/// A step that fails gives nothing and changes nothing: the frame, the output and
/// how much of it was given are as they were.
pub proof fn law_fail_changes_nothing(s: State, input: Seq<u8>, hash: u32, room: int)
    requires
        s.valid(),
        s.accepts(input.len() as int),
        s.step(input, hash, room).1 is Fail,
    ensures
        s.step(input, hash, room).0 == (State { phase: Phase::Idle, held: Seq::empty(), ..s }),
{
}

/// The header of a frame is kept until the frame ends: the caller then has all of
/// the output, and the read returns nothing.
pub proof fn law_frame_info_lasts(s: State, input: Seq<u8>, hash: u32, room: int)
    requires
        s.valid(),
        s.accepts(input.len() as int),
        s.info is Some,
    ensures
        ({
            let (t, action) = s.step(input, hash, room);
            ||| t.info == s.info
            ||| {
                &&& t.info is None
                &&& action == (Action::Return { len: 0 })
                &&& t.output == s.output
                &&& t.given() == t.output.len()
            }
        }),
{
}

/// A read that was given up while it waited for a block is taken up again at the
/// header of a block, with nothing else changed.
pub proof fn law_given_up_read(s: State, room: int)
    requires
        s.valid(),
        s.info is Some,
        s.phase != Phase::Idle,
    ensures
        s.begin(room).0 == (State { phase: Phase::BlockHead, held: Seq::empty(), ..s }),
{
}

/// Whatever the buffer is filled with, a block that decompresses to no more than
/// the frame header says is decompressed, and to what the format says: all of the
/// content before it that an offset can reach is within reach.
pub proof fn law_declared_blocks_fit(s: State, src: Seq<u8>)
    requires
        s.valid(),
        s.info is Some,
        s.phase != Phase::Idle,
    ensures
        ({
            let info = s.info.unwrap();
            decode_block(src, reference(info, s.output), 0, info.block_size.size()) matches Ok(data)
                ==> s.unpacked(src) == Ok::<Seq<u8>, DecompressError>(data)
        }),
{
    let info = s.info.unwrap();
    law_block_placement(
        src,
        reference(info, s.output),
        0,
        info.block_size.size(),
        s.layout.start,
        s.layout.limit(info),
    );
}

/// No block decompresses to more than the largest buffer holds.
pub proof fn law_block_size(s: State, input: Seq<u8>)
    requires
        s.valid(),
        s.accepts(input.len() as int),
    ensures
        s.block(input).len() <= MAX_BUFFER_SIZE,
{
    if s.info is Some && s.phase != Phase::Idle {
        let info = s.info.unwrap();
        let limit = s.layout.limit(info);
        let known = reference(info, s.output);
        law_block_placement(input, known, s.layout.start, limit, 0, limit);
        law_block_placement(s.held, known, s.layout.start, limit, 0, limit);
    }
}

/// What an independent block decompresses to has nothing to do with what came
/// before it.
pub proof fn law_independent_blocks(s: State, t: State, src: Seq<u8>)
    requires
        s.valid(),
        t.valid(),
        s.phase != Phase::Idle,
        t.phase != Phase::Idle,
        s.info matches Some(info) && info.block_mode == BlockMode::Independent,
        t.info == s.info,
    ensures
        s.unpacked(src) == t.unpacked(src),
{
}

/// Where blocks are linked and there is room for another, output goes on where it
/// was: the end of the dictionary stays where it is, and of its length there stays
/// what the output still lacks of the window. Where there is no room, output
/// starts at the front, and the dictionary is the window before the last output.
pub proof fn law_advance_linked(layout: Layout, info: FrameInfo, len: int)
    requires
        layout.fits(info, len),
        layout.start == layout.end,
        info.block_mode is Linked,
    ensures
        ({
            let next = layout.advance(info);
            let lacks = if layout.start < 65536 {
                65536 - layout.start
            } else {
                0
            };
            &&& next.start == next.end
            &&& if layout.start + info.block_size.size() <= dst_size(info) {
                &&& next.start == layout.start
                &&& next.dict + next.dict_len == layout.dict + layout.dict_len
                &&& next.dict_len == if layout.dict_len < lacks {
                    layout.dict_len
                } else {
                    lacks
                }
            } else {
                &&& next.start == 0
                &&& next.dict_len == 65536
                &&& next.dict + 65536 == layout.start
            }
        }),
{
}

/// Where blocks are independent, output starts at the front of the buffer for each
/// of them, and there is no dictionary.
pub proof fn law_advance_independent(layout: Layout, info: FrameInfo, len: int)
    requires
        layout.fits(info, len),
        layout.start == layout.end,
        info.block_mode is Independent,
    ensures
        layout.advance(info).start == 0,
        layout.advance(info).end == 0,
        layout.advance(info).dict_len == 0,
{
}

} // verus!
