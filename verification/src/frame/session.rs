//! A decoder, its caller and a stream together, from the start of a frame to its
//! end: what the caller gets is what the frame format says.

use crate::block::decompress::law_block_placement;
use crate::frame::format::{
    block_content, blocks_content, end_content, frame_content, reference, Cap,
};
use crate::frame::header::{
    block_info_of, descriptor, info_of, info_size, BlockInfo, FrameInfo, BLOCK_INFO_SIZE,
    CHECKSUM_SIZE, MIN_FRAME_INFO_SIZE,
};
use crate::frame::laws::{
    asks_what_it_accepts, law_begin_asks, law_begin_valid, law_declared_blocks_fit, law_step_asks,
    law_step_valid, returned,
};
use crate::frame::model::{dst_size, Action, Layout, Phase, State};
use crate::hash::xxh32;
use vstd::prelude::*;

verus! {

/// What is still to come of a frame: content, and what follows the frame.
pub type Owed = Option<(Seq<u8>, Seq<u8>)>;

/// The content of a frame without what was given already.
pub open spec fn without_given(content: Owed, given: int) -> Owed {
    match content {
        Some((all, rest)) => Some((all.skip(given), rest)),
        None => None,
    }
}

/// `data` and then what is still to come.
pub open spec fn followed_by(data: Seq<u8>, owed: Owed) -> Owed {
    match owed {
        Some((all, rest)) => Some((data + all, rest)),
        None => None,
    }
}

/// What the caller of a decoder in that state has still to get of the frame, if
/// the stream goes on with `stream`.
pub open spec fn owed(s: State, cap: Cap, stream: Seq<u8>) -> Owed {
    match s.info {
        None => match s.phase {
            Phase::FrameHead => frame_content(cap, stream),
            Phase::FrameHeadRest | Phase::FrameInfoRest => frame_content(cap, s.held + stream),
            _ => Some((Seq::empty(), stream)),
        },
        Some(info) => {
            let n = cap.of(info);
            let content = match s.phase {
                Phase::RawBody { len } => block_content(
                    info,
                    n,
                    stream,
                    false,
                    len as int,
                    s.output,
                ),
                Phase::RawChecksum { len } => block_content(
                    info,
                    n,
                    s.held + stream,
                    false,
                    len as int,
                    s.output,
                ),
                Phase::PackedBody { len } => block_content(
                    info,
                    n,
                    stream,
                    true,
                    len as int,
                    s.output,
                ),
                Phase::PackedChecksum { len } => block_content(
                    info,
                    n,
                    s.held + stream,
                    true,
                    len as int,
                    s.output,
                ),
                Phase::ContentChecksum => end_content(info, stream, s.output),
                _ => blocks_content(info, n, stream, s.output),
            };
            without_given(content, s.given())
        },
    }
}

/// The bytes that the caller gets with a result.
pub open spec fn gift(result: (State, Action)) -> Seq<u8> {
    let (s, action) = result;
    s.output.subrange(s.given() - returned(action), s.given())
}

proof fn lemma_blocks_prefix(info: FrameInfo, cap: int, stream: Seq<u8>, before: Seq<u8>)
    ensures
        blocks_content(info, cap, stream, before) matches Some((all, _)) ==> before.is_prefix_of(
            all,
        ),
    decreases stream.len(), 0int,
{
    if stream.len() >= BLOCK_INFO_SIZE {
        let rest = stream.skip(BLOCK_INFO_SIZE as int);
        match block_info_of(stream.take(BLOCK_INFO_SIZE as int)) {
            BlockInfo::EndMark => {},
            BlockInfo::Uncompressed(len) => {
                lemma_block_prefix(info, cap, rest, false, len as int, before);
            },
            BlockInfo::Compressed(len) => {
                lemma_block_prefix(info, cap, rest, true, len as int, before);
            },
        }
    }
}

proof fn lemma_block_prefix(
    info: FrameInfo,
    cap: int,
    stream: Seq<u8>,
    packed: bool,
    len: int,
    before: Seq<u8>,
)
    ensures
        block_content(info, cap, stream, packed, len, before) matches Some((all, _))
            ==> before.is_prefix_of(all),
    decreases stream.len(), 1int,
{
    if let Some((all, _)) = block_content(info, cap, stream, packed, len, before) {
        let src = stream.take(len);
        let size = if info.block_checksums {
            len + CHECKSUM_SIZE
        } else {
            len
        };
        let data = if packed {
            crate::block::decompress::decode_block(src, reference(info, before), 0, cap).unwrap()
        } else {
            src
        };
        lemma_blocks_prefix(info, cap, stream.skip(size), before + data);
        assert(before.is_prefix_of(before + data));
        assert(before =~= all.take(before.len() as int)) by {
            assert((before + data) =~= all.take((before + data).len() as int));
        }
    }
}

proof fn lemma_split(all: Seq<u8>, output: Seq<u8>, from: int, to: int)
    requires
        output.is_prefix_of(all),
        0 <= from <= to <= output.len(),
    ensures
        all.skip(from) == output.subrange(from, to) + all.skip(to),
{
    assert(output =~= all.take(output.len() as int));
    assert(all.skip(from) =~= output.subrange(from, to) + all.skip(to));
}

/// Delivering gives what is owed.
#[verifier::rlimit(30)]
proof fn lemma_deliver_owed(s: State, cap: Cap, stream: Seq<u8>, room: int)
    requires
        s.info matches Some(info) && s.layout.fits(info, s.output.len() as int),
        0 <= room <= usize::MAX,
    ensures
        ({
            let info = s.info.unwrap();
            let (t, action) = s.deliver(room);
            &&& action !is Fail
            &&& without_given(
                blocks_content(info, cap.of(info), stream, s.output),
                s.given(),
            ) == followed_by(gift((t, action)), owed(t, cap, stream))
        }),
{
    let info = s.info.unwrap();
    let (t, action) = s.deliver(room);
    let content = blocks_content(info, cap.of(info), stream, s.output);
    lemma_blocks_prefix(info, cap.of(info), stream, s.output);
    assert(t.info == s.info);
    assert(t.output == s.output);
    assert(t.given() == s.given() + returned(action));
    assert(owed(t, cap, stream) == without_given(content, t.given()));
    if let Some((all, _)) = content {
        lemma_split(all, s.output, s.given(), t.given());
    }
}

/// Whether what comes of an attempt is bound to be what is owed: a block that
/// decompresses to what the frame header allows is never refused, and what is not
/// refused fits into the buffer.
pub open spec fn binding(cap: Cap, owed: Owed, action: Action) -> bool {
    match cap {
        Cap::Declared => owed is Some,
        Cap::Buffer => action !is Fail,
    }
}

/// Whether what was owed is now given or still owed.
pub open spec fn settles(before: Owed, result: (State, Action), cap: Cap, stream: Seq<u8>) -> bool {
    &&& result.1 !is Fail
    &&& before == followed_by(gift(result), owed(result.0, cap, stream))
}

/// With nothing given, what was owed is owed.
proof fn lemma_nothing_given(owed: Owed)
    ensures
        followed_by(Seq::empty(), owed) == owed,
{
    if let Some((all, _)) = owed {
        assert(Seq::<u8>::empty() + all =~= all);
    }
}

proof fn lemma_append_owed(s: State, cap: Cap, data: Seq<u8>, stream: Seq<u8>, room: int)
    requires
        s.valid(),
        s.info is Some,
        s.phase != Phase::Idle,
        s.layout.start + data.len() <= s.layout.limit(s.info.unwrap()),
        0 <= room <= usize::MAX,
    ensures
        ({
            let info = s.info.unwrap();
            settles(
                without_given(
                    blocks_content(info, cap.of(info), stream, s.output + data),
                    s.given(),
                ),
                s.append(data, room),
                cap,
                stream,
            )
        }),
{
    let t = State {
        output: s.output + data,
        layout: Layout { end: s.layout.start + data.len(), ..s.layout },
        ..s
    };
    assert(t.given() == s.given());
    lemma_deliver_owed(t, cap, stream, room);
}

/// A compressed block that was read: it has the length and the checksum that it
/// should have.
proof fn lemma_unpack_owed(s: State, cap: Cap, src: Seq<u8>, stream: Seq<u8>, room: int)
    requires
        s.valid(),
        s.info is Some,
        s.phase != Phase::Idle,
        0 <= room <= usize::MAX,
        ({
            let info = s.info.unwrap();
            let data = crate::block::decompress::decode_block(
                src,
                reference(info, s.output),
                0,
                cap.of(info),
            );
            match cap {
                Cap::Declared => data is Ok,
                Cap::Buffer => s.unpack(src, room).1 !is Fail,
            }
        }),
    ensures
        ({
            let info = s.info.unwrap();
            let data = crate::block::decompress::decode_block(
                src,
                reference(info, s.output),
                0,
                cap.of(info),
            );
            &&& data is Ok
            &&& settles(
                without_given(
                    blocks_content(info, cap.of(info), stream, s.output + data.unwrap()),
                    s.given(),
                ),
                s.unpack(src, room),
                cap,
                stream,
            )
        }),
{
    let info = s.info.unwrap();
    let limit = s.layout.limit(info);
    law_declared_blocks_fit(s, src);
    law_block_placement(
        src,
        reference(info, s.output),
        s.layout.start,
        limit,
        0,
        dst_size(info),
    );
    let data = s.unpacked(src).unwrap();
    lemma_append_owed(s, cap, data, stream, room);
}

/// A whole frame header that was read.
proof fn lemma_info_owed(s: State, cap: Cap, head: Seq<u8>, stream: Seq<u8>, room: int)
    requires
        s.info is None,
        MIN_FRAME_INFO_SIZE <= head.len(),
        info_size(head) == Ok::<int, crate::frame::Error>(head.len() as int),
        0 <= room <= usize::MAX,
        binding(
            cap,
            frame_content(cap, head + stream),
            s.take_info(head, xxh32(0, descriptor(head)), room).1,
        ),
    ensures
        settles(
            frame_content(cap, head + stream),
            s.take_info(head, xxh32(0, descriptor(head)), room),
            cap,
            stream,
        ),
{
    let all = head + stream;
    let n = head.len() as int;
    assert(all.take(MIN_FRAME_INFO_SIZE as int).take(4) =~= head.take(4));
    assert(all.take(n) =~= head);
    assert(all.skip(n) =~= stream);
    if let Ok(info) = info_of(head, xxh32(0, descriptor(head))) {
        let t = State {
            info: Some(info),
            output: Seq::empty(),
            layout: Layout::empty(),
            ..s
        };
        lemma_deliver_owed(t, cap, stream, room);
        if let Some((content, _)) = blocks_content(info, cap.of(info), stream, Seq::empty()) {
            assert(content.skip(0) =~= content);
        }
    }
}

/// The start of a frame header that was read.
proof fn lemma_head_owed(s: State, cap: Cap, head: Seq<u8>, stream: Seq<u8>, room: int)
    requires
        s.valid(),
        s.info is None,
        head.len() == MIN_FRAME_INFO_SIZE,
        0 <= room <= usize::MAX,
        binding(
            cap,
            frame_content(cap, head + stream),
            s.take_head(head, xxh32(0, descriptor(head)), room).1,
        ),
    ensures
        settles(
            frame_content(cap, head + stream),
            s.take_head(head, xxh32(0, descriptor(head)), room),
            cap,
            stream,
        ),
{
    let all = head + stream;
    assert(all.take(MIN_FRAME_INFO_SIZE as int) =~= head);
    if info_size(head) == Ok::<int, crate::frame::Error>(MIN_FRAME_INFO_SIZE as int) {
        lemma_info_owed(s, cap, head, stream, room);
    } else if info_size(head) is Ok {
        let result = s.take_head(head, xxh32(0, descriptor(head)), room);
        assert(gift(result) =~= Seq::<u8>::empty());
        lemma_nothing_given(owed(result.0, cap, stream));
    }
}

/// A block header that was read.
proof fn lemma_block_info_owed(s: State, cap: Cap, input: Seq<u8>, stream: Seq<u8>)
    requires
        s.valid(),
        s.phase == Phase::BlockHead,
        input.len() == BLOCK_INFO_SIZE,
        binding(cap, owed(s, cap, input + stream), s.take_block_info(block_info_of(input)).1),
    ensures
        settles(
            owed(s, cap, input + stream),
            s.take_block_info(block_info_of(input)),
            cap,
            stream,
        ),
{
    let all = input + stream;
    assert(all.take(BLOCK_INFO_SIZE as int) =~= input);
    assert(all.skip(BLOCK_INFO_SIZE as int) =~= stream);
    let result = s.take_block_info(block_info_of(input));
    assert(gift(result) =~= Seq::<u8>::empty());
    lemma_nothing_given(owed(result.0, cap, stream));
    assert(s.output.skip(s.given()) =~= Seq::<u8>::empty());
}

/// A block that was read, where no checksum follows it.
proof fn lemma_body_owed(s: State, cap: Cap, input: Seq<u8>, stream: Seq<u8>, room: int)
    requires
        s.valid(),
        s.phase is RawBody || s.phase is PackedBody,
        s.accepts(input.len() as int),
        0 <= room <= usize::MAX,
        binding(cap, owed(s, cap, input + stream), s.step(input, 0, room).1),
    ensures
        settles(owed(s, cap, input + stream), s.step(input, 0, room), cap, stream),
{
    let info = s.info.unwrap();
    let all = input + stream;
    let len = input.len() as int;
    assert(all.take(len) =~= input);
    assert(all.skip(len) =~= stream);
    let result = s.step(input, 0, room);
    if info.block_checksums {
        assert(gift(result) =~= Seq::<u8>::empty());
        lemma_nothing_given(owed(result.0, cap, stream));
    } else if s.phase is RawBody {
        lemma_append_owed(s, cap, input, stream, room);
    } else {
        lemma_unpack_owed(s, cap, input, stream, room);
    }
}

/// The checksum of a block that was read.
proof fn lemma_checksum_owed(s: State, cap: Cap, input: Seq<u8>, stream: Seq<u8>, room: int)
    requires
        s.valid(),
        s.phase is RawChecksum || s.phase is PackedChecksum,
        s.accepts(input.len() as int),
        0 <= room <= usize::MAX,
        binding(cap, owed(s, cap, input + stream), s.step(input, xxh32(0, s.held), room).1),
    ensures
        settles(
            owed(s, cap, input + stream),
            s.step(input, xxh32(0, s.held), room),
            cap,
            stream,
        ),
{
    let all = s.held + (input + stream);
    let len = s.held.len() as int;
    let size = len + CHECKSUM_SIZE;
    assert(all.take(len) =~= s.held);
    assert(all.subrange(len, size) =~= input);
    assert(all.skip(size) =~= stream);
    if xxh32(0, s.held) == crate::bytes::le_value(input) {
        if s.phase is RawChecksum {
            lemma_append_owed(s, cap, s.held, stream, room);
        } else {
            lemma_unpack_owed(s, cap, s.held, stream, room);
        }
    }
}

/// A step gives what is owed.
#[verifier::rlimit(30)]
proof fn lemma_step_owed(s: State, cap: Cap, input: Seq<u8>, stream: Seq<u8>, room: int)
    requires
        s.valid(),
        s.accepts(input.len() as int),
        s.phase is FrameHead ==> input.len() > 0,
        0 <= room <= usize::MAX,
        binding(
            cap,
            owed(s, cap, input + stream),
            s.step(input, xxh32(0, s.hashed(input)), room).1,
        ),
    ensures
        settles(
            owed(s, cap, input + stream),
            s.step(input, xxh32(0, s.hashed(input)), room),
            cap,
            stream,
        ),
{
    let result = s.step(input, xxh32(0, s.hashed(input)), room);
    match s.phase {
        Phase::Idle => {},
        Phase::FrameHead => {
            assert(s.held + input =~= input);
            if input.len() < MIN_FRAME_INFO_SIZE {
                assert(gift(result) =~= Seq::<u8>::empty());
                lemma_nothing_given(owed(result.0, cap, stream));
            } else {
                lemma_head_owed(s, cap, input, stream, room);
            }
        },
        Phase::FrameHeadRest => {
            assert(s.held + (input + stream) =~= s.held + input + stream);
            lemma_head_owed(s, cap, s.held + input, stream, room);
        },
        Phase::FrameInfoRest => {
            assert(s.held + (input + stream) =~= s.held + input + stream);
            assert((s.held + input).take(4) =~= s.held.take(4));
            lemma_info_owed(s, cap, s.held + input, stream, room);
        },
        Phase::BlockHead => {
            lemma_block_info_owed(s, cap, input, stream);
        },
        Phase::RawBody { .. } | Phase::PackedBody { .. } => {
            lemma_body_owed(s, cap, input, stream, room);
        },
        Phase::RawChecksum { .. } | Phase::PackedChecksum { .. } => {
            lemma_checksum_owed(s, cap, input, stream, room);
        },
        Phase::ContentChecksum => {
            assert((input + stream).take(CHECKSUM_SIZE as int) =~= input);
            assert((input + stream).skip(CHECKSUM_SIZE as int) =~= stream);
            assert(gift(result) =~= Seq::<u8>::empty());
            lemma_nothing_given(owed(result.0, cap, stream));
            assert(s.output.skip(s.given()) =~= Seq::<u8>::empty());
        },
    }
}

/// Starting the next read within a frame gives what is owed.
proof fn lemma_begin_owed(s: State, cap: Cap, stream: Seq<u8>, room: int)
    requires
        s.valid(),
        s.info is Some,
        s.phase == Phase::Idle,
        0 <= room <= usize::MAX,
    ensures
        settles(owed(s, cap, stream), s.begin(room), cap, stream),
{
    lemma_deliver_owed(s, cap, stream, room);
}

/// A decoder, its caller and the stream, from the start of a frame on.
pub struct Session {
    /// The decoder.
    pub state: State,
    /// What the decoder asked for last.
    pub action: Action,
    /// The rest of the stream.
    pub stream: Seq<u8>,
    /// All that the caller got.
    pub got: Seq<u8>,
}

/// What is up to the caller and the reader in a turn.
pub struct Choice {
    /// The size of the caller's buffer.
    pub room: int,
    /// The most that a single read from the stream yields.
    pub chunk: int,
}

impl Choice {
    /// Whether a caller and a reader can choose so.
    pub open spec fn possible(self) -> bool {
        &&& 0 <= self.room <= usize::MAX
        &&& 0 < self.chunk
    }
}

impl Session {
    /// A decoder that is between frames starts to read.
    pub open spec fn start(s: State, stream: Seq<u8>) -> Session {
        let (state, action) = s.begin(0);
        Session { state, action, stream, got: Seq::empty() }
    }

    /// Whether the end of the frame was reached, or an error.
    pub open spec fn over(self) -> bool {
        self.action is Fail || self.state.info is None && self.action is Return
    }

    /// How many bytes the reader yields, if it can.
    pub open spec fn supply(self, chunk: int) -> Option<int> {
        let there = self.stream.len() as int;
        match self.action {
            Action::Read { at_most } => if there < chunk && there < at_most {
                Some(there)
            } else if chunk < at_most {
                Some(chunk)
            } else {
                Some(at_most as int)
            },
            Action::ReadExact { len } => if len <= there {
                Some(len as int)
            } else {
                None
            },
            _ => None,
        }
    }

    /// The decoder came to that result, and the stream goes on with `stream`.
    pub open spec fn reached(self, result: (State, Action), stream: Seq<u8>) -> Session {
        Session { state: result.0, action: result.1, stream, got: self.got + gift(result) }
    }

    /// What the decoder asks for is done: the bytes that it needs are handed in,
    /// or, where a read is over, the next one is started. Nothing happens once
    /// the session is over or the stream has too few bytes.
    pub open spec fn turn(self, choice: Choice) -> Session {
        if self.over() {
            self
        } else if self.action is Return {
            self.reached(self.state.begin(choice.room), self.stream)
        } else {
            match self.supply(choice.chunk) {
                Some(n) => {
                    let input = self.stream.take(n);
                    let hash = xxh32(0, self.state.hashed(input));
                    self.reached(self.state.step(input, hash, choice.room), self.stream.skip(n))
                },
                None => self,
            }
        }
    }

    /// Turn after turn.
    pub open spec fn turns(self, choices: Seq<Choice>) -> Session
        decreases choices.len(),
    {
        if choices.len() == 0 {
            self
        } else {
            self.turn(choices[0]).turns(choices.skip(1))
        }
    }

    /// The invariant of a session.
    pub open spec fn sound(self) -> bool {
        &&& self.state.valid()
        &&& asks_what_it_accepts((self.state, self.action))
        &&& match self.action {
            Action::Read { .. } => self.state.phase is FrameHead,
            Action::ReadExact { .. } => !(self.state.phase is Idle) && !(
            self.state.phase is FrameHead),
            _ => self.state.phase is Idle,
        }
    }

    /// What the caller has got, then what is still to come.
    pub open spec fn total(self, cap: Cap) -> Owed {
        followed_by(self.got, owed(self.state, cap, self.stream))
    }

    /// How many turns are left at most.
    pub open spec fn left(self) -> int {
        let due = match owed(self.state, Cap::Declared, self.stream) {
            Some((content, _)) => content.len() as int,
            None => 0,
        };
        3 * (self.stream.len() + due) + match self.state.phase {
            Phase::Idle => 2int,
            Phase::RawBody { .. } | Phase::PackedBody { .. } => 1,
            _ => 0,
        }
    }
}

/// A turn keeps the invariant of a session.
#[verifier::rlimit(30)]
pub proof fn lemma_turn_sound(session: Session, choice: Choice)
    requires
        session.sound(),
        choice.possible(),
    ensures
        session.turn(choice).sound(),
{
    if !session.over() {
        if session.action is Return {
            law_begin_valid(session.state, choice.room);
            law_begin_asks(session.state, choice.room);
        } else if let Some(n) = session.supply(choice.chunk) {
            let input = session.stream.take(n);
            let hash = xxh32(0, session.state.hashed(input));
            assert(session.state.accepts(n));
            law_step_valid(session.state, input, hash, choice.room);
            law_step_asks(session.state, input, hash, choice.room);
        }
    }
}

proof fn lemma_reached_total(
    session: Session,
    before: Owed,
    result: (State, Action),
    cap: Cap,
    stream: Seq<u8>,
)
    requires
        settles(before, result, cap, stream),
    ensures
        session.reached(result, stream).total(cap) == followed_by(session.got, before),
{
    if let Some((all, _)) = owed(result.0, cap, stream) {
        assert(session.got + (gift(result) + all) =~= session.got + gift(result) + all);
    }
}

/// What the reader yields is what the decoder accepts.
proof fn lemma_supply(session: Session, chunk: int)
    requires
        session.sound(),
        0 < chunk,
    ensures
        session.supply(chunk) matches Some(n) ==> {
            &&& 0 <= n <= session.stream.len()
            &&& session.state.accepts(n)
            &&& session.stream.len() > 0 && session.state.phase is FrameHead ==> n > 0
        },
{
    if session.state.phase is FrameHead {
        assert(session.state.accepts(MIN_FRAME_INFO_SIZE as int));
    }
    if let Some(n) = session.supply(chunk) {
        assert(0 <= n <= session.stream.len());
        assert(session.state.accepts(n));
    }
}

/// A turn leaves unchanged what the caller gets in all.
#[verifier::rlimit(40)]
#[verifier::spinoff_prover]
proof fn lemma_turn_total(session: Session, cap: Cap, choice: Choice)
    requires
        session.sound(),
        choice.possible(),
        session.state.phase is FrameHead ==> session.stream.len() > 0,
        session.action !is Fail,
        match cap {
            Cap::Declared => session.total(cap) is Some,
            Cap::Buffer => session.turn(choice).action !is Fail,
        },
    ensures
        session.turn(choice).action !is Fail,
        session.turn(choice).total(cap) == session.total(cap),
{
    if session.over() {
    } else if session.action is Return {
        lemma_begin_owed(session.state, cap, session.stream, choice.room);
        lemma_reached_total(
            session,
            owed(session.state, cap, session.stream),
            session.state.begin(choice.room),
            cap,
            session.stream,
        );
    } else if let Some(n) = session.supply(choice.chunk) {
        lemma_supply(session, choice.chunk);
        lemma_supplied_total(session, cap, n, choice.room);
    }
}

#[verifier::rlimit(30)]
proof fn lemma_supplied_total(session: Session, cap: Cap, n: int, room: int)
    requires
        session.state.valid(),
        0 <= n <= session.stream.len(),
        session.state.accepts(n),
        0 <= room <= usize::MAX,
        session.state.phase is FrameHead ==> n > 0,
        ({
            let input = session.stream.take(n);
            let result = session.state.step(input, xxh32(0, session.state.hashed(input)), room);
            binding(cap, owed(session.state, cap, session.stream), result.1)
        }),
    ensures
        ({
            let input = session.stream.take(n);
            let result = session.state.step(input, xxh32(0, session.state.hashed(input)), room);
            &&& result.1 !is Fail
            &&& session.reached(result, session.stream.skip(n)).total(cap) == session.total(cap)
        }),
{
    let input = session.stream.take(n);
    let rest = session.stream.skip(n);
    let result = session.state.step(input, xxh32(0, session.state.hashed(input)), room);
    assert(input + rest =~= session.stream);
    lemma_step_owed(session.state, cap, input, rest, room);
    lemma_reached_total(session, owed(session.state, cap, session.stream), result, cap, rest);
}

/// The stream has what the decoder asks for as long as there is something owed.
proof fn lemma_not_starved(s: State, stream: Seq<u8>, len: int)
    requires
        s.valid(),
        s.accepts(len),
        !(s.phase is FrameHead),
        owed(s, Cap::Declared, stream) is Some,
    ensures
        len <= stream.len(),
{
    if s.phase is FrameInfoRest {
        assert((s.held + stream).take(MIN_FRAME_INFO_SIZE as int) =~= s.held);
    }
}

/// Where no byte is asked for, the next phase asks for some.
proof fn lemma_empty_body(s: State, room: int, hash: u32)
    requires
        s.valid(),
        s.accepts(0),
        !(s.phase is FrameHead),
        s.step(Seq::empty(), hash, room).1 !is Fail,
    ensures
        s.phase is RawBody || s.phase is PackedBody,
        s.step(Seq::empty(), hash, room).1 is ReadExact,
        !(s.step(Seq::empty(), hash, room).0.phase is RawBody),
        !(s.step(Seq::empty(), hash, room).0.phase is PackedBody),
        !(s.step(Seq::empty(), hash, room).0.phase is Idle),
{
}

/// A turn brings the end of the frame closer.
#[verifier::rlimit(30)]
proof fn lemma_turn_left(session: Session, choice: Choice)
    requires
        session.sound(),
        choice.possible(),
        0 < choice.room,
        session.state.phase is FrameHead ==> session.stream.len() > 0,
        session.total(Cap::Declared) is Some,
        !session.over(),
    ensures
        session.turn(choice).left() < session.left(),
{
    let next = session.turn(choice);
    lemma_turn_total(session, Cap::Declared, choice);
    let (content, _) = owed(session.state, Cap::Declared, session.stream).unwrap();
    let (rest, _) = owed(next.state, Cap::Declared, next.stream).unwrap();
    assert((session.got + content).len() == (next.got + rest).len());
    if session.action is Return {
        assert(next.got == session.got + gift((next.state, next.action)));
    } else {
        lemma_supply(session, choice.chunk);
        if let Action::ReadExact { len } = session.action {
            assert(session.state.accepts(len as int));
            lemma_not_starved(session.state, session.stream, len as int);
        }
        let n = session.supply(choice.chunk).unwrap();
        let input = session.stream.take(n);
        assert(next.got == session.got + gift((next.state, next.action)));
        if n == 0 {
            assert(input =~= Seq::empty());
            lemma_empty_body(
                session.state,
                choice.room,
                xxh32(0, session.state.hashed(input)),
            );
        }
    }
}

/// Whether callers and readers can choose so.
pub open spec fn possible(choices: Seq<Choice>) -> bool {
    forall|i: int| 0 <= i < choices.len() ==> (#[trigger] choices[i]).possible()
}

proof fn lemma_turns_sound(session: Session, choices: Seq<Choice>)
    requires
        session.sound(),
        possible(choices),
    ensures
        session.turns(choices).sound(),
    decreases choices.len(),
{
    if choices.len() > 0 {
        lemma_turn_sound(session, choices[0]);
        lemma_turns_sound(session.turn(choices[0]), choices.skip(1));
    }
}

proof fn lemma_turns_declared(session: Session, choices: Seq<Choice>)
    requires
        session.sound(),
        session.action !is Fail,
        session.total(Cap::Declared) is Some,
        possible(choices),
    ensures
        session.turns(choices).action !is Fail,
        session.turns(choices).total(Cap::Declared) == session.total(Cap::Declared),
    decreases choices.len(),
{
    if choices.len() > 0 {
        lemma_turn_sound(session, choices[0]);
        lemma_turn_total(session, Cap::Declared, choices[0]);
        lemma_turns_declared(session.turn(choices[0]), choices.skip(1));
    }
}

proof fn lemma_turns_end(session: Session, choices: Seq<Choice>)
    requires
        session.sound(),
        session.action !is Fail,
        session.total(Cap::Declared) is Some,
        possible(choices),
        forall|i: int| 0 <= i < choices.len() ==> 0 < (#[trigger] choices[i]).room,
        session.left() < choices.len(),
    ensures
        session.turns(choices).over(),
    decreases choices.len(),
{
    let rest = choices.skip(1);
    let next = session.turn(choices[0]);
    if session.over() {
        lemma_turns_over(session, choices);
    } else {
        lemma_turn_sound(session, choices[0]);
        lemma_turn_total(session, Cap::Declared, choices[0]);
        lemma_turn_left(session, choices[0]);
        lemma_turns_end(next, rest);
    }
}

/// Once a session is over, nothing changes.
pub proof fn lemma_turns_over(session: Session, choices: Seq<Choice>)
    requires
        session.over(),
    ensures
        session.turns(choices) == session,
    decreases choices.len(),
{
    if choices.len() > 0 {
        lemma_turns_over(session, choices.skip(1));
    }
}

proof fn lemma_turns_buffer(session: Session, choices: Seq<Choice>)
    requires
        session.sound(),
        session.action !is Fail,
        session.state.phase is FrameHead ==> session.stream.len() > 0,
        possible(choices),
        session.turns(choices).action !is Fail,
    ensures
        session.turns(choices).total(Cap::Buffer) == session.total(Cap::Buffer),
    decreases choices.len(),
{
    if choices.len() > 0 {
        let next = session.turn(choices[0]);
        lemma_turn_sound(session, choices[0]);
        if next.action is Fail {
            lemma_turns_over(next, choices.skip(1));
        }
        lemma_turn_total(session, Cap::Buffer, choices[0]);
        lemma_supply(session, choices[0].chunk);
        lemma_turns_buffer(next, choices.skip(1));
    }
}

/// A session starts with its invariant, and with all of the frame to come.
pub proof fn lemma_start(s: State, stream: Seq<u8>)
    requires
        s.valid(),
        s.info is None,
    ensures
        Session::start(s, stream).sound(),
        Session::start(s, stream).action is Read,
        Session::start(s, stream).total(Cap::Declared) == frame_content(Cap::Declared, stream),
        Session::start(s, stream).total(Cap::Buffer) == frame_content(Cap::Buffer, stream),
{
    law_begin_valid(s, 0);
    law_begin_asks(s, 0);
    lemma_nothing_given(frame_content(Cap::Declared, stream));
    lemma_nothing_given(frame_content(Cap::Buffer, stream));
}

/// A frame is read in full: where the stream starts with a frame whose content is
/// `content`, no read fails, whatever the sizes of the caller's buffers and
/// however the reader cuts the stream up; the caller gets the content from the
/// front; and at the end of the frame the caller has got all of it, and the
/// stream stands behind the frame. The decoder is valid throughout, so that the
/// next frame can be read in the same way.
pub proof fn law_frame_is_read(s: State, stream: Seq<u8>, choices: Seq<Choice>)
    requires
        s.valid(),
        s.info is None,
        possible(choices),
        frame_content(Cap::Declared, stream) is Some,
    ensures
        ({
            let (content, rest) = frame_content(Cap::Declared, stream).unwrap();
            let session = Session::start(s, stream).turns(choices);
            &&& session.state.valid()
            &&& session.action !is Fail
            &&& session.got.is_prefix_of(content)
            &&& session.over() ==> session.got == content && session.stream == rest
        }),
{
    let start = Session::start(s, stream);
    let session = start.turns(choices);
    lemma_start(s, stream);
    lemma_turns_sound(start, choices);
    lemma_turns_declared(start, choices);
    let (content, _) = frame_content(Cap::Declared, stream).unwrap();
    let (due, _) = owed(session.state, Cap::Declared, session.stream).unwrap();
    assert(content == session.got + due);
    assert(session.got.is_prefix_of(content));
    if session.over() {
        assert(session.got + Seq::empty() =~= session.got);
    }
}

/// The end of a frame is reached, as long as the caller's buffers are not empty:
/// a number of turns that depends on the size of the stream and of the content
/// alone is enough.
pub proof fn law_frame_ends(s: State, stream: Seq<u8>, choices: Seq<Choice>)
    requires
        s.valid(),
        s.info is None,
        possible(choices),
        forall|i: int| 0 <= i < choices.len() ==> 0 < (#[trigger] choices[i]).room,
        frame_content(Cap::Declared, stream) matches Some((content, _)) && 3 * (stream.len()
            + content.len()) < choices.len(),
    ensures
        Session::start(s, stream).turns(choices).over(),
{
    lemma_start(s, stream);
    lemma_turns_end(Session::start(s, stream), choices);
}

/// What is not refused is genuine: where the end of a frame is reached without an
/// error, the stream started with a frame, with all checksums right and of the
/// length that its header says, and the caller has got the content of it. The
/// decoder is valid throughout, whatever the stream holds.
pub proof fn law_accepted_is_genuine(s: State, stream: Seq<u8>, choices: Seq<Choice>)
    requires
        s.valid(),
        s.info is None,
        possible(choices),
        stream.len() > 0,
    ensures
        ({
            let session = Session::start(s, stream).turns(choices);
            &&& session.state.valid()
            &&& session.over() && session.action !is Fail ==> frame_content(Cap::Buffer, stream)
                == Some((session.got, session.stream))
        }),
{
    let start = Session::start(s, stream);
    let session = start.turns(choices);
    lemma_start(s, stream);
    lemma_turns_sound(start, choices);
    if session.over() && session.action !is Fail {
        lemma_turns_buffer(start, choices);
        assert(session.got + Seq::empty() =~= session.got);
    }
}

/// At the end of the stream there is nothing to read and nothing fails: the first
/// turn ends the session, the caller gets nothing, and the decoder is as it was,
/// except that it waits for no bytes.
pub proof fn law_stream_ends(s: State, choices: Seq<Choice>)
    requires
        s.valid(),
        s.info is None,
        possible(choices),
        choices.len() > 0,
    ensures
        ({
            let session = Session::start(s, Seq::empty()).turns(choices);
            &&& session.over()
            &&& session.action == (Action::Return { len: 0 })
            &&& session.got == Seq::<u8>::empty()
            &&& session.stream == Seq::<u8>::empty()
            &&& session.state == s.end(session.action).0
            &&& session.state.valid()
        }),
{
    let start = Session::start(s, Seq::empty());
    let next = start.turn(choices[0]);
    assert(choices[0].possible());
    assert(start.stream.take(0) =~= Seq::empty());
    assert(start.stream.skip(0) =~= Seq::empty());
    assert(next.got =~= Seq::empty());
    lemma_turns_over(next, choices.skip(1));
}

} // verus!
