//! What a decoder does with frames that are written down: it reads those that are
//! whole, and refuses all others, each for its own reason.

use crate::block::decompress::{decode_block, law_block_placement};
use crate::block::sequences::{law_block_is_decoded, Block};
use crate::bytes::{law_le_bytes_of_value, law_le_u32, le_bytes};
use crate::frame::encode::{
    descriptor_bytes, header_bytes, law_block_header, law_content_is_of_a_frame,
    law_frame_is_decoded, law_header_is_read, within_reach, Frame,
};
use crate::frame::format::{block_content, blocks_content, reference, Cap};
use crate::frame::header::{descriptor, info_of, info_size, FrameInfo};
use crate::frame::laws::{law_declared_blocks_fit, returned};
use crate::frame::model::{dst_size, Action, Phase, State};
use crate::frame::session::{
    law_accepted_is_genuine, law_frame_is_read, lemma_start, lemma_turn_sound, lemma_turns_over,
    possible, Choice, Session,
};
use crate::frame::Error;
use crate::hash::xxh32;
use vstd::prelude::*;

verus! {

/// A frame that is written down is read in full, whatever the sizes of the
/// caller's buffers and however the reader cuts the stream up, and whatever
/// follows it.
pub proof fn law_written_frame_is_read(s: State, frame: Frame, rest: Seq<u8>, choices: Seq<Choice>)
    requires
        s.valid(),
        s.info is None,
        possible(choices),
        frame.fits(frame.info.block_size.size()),
    ensures
        ({
            let session = Session::start(s, frame.bytes() + rest).turns(choices);
            &&& session.state.valid()
            &&& session.action !is Fail
            &&& session.got.is_prefix_of(frame.content())
            &&& session.over() ==> session.got == frame.content() && session.stream == rest
        }),
{
    law_frame_is_decoded(Cap::Declared, frame, rest);
    law_frame_is_read(s, frame.bytes() + rest, choices);
}

/// Nothing but frames is read to the end: where the end was reached without an
/// error, the stream started with a frame, written down, and the caller has got
/// the content of it.
pub proof fn law_accepted_is_a_frame(s: State, stream: Seq<u8>, choices: Seq<Choice>) -> (frame:
    Frame)
    requires
        s.valid(),
        s.info is None,
        possible(choices),
        stream.len() > 0,
        Session::start(s, stream).turns(choices).over(),
        Session::start(s, stream).turns(choices).action !is Fail,
    ensures
        frame.fits(dst_size(frame.info)),
        ({
            let session = Session::start(s, stream).turns(choices);
            &&& stream == frame.bytes() + session.stream
            &&& session.got == frame.content()
        }),
{
    law_accepted_is_genuine(s, stream, choices);
    law_content_is_of_a_frame(Cap::Buffer, stream)
}

/// Whether the decoder is still reading the header of a frame at the front of
/// `all`.
pub open spec fn in_header(session: Session, all: Seq<u8>) -> bool {
    &&& session.sound()
    &&& session.state.info is None
    &&& session.action is Read || session.action is ReadExact
    &&& session.state.held + session.stream == all
    &&& session.got == Seq::<u8>::empty()
}

/// How many reads of a header are left at most.
pub open spec fn reads_left(session: Session) -> int {
    match session.state.phase {
        Phase::FrameHead => 3,
        Phase::FrameHeadRest => 2,
        _ => 1,
    }
}

/// Whether the header at the front of `all`, which has all of its bytes, was
/// taken or refused.
pub open spec fn header_done(session: Session, all: Seq<u8>) -> bool {
    match info_size(all.take(7)) {
        Err(e) => session.action == Action::Fail(e) && session.state.info is None,
        Ok(n) => {
            let head = all.take(n);
            match info_of(head, xxh32(0, descriptor(head))) {
                Err(e) => session.action == Action::Fail(e) && session.state.info is None,
                Ok(info) => {
                    &&& session.action == (Action::ReadExact { len: 4 })
                    &&& session.state.info == Some(info)
                    &&& session.state.output == Seq::<u8>::empty()
                    &&& session.stream == all.skip(n)
                },
            }
        },
    }
}

/// Whether `all` starts with as many bytes as the header that it starts with takes.
pub open spec fn has_header(all: Seq<u8>) -> bool {
    &&& all.len() >= 7
    &&& info_size(all.take(7)) matches Ok(n) ==> 7 <= n <= all.len()
}

proof fn lemma_take_info(s: State, all: Seq<u8>, n: int, room: int)
    requires
        s.info is None,
        7 <= n <= all.len(),
        info_size(all.take(7)) == Ok::<int, Error>(n),
    ensures
        ({
            let head = all.take(n);
            let (t, action) = s.take_info(head, xxh32(0, descriptor(head)), room);
            header_done(
                Session { state: t, action, stream: all.skip(n), got: Seq::empty() },
                all,
            )
        }),
        s.take_info(all.take(n), xxh32(0, descriptor(all.take(n))), room).1 is Fail
            || s.take_info(all.take(n), xxh32(0, descriptor(all.take(n))), room).1 is ReadExact,
{
}

proof fn lemma_done_depends(a: Session, b: Session, all: Seq<u8>)
    requires
        header_done(a, all),
        a.state == b.state,
        a.action == b.action,
        a.stream == b.stream,
    ensures
        header_done(b, all),
{
}

#[verifier::rlimit(40)]
proof fn lemma_header_turn(session: Session, all: Seq<u8>, choice: Choice)
    requires
        in_header(session, all),
        has_header(all),
        choice.possible(),
    ensures
        ({
            let next = session.turn(choice);
            ||| in_header(next, all) && reads_left(next) < reads_left(session)
            ||| header_done(next, all) && next.got == Seq::<u8>::empty()
        }),
        session.turn(choice).got == Seq::<u8>::empty(),
{
    let s = session.state;
    let next = session.turn(choice);
    lemma_turn_sound(session, choice);
    match session.supply(choice.chunk) {
        Some(n) => {
            let input = session.stream.take(n);
            let head = s.held + input;
            let hash = xxh32(0, s.hashed(input));
            assert(s.accepts(n)) by {
                if session.action is Read {
                    assert(s.accepts(7));
                }
            }
            assert(next.got =~= Seq::<u8>::empty());
            match s.phase {
                Phase::FrameHead => {
                    assert(session.stream =~= all);
                    assert(head =~= input);
                    assert(s.accepts(7));
                    assert(n > 0);
                    if n < 7 {
                        assert(next.state.held + next.stream =~= all);
                    } else {
                        assert(input =~= all.take(7));
                        lemma_head_turn(session, next, all, hash, choice.room);
                    }
                },
                Phase::FrameHeadRest => {
                    assert(head =~= all.take(7));
                    assert(session.stream.skip(n) =~= all.skip(7));
                    lemma_head_turn(session, next, all, hash, choice.room);
                },
                _ => {
                    assert(all.take(7) =~= s.held);
                    let m = info_size(s.held).unwrap();
                    assert(head =~= all.take(m));
                    assert(session.stream.skip(n) =~= all.skip(m));
                    lemma_take_info(s, all, m, choice.room);
                    lemma_done_depends(
                        Session {
                            state: next.state,
                            action: next.action,
                            stream: all.skip(m),
                            got: Seq::empty(),
                        },
                        next,
                        all,
                    );
                },
            }
        },
        None => {
            if let Action::ReadExact { len } = session.action {
                assert(s.accepts(len as int));
                if s.phase is FrameInfoRest {
                    assert(all.take(7) =~= s.held);
                }
            }
        },
    }
}

proof fn lemma_head_turn(session: Session, next: Session, all: Seq<u8>, hash: u32, room: int)
    requires
        has_header(all),
        session.state.info is None,
        hash == xxh32(0, descriptor(all.take(7))),
        next.sound(),
        (next.state, next.action) == session.state.take_head(all.take(7), hash, room),
        next.stream == all.skip(7),
        next.got == Seq::<u8>::empty(),
    ensures
        (in_header(next, all) && next.state.phase is FrameInfoRest) || header_done(next, all),
{
    if let Ok(n) = info_size(all.take(7)) {
        if n == 7 {
            lemma_take_info(session.state, all, 7, room);
            lemma_done_depends(
                Session {
                    state: next.state,
                    action: next.action,
                    stream: all.skip(7),
                    got: Seq::empty(),
                },
                next,
                all,
            );
        } else {
            assert(next.state.held + next.stream =~= all);
        }
    }
}

/// Some turns, the first of `choices`, take or refuse the header.
proof fn lemma_header_turns(session: Session, all: Seq<u8>, choices: Seq<Choice>) -> (k: int)
    requires
        in_header(session, all),
        has_header(all),
        possible(choices),
        choices.len() >= reads_left(session),
    ensures
        0 < k <= reads_left(session),
        header_done(session.turns(choices.take(k)), all),
        session.turns(choices.take(k)).got == Seq::<u8>::empty(),
        session.turns(choices) == session.turns(choices.take(k)).turns(choices.skip(k)),
    decreases reads_left(session),
{
    let next = session.turn(choices[0]);
    let later = choices.skip(1);
    lemma_header_turn(session, all, choices[0]);
    if in_header(next, all) && reads_left(next) < reads_left(session) {
        let k = lemma_header_turns(next, all, later);
        assert(choices.take(k + 1).skip(1) =~= later.take(k));
        assert(choices.take(k + 1)[0] == choices[0]);
        assert(choices.skip(k + 1) =~= later.skip(k));
        k + 1
    } else {
        assert(choices.take(1).skip(1) =~= Seq::<Choice>::empty());
        assert(choices.take(1)[0] == choices[0]);
        assert(session.turns(choices.take(1)) == next.turns(Seq::empty()));
        assert(next.turns(Seq::empty()) == next);
        1
    }
}

proof fn lemma_start_in_header(s: State, stream: Seq<u8>)
    requires
        s.valid(),
        s.info is None,
    ensures
        in_header(Session::start(s, stream), stream),
        reads_left(Session::start(s, stream)) == 3,
{
    lemma_start(s, stream);
    let start = Session::start(s, stream);
    assert(start.state.held + start.stream =~= stream);
}

/// A header that is refused, by its first bytes or as a whole, ends the read with
/// that error within three turns, however the reader cuts the stream up; the
/// caller gets nothing, and there is no frame.
pub proof fn law_bad_header_is_refused(s: State, stream: Seq<u8>, e: Error, choices: Seq<Choice>)
    requires
        s.valid(),
        s.info is None,
        possible(choices),
        choices.len() >= 3,
        stream.len() >= 7,
        match info_size(stream.take(7)) {
            Err(first) => first == e,
            Ok(n) => 7 <= n <= stream.len() && info_of(
                stream.take(n),
                xxh32(0, descriptor(stream.take(n))),
            ) == Err::<FrameInfo, Error>(e),
        },
    ensures
        ({
            let session = Session::start(s, stream).turns(choices);
            &&& session.action == Action::Fail(e)
            &&& session.state.info is None
            &&& session.got == Seq::<u8>::empty()
        }),
{
    let start = Session::start(s, stream);
    lemma_start_in_header(s, stream);
    let k = lemma_header_turns(start, stream, choices);
    lemma_turns_over(start.turns(choices.take(k)), choices.skip(k));
}

/// A header that is written down is taken within three turns, however the reader
/// cuts the stream up: the decoder says what the header says, nothing was output
/// yet, the stream stands behind the header, and the four bytes of the header of
/// a block are asked for.
pub proof fn law_written_header_is_taken(
    s: State,
    info: FrameInfo,
    rest: Seq<u8>,
    choices: Seq<Choice>,
) -> (k: int)
    requires
        s.valid(),
        s.info is None,
        possible(choices),
        choices.len() >= 3,
    ensures
        0 < k <= 3,
        ({
            let head = header_bytes(info, xxh32(0, descriptor_bytes(info)));
            let session = Session::start(s, head + rest).turns(choices.take(k));
            &&& session.action == (Action::ReadExact { len: 4 })
            &&& session.state.info == Some(info)
            &&& session.state.output == Seq::<u8>::empty()
            &&& session.stream == rest
            &&& session.got == Seq::<u8>::empty()
        }),
{
    let hash = xxh32(0, descriptor_bytes(info));
    let head = header_bytes(info, hash);
    let all = head + rest;
    law_header_is_read(info, hash);
    assert(all.take(7).take(4) =~= head.take(4));
    assert(all.take(head.len() as int) =~= head);
    assert(all.skip(head.len() as int) =~= rest);
    lemma_start_in_header(s, all);
    lemma_header_turns(Session::start(s, all), all, choices)
}

/// The decoder waits for the header of a block.
pub open spec fn at_block(s: State) -> bool {
    &&& s.valid()
    &&& s.info is Some
    &&& s.phase is BlockHead
}

/// The header of a block asks for the bytes of the block, all of them at once,
/// unless they are more than the frame header allows: then, and only then, it is
/// refused.
pub proof fn law_block_size_decides(s: State, n: nat, stored: bool, hash: u32, room: int)
    requires
        at_block(s),
        n < 0x80000000,
        stored || n > 0,
    ensures
        ({
            let word = if stored {
                0x80000000 + n
            } else {
                n
            };
            let (t, action) = s.step(le_bytes(word, 4), hash, room);
            &&& t.info == s.info
            &&& t.output == s.output
            &&& if n > s.info.unwrap().block_size.size() {
                action == Action::Fail(Error::BlockTooBig)
            } else {
                action == (Action::ReadExact { len: n as usize })
            }
        }),
{
    law_block_header(n);
}

/// The decoder takes a block: its header, its bytes, and its checksum where the
/// frame has block checksums, `hash` being the hash of the bytes of the block.
pub open spec fn after_block(
    s: State,
    head: Seq<u8>,
    body: Seq<u8>,
    sum: Seq<u8>,
    hash: u32,
    room: int,
) -> (State, Action) {
    let (t, _) = s.step(head, 0, room);
    if s.info.unwrap().block_checksums {
        t.step(body, 0, room).0.step(sum, hash, room)
    } else {
        t.step(body, 0, room)
    }
}

/// The header of a block of `n` bytes.
pub open spec fn block_head(stored: bool, n: nat) -> Seq<u8> {
    le_bytes(
        if stored {
            0x80000000 + n
        } else {
            n
        },
        4,
    )
}

/// Whether `data` was added to the output, and the caller got as much of it as
/// there was room for; where there was nothing, the next block is asked for.
pub open spec fn added(s: State, data: Seq<u8>, room: int, result: (State, Action)) -> bool {
    let (t, action) = result;
    let n = if data.len() < room {
        data.len() as int
    } else {
        room
    };
    &&& t.info == s.info
    &&& t.output == s.output + data
    &&& if data.len() == 0 {
        action == (Action::ReadExact { len: 4 }) && t.phase is BlockHead
    } else {
        action == (Action::Return { len: n as usize }) && t.given() == s.given() + n
    }
}

/// Whether the read failed, with nothing changed but that it is over.
pub open spec fn failed(s: State, e: Error, result: (State, Action)) -> bool {
    let (t, action) = result;
    &&& action == Action::Fail(e)
    &&& t.info == s.info
    &&& t.output == s.output
    &&& t.given() == s.given()
    &&& t.phase is Idle
}

/// Behind the bytes of a block comes its checksum, where the frame has block
/// checksums, whatever else it has: four bytes are asked for, and the bytes of the
/// block as they stand in the stream are to be hashed.
pub proof fn law_block_checksum_is_asked(
    s: State,
    stored: bool,
    body: Seq<u8>,
    sum: Seq<u8>,
    room: int,
)
    requires
        at_block(s),
        s.info.unwrap().block_checksums,
        stored || body.len() > 0,
        body.len() <= s.info.unwrap().block_size.size(),
    ensures
        ({
            let t = s.step(block_head(stored, body.len()), 0, room).0;
            let (u, action) = t.step(body, 0, room);
            &&& t.accepts(body.len() as int)
            &&& action == (Action::ReadExact { len: 4 })
            &&& u.accepts(4)
            &&& u.hashed(sum) == body
        }),
{
    law_block_header(body.len());
}

/// A block whose checksum is not the hash of its bytes is refused as that, be it
/// stored or compressed, and whatever else the frame has.
pub proof fn law_bad_block_checksum(
    s: State,
    stored: bool,
    body: Seq<u8>,
    sum: Seq<u8>,
    hash: u32,
    room: int,
)
    requires
        at_block(s),
        s.info.unwrap().block_checksums,
        stored || body.len() > 0,
        body.len() <= s.info.unwrap().block_size.size(),
        sum.len() == 4,
        sum != le_bytes(hash as nat, 4),
    ensures
        failed(
            s,
            Error::BlockChecksumError,
            after_block(s, block_head(stored, body.len()), body, sum, hash, room),
        ),
{
    law_block_header(body.len());
    law_le_bytes_of_value(sum);
}

/// A stored block whose checksum is right, or that has none, is added to the
/// output.
pub proof fn law_stored_block_is_added(
    s: State,
    data: Seq<u8>,
    hash: u32,
    room: int,
)
    requires
        at_block(s),
        data.len() <= s.info.unwrap().block_size.size(),
        0 <= room <= usize::MAX,
    ensures
        added(
            s,
            data,
            room,
            after_block(
                s,
                block_head(true, data.len()),
                data,
                le_bytes(hash as nat, 4),
                hash,
                room,
            ),
        ),
{
    law_block_header(data.len());
    law_le_u32(hash as nat);
}

/// What a compressed block is decompressed to: output goes behind what was output
/// before, and the block can refer to all of the content before it, or to nothing
/// where blocks are independent.
pub proof fn law_block_is_decompressed_in_place(s: State, src: Seq<u8>)
    requires
        at_block(s),
    ensures
        ({
            let info = s.info.unwrap();
            s.unpacked(src) == decode_block(
                src,
                within_reach(info, s.output),
                s.layout.start,
                if s.layout.dict_len > 0 {
                    s.layout.dict
                } else {
                    dst_size(info)
                },
            )
        }),
{
}

/// A compressed block whose checksum is right, or that has none, and that can be
/// decompressed, is added to the output.
#[verifier::rlimit(30)]
pub proof fn law_decodable_block(s: State, src: Seq<u8>, hash: u32, room: int)
    requires
        at_block(s),
        1 <= src.len() <= s.info.unwrap().block_size.size(),
        s.unpacked(src) is Ok,
        0 <= room <= usize::MAX,
    ensures
        s.unpacked(src) matches Ok(data) && added(
            s,
            data,
            room,
            after_block(
                s,
                block_head(false, src.len()),
                src,
                le_bytes(hash as nat, 4),
                hash,
                room,
            ),
        ),
{
    let info = s.info.unwrap();
    law_block_header(src.len());
    law_le_u32(hash as nat);
    law_block_placement(
        src,
        reference(info, s.output),
        s.layout.start,
        s.layout.limit(info),
        0,
        0,
    );
    let t = s.step(block_head(false, src.len()), 0, room).0;
    assert(t == (State { phase: Phase::PackedBody { len: src.len() as usize }, ..s }));
    assert(t.unpacked(src) == s.unpacked(src));
    if info.block_checksums {
        let u = t.step(src, 0, room).0;
        assert(u.unpacked(src) == s.unpacked(src));
        assert(u.held == src);
    }
}

/// A compressed block that is written down, and whose checksum is right or that
/// has none, is added to the output as what it stands for, unless it is more than
/// the frame header allows.
pub proof fn law_packed_block_is_added(s: State, block: Block, hash: u32, room: int)
    requires
        at_block(s),
        block.bytes().len() <= s.info.unwrap().block_size.size(),
        block.fits(within_reach(s.info.unwrap(), s.output)),
        block.data(within_reach(s.info.unwrap(), s.output)).len()
            <= s.info.unwrap().block_size.size(),
        0 <= room <= usize::MAX,
    ensures
        added(
            s,
            block.data(within_reach(s.info.unwrap(), s.output)),
            room,
            after_block(
                s,
                block_head(false, block.bytes().len()),
                block.bytes(),
                le_bytes(hash as nat, 4),
                hash,
                room,
            ),
        ),
{
    let info = s.info.unwrap();
    law_block_is_decoded(block, within_reach(info, s.output), 0, info.block_size.size());
    law_declared_blocks_fit(s, block.bytes());
    law_decodable_block(s, block.bytes(), hash, room);
}

/// A compressed block whose checksum is right, or that has none, and that cannot
/// be decompressed, is refused for the reason that decompression gives.
pub proof fn law_undecodable_block(s: State, src: Seq<u8>, hash: u32, room: int)
    requires
        at_block(s),
        1 <= src.len() <= s.info.unwrap().block_size.size(),
        s.unpacked(src) is Err,
    ensures
        s.unpacked(src) matches Err(e) && failed(
            s,
            Error::DecompressionError(e),
            after_block(
                s,
                block_head(false, src.len()),
                src,
                le_bytes(hash as nat, 4),
                hash,
                room,
            ),
        ),
{
    law_block_header(src.len());
    law_le_u32(hash as nat);
    let t = s.step(block_head(false, src.len()), 0, room).0;
    assert(t.unpacked(src) == s.unpacked(src));
    if s.info.unwrap().block_checksums {
        let u = t.step(src, 0, room).0;
        assert(u.unpacked(src) == s.unpacked(src));
    }
}

/// The end mark ends the frame where the content is as long as the header says, if
/// it does, and its checksum is right, if there is one; else the read fails for
/// the one reason or the other. The checksum is about all of the content.
pub proof fn law_end_mark(s: State, sum: Seq<u8>, hash: u32, room: int)
    requires
        at_block(s),
        s.output.len() <= u64::MAX,
        sum.len() == 4,
    ensures
        ({
            let info = s.info.unwrap();
            let result = s.step(seq![0u8, 0u8, 0u8, 0u8], 0, room);
            let (t, action) = result;
            if info.content_size is Some && info.content_size.unwrap() != s.output.len() {
                failed(
                    s,
                    Error::ContentLengthError {
                        expected: info.content_size.unwrap(),
                        actual: s.output.len() as u64,
                    },
                    result,
                )
            } else if info.content_checksum {
                let (u, last) = t.step(sum, hash, room);
                &&& action == (Action::ReadExact { len: 4 })
                &&& t.accepts(4)
                &&& t.hashed(sum) == s.output
                &&& t.info == s.info
                &&& if sum == le_bytes(hash as nat, 4) {
                    last == (Action::Return { len: 0 }) && u.info is None && u.output == s.output
                } else {
                    failed(s, Error::ContentChecksumError, (u, last))
                }
            } else {
                action == (Action::Return { len: 0 }) && t.info is None && t.output == s.output
            }
        }),
{
    law_block_header(0);
    law_le_u32(hash as nat);
    law_le_bytes_of_value(sum);
}

/// A stream that goes on with a block whose checksum is not the hash of its bytes
/// holds no content, whatever else the frame has.
pub proof fn law_bad_checksum_no_content(
    info: FrameInfo,
    cap: int,
    stored: bool,
    body: Seq<u8>,
    sum: Seq<u8>,
    rest: Seq<u8>,
    before: Seq<u8>,
)
    requires
        info.block_checksums,
        stored || body.len() > 0,
        body.len() < 0x80000000,
        sum.len() == 4,
        sum != le_bytes(xxh32(0, body) as nat, 4),
    ensures
        blocks_content(
            info,
            cap,
            block_head(stored, body.len()) + (body + sum + rest),
            before,
        ) is None,
{
    let head = block_head(stored, body.len());
    let tail = body + sum + rest;
    let len = body.len() as int;
    law_block_header(body.len());
    law_le_u32(body.len());
    law_le_u32(0x80000000 + body.len());
    law_le_bytes_of_value(sum);
    assert((head + tail).take(4) =~= head);
    assert((head + tail).skip(4) =~= tail);
    assert(tail.take(len) =~= body);
    assert(tail.subrange(len, len + 4) =~= sum);
    assert(block_content(info, cap, tail, !stored, len, before) is None);
}

/// What was output and not yet given is given first, as much of it as there is
/// room for; where there is nothing, the header of a block is asked for; and where
/// there is no frame, the first bytes of one.
pub proof fn law_read_starts(s: State, room: int)
    requires
        s.valid(),
        0 <= room <= usize::MAX,
    ensures
        ({
            let (t, action) = s.begin(room);
            let due = s.output.len() - s.given();
            let n = if due < room {
                due
            } else {
                room
            };
            &&& t.info == s.info
            &&& t.output == s.output
            &&& if s.info is None {
                action == (Action::Read { at_most: 7 }) && t.phase is FrameHead
            } else if due > 0 {
                action == (Action::Return { len: n as usize }) && t.given() == s.given() + n
            } else {
                action == (Action::ReadExact { len: 4 }) && t.phase is BlockHead
            }
        }),
{
}

/// At the end of the stream a read returns nothing, if no frame was started.
pub proof fn law_nothing_to_read(s: State, hash: u32, room: int)
    requires
        s.valid(),
        s.phase is FrameHead,
    ensures
        ({
            let (t, action) = s.step(Seq::empty(), hash, room);
            &&& action == (Action::Return { len: 0 })
            &&& t.info is None
            &&& t.output == s.output
            &&& t.phase is Idle
        }),
{
}

/// With room for any byte, a read returns nothing only where there is no frame any
/// more.
pub proof fn law_nothing_means_end(s: State, input: Seq<u8>, hash: u32, room: int)
    requires
        s.valid(),
        s.accepts(input.len() as int),
        0 < room <= usize::MAX,
        s.step(input, hash, room).1 == (Action::Return { len: 0 }),
    ensures
        s.step(input, hash, room).0.info is None,
{
}

/// The bytes that are given stand at the front of the caller's buffer, in order,
/// and the rest of it is as it was.
pub proof fn law_buffer_is_filled(s: State, action: Action, buf: Seq<u8>)
    requires
        0 <= returned(action) <= buf.len(),
        returned(action) <= s.given() <= s.output.len(),
    ensures
        ({
            let n = returned(action);
            let after = s.filled(action, buf);
            &&& after.len() == buf.len()
            &&& forall|i: int| 0 <= i < n ==> #[trigger] after[i] == s.output[s.given() - n + i]
            &&& forall|i: int| n <= i < buf.len() ==> #[trigger] after[i] == buf[i]
        }),
{
}

/// Within a frame the output grows by the block that is complete, or not at all.
pub proof fn law_output_grows_by_block(s: State, input: Seq<u8>, hash: u32, room: int)
    requires
        s.valid(),
        s.accepts(input.len() as int),
        s.info is Some,
    ensures
        ({
            let t = s.step(input, hash, room).0;
            t.output == s.output || t.output == s.output + s.block(input)
        }),
{
}

/// The hasher and the buffers are left alone where there is no frame afterwards, at
/// the header of a block, and where a checksum or a length is wrong.
pub proof fn law_store_is_kept(s: State, t: State, action: Action)
    ensures
        t.info is None ==> s.keeps_store((t, action)),
        s.phase is BlockHead ==> s.keeps_store((t, action)),
        action == Action::Fail(Error::BlockChecksumError) ==> s.keeps_store((t, action)),
        action == Action::Fail(Error::ContentChecksumError) ==> s.keeps_store((t, action)),
        action == Action::Fail(Error::BlockTooBig) ==> s.keeps_store((t, action)),
{
}

/// A decoder that has read nothing is between frames, with nothing output.
pub proof fn law_initial()
    ensures
        State::initial().valid(),
        State::initial().info is None,
        State::initial().phase is Idle,
        State::initial().output == Seq::<u8>::empty(),
        State::initial().given() == 0,
{
}

} // verus!
