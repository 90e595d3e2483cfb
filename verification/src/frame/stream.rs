//! A stream of several frames, which one decoder reads one after the other.

use crate::block::decompress::decode_block;
use crate::frame::format::{
    block_content, blocks_content, frame_content, frame_header, reference, Cap,
};
use crate::frame::header::{block_info_of, BlockInfo, FrameInfo, BLOCK_INFO_SIZE, CHECKSUM_SIZE};
use crate::frame::model::State;
use crate::frame::session::{
    law_accepted_is_genuine, law_frame_ends, law_frame_is_read, possible, Choice, Session,
};
use vstd::prelude::*;

verus! {

/// The contents of the `n` frames that `stream` starts with, and what follows
/// them. `None` where the stream does not start with so many frames.
pub open spec fn frames_content(cap: Cap, stream: Seq<u8>, n: nat) -> Option<
    (Seq<Seq<u8>>, Seq<u8>),
>
    decreases n,
{
    if n == 0 {
        Some((Seq::empty(), stream))
    } else {
        match frame_content(cap, stream) {
            Some((content, rest)) => match frames_content(cap, rest, (n - 1) as nat) {
                Some((contents, end)) => Some((seq![content] + contents, end)),
                None => None,
            },
            None => None,
        }
    }
}

/// The sessions of a decoder that reads one frame after the other, each session
/// with its own choices. The next frame is started only where the end of the one
/// before it was reached without an error.
pub open spec fn sessions(s: State, stream: Seq<u8>, choices: Seq<Seq<Choice>>) -> Seq<Session>
    decreases choices.len(),
{
    if choices.len() == 0 {
        Seq::empty()
    } else {
        let session = Session::start(s, stream).turns(choices[0]);
        if session.over() && session.action !is Fail {
            seq![session] + sessions(session.state, session.stream, choices.skip(1))
        } else {
            seq![session]
        }
    }
}

/// Where `stream` stands before the session with that number.
pub open spec fn stream_before(stream: Seq<u8>, done: Seq<Session>, i: int) -> Seq<u8> {
    if i == 0 {
        stream
    } else {
        done[i - 1].stream
    }
}

/// What the callers got, session by session.
pub open spec fn gots(done: Seq<Session>) -> Seq<Seq<u8>> {
    Seq::new(done.len(), |i: int| done[i].got)
}

/// Whether the caller got the content of a frame from the front, without an
/// error, and all of it where the end of the frame was reached, and the decoder is
/// valid.
pub open spec fn reads(session: Session, content: Seq<u8>) -> bool {
    &&& session.state.valid()
    &&& session.action !is Fail
    &&& session.got.is_prefix_of(content)
    &&& session.over() ==> session.got == content
}

/// Whether all frames were read to the end, without an error.
pub open spec fn all_over(done: Seq<Session>) -> bool {
    forall|i: int|
        0 <= i < done.len() ==> (#[trigger] done[i]).over() && done[i].action !is Fail
}

proof fn lemma_blocks_shrink(info: FrameInfo, cap: int, stream: Seq<u8>, before: Seq<u8>)
    ensures
        blocks_content(info, cap, stream, before) matches Some((_, rest)) ==> rest.len()
            < stream.len(),
    decreases stream.len(), 0int,
{
    if stream.len() >= BLOCK_INFO_SIZE {
        let rest = stream.skip(BLOCK_INFO_SIZE as int);
        match block_info_of(stream.take(BLOCK_INFO_SIZE as int)) {
            BlockInfo::EndMark => {},
            BlockInfo::Uncompressed(len) => {
                lemma_block_shrinks(info, cap, rest, false, len as int, before);
            },
            BlockInfo::Compressed(len) => {
                lemma_block_shrinks(info, cap, rest, true, len as int, before);
            },
        }
    }
}

proof fn lemma_block_shrinks(
    info: FrameInfo,
    cap: int,
    stream: Seq<u8>,
    packed: bool,
    len: int,
    before: Seq<u8>,
)
    ensures
        block_content(info, cap, stream, packed, len, before) matches Some((_, rest))
            ==> rest.len() < stream.len(),
    decreases stream.len(), 1int,
{
    if block_content(info, cap, stream, packed, len, before) is Some {
        let size = if info.block_checksums {
            len + CHECKSUM_SIZE
        } else {
            len
        };
        let data = if packed {
            decode_block(stream.take(len), reference(info, before), 0, cap).unwrap()
        } else {
            stream.take(len)
        };
        lemma_blocks_shrink(info, cap, stream.skip(size), before + data);
    }
}

/// A frame takes up bytes of the stream.
pub proof fn law_frame_takes_bytes(cap: Cap, stream: Seq<u8>)
    ensures
        frame_content(cap, stream) matches Some((_, rest)) ==> rest.len() < stream.len(),
{
    if let Some((info, rest)) = frame_header(stream) {
        lemma_blocks_shrink(info, cap.of(info), rest, Seq::empty());
    }
}

/// There are as many contents as frames.
pub proof fn law_contents_count(cap: Cap, stream: Seq<u8>, n: nat)
    ensures
        frames_content(cap, stream, n) matches Some((contents, _)) ==> contents.len() == n,
    decreases n,
{
    if n > 0 {
        if let Some((_, rest)) = frame_content(cap, stream) {
            law_contents_count(cap, rest, (n - 1) as nat);
        }
    }
}

proof fn lemma_all_over_later(session: Session, tail: Seq<Session>)
    requires
        all_over(seq![session] + tail),
    ensures
        all_over(tail),
{
    assert forall|i: int| 0 <= i < tail.len() implies (#[trigger] tail[i]).over()
        && tail[i].action !is Fail by {
        assert(tail[i] == (seq![session] + tail)[i + 1]);
    }
}

/// Frames that follow one another are read in full: where the stream starts with
/// as many frames as there are sessions, no read of any of them fails, whatever
/// the sizes of the caller's buffers and however the reader cuts the stream up;
/// the caller gets the content of each frame from the front; at the end of a
/// frame the caller has got all of it; and at the end of the last one the stream
/// stands behind it.
pub proof fn law_frames_are_read(s: State, stream: Seq<u8>, choices: Seq<Seq<Choice>>)
    requires
        s.valid(),
        s.info is None,
        forall|i: int| 0 <= i < choices.len() ==> possible(#[trigger] choices[i]),
        frames_content(Cap::Declared, stream, choices.len()) is Some,
    ensures
        ({
            let (contents, rest) = frames_content(Cap::Declared, stream, choices.len()).unwrap();
            let done = sessions(s, stream, choices);
            &&& done.len() <= choices.len() == contents.len()
            &&& forall|i: int|
                0 <= i < done.len() ==> reads(#[trigger] done[i], contents[i])
            &&& done.len() == choices.len() && all_over(done) ==> stream_before(
                stream,
                done,
                done.len() as int,
            ) == rest
        }),
    decreases choices.len(),
{
    law_contents_count(Cap::Declared, stream, choices.len());
    if choices.len() > 0 {
        let done = sessions(s, stream, choices);
        let session = Session::start(s, stream).turns(choices[0]);
        let (content, rest) = frame_content(Cap::Declared, stream).unwrap();
        let later = choices.skip(1);
        let contents = frames_content(Cap::Declared, stream, choices.len()).unwrap().0;
        let more = frames_content(Cap::Declared, rest, later.len()).unwrap().0;
        let tail = sessions(session.state, rest, later);
        assert(contents == seq![content] + more);
        assert(possible(choices[0]));
        law_frame_is_read(s, stream, choices[0]);
        assert(reads(session, contents[0]));
        if session.over() {
            assert(done == seq![session] + tail);
            assert forall|i: int| 0 <= i < later.len() implies possible(#[trigger] later[i]) by {
                assert(later[i] == choices[i + 1]);
            }
            law_frames_are_read(session.state, rest, later);
            assert forall|i: int| 0 <= i < done.len() implies reads(
                #[trigger] done[i],
                contents[i],
            ) by {
                if i > 0 {
                    assert(done[i] == tail[i - 1]);
                    assert(contents[i] == more[i - 1]);
                }
            }
            if all_over(done) {
                lemma_all_over_later(session, tail);
            }
        } else {
            assert(done == seq![session]);
            assert(!done[0].over());
        }
    }
}

/// All the frames are read to the end, as long as the caller's buffers are not
/// empty: for each frame, a number of turns that depends on the size of the
/// stream and of the content of the frame alone is enough.
pub proof fn law_frames_end(s: State, stream: Seq<u8>, choices: Seq<Seq<Choice>>)
    requires
        s.valid(),
        s.info is None,
        forall|i: int| 0 <= i < choices.len() ==> possible(#[trigger] choices[i]),
        forall|i: int, j: int|
            0 <= i < choices.len() && 0 <= j < choices[i].len() ==> 0 < (
            #[trigger] choices[i][j]).room,
        frames_content(Cap::Declared, stream, choices.len()) matches Some((contents, _)) && (forall|
            i: int,
        |
            0 <= i < choices.len() ==> 3 * (stream.len() + contents[i].len()) < (
            #[trigger] choices[i]).len()),
    ensures
        sessions(s, stream, choices).len() == choices.len(),
        all_over(sessions(s, stream, choices)),
    decreases choices.len(),
{
    if choices.len() > 0 {
        let session = Session::start(s, stream).turns(choices[0]);
        let (content, rest) = frame_content(Cap::Declared, stream).unwrap();
        let later = choices.skip(1);
        let contents = frames_content(Cap::Declared, stream, choices.len()).unwrap().0;
        let more = frames_content(Cap::Declared, rest, later.len()).unwrap().0;
        assert(contents == seq![content] + more);
        assert(possible(choices[0]));
        assert(contents[0] == content);
        law_frame_ends(s, stream, choices[0]);
        law_frame_is_read(s, stream, choices[0]);
        law_frame_takes_bytes(Cap::Declared, stream);
        assert forall|i: int| 0 <= i < later.len() implies possible(#[trigger] later[i]) by {
            assert(later[i] == choices[i + 1]);
        }
        assert forall|i: int, j: int|
            0 <= i < later.len() && 0 <= j < later[i].len() implies 0 < (
        #[trigger] later[i][j]).room by {
            assert(later[i][j] == choices[i + 1][j]);
        }
        assert forall|i: int| 0 <= i < later.len() implies 3 * (rest.len() + more[i].len()) < (
        #[trigger] later[i]).len() by {
            assert(later[i] == choices[i + 1]);
            law_contents_count(Cap::Declared, rest, later.len());
            assert(more[i] == contents[i + 1]);
        }
        law_frames_end(session.state, rest, later);
    }
}

/// What is not refused is genuine, frame after frame: where all the frames were
/// read to the end without an error, and the stream had not ended before any of
/// them, it started with so many frames, and the caller has got the content of
/// each. The decoder is valid throughout, whatever the stream holds.
pub proof fn law_accepted_frames_are_genuine(
    s: State,
    stream: Seq<u8>,
    choices: Seq<Seq<Choice>>,
)
    requires
        s.valid(),
        s.info is None,
        forall|i: int| 0 <= i < choices.len() ==> possible(#[trigger] choices[i]),
        forall|i: int|
            0 <= i < sessions(s, stream, choices).len() ==> (#[trigger] stream_before(
                stream,
                sessions(s, stream, choices),
                i,
            )).len() > 0,
    ensures
        ({
            let done = sessions(s, stream, choices);
            &&& forall|i: int| 0 <= i < done.len() ==> (#[trigger] done[i]).state.valid()
            &&& done.len() == choices.len() && all_over(done) ==> frames_content(
                Cap::Buffer,
                stream,
                choices.len(),
            ) == Some((gots(done), stream_before(stream, done, done.len() as int)))
        }),
    decreases choices.len(),
{
    let done = sessions(s, stream, choices);
    if choices.len() == 0 {
        assert(gots(done) =~= Seq::empty());
    } else {
        let session = Session::start(s, stream).turns(choices[0]);
        let later = choices.skip(1);
        let tail = sessions(session.state, session.stream, later);
        assert(possible(choices[0]));
        assert(stream_before(stream, done, 0).len() > 0);
        law_accepted_is_genuine(s, stream, choices[0]);
        assert(done[0] == session);
        if session.over() && session.action !is Fail {
            assert(done == seq![session] + tail);
            assert forall|i: int| 0 <= i < later.len() implies possible(#[trigger] later[i]) by {
                assert(later[i] == choices[i + 1]);
            }
            assert forall|i: int| 0 <= i < tail.len() implies (#[trigger] stream_before(
                session.stream,
                tail,
                i,
            )).len() > 0 by {
                assert(stream_before(stream, done, i + 1) == stream_before(session.stream, tail, i));
            }
            law_accepted_frames_are_genuine(session.state, session.stream, later);
            assert forall|i: int| 0 <= i < done.len() implies (#[trigger] done[i]).state.valid() by {
                if i > 0 {
                    assert(done[i] == tail[i - 1]);
                }
            }
            if done.len() == choices.len() && all_over(done) {
                lemma_all_over_later(session, tail);
                assert(gots(done) =~= seq![session.got] + gots(tail));
            }
        }
    }
}

} // verus!
