use lz4_frame::block::DecompressError;
use lz4_frame::frame::decompress::FrameDecoder;
use lz4_frame::frame::header::BlockMode;
use lz4_frame::frame::model::Action;
use lz4_frame::frame::Error;
use lz4_frame::hash::checksum;

const LINKED: u8 = 0x40;
const INDEPENDENT: u8 = 0x60;
const BLOCK_CHECKSUMS: u8 = 0x10;
const CONTENT_SIZE: u8 = 0x08;
const CONTENT_CHECKSUM: u8 = 0x04;

fn header(flags: u8, sizes: u8, fields: &[u8]) -> Vec<u8> {
    let mut head = vec![0x04, 0x22, 0x4d, 0x18, flags, sizes];
    head.extend_from_slice(fields);
    let hash = checksum(&head[4..]);
    head.push((hash >> 8) as u8);
    head
}

fn raw(data: &[u8]) -> Vec<u8> {
    let mut block = (data.len() as u32 | 0x80000000).to_le_bytes().to_vec();
    block.extend_from_slice(data);
    block
}

fn packed(data: &[u8]) -> Vec<u8> {
    let mut block = (data.len() as u32).to_le_bytes().to_vec();
    block.extend_from_slice(data);
    block
}

fn with_checksum(block: Vec<u8>) -> Vec<u8> {
    let mut block = block;
    let hash = checksum(&block[4..]);
    block.extend_from_slice(&hash.to_le_bytes());
    block
}

fn join(parts: &[Vec<u8>]) -> Vec<u8> {
    parts.concat()
}

fn end() -> Vec<u8> {
    vec![0, 0, 0, 0]
}

/// What a read came to.
#[derive(Debug, PartialEq)]
enum Outcome {
    Read(usize),
    Failed(Error),
    Starved,
}

/// Performs one read, the reader yielding at most `chunk` bytes at a time.
fn read(decoder: &mut FrameDecoder<Vec<u8>>, buf: &mut [u8], chunk: usize) -> Outcome {
    let mut action = decoder.read(buf);
    loop {
        let n = match action {
            Action::Return { len } => return Outcome::Read(len),
            Action::Fail(e) => return Outcome::Failed(e),
            Action::Read { at_most } => at_most.min(chunk).min(decoder.get_ref().len()),
            Action::ReadExact { len } => {
                if decoder.get_ref().len() < len {
                    return Outcome::Starved;
                }
                len
            }
        };
        let input: Vec<u8> = decoder.get_mut().drain(..n).collect();
        action = decoder.resume(&input, buf);
    }
}

/// Reads until a read returns nothing, fails or starves.
fn drain(
    decoder: &mut FrameDecoder<Vec<u8>>,
    room: usize,
    chunk: usize,
) -> (Vec<u8>, Outcome) {
    let mut got = Vec::new();
    loop {
        let mut buf = vec![0u8; room];
        match read(decoder, &mut buf, chunk) {
            Outcome::Read(0) => return (got, Outcome::Read(0)),
            Outcome::Read(n) => got.extend_from_slice(&buf[..n]),
            other => return (got, other),
        }
    }
}

fn decode(stream: Vec<u8>) -> (Vec<u8>, Outcome) {
    drain(&mut FrameDecoder::new(stream), 1000, 7)
}

fn pattern(n: usize, seed: usize) -> Vec<u8> {
    (0..n).map(|i| (i * 31 + i / 251 + seed * 17) as u8).collect()
}

#[test]
fn an_empty_stream_has_nothing_to_read() {
    assert_eq!(decode(Vec::new()), (Vec::new(), Outcome::Read(0)));
}

#[test]
fn an_empty_frame_has_no_content() {
    let stream = join(&[header(INDEPENDENT, 0x40, &[]), end()]);
    assert_eq!(decode(stream), (Vec::new(), Outcome::Read(0)));
}

#[test]
fn a_frame_of_the_command_line_tool_is_read() {
    let mut stream = vec![0x04, 0x22, 0x4d, 0x18, 0x64, 0x40, 0xa7];
    stream.extend_from_slice(&raw(b"hello\n"));
    stream.extend_from_slice(&end());
    stream.extend_from_slice(&checksum(b"hello\n").to_le_bytes());
    assert_eq!(decode(stream), (b"hello\n".to_vec(), Outcome::Read(0)));
}

#[test]
fn a_compressed_block_is_decompressed() {
    let block = packed(&[0x23, b'a', b'b', 2, 0, 0x10, b'z']);
    let stream = join(&[header(INDEPENDENT, 0x40, &[]), block, end()]);
    assert_eq!(decode(stream), (b"ababababaz".to_vec(), Outcome::Read(0)));
}

#[test]
fn buffers_and_reads_of_any_size_give_the_same() {
    let content = pattern(70000, 1);
    let stream = join(&[
        header(LINKED | CONTENT_CHECKSUM | BLOCK_CHECKSUMS, 0x40, &[]),
        with_checksum(raw(&content[..65536])),
        with_checksum(raw(&content[65536..])),
        end(),
        checksum(&content).to_le_bytes().to_vec(),
    ]);
    for (room, chunk) in [(1, 1), (3, 2), (100, 6), (65536, 7), (1000000, 3)] {
        let mut decoder = FrameDecoder::new(stream.clone());
        let (got, outcome) = drain(&mut decoder, room, chunk);
        assert_eq!(outcome, Outcome::Read(0));
        assert_eq!(got, content);
        assert_eq!(decoder.get_ref().len(), 0);
    }
}

#[test]
fn the_rest_of_the_stream_is_left_alone() {
    let stream = join(&[
        header(INDEPENDENT, 0x40, &[]),
        raw(b"one"),
        end(),
        b"rest".to_vec(),
    ]);
    let mut decoder = FrameDecoder::new(stream);
    assert_eq!(
        drain(&mut decoder, 10, 7),
        (b"one".to_vec(), Outcome::Read(0))
    );
    assert_eq!(decoder.get_ref(), b"rest");
}

#[test]
fn the_frame_info_lasts_as_long_as_the_frame() {
    let stream = join(&[header(LINKED, 0x40, &[]), raw(b"one"), end()]);
    let mut decoder = FrameDecoder::new(stream);
    assert!(decoder.frame_info().is_none());
    let mut buf = [0u8; 3];
    assert_eq!(read(&mut decoder, &mut buf, 7), Outcome::Read(3));
    assert_eq!(&buf, b"one");
    assert_eq!(decoder.frame_info().unwrap().block_mode, BlockMode::Linked);
    assert_eq!(decoder.current_info().unwrap().block_mode, BlockMode::Linked);
    assert_eq!(decoder.content_len(), 3);
    assert_eq!(read(&mut decoder, &mut buf, 7), Outcome::Read(0));
    assert!(decoder.frame_info().is_none());
}

#[test]
fn frames_follow_one_another() {
    // The second frame has a smaller buffer than the first.
    let first = pattern(100000, 2);
    let second = pattern(50000, 3);
    let stream = join(&[
        header(INDEPENDENT, 0x60, &[]),
        raw(&first),
        end(),
        header(LINKED, 0x40, &[]),
        raw(&second),
        packed(&[0x00, 0x50, 0xc3, 0x00]),
        end(),
        header(INDEPENDENT, 0x40, &[]),
        raw(b"three"),
        end(),
    ]);
    let mut decoder = FrameDecoder::new(stream);
    assert_eq!(drain(&mut decoder, 777, 7), (first, Outcome::Read(0)));
    let mut expected = second.clone();
    expected.extend_from_slice(&second[..4]);
    assert_eq!(drain(&mut decoder, 777, 7), (expected, Outcome::Read(0)));
    assert_eq!(
        drain(&mut decoder, 777, 7),
        (b"three".to_vec(), Outcome::Read(0))
    );
    assert_eq!(drain(&mut decoder, 777, 7), (Vec::new(), Outcome::Read(0)));
}

#[test]
fn frames_are_read_up_to_one_that_is_refused() {
    let frame = |data: &[u8], sum: u32| {
        join(&[
            header(LINKED | CONTENT_CHECKSUM, 0x40, &[]),
            raw(data),
            end(),
            sum.to_le_bytes().to_vec(),
        ])
    };
    let stream = join(&[
        frame(b"first", checksum(b"first")),
        frame(b"", checksum(b"")),
        frame(b"third", checksum(b"third")),
        frame(b"fourth", checksum(b"third")),
        vec![1, 2, 3],
    ]);
    for (room, chunk) in [(1, 1), (3, 5), (100, 100)] {
        let mut decoder = FrameDecoder::new(stream.clone());
        for data in [&b"first"[..], &b""[..], &b"third"[..]] {
            assert_eq!(
                drain(&mut decoder, room, chunk),
                (data.to_vec(), Outcome::Read(0))
            );
        }
        assert_eq!(
            drain(&mut decoder, room, chunk),
            (
                b"fourth".to_vec(),
                Outcome::Failed(Error::ContentChecksumError)
            )
        );
        assert_eq!(*decoder.get_ref(), vec![1, 2, 3]);
    }
}

#[test]
fn a_frame_does_not_refer_to_the_one_before() {
    let stream = join(&[
        header(LINKED, 0x40, &[]),
        raw(b"abcd"),
        end(),
        header(LINKED, 0x40, &[]),
        packed(&[0x00, 4, 0, 0x00]),
        end(),
    ]);
    let mut decoder = FrameDecoder::new(stream);
    assert_eq!(
        drain(&mut decoder, 10, 7),
        (b"abcd".to_vec(), Outcome::Read(0))
    );
    assert_eq!(
        drain(&mut decoder, 10, 7),
        (
            Vec::new(),
            Outcome::Failed(Error::DecompressionError(
                DecompressError::OffsetOutOfBounds
            ))
        )
    );
}

#[test]
fn linked_blocks_refer_to_the_blocks_before() {
    let blocks = [raw(b"wxyz"), packed(&[0x00, 4, 0, 0x00]), end()];
    let stream = [vec![header(LINKED, 0x40, &[])], blocks.to_vec()].concat();
    assert_eq!(
        decode(join(&stream)),
        (b"wxyzwxyz".to_vec(), Outcome::Read(0))
    );
    let stream = [vec![header(INDEPENDENT, 0x40, &[])], blocks.to_vec()].concat();
    assert_eq!(
        decode(join(&stream)),
        (
            b"wxyz".to_vec(),
            Outcome::Failed(Error::DecompressionError(
                DecompressError::OffsetOutOfBounds
            ))
        )
    );
}

#[test]
fn the_whole_window_stays_within_reach() {
    // Three blocks fill the buffer; the short ones after that shrink the
    // dictionary step by step.
    let mut content = pattern(3 * 65536, 4);
    let mut stream = header(LINKED | CONTENT_CHECKSUM, 0x40, &[]);
    for block in content.chunks(65536) {
        stream.extend_from_slice(&raw(block));
    }
    for round in 0..40 {
        let short = pattern(10 + round * 7, round);
        content.extend_from_slice(&short);
        stream.extend_from_slice(&raw(&short));
        // Twenty bytes from as far back as an offset can reach.
        stream.extend_from_slice(&packed(&[0x0f, 0xff, 0xff, 1, 0x00]));
        for _ in 0..20 {
            content.push(content[content.len() - 65535]);
        }
    }
    for round in 0..6 {
        let long = pattern(65536, 50 + round);
        content.extend_from_slice(&long);
        stream.extend_from_slice(&raw(&long));
        stream.extend_from_slice(&packed(&[0x0f, 0xff, 0xff, 1, 0x00]));
        for _ in 0..20 {
            content.push(content[content.len() - 65535]);
        }
    }
    stream.extend_from_slice(&end());
    stream.extend_from_slice(&checksum(&content).to_le_bytes());
    let (got, outcome) = decode(stream);
    assert_eq!(outcome, Outcome::Read(0));
    assert!(got == content);
}

#[test]
fn the_buffer_starts_over_when_it_is_full() {
    let mut stream = header(LINKED, 0x40, &[]);
    for round in 0..4 {
        stream.extend_from_slice(&raw(&pattern(65536, round)));
    }
    let mut decoder = FrameDecoder::new(stream);
    let mut buf = vec![0u8; 65536];
    for round in 0..3 {
        assert_eq!(read(&mut decoder, &mut buf, 7), Outcome::Read(65536));
        assert!(buf == pattern(65536, round));
        assert_eq!(decoder.pending(), ((round + 1) * 65536, (round + 1) * 65536));
        assert_eq!(decoder.ext_dict(), (0, 0));
    }
    assert_eq!(read(&mut decoder, &mut buf[..10], 7), Outcome::Read(10));
    assert_eq!(decoder.pending(), (10, 65536));
    assert_eq!(decoder.ext_dict(), (131072, 65536));
}

#[test]
fn block_checksums_are_checked() {
    for (block, content) in [
        (raw(b"abc"), &b"abc"[..]),
        (packed(&[0x20, b'h', b'i']), &b"hi"[..]),
    ] {
        let head = header(INDEPENDENT | BLOCK_CHECKSUMS, 0x40, &[]);
        let good = with_checksum(block);
        let stream = join(&[head.clone(), good.clone(), end()]);
        assert_eq!(decode(stream), (content.to_vec(), Outcome::Read(0)));
        let mut bad = good;
        *bad.last_mut().unwrap() ^= 1;
        let stream = join(&[head, bad, end()]);
        assert_eq!(
            decode(stream),
            (Vec::new(), Outcome::Failed(Error::BlockChecksumError))
        );
    }
}

#[test]
fn block_checksums_are_compared() {
    assert_eq!(
        FrameDecoder::<()>::check_block_checksum(&[42], 0xe0fe705f),
        Ok(())
    );
    assert_eq!(
        FrameDecoder::<()>::check_block_checksum(&[42], 0xe0fe705e),
        Err(Error::BlockChecksumError)
    );
    assert_eq!(FrameDecoder::<()>::compare_block_checksum(5, 5), Ok(()));
    assert_eq!(
        FrameDecoder::<()>::compare_block_checksum(5, 6),
        Err(Error::BlockChecksumError)
    );
    assert_eq!(
        FrameDecoder::<()>::read_checksum(&[0x5f, 0x70, 0xfe, 0xe0]),
        0xe0fe705f
    );
}

#[test]
fn the_content_checksum_is_checked() {
    let head = header(INDEPENDENT | CONTENT_CHECKSUM, 0x40, &[]);
    let hash = checksum(b"abcdef");
    let blocks = [raw(b"abc"), raw(b"def"), end()].concat();
    let stream = join(&[head.clone(), blocks.clone(), hash.to_le_bytes().to_vec()]);
    assert_eq!(decode(stream), (b"abcdef".to_vec(), Outcome::Read(0)));
    let stream = join(&[head, blocks, (hash ^ 1).to_le_bytes().to_vec()]);
    assert_eq!(
        decode(stream),
        (
            b"abcdef".to_vec(),
            Outcome::Failed(Error::ContentChecksumError)
        )
    );
}

#[test]
fn the_content_size_is_checked() {
    let blocks = [raw(b"abc"), raw(b"def"), end()].concat();
    let size = 6u64.to_le_bytes();
    let stream = join(&[
        header(INDEPENDENT | CONTENT_SIZE, 0x40, &size),
        blocks.clone(),
    ]);
    assert_eq!(decode(stream), (b"abcdef".to_vec(), Outcome::Read(0)));
    let size = 7u64.to_le_bytes();
    let stream = join(&[header(INDEPENDENT | CONTENT_SIZE, 0x40, &size), blocks]);
    assert_eq!(
        decode(stream),
        (
            b"abcdef".to_vec(),
            Outcome::Failed(Error::ContentLengthError {
                expected: 7,
                actual: 6
            })
        )
    );
}

#[test]
fn blocks_that_are_too_big_are_refused() {
    for mut block in [raw(&[0; 3]), packed(&[0; 3])] {
        block[0] = 1;
        block[2] = 1;
        let stream = join(&[header(INDEPENDENT, 0x40, &[]), block]);
        assert_eq!(
            decode(stream),
            (Vec::new(), Outcome::Failed(Error::BlockTooBig))
        );
    }
    // A block of exactly the maximum size is not.
    let content = pattern(65536, 5);
    let stream = join(&[header(INDEPENDENT, 0x40, &[]), raw(&content), end()]);
    assert_eq!(decode(stream), (content, Outcome::Read(0)));
}

#[test]
fn a_block_that_unpacks_to_too_much_is_refused() {
    // One literal and 4 + 15 + 257 * 255 + 0 more of it, in a buffer of 65536.
    let mut block = vec![0x1f, b'x', 1, 0];
    block.extend_from_slice(&[255; 257]);
    block.extend_from_slice(&[0, 0x00]);
    let stream = join(&[header(INDEPENDENT, 0x40, &[]), packed(&block), end()]);
    assert_eq!(
        decode(stream),
        (
            Vec::new(),
            Outcome::Failed(Error::DecompressionError(DecompressError::OutputTooSmall {
                expected_size: 65555,
                actual_size: 65536
            }))
        )
    );
}

#[test]
fn headers_that_are_wrong_are_refused() {
    let stream = vec![1, 2, 3, 4, 5, 6, 7];
    assert_eq!(
        decode(stream),
        (Vec::new(), Outcome::Failed(Error::WrongMagicNumber))
    );
    let mut stream = header(INDEPENDENT | CONTENT_SIZE, 0x40, &[0; 8]);
    stream[10] = 1;
    assert_eq!(
        decode(stream),
        (Vec::new(), Outcome::Failed(Error::HeaderChecksumError))
    );
}

#[test]
fn a_stream_that_breaks_off_starves_the_reader() {
    let stream = join(&[
        header(LINKED | CONTENT_CHECKSUM | BLOCK_CHECKSUMS, 0x40, &[]),
        with_checksum(raw(b"abc")),
        end(),
        checksum(b"abc").to_le_bytes().to_vec(),
    ]);
    for n in 1..stream.len() {
        let (got, outcome) = decode(stream[..n].to_vec());
        assert_eq!(outcome, Outcome::Starved);
        assert!(b"abc".starts_with(&got));
    }
}

#[test]
fn a_read_that_was_given_up_is_taken_up_again() {
    for mode in [LINKED, INDEPENDENT] {
        let first = pattern(65536, 6);
        let mut decoder =
            FrameDecoder::new(join(&[header(mode, 0x40, &[]), raw(&first), vec![5]]));
        let (got, outcome) = drain(&mut decoder, 30000, 7);
        assert!(got == first);
        assert_eq!(outcome, Outcome::Starved);
        // Nothing is given twice, however often the reader is starved.
        let mut buf = [0u8; 100];
        assert_eq!(read(&mut decoder, &mut buf, 7), Outcome::Starved);
        assert_eq!(read(&mut decoder, &mut buf, 7), Outcome::Starved);
        *decoder.get_mut() = join(&[raw(b"more"), end()]);
        assert_eq!(
            drain(&mut decoder, 100, 7),
            (b"more".to_vec(), Outcome::Read(0))
        );
    }
}

#[test]
fn a_block_that_failed_is_passed_over() {
    let stream = join(&[
        header(LINKED, 0x40, &[]),
        raw(b"abcd"),
        packed(&[0x00, 5, 0, 0x00]),
        packed(&[0x00, 4, 0, 0x00]),
        end(),
    ]);
    let mut decoder = FrameDecoder::new(stream);
    let (got, outcome) = drain(&mut decoder, 100, 7);
    assert_eq!(got, b"abcd");
    assert_eq!(
        outcome,
        Outcome::Failed(Error::DecompressionError(
            DecompressError::OffsetOutOfBounds
        ))
    );
    assert_eq!(
        drain(&mut decoder, 100, 7),
        (b"abcd".to_vec(), Outcome::Read(0))
    );
}

#[test]
fn an_empty_buffer_gets_nothing() {
    let stream = join(&[header(LINKED, 0x40, &[]), raw(b"abcd"), end()]);
    let mut decoder = FrameDecoder::new(stream);
    assert_eq!(read(&mut decoder, &mut [], 7), Outcome::Read(0));
    assert_eq!(
        drain(&mut decoder, 3, 7),
        (b"abcd".to_vec(), Outcome::Read(0))
    );
}

#[test]
fn empty_blocks_are_skipped() {
    let stream = join(&[
        header(LINKED, 0x40, &[]),
        raw(b""),
        raw(b"a"),
        packed(&[0x00]),
        raw(b"b"),
        end(),
    ]);
    assert_eq!(decode(stream), (b"ab".to_vec(), Outcome::Read(0)));
}

#[test]
fn only_the_front_of_the_buffer_is_written() {
    let stream = join(&[header(LINKED, 0x40, &[]), raw(b"ab"), end()]);
    let mut decoder = FrameDecoder::new(stream);
    let mut buf = [b'-'; 5];
    assert_eq!(read(&mut decoder, &mut buf, 7), Outcome::Read(2));
    assert_eq!(&buf, b"ab---");
    assert_eq!(read(&mut decoder, &mut buf, 7), Outcome::Read(0));
    assert_eq!(&buf, b"ab---");
}

#[test]
fn a_hash_can_be_handed_in() {
    let head = header(LINKED | BLOCK_CHECKSUMS, 0x40, &[]);
    let mut decoder = FrameDecoder::new(());
    let mut buf = [0u8; 8];
    assert_eq!(decoder.read(&mut buf), Action::Read { at_most: 7 });
    assert_eq!(
        decoder.resume(&head, &mut buf),
        Action::ReadExact { len: 4 }
    );
    assert_eq!(
        decoder.resume_hashed(&[2, 0, 0, 0x80], 0, &mut buf),
        Action::ReadExact { len: 2 }
    );
    assert_eq!(
        decoder.resume_hashed(b"ab", 0, &mut buf),
        Action::ReadExact { len: 4 }
    );
    assert_eq!(
        decoder.resume_hashed(&[7, 0, 0, 0], 7, &mut buf),
        Action::Return { len: 2 }
    );
    assert_eq!(&buf[..2], b"ab");
}

#[test]
fn the_hasher_is_left_alone_between_frames() {
    let stream = join(&[
        header(LINKED | CONTENT_CHECKSUM, 0x40, &[]),
        raw(b"abcd"),
        end(),
        checksum(b"abcd").to_le_bytes().to_vec(),
    ]);
    let mut decoder = FrameDecoder::new(stream);
    let mut buf = [0u8; 4];
    assert_eq!(read(&mut decoder, &mut buf, 7), Outcome::Read(4));
    let hasher = *decoder.content_hasher();
    assert_eq!(hasher.total_len_64(), 4);
    // The end of the frame.
    assert_eq!(read(&mut decoder, &mut buf, 7), Outcome::Read(0));
    assert_eq!(*decoder.content_hasher(), hasher);
    // The end of the stream.
    assert_eq!(read(&mut decoder, &mut buf, 7), Outcome::Read(0));
    assert_eq!(*decoder.content_hasher(), hasher);
    // A header that is refused, by its first bytes and by its checksum.
    *decoder.get_mut() = vec![1, 2, 3, 4, 5, 6, 7];
    assert_eq!(
        read(&mut decoder, &mut buf, 7),
        Outcome::Failed(Error::WrongMagicNumber)
    );
    assert_eq!(*decoder.content_hasher(), hasher);
    let mut head = header(LINKED | CONTENT_SIZE, 0x40, &[0; 8]);
    head[14] ^= 1;
    *decoder.get_mut() = head;
    assert_eq!(
        read(&mut decoder, &mut buf, 3),
        Outcome::Failed(Error::HeaderChecksumError)
    );
    assert_eq!(*decoder.content_hasher(), hasher);
    assert_eq!(decoder.content_len(), 4);
    // The next frame has a hasher of its own.
    *decoder.get_mut() = join(&[header(LINKED | CONTENT_CHECKSUM, 0x40, &[]), raw(b"x")]);
    assert_eq!(read(&mut decoder, &mut buf, 7), Outcome::Read(1));
    assert_eq!(decoder.content_hasher().total_len_64(), 1);
}
