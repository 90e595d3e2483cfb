use lz4_frame::block::decompress::{copy_into, decompress_into, decompress_into_with_dict};
use lz4_frame::block::{uncompressed_size, wild_copy_from_src_8, DecompressError};

#[test]
fn size_prefix_is_split_off() {
    let (size, rest) = uncompressed_size(&[5, 1, 0, 0, 7, 8]).unwrap();
    assert_eq!(size, 261);
    assert_eq!(rest, &[7, 8]);
    let (size, rest) = uncompressed_size(&[0xff, 0xff, 0xff, 0xff]).unwrap();
    assert_eq!(size, 4294967295);
    assert_eq!(rest.len(), 0);
}

#[test]
fn size_prefix_needs_four_bytes() {
    assert_eq!(
        uncompressed_size(&[5, 1, 0]),
        Err(DecompressError::ExpectedAnotherByte)
    );
    assert_eq!(
        uncompressed_size(&[]),
        Err(DecompressError::ExpectedAnotherByte)
    );
}

#[test]
fn size_and_block_come_apart_as_they_were() {
    for size in [0u32, 1, 255, 256, 70000, 0x12345678] {
        let mut input = size.to_le_bytes().to_vec();
        input.extend_from_slice(b"block");
        let (n, rest) = uncompressed_size(&input).unwrap();
        assert_eq!(n, size as usize);
        assert_eq!(rest, b"block");
    }
}

#[test]
fn wild_copy_goes_in_steps_of_eight() {
    let source: Vec<u8> = (1..=32).collect();
    let mut dst = [0u8; 32];
    wild_copy_from_src_8(&source, &mut dst, 9);
    assert_eq!(&dst[..16], &source[..16]);
    assert_eq!(&dst[16..], &[0u8; 16]);
    let mut dst = [0u8; 8];
    wild_copy_from_src_8(&source, &mut dst, 8);
    assert_eq!(&dst, &source[..8]);
    let mut dst = [7u8; 3];
    wild_copy_from_src_8(&source, &mut dst, 0);
    assert_eq!(&dst, &[7u8; 3]);
}

fn decode(input: &[u8], size: usize) -> Result<Vec<u8>, DecompressError> {
    let mut output = vec![0u8; size];
    let n = decompress_into(input, &mut output, 0)?;
    output.truncate(n);
    Ok(output)
}

#[test]
fn literals_alone() {
    assert_eq!(decode(&[0x30, b'a', b'b', b'c'], 10).unwrap(), b"abc");
    assert_eq!(decode(&[0x00], 10).unwrap(), b"");
}

#[test]
fn a_match_may_overlap_itself() {
    // "ab", then 7 bytes from 2 back, then "z".
    let block = [0x23, b'a', b'b', 2, 0, 0x10, b'z'];
    assert_eq!(decode(&block, 20).unwrap(), b"ababababaz");
}

#[test]
fn lengths_of_more_than_one_byte() {
    let mut block = vec![0xf0, 255, 10];
    let literals: Vec<u8> = (0..280u32).map(|i| i as u8).collect();
    block.extend_from_slice(&literals);
    assert_eq!(decode(&block, 280).unwrap(), literals);

    // One literal, then 4 + 15 + 255 + 0 more of it, then nothing.
    let block = [0x1f, b'x', 1, 0, 255, 0, 0x00];
    assert_eq!(decode(&block, 400).unwrap(), vec![b'x'; 275]);
}

#[test]
fn input_that_ends_too_early() {
    let e = Err(DecompressError::ExpectedAnotherByte);
    assert_eq!(decode(&[], 10), e);
    assert_eq!(decode(&[0xf0], 10), e);
    assert_eq!(decode(&[0xf0, 255], 10), e);
    assert_eq!(decode(&[0x10, b'a', 1], 10), e);
    assert_eq!(decode(&[0x1f, b'a', 1, 0], 10), e);
    // A block cannot end with a match.
    assert_eq!(decode(&[0x10, b'a', 1, 0], 10), e);
}

#[test]
fn literals_that_are_not_there() {
    assert_eq!(
        decode(&[0x30, b'a', b'b'], 10),
        Err(DecompressError::LiteralOutOfBounds)
    );
}

#[test]
fn offsets_that_reach_too_far() {
    let e = Err(DecompressError::OffsetOutOfBounds);
    assert_eq!(decode(&[0x10, b'a', 2, 0, 0x00], 10), e);
    assert_eq!(decode(&[0x10, b'a', 0, 0, 0x00], 10), e);
    assert_eq!(decode(&[0x00, 1, 0, 0x00], 10), e);
}

#[test]
fn output_that_does_not_fit() {
    assert_eq!(
        decode(&[0x30, b'a', b'b', b'c'], 2),
        Err(DecompressError::OutputTooSmall {
            expected_size: 3,
            actual_size: 2
        })
    );
    let mut output = vec![0u8; 6];
    assert_eq!(
        decompress_into(&[0x10, b'a', 1, 0, 0x00], &mut output, 2),
        Err(DecompressError::OutputTooSmall {
            expected_size: 7,
            actual_size: 6
        })
    );
}

#[test]
fn a_block_may_refer_to_what_stands_before_it() {
    let mut output = b"wxyz....".to_vec();
    assert_eq!(decompress_into(&[0x00, 4, 0, 0x00], &mut output, 4), Ok(4));
    assert_eq!(output, b"wxyzwxyz");
}

#[test]
fn a_block_may_refer_to_a_dictionary() {
    let mut output = b"ab........DICT".to_vec();
    // Six bytes from five back: the last three of the dictionary, then the output.
    let block = [0x02, 5, 0, 0x10, b'!'];
    let n = decompress_into_with_dict(&block, &mut output, 2, 10, 4);
    assert_eq!(n, Ok(7));
    assert_eq!(output, b"abICTabI!.DICT");
    // The dictionary ends where it starts.
    let mut output = b"ab........DICT".to_vec();
    assert_eq!(
        decompress_into_with_dict(&[0x00, 7, 0, 0x00], &mut output, 2, 10, 4),
        Err(DecompressError::OffsetOutOfBounds)
    );
    // The output ends where the dictionary starts.
    assert_eq!(
        decompress_into_with_dict(&[0x05, 5, 0, 0x00], &mut output, 2, 10, 4),
        Err(DecompressError::OutputTooSmall {
            expected_size: 11,
            actual_size: 10
        })
    );
}

#[test]
fn what_an_offset_cannot_reach_has_no_bearing() {
    let block = [0x00, 0xff, 0xff, 0x00];
    let mut near = vec![9u8; 65535 + 4];
    near[0] = 1;
    let mut far = vec![7u8; 100];
    far.extend_from_slice(&near);
    assert_eq!(decompress_into(&block, &mut near, 65535), Ok(4));
    assert_eq!(decompress_into(&block, &mut far, 65635), Ok(4));
    assert_eq!(&near[65535..], &[1, 9, 9, 9]);
    assert_eq!(&far[65635..], &[1, 9, 9, 9]);
}

#[test]
fn where_the_output_goes_has_no_bearing() {
    let block = [0x23, b'a', b'b', 2, 0, 0x10, b'z'];
    let mut output = vec![0u8; 40];
    assert_eq!(decompress_into(&block, &mut output, 30), Ok(10));
    assert_eq!(&output[30..], b"ababababaz");
    assert_eq!(decode(&block, 10).unwrap(), b"ababababaz");
}

#[test]
fn bytes_are_copied_in_place() {
    let mut dst = b"......".to_vec();
    copy_into(&mut dst, 2, b"ab");
    assert_eq!(dst, b"..ab..");
}

#[test]
fn errors_say_what_they_are() {
    let e = DecompressError::OutputTooSmall {
        expected_size: 1203,
        actual_size: 40,
    };
    assert_eq!(
        e.message(),
        "Output (40) is too small for the decompressed data, 1203"
    );
    assert_eq!(
        DecompressError::LiteralOutOfBounds.message(),
        "Literal is out of bounds of the input."
    );
    assert_eq!(
        DecompressError::ExpectedAnotherByte.message(),
        "Expected another byte, found none."
    );
    assert_eq!(
        DecompressError::OffsetOutOfBounds.message(),
        "The offset to copy is not contained in the decompressed buffer."
    );
}
