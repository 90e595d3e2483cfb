use lz4_frame::bytes::{read_u16, read_u32, read_u64};
use lz4_frame::frame::header::{BlockInfo, BlockMode, BlockSize, FrameInfo};
use lz4_frame::frame::Error;
use lz4_frame::hash::checksum;

/// A frame header with the right checksum.
fn header(flags: u8, sizes: u8, fields: &[u8]) -> Vec<u8> {
    let mut head = vec![0x04, 0x22, 0x4d, 0x18, flags, sizes];
    head.extend_from_slice(fields);
    let hash = checksum(&head[4..]);
    head.push((hash >> 8) as u8);
    head
}

#[test]
fn integers_are_little_endian() {
    let s = [9, 1, 2, 3, 4, 5, 6, 7, 8];
    assert_eq!(read_u16(&s, 1), 0x0201);
    assert_eq!(read_u32(&s, 1), 0x04030201);
    assert_eq!(read_u64(&s, 1), 0x0807060504030201);
    assert_eq!(read_u64(&[0xff; 8], 0), u64::MAX);
}

#[test]
fn hashes_are_those_of_xxhash() {
    assert_eq!(checksum(&[]), 0x02cc5d05);
    assert_eq!(checksum(&[42]), 0xe0fe705f);
    assert_eq!(checksum(b"Hello, world!\0"), 0x9e5e7e93);
}

#[test]
fn a_well_known_header_is_read() {
    let head = [0x04, 0x22, 0x4d, 0x18, 0x64, 0x40, 0xa7];
    assert_eq!(FrameInfo::read_size(&head), Ok(7));
    let info = FrameInfo::read(&head).unwrap();
    assert_eq!(
        info,
        FrameInfo {
            content_size: None,
            dict_id: None,
            block_size: BlockSize::Max64KB,
            block_mode: BlockMode::Independent,
            block_checksums: false,
            content_checksum: true,
        }
    );
}

#[test]
fn all_fields_are_read() {
    let fields = [1, 2, 0, 0, 0, 0, 0, 0, 0xdd, 0xcc, 0xbb, 0xaa];
    let head = header(0x40 | 0x10 | 0x08 | 0x01, 0x70, &fields);
    assert_eq!(head.len(), 19);
    assert_eq!(FrameInfo::read_size(&head[..7]), Ok(19));
    assert_eq!(
        FrameInfo::read(&head).unwrap(),
        FrameInfo {
            content_size: Some(513),
            dict_id: Some(0xaabbccdd),
            block_size: BlockSize::Max4MB,
            block_mode: BlockMode::Linked,
            block_checksums: true,
            content_checksum: false,
        }
    );
}

#[test]
fn header_sizes() {
    assert_eq!(FrameInfo::read_size(&header(0x40, 0x40, &[])), Ok(7));
    assert_eq!(FrameInfo::read_size(&header(0x48, 0x40, &[0; 8])), Ok(15));
    assert_eq!(FrameInfo::read_size(&header(0x41, 0x40, &[0; 4])), Ok(11));
    assert_eq!(
        FrameInfo::read_size(&[0x05, 0x22, 0x4d, 0x18, 0, 0, 0]),
        Err(Error::WrongMagicNumber)
    );
}

#[test]
fn headers_that_are_refused() {
    let mut head = header(0x40, 0x40, &[]);
    head[0] = 0;
    assert_eq!(FrameInfo::read(&head), Err(Error::WrongMagicNumber));
    assert_eq!(
        FrameInfo::read(&header(0x80, 0x40, &[])),
        Err(Error::UnsupportedVersion(2))
    );
    assert_eq!(
        FrameInfo::read(&header(0x42, 0x40, &[])),
        Err(Error::ReservedBitsSet)
    );
    assert_eq!(
        FrameInfo::read(&header(0x40, 0xc0, &[])),
        Err(Error::ReservedBitsSet)
    );
    assert_eq!(
        FrameInfo::read(&header(0x40, 0x41, &[])),
        Err(Error::ReservedBitsSet)
    );
    assert_eq!(
        FrameInfo::read(&header(0x40, 0x30, &[])),
        Err(Error::UnsupportedBlocksize(3))
    );
    let mut head = header(0x40, 0x40, &[]);
    head[6] ^= 1;
    assert_eq!(FrameInfo::read(&head), Err(Error::HeaderChecksumError));
}

#[test]
fn the_second_byte_of_the_hash_is_the_checksum() {
    let head = [0x04, 0x22, 0x4d, 0x18, 0x40, 0x50, 0xab];
    let info = FrameInfo::parse(&head, 0x1234ab56).unwrap();
    assert_eq!(info.block_size, BlockSize::Max256KB);
    assert_eq!(
        FrameInfo::parse(&head, 0x1234ac56),
        Err(Error::HeaderChecksumError)
    );
}

#[test]
fn block_sizes() {
    assert_eq!(BlockSize::Max64KB.get_size(), 65536);
    assert_eq!(BlockSize::Max256KB.get_size(), 262144);
    assert_eq!(BlockSize::Max1MB.get_size(), 1048576);
    assert_eq!(BlockSize::Max4MB.get_size(), 4194304);
}

#[test]
fn block_headers() {
    assert_eq!(BlockInfo::read(&[0, 0, 0, 0]), BlockInfo::EndMark);
    assert_eq!(BlockInfo::read(&[1, 2, 0, 0]), BlockInfo::Compressed(513));
    assert_eq!(
        BlockInfo::read(&[1, 2, 0, 0x80]),
        BlockInfo::Uncompressed(513)
    );
    assert_eq!(BlockInfo::read(&[0, 0, 0, 0x80]), BlockInfo::Uncompressed(0));
    assert_eq!(
        BlockInfo::read(&[0xff, 0xff, 0xff, 0x7f]),
        BlockInfo::Compressed(0x7fffffff)
    );
}
