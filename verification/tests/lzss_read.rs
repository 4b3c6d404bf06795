use bis_codec::io::common::{ByteReader, CodecError};
use bis_codec::io::compression::lzss::LzssCompressionReadExt;

#[test]
fn empty_block_is_its_trailer() {
    let data = [0u8, 0, 0, 0, 9];
    let mut r = ByteReader::new(&data);
    assert_eq!(r.read_lzss(0, false), Ok(vec![]));
    assert_eq!(r.position(), 4);
}

#[test]
fn literals_decode() {
    // flags 0b111, 'a' 'b' 'c', checksum 0x126
    let data = [0x07u8, b'a', b'b', b'c', 0x26, 0x01, 0, 0];
    let mut r = ByteReader::new(&data);
    assert_eq!(r.read_lzss(3, false), Ok(b"abc".to_vec()));
}

#[test]
fn reference_into_fill() {
    // one reference, offset 1, length 3: three fill bytes
    let data = [0x00u8, 0x01, 0x00, 0x60, 0, 0, 0];
    let mut r = ByteReader::new(&data);
    assert_eq!(r.read_lzss(3, false), Ok(vec![0x20, 0x20, 0x20]));
}

#[test]
fn overlapping_reference_repeats() {
    // literal 'x', then offset 1 length 5
    let data = [0x01u8, b'x', 0x01, 0x02, 0xd0, 0x02, 0, 0];
    let mut r = ByteReader::new(&data);
    assert_eq!(r.read_lzss(6, false), Ok(b"xxxxxx".to_vec()));
}

#[test]
fn overflow_is_reported() {
    let data = [0x00u8, 0x01, 0x00, 0x60, 0, 0, 0];
    let mut r = ByteReader::new(&data);
    assert_eq!(r.read_lzss(2, false), Err(CodecError::Overflow));
}

#[test]
fn bad_checksum_is_malformed() {
    let data = [0x07u8, b'a', b'b', b'c', 0x27, 0x01, 0, 0];
    let mut r = ByteReader::new(&data);
    assert_eq!(r.read_lzss(3, false), Err(CodecError::MalformedStream));
}

#[test]
fn signed_checksum_counts_high_bytes_negative() {
    // 0xff as signed is -1: checksum 0xffffffff
    let data = [0x01u8, 0xff, 0xff, 0xff, 0xff, 0xff];
    let mut r = ByteReader::new(&data);
    assert_eq!(r.read_lzss(1, true), Ok(vec![0xff]));
    let mut r = ByteReader::new(&data);
    assert_eq!(r.read_lzss(1, false), Err(CodecError::MalformedStream));
}

#[test]
fn short_streams_are_truncated() {
    let data = [0x07u8, b'a', b'b'];
    let mut r = ByteReader::new(&data);
    assert_eq!(r.read_lzss(3, false), Err(CodecError::Truncated));
    let data = [0x07u8, b'a', b'b', b'c', 0x26, 0x01];
    let mut r = ByteReader::new(&data);
    assert_eq!(r.read_lzss(3, false), Err(CodecError::Truncated));
}

#[test]
fn a_huge_declared_length_is_only_truncated() {
    let data = [0x07u8, b'a', b'b', b'c', 0x26, 0x01, 0, 0];
    let mut r = ByteReader::new(&data);
    assert_eq!(r.read_lzss(usize::MAX, false), Err(CodecError::Truncated));
}
