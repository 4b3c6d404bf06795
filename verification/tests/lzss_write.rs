use bis_codec::io::common::{ByteReader, CodecError};
use bis_codec::io::compression::lzss::{LzssCompressionReadExt, LzssCompressionWriteExt};

fn round_trip(data: &[u8], signed: bool) -> Vec<u8> {
    let mut wire: Vec<u8> = Vec::new();
    let size = wire.write_lzss(data, signed);
    assert_eq!(size as usize, wire.len());
    let mut r = ByteReader::new(&wire);
    assert_eq!(r.read_lzss(data.len(), signed), Ok(data.to_vec()));
    assert_eq!(r.position(), wire.len());
    wire
}

#[test]
fn empty_input_is_only_a_trailer() {
    let mut wire: Vec<u8> = Vec::new();
    assert_eq!(wire.write_lzss(&[], false), 4);
    assert_eq!(wire, vec![0, 0, 0, 0]);
    let mut r = ByteReader::new(&wire);
    assert_eq!(r.read_lzss(0, false), Ok(vec![]));
}

#[test]
fn write_appends_to_the_sink() {
    let mut wire: Vec<u8> = vec![9, 9];
    assert_eq!(wire.write_lzss(b"abc", false), 8);
    assert_eq!(wire, vec![9, 9, 0x07, b'a', b'b', b'c', 0x26, 0x01, 0, 0]);
}

#[test]
fn incompressible_input_is_all_literals() {
    let data: Vec<u8> = (0u8..20).map(|i| i.wrapping_mul(37).wrapping_add(101)).collect();
    let wire = round_trip(&data, false);
    // one flag byte for each eight bytes, the bytes, the trailer
    assert_eq!(wire.len(), 20 + 3 + 4);
    assert_eq!(wire[0], 0xff);
    assert_eq!(&wire[1..9], &data[0..8]);
    assert_eq!(wire[9], 0xff);
    assert_eq!(&wire[10..18], &data[8..16]);
    assert_eq!(wire[18], 0x0f);
    assert_eq!(&wire[19..23], &data[16..20]);
    let sum: u32 = data.iter().map(|&c| c as u32).sum();
    assert_eq!(&wire[23..], &sum.to_le_bytes());
}

#[test]
fn a_run_becomes_a_reference() {
    let data = vec![b'x'; 40];
    let wire = round_trip(&data, false);
    // literal 'x', then two overlapping references one place back, of 18
    // bytes each, then a reference of 3 bytes
    assert_eq!(wire[..6], [0x01, b'x', 0x01, 0x0f, 0x01, 0x0f]);
    assert_eq!(wire[7], 0x00);
    assert!(1 <= wire[6] && wire[6] <= 37);
    assert_eq!(wire.len(), 8 + 4);
    assert_eq!(wire[8..], (40u32 * b'x' as u32).to_le_bytes());
}

#[test]
fn spaces_refer_to_the_fill() {
    let data = vec![0x20u8; 5];
    let wire = round_trip(&data, false);
    assert_eq!(wire[0] & 1, 0);
    assert!(wire.len() < 5 + 1 + 4);
}

#[test]
fn text_round_trips() {
    let mut data = Vec::new();
    for i in 0..400u32 {
        data.extend_from_slice(b"the quick brown fox jumps over the lazy dog ");
        data.extend_from_slice(i.to_string().as_bytes());
    }
    let wire = round_trip(&data, false);
    assert!(wire.len() < data.len() / 2);
    round_trip(&data, true);
}

#[test]
fn long_input_wraps_the_window() {
    let mut data = Vec::new();
    let mut x: u32 = 12345;
    for i in 0..20000u32 {
        x = x.wrapping_mul(1103515245).wrapping_add(12345);
        // a mix of noise and repeats
        if (i / 64) % 3 == 0 {
            data.push((x >> 16) as u8);
        } else {
            data.push((i % 7) as u8 + b'a');
        }
    }
    round_trip(&data, false);
    round_trip(&data, true);
}

#[test]
fn every_short_length_round_trips() {
    for n in 0..60usize {
        let data: Vec<u8> = (0..n).map(|i| b"abcabcabdabc"[i % 12]).collect();
        round_trip(&data, false);
    }
}

#[test]
fn signed_and_unsigned_trailers_differ_on_high_bytes() {
    let data = [0x80u8, 0xff, 0x01];
    let unsigned = round_trip(&data, false);
    let signed = round_trip(&data, true);
    assert_eq!(&unsigned[4..], &0x180u32.to_le_bytes());
    assert_eq!(&signed[4..], &(0x180u32.wrapping_sub(0x200)).to_le_bytes());
    let mut r = ByteReader::new(&unsigned);
    assert_eq!(r.read_lzss(3, true), Err(CodecError::MalformedStream));
}

#[test]
fn flipped_trailer_byte_is_malformed() {
    let data = b"hello hello hello hello";
    let mut wire = round_trip(data, false);
    let last = wire.len() - 1;
    wire[last] ^= 0x40;
    let mut r = ByteReader::new(&wire);
    assert_eq!(r.read_lzss(data.len(), false), Err(CodecError::MalformedStream));
}

#[test]
fn flipped_literal_is_malformed() {
    let data: Vec<u8> = (0u8..8).map(|i| i.wrapping_mul(37).wrapping_add(101)).collect();
    let mut wire = round_trip(&data, false);
    wire[3] ^= 0x01;
    let mut r = ByteReader::new(&wire);
    assert_eq!(r.read_lzss(data.len(), false), Err(CodecError::MalformedStream));
}

#[test]
fn flipped_flag_bit_fails_before_the_checksum() {
    // with its first flag bit cleared, the block opens with a reference
    // made of 'a' and 'b', which is longer than the three bytes declared
    let mut wire: Vec<u8> = Vec::new();
    wire.write_lzss(b"abc", false);
    wire[0] ^= 0x01;
    let mut r = ByteReader::new(&wire);
    assert_eq!(r.read_lzss(3, false), Err(CodecError::Overflow));
}

#[test]
fn blocks_never_grow_by_more_than_an_eighth() {
    let mut x: u32 = 7;
    for n in [1usize, 7, 8, 9, 63, 64, 65, 1000, 5000] {
        let data: Vec<u8> = (0..n)
            .map(|_| {
                x = x.wrapping_mul(1103515245).wrapping_add(12345);
                (x >> 16) as u8
            })
            .collect();
        let wire = round_trip(&data, false);
        assert!(wire.len() <= n + (n + 7) / 8 + 4);
    }
}

#[test]
fn a_block_is_read_out_of_a_longer_stream() {
    let data = b"abcabcabcabcabcabcabc";
    let mut wire: Vec<u8> = Vec::new();
    let size = wire.write_lzss(data, true) as usize;
    wire.extend_from_slice(&[0xaa, 0xbb]);
    let mut r = ByteReader::new(&wire);
    assert_eq!(r.read_lzss(data.len(), true), Ok(data.to_vec()));
    assert_eq!(r.position(), size);
}

#[test]
fn a_wrong_declared_length_is_refused() {
    let data = b"abcabcabcabcabcabcabc";
    let mut wire: Vec<u8> = Vec::new();
    wire.write_lzss(data, false);
    let mut r = ByteReader::new(&wire);
    assert!(r.read_lzss(data.len() - 1, false).is_err());
    let mut r = ByteReader::new(&wire);
    assert!(r.read_lzss(data.len() + 1, false).is_err());
}
