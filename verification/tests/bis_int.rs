use bis_codec::io::common::{ByteReader, CodecError};
use bis_codec::io::compression::bis_int::{
    bis_int_len, IntCompressionReadExt, IntCompressionWriteExt,
};

fn encode(x: u32) -> Vec<u8> {
    let mut out: Vec<u8> = Vec::new();
    let n = out.write_bis_int(x);
    assert_eq!(n, out.len());
    assert_eq!(n, bis_int_len(x));
    out
}

fn decode(bytes: &[u8]) -> Result<u32, CodecError> {
    ByteReader::new(bytes).read_bis_int()
}

#[test]
fn small_values_take_one_byte() {
    assert_eq!(encode(0), vec![0x00]);
    assert_eq!(encode(1), vec![0x01]);
    assert_eq!(encode(127), vec![0x7f]);
}

#[test]
fn boundaries_fall_on_multiples_of_seven_bits() {
    assert_eq!(encode(128), vec![0x80, 0x01]);
    assert_eq!(encode(300), vec![0xac, 0x02]);
    assert_eq!(encode(16383), vec![0xff, 0x7f]);
    assert_eq!(encode(16384), vec![0x80, 0x80, 0x01]);
    assert_eq!(encode((1 << 21) - 1), vec![0xff, 0xff, 0x7f]);
    assert_eq!(encode(1 << 21), vec![0x80, 0x80, 0x80, 0x01]);
    assert_eq!(encode((1 << 28) - 1), vec![0xff, 0xff, 0xff, 0x7f]);
    assert_eq!(encode(1 << 28), vec![0x80, 0x80, 0x80, 0x80, 0x01]);
    assert_eq!(encode(u32::MAX), vec![0xff, 0xff, 0xff, 0xff, 0x0f]);
}

#[test]
fn lengths_follow_the_value() {
    assert_eq!(bis_int_len(0), 1);
    assert_eq!(bis_int_len(127), 1);
    assert_eq!(bis_int_len(128), 2);
    assert_eq!(bis_int_len(16383), 2);
    assert_eq!(bis_int_len(16384), 3);
    assert_eq!(bis_int_len(u32::MAX), 5);
}

#[test]
fn values_round_trip() {
    let mut x: u32 = 1;
    for _ in 0..2000 {
        x = x.wrapping_mul(1664525).wrapping_add(1013904223);
        for shift in [0u32, 7, 13, 20, 25] {
            let v = x >> shift;
            assert_eq!(decode(&encode(v)), Ok(v));
        }
    }
    for v in [0u32, 1, 127, 128, 16383, 16384, u32::MAX - 1, u32::MAX] {
        assert_eq!(decode(&encode(v)), Ok(v));
    }
}

#[test]
fn read_stops_after_the_last_byte() {
    let bytes = [0xac, 0x02, 0x55];
    let mut r = ByteReader::new(&bytes);
    assert_eq!(r.read_bis_int(), Ok(300));
    assert_eq!(r.position(), 2);
    assert_eq!(r.read_bis_int(), Ok(0x55));
    assert_eq!(r.read_bis_int(), Err(CodecError::Truncated));
}

#[test]
fn missing_last_byte_is_truncated() {
    assert_eq!(decode(&[]), Err(CodecError::Truncated));
    assert_eq!(decode(&[0x80]), Err(CodecError::Truncated));
    assert_eq!(decode(&[0xff, 0xff, 0xff]), Err(CodecError::Truncated));
}

#[test]
fn bits_beyond_thirty_two_are_dropped() {
    // the fifth byte holds bits 28 to 34: only its low four count
    assert_eq!(decode(&[0x80, 0x80, 0x80, 0x80, 0x7f]), Ok(0xf000_0000));
    // bytes from the sixth on add nothing
    assert_eq!(decode(&[0x81, 0x80, 0x80, 0x80, 0x80, 0xff, 0x7f]), Ok(1));
    let bytes = [0x81, 0x80, 0x80, 0x80, 0x80, 0xff, 0x7f, 0x09];
    let mut r = ByteReader::new(&bytes);
    assert_eq!(r.read_bis_int(), Ok(1));
    assert_eq!(r.position(), 7);
}

#[test]
fn non_minimal_forms_are_read() {
    assert_eq!(decode(&[0x80, 0x00]), Ok(0));
    assert_eq!(decode(&[0x85, 0x80, 0x00]), Ok(5));
}
