use bis_codec::io::common::{ByteReader, CommonReadExt, CommonWriteExt};
use bis_codec::io::compression::{bis_int_len, CompressionReadExt, CompressionWriteExt};

#[test]
fn strings_end_at_the_zero_byte() {
    let bytes = b"config\0rest";
    let mut r = ByteReader::new(bytes);
    assert_eq!(r.read_cstring(), "config");
    assert_eq!(r.position(), 7);
    assert_eq!(r.read_cstring(), "rest");
    assert_eq!(r.position(), 11);
    assert_eq!(r.read_cstring(), "");
}

#[test]
fn empty_string_is_one_zero_byte() {
    let bytes = [0u8, b'a'];
    let mut r = ByteReader::new(&bytes);
    assert_eq!(r.read_cstring(), "");
    assert_eq!(r.position(), 1);
}

#[test]
fn strings_may_hold_any_utf8() {
    let mut out: Vec<u8> = Vec::new();
    out.write_rv_string("grüße ☃".as_bytes());
    let mut r = ByteReader::new(&out);
    assert_eq!(r.read_cstring(), "grüße ☃");
}

#[test]
fn written_strings_end_with_zero() {
    let mut out: Vec<u8> = vec![1];
    out.write_rv_string(b"ab");
    out.write_rv_string(b"");
    assert_eq!(out, vec![1, b'a', b'b', 0, 0]);
}

fn write_record<W: CompressionWriteExt>(sink: &mut W, name: &[u8], payload: &[u8]) -> usize {
    sink.write_rv_string(name);
    let a = sink.write_bis_int(payload.len() as u32);
    let b = sink.write_lzss(payload, false);
    a + b as usize
}

fn read_record<R: CompressionReadExt>(source: &mut R) -> (String, Vec<u8>) {
    let name = source.read_cstring();
    let n = source.read_bis_int().unwrap();
    let payload = source.read_lzss(n as usize, false).unwrap();
    (name, payload)
}

#[test]
fn a_record_of_all_three_forms_round_trips() {
    let payload = b"payload payload payload payload".to_vec();
    let mut out: Vec<u8> = Vec::new();
    let n = write_record(&mut out, b"name", &payload);
    assert_eq!(out.len(), 5 + n);
    assert_eq!(bis_int_len(payload.len() as u32), 1);
    let mut r = ByteReader::new(&out);
    assert_eq!(read_record(&mut r), ("name".to_string(), payload));
    assert_eq!(r.position(), out.len());
}
