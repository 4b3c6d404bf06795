use bis_codec::io::common::{ByteReader, ByteSource, CodecError};

#[test]
fn read_u8_walks_the_slice() {
    let data = [2u8, 5];
    let mut r = ByteReader::new(&data);
    assert_eq!(r.read_u8(), Ok(2));
    assert_eq!(r.read_u8(), Ok(5));
    assert_eq!(r.position(), 2);
    assert_eq!(r.read_u8(), Err(CodecError::Truncated));
    assert_eq!(r.position(), 2);
}
