use gdsearch::byte_vec::ByteVec;
use gdsearch::error::DecodeError;

#[test]
fn byte_vec_reads_in_order() {
    let mut v = ByteVec { bytes: vec![0xAA, 0x02, 0x01, 4, 3, 2, 1, 8, 0, 0, 0, 0, 0, 0, 0], index: 0 };
    assert_eq!(v.read_byte(), Ok(0xAA));
    assert_eq!(v.read_u16(), Ok(0x0102));
    assert_eq!(v.read_u32(), Ok(0x01020304));
    assert_eq!(v.read_u64(), Ok(8));
    assert_eq!(v.read_byte(), Err(DecodeError::OutOfBounds));
}

#[test]
fn byte_vec_strings() {
    let mut v = ByteVec { bytes: b"abc\0de\xff\0tail".to_vec(), index: 0 };
    assert_eq!(v.read_cstring().unwrap(), "abc");
    assert_eq!(v.read_cstring().unwrap(), "de\u{fffd}");
    assert_eq!(v.read_string(2).unwrap(), "ta");
    assert_eq!(v.read_cstring(), Err(DecodeError::OutOfBounds));
    let mut w = ByteVec { bytes: b"xyz".to_vec(), index: 1 };
    assert_eq!(w.read_n_bytes(2), Ok(b"yz".to_vec()));
    assert_eq!(w.read_n_bytes(1), Err(DecodeError::OutOfBounds));
}

#[test]
fn lossy_null_string_replaces_invalid_bytes() {
    let mut r = gdsearch::byte_reader::ByteReader::from_vec(b"a\xffb\0".to_vec());
    assert_eq!(r.read_null_string().unwrap(), "a\u{fffd}b");
}
