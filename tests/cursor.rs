use gdsearch::byte_reader::ByteReader;
use gdsearch::error::DecodeError;

#[test]
fn reads_little_endian_integers() {
    let mut r = ByteReader::from_vec(vec![0x01, 0x34, 0x12, 0x78, 0x56, 0x34, 0x12, 1, 0, 0, 0, 0, 0, 0, 0x80]);
    assert_eq!(r.read_byte(), Ok(0x01));
    assert_eq!(r.read_u16(), Ok(0x1234));
    assert_eq!(r.read_u32(), Ok(0x12345678));
    assert_eq!(r.read_u64(), Ok(0x8000_0000_0000_0001));
    assert_eq!(r.position(), 15);
}

#[test]
fn short_read_fails_and_keeps_position() {
    let mut r = ByteReader::from_vec(vec![1, 2, 3]);
    assert_eq!(r.read_u32(), Err(DecodeError::OutOfBounds));
    assert_eq!(r.position(), 0);
    assert_eq!(r.read_u16(), Ok(0x0201));
    assert_eq!(r.read_u16(), Err(DecodeError::OutOfBounds));
    assert_eq!(r.read_byte(), Ok(3));
    assert_eq!(r.read_byte(), Err(DecodeError::OutOfBounds));
}

#[test]
fn reads_byte_ranges_and_strings() {
    let mut r = ByteReader::from_vec(b"abcdef".to_vec());
    assert_eq!(r.read_n_bytes(2), Ok(b"ab".to_vec()));
    assert_eq!(r.read_string(3).unwrap(), "cde");
    assert_eq!(r.read_n_bytes(2), Err(DecodeError::OutOfBounds));
    let mut bad = ByteReader::from_vec(vec![0xff, 0xfe]);
    assert_eq!(bad.read_string(2), Err(DecodeError::InvalidText));
}

#[test]
fn null_terminated_strings() {
    let mut r = ByteReader::from_vec(b"one\0two\0last".to_vec());
    assert_eq!(r.read_null_string().unwrap(), "one");
    assert_eq!(r.position(), 4);
    assert_eq!(r.read_null_string().unwrap(), "two");
    assert_eq!(r.read_null_string().unwrap(), "last");
    assert_eq!(r.position(), 12);
    assert_eq!(r.read_null_string(), None);
}

#[test]
fn seek_past_end_fails() {
    let mut r = ByteReader::from_vec(vec![0; 4]);
    assert_eq!(r.seek(4), Ok(()));
    assert_eq!(r.seek(5), Err(DecodeError::OutOfBounds));
    assert_eq!(r.position(), 4);
}

#[test]
fn copies_share_the_bytes() {
    let mut a = ByteReader::from_vec(vec![7, 8, 9]);
    let mut b = a.clone();
    assert_eq!(a.read_byte(), Ok(7));
    assert_eq!(b.read_byte(), Ok(7));
    assert_eq!(b.read_byte(), Ok(8));
    assert_eq!(a.position(), 1);
}
