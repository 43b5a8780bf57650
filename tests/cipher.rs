use gdsearch::decrypt::Decrypt;
use gdsearch::error::DecodeError;

const PRIME: u32 = 39916801;

fn table_for(seed: u32) -> Vec<u32> {
    let mut k = seed ^ 0x55555555;
    let mut t = Vec::new();
    for _ in 0..256 {
        k = k.rotate_right(1).wrapping_mul(PRIME);
        t.push(k);
    }
    t
}

/// Writes a stream the decoder reads back, by the inverse of each decode rule.
struct Enc {
    out: Vec<u8>,
    table: Vec<u32>,
    key: u32,
}

impl Enc {
    fn new(seed: u32) -> Enc {
        let table = table_for(seed);
        let key = table[255];
        Enc { out: seed.to_le_bytes().to_vec(), table, key }
    }
    fn word(&mut self, v: u32) {
        let raw = v ^ self.key;
        self.out.extend_from_slice(&raw.to_le_bytes());
        for b in raw.to_be_bytes() {
            self.key ^= self.table[b as usize];
        }
    }
    fn peek_int(&mut self, v: u32) {
        self.out.extend_from_slice(&(v ^ self.key).to_le_bytes());
    }
    fn run(&mut self, plain: &[u8]) {
        for &p in plain {
            let raw = p ^ (self.key as u8);
            self.out.push(raw);
            self.key ^= self.table[raw as usize];
        }
    }
    fn text(&mut self, s: &str) {
        self.word(s.len() as u32);
        self.run(s.as_bytes());
    }
}

#[test]
fn table_from_known_seed() {
    let seed = 0x1234_5678u32;
    let d = Decrypt::new(seed.to_le_bytes().to_vec()).unwrap();
    let expected = table_for(seed);
    assert_eq!(expected[0], (0x1234_5678u32 ^ 0x55555555).rotate_right(1).wrapping_mul(PRIME));
    for i in 0..256 {
        assert_eq!(d.table_entry(i), expected[i]);
    }
    assert_eq!(d.current_key(), expected[255]);
    let again = Decrypt::new(seed.to_le_bytes().to_vec()).unwrap();
    for i in 0..256 {
        assert_eq!(again.table_entry(i), d.table_entry(i));
    }
    assert_eq!(again.current_key(), d.current_key());
}

#[test]
fn seed_needs_four_bytes() {
    assert!(matches!(Decrypt::new(vec![1, 2, 3]), Err(DecodeError::OutOfBounds)));
}

#[test]
fn read_int_updates_key_from_raw_bytes() {
    let seed = 99u32;
    let t = table_for(seed);
    let k0 = t[255];
    let raw: u32 = 0xA1B2C3D4;
    let mut bytes = seed.to_le_bytes().to_vec();
    bytes.extend_from_slice(&raw.to_le_bytes());
    let mut d = Decrypt::new(bytes).unwrap();
    assert_eq!(d.read_int(), Ok(raw ^ k0));
    assert_eq!(d.current_key(), k0 ^ t[0xA1] ^ t[0xB2] ^ t[0xC3] ^ t[0xD4]);
    assert_eq!(d.read_int(), Err(DecodeError::OutOfBounds));
}

#[test]
fn next_int_leaves_key() {
    let seed = 5u32;
    let k0 = table_for(seed)[255];
    let mut bytes = seed.to_le_bytes().to_vec();
    bytes.extend_from_slice(&7u32.to_le_bytes());
    let mut d = Decrypt::new(bytes).unwrap();
    assert_eq!(d.next_int(), Ok(7 ^ k0));
    assert_eq!(d.current_key(), k0);
}

#[test]
fn read_byte_updates_key_first() {
    let seed = 11u32;
    let t = table_for(seed);
    let raw = 0x3Cu8;
    let mut bytes = seed.to_le_bytes().to_vec();
    bytes.push(raw);
    bytes.push(raw);
    let mut d = Decrypt::new(bytes).unwrap();
    let k = t[255] ^ t[raw as usize];
    assert_eq!(d.read_byte(), Ok(raw ^ (k as u8)));
    assert_eq!(d.current_key(), k);
    let k2 = k ^ t[raw as usize];
    assert_eq!(d.read_bool(), Ok(raw ^ (k2 as u8) != 0));
}

#[test]
fn zero_length_string_touches_only_the_length() {
    let mut e = Enc::new(42);
    e.word(0);
    let key_after_len = e.key;
    e.out.extend_from_slice(&[0xEE, 0xEE]);
    let mut d = Decrypt::new(e.out).unwrap();
    assert_eq!(d.read_str().unwrap(), "");
    assert_eq!(d.position(), 8);
    assert_eq!(d.current_key(), key_after_len);
}

fn round_trip(len: usize) {
    let plain: String = (0..len).map(|i| (b'a' + (i % 26) as u8) as char).collect();
    let mut e = Enc::new(0xCAFEBABE);
    e.text(&plain);
    let end_key = e.key;
    let mut d = Decrypt::new(e.out).unwrap();
    assert_eq!(d.read_str().unwrap(), plain);
    assert_eq!(d.current_key(), end_key);
}

#[test]
fn string_round_trip_lengths() {
    for len in [0, 1, 17, 4096] {
        round_trip(len);
    }
}

#[test]
fn string_past_end_fails() {
    let mut e = Enc::new(3);
    e.word(10);
    e.run(b"abc");
    let mut d = Decrypt::new(e.out).unwrap();
    assert_eq!(d.read_str(), Err(DecodeError::OutOfBounds));
}

#[test]
fn wide_string_round_trip() {
    let mut e = Enc::new(77);
    let units: Vec<u16> = "Hé €".encode_utf16().collect();
    e.word(units.len() as u32);
    let bytes: Vec<u8> = units.iter().flat_map(|u| u.to_le_bytes()).collect();
    e.run(&bytes);
    let mut d = Decrypt::new(e.out).unwrap();
    assert_eq!(d.read_wide_string().unwrap(), "Hé €");
}

#[test]
fn unpaired_surrogate_is_invalid_text() {
    let mut e = Enc::new(78);
    e.word(1);
    e.run(&0xD800u16.to_le_bytes());
    let mut d = Decrypt::new(e.out).unwrap();
    assert_eq!(d.read_wide_string(), Err(DecodeError::InvalidText));
}

fn block(body_len_delta: i64, sentinel: u32) -> Result<bool, DecodeError> {
    let mut e = Enc::new(1234);
    e.word(9);
    let k = e.key;
    let start = e.out.len();
    e.out.extend_from_slice(&[0; 4]);
    e.word(555);
    let body = (e.out.len() - start - 4) as i64 + body_len_delta;
    e.out[start..start + 4].copy_from_slice(&((body as u32) ^ k).to_le_bytes());
    e.peek_int(sentinel);
    let mut d = Decrypt::new(e.out).unwrap();
    let (tag, b) = d.read_block_start().unwrap();
    assert_eq!(tag, 9);
    assert_eq!(b.len, body as u32);
    assert_eq!(d.read_int(), Ok(555));
    d.read_block_end(&b)
}

#[test]
fn block_end_checks_offset_and_sentinel() {
    assert_eq!(block(0, 0), Ok(true));
    assert_eq!(block(0, 1), Ok(false));
    assert_eq!(block(4, 0), Err(DecodeError::BlockMisaligned));
    assert_eq!(block(-4, 0), Err(DecodeError::BlockMisaligned));
}

#[test]
fn close_block_treats_both_failures_as_fatal() {
    let mut e = Enc::new(8);
    e.word(1);
    e.peek_int(0);
    e.peek_int(3);
    let mut d = Decrypt::new(e.out).unwrap();
    let (_, b) = d.read_block_start().unwrap();
    assert_eq!(d.close_block(&b), Err(DecodeError::BlockSentinel));
}

#[test]
fn bytes_decode_in_sequence() {
    let seed = 600u32;
    let t = table_for(seed);
    let raws = [0u8, 1, 200, 255];
    let mut bytes = seed.to_le_bytes().to_vec();
    bytes.extend_from_slice(&raws);
    let mut d = Decrypt::new(bytes).unwrap();
    let mut k = t[255];
    for r in raws {
        k ^= t[r as usize];
        assert_eq!(d.read_byte(), Ok(r ^ (k as u8)));
    }
    assert_eq!(d.current_key(), k);
}
