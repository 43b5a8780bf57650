//! The rolling substitution cipher of save files, with its block framing.
use vstd::prelude::*;

use crate::byte_reader::{le_u32, ByteReader};
use crate::error::DecodeError;
use crate::fields::{close_at, fields_at, lemma_fields_short, FieldKind, FieldValue};
use crate::text::{utf16_decode, utf16_string, utf8_string};
use vstd::utf8::{decode_utf8, valid_utf8};

verus! {

/// The multiplier of the key schedule.
pub const PRIME: u32 = 39916801;

/// The value the seed is XOR-ed with to give the first key.
pub const SEED_MASK: u32 = 0x55555555;

/// One step of the key schedule: rotate right by one bit, then multiply.
pub open spec fn next_key(k: u32) -> u32 {
    ((k >> 1u32) | (k << 31u32)).wrapping_mul(PRIME)
}

/// The key after `n` steps of the schedule from `k`.
pub open spec fn key_chain(k: u32, n: nat) -> u32
    decreases n,
{
    if n == 0 {
        k
    } else {
        next_key(key_chain(k, (n - 1) as nat))
    }
}

/// The substitution table that a seed gives: the first 256 keys of the schedule.
pub open spec fn cipher_table(seed: u32) -> Seq<u32> {
    Seq::new(256, |i: int| key_chain(seed ^ SEED_MASK, (i + 1) as nat))
}

/// The key in force once the table is built: its last entry.
pub open spec fn initial_key(seed: u32) -> u32 {
    key_chain(seed ^ SEED_MASK, 256)
}

/// The key after a 32-bit word `raw` was read: each of its bytes, most
/// significant first, XORs in its table entry.
pub open spec fn int_key(t: Seq<u32>, k: u32, raw: u32) -> u32 {
    k ^ t[(raw >> 24u32) as int] ^ t[((raw >> 16u32) & 0xff) as int] ^ t[((raw >> 8u32) & 0xff) as int]
        ^ t[(raw & 0xff) as int]
}

/// The plaintext of a ciphertext run decoded from key `k`: each byte is XOR-ed
/// with the low byte of the key, then the key XORs in the table entry of the
/// ciphertext byte.
pub open spec fn decode_run(t: Seq<u32>, k: u32, c: Seq<u8>) -> Seq<u8>
    decreases c.len(),
{
    if c.len() == 0 {
        Seq::empty()
    } else {
        let pre = c.drop_last();
        decode_run(t, k, pre).push(c.last() ^ (run_key(t, k, pre) as u8))
    }
}

/// The key after a ciphertext run was decoded from key `k`.
pub open spec fn run_key(t: Seq<u32>, k: u32, c: Seq<u8>) -> u32
    decreases c.len(),
{
    if c.len() == 0 {
        k
    } else {
        run_key(t, k, c.drop_last()) ^ t[c.last() as int]
    }
}

/// The ciphertext that encodes plaintext `p` from key `k`: the inverse of `decode_run`.
pub open spec fn encode_run(t: Seq<u32>, k: u32, p: Seq<u8>) -> Seq<u8>
    decreases p.len(),
{
    if p.len() == 0 {
        Seq::empty()
    } else {
        let pre = p.drop_last();
        encode_run(t, k, pre).push(p.last() ^ (encode_key(t, k, pre) as u8))
    }
}

/// The key after plaintext `p` was encoded from key `k`.
pub open spec fn encode_key(t: Seq<u32>, k: u32, p: Seq<u8>) -> u32
    decreases p.len(),
{
    if p.len() == 0 {
        k
    } else {
        let pre = p.drop_last();
        let kk = encode_key(t, k, pre);
        kk ^ t[(p.last() ^ (kk as u8)) as int]
    }
}

/// The table and the first key are functions of the seed alone: two files
/// with the same seed get the same table and key, and that key is the
/// table's last entry.
pub proof fn lemma_table_from_seed(a: Seq<u8>, b: Seq<u8>)
    requires
        a.len() >= 4,
        b.len() >= 4,
        le_u32(a, 0) == le_u32(b, 0),
    ensures
        cipher_table(le_u32(a, 0) as u32) == cipher_table(le_u32(b, 0) as u32),
        initial_key(le_u32(a, 0) as u32) == initial_key(le_u32(b, 0) as u32),
        initial_key(le_u32(a, 0) as u32) == cipher_table(le_u32(a, 0) as u32)[255],
        cipher_table(le_u32(a, 0) as u32).len() == 256,
{
}

/// Pairs of bytes read little-endian as 16-bit units.
pub open spec fn wide_units(b: Seq<u8>) -> Seq<u16> {
    Seq::new(b.len() / 2, |i: int| (b[2 * i] + 256 * b[2 * i + 1]) as u16)
}

/// Encoding a plaintext and decoding the result from the same key gives the
/// plaintext back, and leaves both sides with the same key.
pub proof fn lemma_run_round_trip(t: Seq<u32>, k: u32, p: Seq<u8>)
    ensures
        encode_run(t, k, p).len() == p.len(),
        decode_run(t, k, encode_run(t, k, p)) == p,
        run_key(t, k, encode_run(t, k, p)) == encode_key(t, k, p),
    decreases p.len(),
{
    if p.len() > 0 {
        let pre = p.drop_last();
        lemma_run_round_trip(t, k, pre);
        let c = encode_run(t, k, p);
        assert(c.drop_last() =~= encode_run(t, k, pre));
        let kk = encode_key(t, k, pre);
        let x = p.last();
        assert((x ^ (kk as u8)) ^ (kk as u8) == x) by (bit_vector);
        assert(decode_run(t, k, c) =~= p);
    }
}

pub proof fn lemma_decode_run_len(t: Seq<u32>, k: u32, c: Seq<u8>)
    ensures
        decode_run(t, k, c).len() == c.len(),
    decreases c.len(),
{
    if c.len() > 0 {
        lemma_decode_run_len(t, k, c.drop_last());
    }
}

proof fn lemma_byte_bounds(raw: u32)
    ensures
        (raw >> 24u32) < 256,
        ((raw >> 16u32) & 0xff) < 256,
        ((raw >> 8u32) & 0xff) < 256,
        (raw & 0xff) < 256,
{
    assert((raw >> 24u32) < 256) by (bit_vector);
    assert(((raw >> 16u32) & 0xff) < 256) by (bit_vector);
    assert(((raw >> 8u32) & 0xff) < 256) by (bit_vector);
    assert((raw & 0xff) < 256) by (bit_vector);
}

/// Where a cipher read stands: byte position and running key.
pub struct CipherPos {
    pub pos: int,
    pub key: u32,
}

/// A `read_int` from `c`: the value and where the read leaves the stream.
pub open spec fn int_at(d: Seq<u8>, t: Seq<u32>, c: CipherPos) -> Option<(u32, CipherPos)> {
    if 0 <= c.pos && c.pos + 4 <= d.len() {
        let raw = le_u32(d, c.pos) as u32;
        Some((raw ^ c.key, CipherPos { pos: c.pos + 4, key: int_key(t, c.key, raw) }))
    } else {
        None
    }
}

/// A `next_int` from `c`: the key stays.
pub open spec fn peek_at(d: Seq<u8>, t: Seq<u32>, c: CipherPos) -> Option<(u32, CipherPos)> {
    if 0 <= c.pos && c.pos + 4 <= d.len() {
        Some(((le_u32(d, c.pos) as u32) ^ c.key, CipherPos { pos: c.pos + 4, key: c.key }))
    } else {
        None
    }
}

/// A `read_byte` from `c`.
pub open spec fn byte_at(d: Seq<u8>, t: Seq<u32>, c: CipherPos) -> Option<(u8, CipherPos)> {
    if 0 <= c.pos && c.pos + 1 <= d.len() {
        let raw = d[c.pos];
        let k = c.key ^ t[raw as int];
        Some((raw ^ (k as u8), CipherPos { pos: c.pos + 1, key: k }))
    } else {
        None
    }
}

/// A `read_str` from `c`.
pub open spec fn text_at(d: Seq<u8>, t: Seq<u32>, c: CipherPos) -> Option<(Seq<char>, CipherPos)> {
    match int_at(d, t, c) {
        None => None,
        Some((len, c1)) => {
            let cr = d.subrange(c1.pos, c1.pos + len);
            let plain = decode_run(t, c1.key, cr);
            if c1.pos + len <= d.len() && valid_utf8(plain) {
                Some((decode_utf8(plain), CipherPos { pos: c1.pos + len, key: run_key(t, c1.key, cr) }))
            } else {
                None
            }
        },
    }
}

/// A `read_wide_string` from `c`.
pub open spec fn wide_at(d: Seq<u8>, t: Seq<u32>, c: CipherPos) -> Option<(Seq<char>, CipherPos)> {
    match int_at(d, t, c) {
        None => None,
        Some((len, c1)) => {
            let cr = d.subrange(c1.pos, c1.pos + 2 * len);
            let units = wide_units(decode_run(t, c1.key, cr));
            if c1.pos + 2 * len <= d.len() && 2 * len <= u32::MAX && utf16_decode(units) is Some {
                Some((utf16_decode(units)->0, CipherPos { pos: c1.pos + 2 * len, key: run_key(t, c1.key, cr) }))
            } else {
                None
            }
        },
    }
}

/// A block opened in the stream: its declared length and where it must end.
pub struct Block {
    pub len: u32,
    pub end: u32,
}

/// A cipher-decoding reader over a save file.
pub struct Decrypt {
    slice_reader: ByteReader,
    table: Vec<u32>,
    key: u32,
}

impl Decrypt {
    /// The file's bytes, seed included.
    pub closed spec fn data(&self) -> Seq<u8> {
        self.slice_reader.data()
    }

    /// The read position in the file.
    pub closed spec fn pos(&self) -> int {
        self.slice_reader.pos()
    }

    /// The substitution table.
    pub closed spec fn table(&self) -> Seq<u32> {
        self.table@
    }

    /// The running key.
    pub closed spec fn key(&self) -> u32 {
        self.key
    }

    /// Where the reader stands.
    pub open spec fn at(&self) -> CipherPos {
        CipherPos { pos: self.pos(), key: self.key() }
    }

    pub open spec fn wf(&self) -> bool {
        &&& 0 <= self.pos() <= self.data().len()
        &&& self.table().len() == 256
    }

    /// The raw 32-bit word at the position.
    pub open spec fn raw_int(&self) -> u32 {
        le_u32(self.data(), self.pos()) as u32
    }

    /// Whether `n` more bytes remain.
    pub open spec fn has(&self, n: int) -> bool {
        self.pos() + n <= self.data().len()
    }

    /// `other` reads the same file with the same table.
    pub open spec fn same_file(&self, other: &Decrypt) -> bool {
        &&& other.data() == self.data()
        &&& other.table() == self.table()
        &&& other.wf()
    }

    /// Takes the seed from the first four bytes and builds the table; the
    /// running key is then the table's last entry.
    pub fn new(bytes: Vec<u8>) -> (r: Result<Self, DecodeError>)
        ensures
            r is Ok <==> bytes@.len() >= 4,
            r is Ok ==> ({
                let d = r->Ok_0;
                let seed = le_u32(bytes@, 0) as u32;
                &&& d.wf()
                &&& d.data() == bytes@
                &&& d.pos() == 4
                &&& d.table() == cipher_table(seed)
                &&& d.key() == initial_key(seed)
            }),
            r is Err ==> r == Err::<Self, DecodeError>(DecodeError::OutOfBounds),
    {
        let mut reader = ByteReader::from_vec(bytes);
        let seed = reader.read_u32()?;
        let ghost k0 = seed ^ SEED_MASK;
        let mut k = seed ^ SEED_MASK;
        let mut table: Vec<u32> = Vec::with_capacity(256);
        let mut i: usize = 0;
        while i < 256
            invariant
                i <= 256,
                table@.len() == i,
                k == key_chain(k0, i as nat),
                forall|j: int| 0 <= j < i ==> table@[j] == key_chain(k0, (j + 1) as nat),
            decreases 256 - i,
        {
            k = ((k >> 1u32) | (k << 31u32)).wrapping_mul(PRIME);
            table.push(k);
            i = i + 1;
        }
        assert(table@ =~= cipher_table(seed));
        Ok(Decrypt { slice_reader: reader, table, key: k })
    }

    /// The running key.
    pub fn current_key(&self) -> (r: u32)
        ensures
            r == self.key(),
    {
        self.key
    }

    /// Entry `i` of the substitution table.
    pub fn table_entry(&self, i: usize) -> (r: u32)
        requires
            self.wf(),
            i < 256,
        ensures
            r == self.table()[i as int],
    {
        self.table[i]
    }

    /// The read position.
    pub fn position(&self) -> (r: usize)
        ensures
            r == self.pos(),
    {
        self.slice_reader.position()
    }

    /// Reads a word: the plaintext is the raw word XOR the key; then each raw
    /// byte, most significant first, XORs its table entry into the key.
    pub fn read_int(&mut self) -> (r: Result<u32, DecodeError>)
        requires
            old(self).wf(),
        ensures
            int_at(old(self).data(), old(self).table(), old(self).at()) == (if r is Ok {
                Some((r->Ok_0, final(self).at()))
            } else {
                None::<(u32, CipherPos)>
            }),
            old(self).same_file(final(self)),
            r is Ok <==> old(self).has(4),
            r is Ok ==> r->Ok_0 == old(self).raw_int() ^ old(self).key()
                && final(self).pos() == old(self).pos() + 4
                && final(self).key() == int_key(old(self).table(), old(self).key(), old(self).raw_int()),
            r is Err ==> r == Err::<u32, DecodeError>(DecodeError::OutOfBounds)
                && final(self).pos() == old(self).pos() && final(self).key() == old(self).key(),
    {
        let num = self.slice_reader.read_u32()?;
        let ret = num ^ self.key;
        proof {
            lemma_byte_bounds(num);
        }
        let k = self.key ^ self.table[(num >> 24u32) as usize] ^ self.table[((num >> 16u32) & 0xff) as usize]
            ^ self.table[((num >> 8u32) & 0xff) as usize] ^ self.table[(num & 0xff) as usize];
        self.key = k;
        Ok(ret)
    }

    /// Reads a word without touching the key: the raw word XOR the key.
    pub fn next_int(&mut self) -> (r: Result<u32, DecodeError>)
        requires
            old(self).wf(),
        ensures
            peek_at(old(self).data(), old(self).table(), old(self).at()) == (if r is Ok {
                Some((r->Ok_0, final(self).at()))
            } else {
                None::<(u32, CipherPos)>
            }),
            old(self).same_file(final(self)),
            final(self).key() == old(self).key(),
            r is Ok <==> old(self).has(4),
            r is Ok ==> r->Ok_0 == old(self).raw_int() ^ old(self).key() && final(self).pos() == old(self).pos() + 4,
            r is Err ==> r == Err::<u32, DecodeError>(DecodeError::OutOfBounds) && final(self).pos() == old(self).pos(),
    {
        let num = self.slice_reader.read_u32()?;
        Ok(num ^ self.key)
    }

    /// Reads a byte: the key first XORs in the raw byte's table entry, then
    /// the plaintext is the raw byte XOR the key's low byte.
    pub fn read_byte(&mut self) -> (r: Result<u8, DecodeError>)
        requires
            old(self).wf(),
        ensures
            byte_at(old(self).data(), old(self).table(), old(self).at()) == (if r is Ok {
                Some((r->Ok_0, final(self).at()))
            } else {
                None::<(u8, CipherPos)>
            }),
            old(self).same_file(final(self)),
            r is Ok <==> old(self).has(1),
            r is Ok ==> ({
                let raw = old(self).data()[old(self).pos()];
                let k = old(self).key() ^ old(self).table()[raw as int];
                &&& final(self).key() == k
                &&& r->Ok_0 == raw ^ (k as u8)
                &&& final(self).pos() == old(self).pos() + 1
            }),
            r is Err ==> r == Err::<u8, DecodeError>(DecodeError::OutOfBounds)
                && final(self).pos() == old(self).pos() && final(self).key() == old(self).key(),
    {
        let byte = self.slice_reader.read_byte()?;
        self.key = self.key ^ self.table[byte as usize];
        Ok(byte ^ (self.key as u8))
    }

    /// Reads a byte as a flag: true when it is not zero.
    pub fn read_bool(&mut self) -> (r: Result<bool, DecodeError>)
        requires
            old(self).wf(),
        ensures
            old(self).same_file(final(self)),
            r is Ok <==> old(self).has(1),
            r is Ok ==> ({
                let raw = old(self).data()[old(self).pos()];
                let k = old(self).key() ^ old(self).table()[raw as int];
                &&& final(self).key() == k
                &&& r->Ok_0 == (raw ^ (k as u8) != 0)
                &&& final(self).pos() == old(self).pos() + 1
            }),
            r is Err ==> r == Err::<bool, DecodeError>(DecodeError::OutOfBounds)
                && final(self).pos() == old(self).pos() && final(self).key() == old(self).key(),
    {
        let b = self.read_byte()?;
        Ok(b != 0)
    }

    /// Reads `n` raw bytes and decodes them left to right.
    fn read_run(&mut self, n: u32) -> (r: Result<Vec<u8>, DecodeError>)
        requires
            old(self).wf(),
        ensures
            old(self).same_file(final(self)),
            r is Ok <==> old(self).has(n as int),
            r is Ok ==> ({
                let c = old(self).data().subrange(old(self).pos(), old(self).pos() + n);
                &&& r->Ok_0@ == decode_run(old(self).table(), old(self).key(), c)
                &&& final(self).key() == run_key(old(self).table(), old(self).key(), c)
                &&& final(self).pos() == old(self).pos() + n
            }),
            r is Err ==> r == Err::<Vec<u8>, DecodeError>(DecodeError::OutOfBounds)
                && final(self).pos() == old(self).pos() && final(self).key() == old(self).key(),
    {
        let buf = self.slice_reader.read_n_bytes(n)?;
        let ghost t = self.table@;
        let ghost k0 = self.key;
        let ghost d = self.slice_reader.data();
        let ghost q = self.slice_reader.pos();
        let mut out: Vec<u8> = Vec::with_capacity(n as usize);
        let mut i: usize = 0;
        while i < buf.len()
            invariant
                self.table@ == t,
                t.len() == 256,
                self.slice_reader.data() == d,
                self.slice_reader.pos() == q,
                self.slice_reader.wf(),
                i <= buf@.len(),
                out@ == decode_run(t, k0, buf@.take(i as int)),
                self.key == run_key(t, k0, buf@.take(i as int)),
            decreases buf@.len() - i,
        {
            let c = buf[i];
            assert(buf@.take(i + 1).drop_last() =~= buf@.take(i as int));
            out.push(c ^ (self.key as u8));
            self.key = self.key ^ self.table[c as usize];
            i = i + 1;
        }
        assert(buf@.take(buf@.len() as int) =~= buf@);
        Ok(out)
    }

    /// Reads a length with `read_int`, then that many bytes decoded left to
    /// right as UTF-8 text; a zero length gives the empty text and touches
    /// nothing beyond the length.
    pub fn read_str(&mut self) -> (r: Result<String, DecodeError>)
        requires
            old(self).wf(),
        ensures
            text_at(old(self).data(), old(self).table(), old(self).at()) == (if r is Ok {
                Some((r->Ok_0@, final(self).at()))
            } else {
                None::<(Seq<char>, CipherPos)>
            }),
            old(self).same_file(final(self)),
            ({
                let t = old(self).table();
                let p = old(self).pos();
                let len = old(self).raw_int() ^ old(self).key();
                let k1 = int_key(t, old(self).key(), old(self).raw_int());
                let c = old(self).data().subrange(p + 4, p + 4 + len);
                let plain = decode_run(t, k1, c);
                &&& r is Ok <==> old(self).has(4 + len) && valid_utf8(plain)
                &&& r is Ok ==> r->Ok_0@ == decode_utf8(plain) && final(self).pos() == p + 4 + len
                    && final(self).key() == run_key(t, k1, c)
                &&& old(self).has(4) && len == 0 ==> r is Ok && r->Ok_0@.len() == 0
                    && final(self).pos() == p + 4 && final(self).key() == k1
                &&& !old(self).has(4 + len) ==> r == Err::<String, DecodeError>(DecodeError::OutOfBounds)
                &&& old(self).has(4 + len) && !valid_utf8(plain)
                    ==> r == Err::<String, DecodeError>(DecodeError::InvalidText)
            }),
    {
        let len = self.read_int()?;
        if len == 0 {
            let ghost c = self.data().subrange(self.pos(), self.pos());
            assert(c.len() == 0);
            return Ok(String::new());
        }
        let plain = self.read_run(len)?;
        match utf8_string(plain) {
            Some(s) => Ok(s),
            None => Err(DecodeError::InvalidText),
        }
    }

    /// Reads a length in 16-bit units with `read_int`, decodes twice that many
    /// bytes as `read_str` does, and reads the result as little-endian UTF-16.
    pub fn read_wide_string(&mut self) -> (r: Result<String, DecodeError>)
        requires
            old(self).wf(),
        ensures
            wide_at(old(self).data(), old(self).table(), old(self).at()) == (if r is Ok {
                Some((r->Ok_0@, final(self).at()))
            } else {
                None::<(Seq<char>, CipherPos)>
            }),
            old(self).same_file(final(self)),
            ({
                let t = old(self).table();
                let p = old(self).pos();
                let len = old(self).raw_int() ^ old(self).key();
                let k1 = int_key(t, old(self).key(), old(self).raw_int());
                let c = old(self).data().subrange(p + 4, p + 4 + 2 * len);
                let units = wide_units(decode_run(t, k1, c));
                &&& r is Ok <==> old(self).has(4 + 2 * len) && 2 * len <= u32::MAX
                    && utf16_decode(units) is Some
                &&& r is Ok ==> r->Ok_0@ == utf16_decode(units)->0 && final(self).pos() == p + 4 + 2 * len
                    && final(self).key() == run_key(t, k1, c)
                &&& old(self).has(4) && len == 0 ==> r is Ok && r->Ok_0@.len() == 0
                    && final(self).pos() == p + 4 && final(self).key() == k1
            }),
    {
        let len = self.read_int()?;
        if len > u32::MAX / 2 {
            return Err(DecodeError::OutOfBounds);
        }
        let ghost t = self.table();
        let ghost k1 = self.key();
        let ghost c = self.data().subrange(self.pos(), self.pos() + 2 * len);
        let plain = self.read_run(len * 2)?;
        proof {
            lemma_decode_run_len(t, k1, c);
        }
        let mut units: Vec<u16> = Vec::with_capacity(len as usize);
        let mut i: usize = 0;
        while i < len as usize
            invariant
                plain@.len() == 2 * len,
                len <= u32::MAX / 2,
                i <= len,
                units@ == wide_units(plain@).take(i as int),
            decreases len - i,
        {
            let u = plain[2 * i] as u16 + plain[2 * i + 1] as u16 * 256;
            units.push(u);
            i = i + 1;
            assert(units@ =~= wide_units(plain@).take(i as int));
        }
        assert(units@ =~= wide_units(plain@));
        match utf16_string(units.as_slice()) {
            Some(s) => Ok(s),
            None => Err(DecodeError::InvalidText),
        }
    }

    /// Opens a block: reads its tag with `read_int` and its length with
    /// `next_int`; the block must end that many bytes after the length.
    pub fn read_block_start(&mut self) -> (r: Result<(u32, Block), DecodeError>)
        requires
            old(self).wf(),
        ensures
            old(self).same_file(final(self)),
            r is Ok ==> fields_at(old(self).data(), old(self).table(), old(self).at(), seq![FieldKind::Int, FieldKind::Peek])
                == Some((seq![FieldValue::Int(r->Ok_0.0), FieldValue::Int(r->Ok_0.1.len)], final(self).at()))
                && r->Ok_0.1.end == final(self).pos() + r->Ok_0.1.len,
            fields_at(old(self).data(), old(self).table(), old(self).at(), seq![FieldKind::Int, FieldKind::Peek]) is None
                ==> r is Err,
            ({
                let p = old(self).pos();
                let tag = old(self).raw_int() ^ old(self).key();
                let k1 = int_key(old(self).table(), old(self).key(), old(self).raw_int());
                let len = (le_u32(old(self).data(), p + 4) as u32) ^ k1;
                &&& r is Ok <==> old(self).has(8) && p + 8 + len <= u32::MAX
                &&& r is Ok ==> r->Ok_0.0 == tag && r->Ok_0.1.len == len && r->Ok_0.1.end == p + 8 + len
                    && final(self).pos() == p + 8 && final(self).key() == k1
            }),
    {
        proof {
            lemma_fields_short(self.data(), self.table(), self.at(), FieldKind::Int, FieldKind::Peek);
        }
        let tag = self.read_int()?;
        let len = self.next_int()?;
        let index = self.slice_reader.position();
        if index > u32::MAX as usize || len > u32::MAX - index as u32 {
            return Err(DecodeError::OutOfBounds);
        }
        Ok((tag, Block { len, end: index as u32 + len }))
    }

    /// Checks a block's end: fails when the position is not the block's end;
    /// otherwise reads the sentinel with `next_int` and tells whether it is zero.
    pub fn read_block_end(&mut self, block: &Block) -> (r: Result<bool, DecodeError>)
        requires
            old(self).wf(),
        ensures
            old(self).same_file(final(self)),
            final(self).key() == old(self).key(),
            old(self).pos() != block.end ==> r == Err::<bool, DecodeError>(DecodeError::BlockMisaligned)
                && final(self).pos() == old(self).pos(),
            old(self).pos() == block.end && !old(self).has(4)
                ==> r == Err::<bool, DecodeError>(DecodeError::OutOfBounds),
            old(self).pos() == block.end && old(self).has(4) ==> r == Ok::<bool, DecodeError>(
                old(self).raw_int() ^ old(self).key() == 0,
            ) && final(self).pos() == old(self).pos() + 4,
    {
        let stream_pos = self.slice_reader.position();
        if block.end as usize != stream_pos {
            return Err(DecodeError::BlockMisaligned);
        }
        let sentinel = self.next_int()?;
        Ok(sentinel == 0)
    }

    /// Closes a block, treating a misplaced end and a nonzero sentinel alike as fatal.
    pub fn close_block(&mut self, block: &Block) -> (r: Result<(), DecodeError>)
        requires
            old(self).wf(),
        ensures
            old(self).same_file(final(self)),
            final(self).key() == old(self).key(),
            r is Ok <==> old(self).pos() == block.end && old(self).has(4)
                && old(self).raw_int() ^ old(self).key() == 0,
            r is Ok ==> final(self).pos() == old(self).pos() + 4,
            close_at(old(self).data(), old(self).table(), old(self).at(), block.end as int) == (if r is Ok {
                Some(final(self).at())
            } else {
                None::<CipherPos>
            }),
            old(self).pos() == block.end && old(self).has(4) && old(self).raw_int() ^ old(self).key() != 0
                ==> r == Err::<(), DecodeError>(DecodeError::BlockSentinel),
    {
        if self.read_block_end(block)? {
            Ok(())
        } else {
            Err(DecodeError::BlockSentinel)
        }
    }
}

} // verus!
