//! A bounds-checked cursor over a shared, immutable byte buffer.
use std::sync::Arc;
use vstd::prelude::*;

use crate::error::DecodeError;
use crate::text::{lossy_string, lossy_text, utf8_string};
use vstd::utf8::{decode_utf8, valid_utf8};

verus! {

/// The little-endian 16-bit value of the two bytes at `i`.
pub open spec fn le_u16(s: Seq<u8>, i: int) -> int {
    s[i] + 256 * s[i + 1]
}

/// The little-endian 32-bit value of the four bytes at `i`.
pub open spec fn le_u32(s: Seq<u8>, i: int) -> int {
    le_u16(s, i) + 65536 * le_u16(s, i + 2)
}

/// The little-endian 64-bit value of the eight bytes at `i`.
pub open spec fn le_u64(s: Seq<u8>, i: int) -> int {
    le_u32(s, i) + 4294967296 * le_u32(s, i + 4)
}

/// Index of the first byte equal to `b` at or after `i`, or the length if none.
pub open spec fn find_byte(s: Seq<u8>, b: u8, i: int) -> int
    decreases s.len() - i,
{
    if i >= s.len() {
        s.len() as int
    } else if s[i] == b {
        i
    } else {
        find_byte(s, b, i + 1)
    }
}

pub proof fn lemma_find_byte(s: Seq<u8>, b: u8, i: int)
    requires
        0 <= i <= s.len(),
    ensures
        i <= find_byte(s, b, i) <= s.len(),
        find_byte(s, b, i) < s.len() ==> s[find_byte(s, b, i)] == b,
        forall|j: int| i <= j < find_byte(s, b, i) ==> s[j] != b,
    decreases s.len() - i,
{
    if i < s.len() && s[i] != b {
        lemma_find_byte(s, b, i + 1);
    }
}

/// A position with no `b` between `i` and it, that holds `b` or is the end,
/// is the one `find_byte` gives.
pub proof fn lemma_find_byte_at(s: Seq<u8>, b: u8, i: int, j: int)
    requires
        0 <= i <= j <= s.len(),
        forall|k: int| i <= k < j ==> s[k] != b,
        j == s.len() || s[j] == b,
    ensures
        find_byte(s, b, i) == j,
    decreases j - i,
{
    if i < j {
        lemma_find_byte_at(s, b, i + 1, j);
    }
}

/// A copy of `d[a..b]`.
pub fn copy_range(d: &[u8], a: usize, b: usize) -> (r: Vec<u8>)
    requires
        a <= b <= d@.len(),
    ensures
        r@ == d@.subrange(a as int, b as int),
{
    let mut out: Vec<u8> = Vec::with_capacity(b - a);
    let mut i = a;
    while i < b
        invariant
            a <= i <= b <= d@.len(),
            out@ == d@.subrange(a as int, i as int),
        decreases b - i,
    {
        out.push(d[i]);
        i = i + 1;
        assert(out@ =~= d@.subrange(a as int, i as int));
    }
    out
}

/// A read position over bytes shared between cheap copies of the cursor.
#[derive(Clone)]
pub struct ByteReader {
    bytes: Arc<Vec<u8>>,
    index: usize,
}

impl ByteReader {
    /// The bytes read from.
    pub closed spec fn data(&self) -> Seq<u8> {
        (*self.bytes)@
    }

    /// The read position.
    pub closed spec fn pos(&self) -> int {
        self.index as int
    }

    /// The position never lies past the end of the bytes.
    pub open spec fn wf(&self) -> bool {
        0 <= self.pos() <= self.data().len()
    }

    /// The bytes from the position on.
    pub open spec fn rest(&self) -> Seq<u8> {
        self.data().subrange(self.pos(), self.data().len() as int)
    }

    pub fn from_vec(bytes: Vec<u8>) -> (r: Self)
        ensures
            r.wf(),
            r.data() == bytes@,
            r.pos() == 0,
    {
        ByteReader { bytes: Arc::new(bytes), index: 0 }
    }

    pub fn len(&self) -> (r: usize)
        ensures
            r == self.data().len(),
    {
        self.bytes.len()
    }

    pub fn position(&self) -> (r: usize)
        ensures
            r == self.pos(),
    {
        self.index
    }

    /// Moves the position to `pos`; fails, leaving it, when `pos` lies past the end.
    pub fn seek(&mut self, pos: usize) -> (r: Result<(), DecodeError>)
        requires
            old(self).wf(),
        ensures
            final(self).wf(),
            final(self).data() == old(self).data(),
            r is Ok <==> pos <= old(self).data().len(),
            r is Ok ==> final(self).pos() == pos,
            r is Err ==> r == Err::<(), DecodeError>(DecodeError::OutOfBounds) && final(self).pos() == old(self).pos(),
    {
        if pos <= self.bytes.len() {
            self.index = pos;
            Ok(())
        } else {
            Err(DecodeError::OutOfBounds)
        }
    }

    pub fn read_byte(&mut self) -> (r: Result<u8, DecodeError>)
        requires
            old(self).wf(),
        ensures
            final(self).wf(),
            final(self).data() == old(self).data(),
            r is Ok <==> old(self).pos() + 1 <= old(self).data().len(),
            r is Ok ==> r->Ok_0 == old(self).data()[old(self).pos()] && final(self).pos() == old(self).pos() + 1,
            r is Err ==> r == Err::<u8, DecodeError>(DecodeError::OutOfBounds) && final(self).pos() == old(self).pos(),
    {
        if self.index < self.bytes.len() {
            let b = self.bytes[self.index];
            self.index = self.index + 1;
            Ok(b)
        } else {
            Err(DecodeError::OutOfBounds)
        }
    }

    pub fn read_u16(&mut self) -> (r: Result<u16, DecodeError>)
        requires
            old(self).wf(),
        ensures
            final(self).wf(),
            final(self).data() == old(self).data(),
            r is Ok <==> old(self).pos() + 2 <= old(self).data().len(),
            r is Ok ==> r->Ok_0 == le_u16(old(self).data(), old(self).pos()) && final(self).pos() == old(self).pos() + 2,
            r is Err ==> r == Err::<u16, DecodeError>(DecodeError::OutOfBounds) && final(self).pos() == old(self).pos(),
    {
        if self.bytes.len() - self.index >= 2 {
            let i = self.index;
            let v = self.bytes[i] as u16 + self.bytes[i + 1] as u16 * 256;
            self.index = i + 2;
            Ok(v)
        } else {
            Err(DecodeError::OutOfBounds)
        }
    }

    pub fn read_u32(&mut self) -> (r: Result<u32, DecodeError>)
        requires
            old(self).wf(),
        ensures
            final(self).wf(),
            final(self).data() == old(self).data(),
            r is Ok <==> old(self).pos() + 4 <= old(self).data().len(),
            r is Ok ==> r->Ok_0 == le_u32(old(self).data(), old(self).pos()) && final(self).pos() == old(self).pos() + 4,
            r is Err ==> r == Err::<u32, DecodeError>(DecodeError::OutOfBounds) && final(self).pos() == old(self).pos(),
    {
        if self.bytes.len() - self.index >= 4 {
            let i = self.index;
            let lo = self.bytes[i] as u32 + self.bytes[i + 1] as u32 * 256;
            let hi = self.bytes[i + 2] as u32 + self.bytes[i + 3] as u32 * 256;
            self.index = i + 4;
            Ok(lo + hi * 65536)
        } else {
            Err(DecodeError::OutOfBounds)
        }
    }

    pub fn read_u64(&mut self) -> (r: Result<u64, DecodeError>)
        requires
            old(self).wf(),
        ensures
            final(self).wf(),
            final(self).data() == old(self).data(),
            r is Ok <==> old(self).pos() + 8 <= old(self).data().len(),
            r is Ok ==> r->Ok_0 == le_u64(old(self).data(), old(self).pos()) && final(self).pos() == old(self).pos() + 8,
            r is Err ==> r == Err::<u64, DecodeError>(DecodeError::OutOfBounds) && final(self).pos() == old(self).pos(),
    {
        if self.bytes.len() - self.index >= 8 {
            let lo = self.read_u32().unwrap();
            let hi = self.read_u32().unwrap();
            Ok(lo as u64 + hi as u64 * 4294967296)
        } else {
            Err(DecodeError::OutOfBounds)
        }
    }

    /// Copies the next `n` bytes out.
    pub fn read_n_bytes(&mut self, n: u32) -> (r: Result<Vec<u8>, DecodeError>)
        requires
            old(self).wf(),
        ensures
            final(self).wf(),
            final(self).data() == old(self).data(),
            r is Ok <==> old(self).pos() + n <= old(self).data().len(),
            r is Ok ==> r->Ok_0@ == old(self).data().subrange(old(self).pos(), old(self).pos() + n)
                && final(self).pos() == old(self).pos() + n,
            r is Err ==> r == Err::<Vec<u8>, DecodeError>(DecodeError::OutOfBounds) && final(self).pos() == old(self).pos(),
    {
        let n = n as usize;
        if self.bytes.len() - self.index < n {
            return Err(DecodeError::OutOfBounds);
        }
        let start = self.index;
        let mut out: Vec<u8> = Vec::with_capacity(n);
        let mut i: usize = 0;
        while i < n
            invariant
                self.wf(),
                self.index == start,
                start + n <= self.data().len() <= usize::MAX,
                i <= n,
                out@ == self.data().subrange(start as int, start + i),
            decreases n - i,
        {
            out.push(self.bytes[start + i]);
            i = i + 1;
            assert(out@ =~= self.data().subrange(start as int, start + i));
        }
        self.index = start + n;
        Ok(out)
    }

    /// Reads `len` bytes as UTF-8 text.
    pub fn read_string(&mut self, len: u32) -> (r: Result<String, DecodeError>)
        requires
            old(self).wf(),
        ensures
            final(self).wf(),
            final(self).data() == old(self).data(),
            ({
                let b = old(self).data().subrange(old(self).pos(), old(self).pos() + len);
                &&& r is Ok <==> old(self).pos() + len <= old(self).data().len() && valid_utf8(b)
                &&& r is Ok ==> r->Ok_0@ == decode_utf8(b) && final(self).pos() == old(self).pos() + len
                &&& old(self).pos() + len > old(self).data().len()
                    ==> r == Err::<String, DecodeError>(DecodeError::OutOfBounds)
                &&& old(self).pos() + len <= old(self).data().len() && !valid_utf8(b)
                    ==> r == Err::<String, DecodeError>(DecodeError::InvalidText)
            }),
    {
        let b = self.read_n_bytes(len)?;
        match utf8_string(b) {
            Some(s) => Ok(s),
            None => Err(DecodeError::InvalidText),
        }
    }

    /// Reads up to the next zero byte, or to the end, and consumes the zero;
    /// `None` when the position is already at the end.
    pub fn read_null_string(&mut self) -> (r: Option<String>)
        requires
            old(self).wf(),
        ensures
            final(self).wf(),
            final(self).data() == old(self).data(),
            ({
                let s = old(self).data();
                let p = old(self).pos();
                let z = find_byte(s, 0, p);
                &&& r is None <==> p >= s.len()
                &&& r is None ==> final(self).pos() == p
                &&& r is Some ==> r->0@ == lossy_text(s.subrange(p, z))
                    && (valid_utf8(s.subrange(p, z)) ==> r->0@ == decode_utf8(s.subrange(p, z)))
                    && final(self).pos() == (if z < s.len() { z + 1 } else { z })
            }),
    {
        if self.index >= self.bytes.len() {
            return None;
        }
        let ghost s = self.data();
        let ghost p = self.pos();
        proof {
            lemma_find_byte(s, 0, p);
        }
        let mut buf: Vec<u8> = Vec::new();
        let mut found = false;
        while self.index < self.bytes.len() && !found
            invariant
                self.wf(),
                self.data() == s,
                0 <= p <= self.pos(),
                !found ==> self.pos() <= find_byte(s, 0, p),
                !found ==> find_byte(s, 0, self.pos()) == find_byte(s, 0, p),
                !found ==> buf@ == s.subrange(p, self.pos()),
                found ==> buf@ == s.subrange(p, find_byte(s, 0, p)),
                found ==> find_byte(s, 0, p) < s.len() && self.pos() == find_byte(s, 0, p) + 1,
            decreases s.len() - self.pos(),
        {
            let ghost q = self.pos();
            let b = self.bytes[self.index];
            assert(b == s[q]);
            self.index = self.index + 1;
            proof {
                lemma_find_byte(s, 0, q + 1);
            }
            if b == 0 {
                found = true;
            } else {
                buf.push(b);
                assert(buf@ =~= s.subrange(p, self.pos()));
            }
        }
        Some(lossy_string(buf.as_slice()))
    }
}

} // verus!
