//! A cursor that owns its bytes outright, for a single reader.
use vstd::prelude::*;

use crate::byte_reader::{find_byte, lemma_find_byte, le_u16, le_u32, le_u64};
use crate::error::DecodeError;
use crate::text::{lossy_string, lossy_text, utf8_string};
use vstd::utf8::{decode_utf8, valid_utf8};

verus! {

/// Bytes and a read position into them.
pub struct ByteVec {
    pub bytes: Vec<u8>,
    pub index: usize,
}

impl ByteVec {
    /// Whether `n` bytes remain after the position.
    pub open spec fn has(&self, n: int) -> bool {
        self.index + n <= self.bytes@.len()
    }

    pub fn read_byte(&mut self) -> (r: Result<u8, DecodeError>)
        ensures
            final(self).bytes@ == old(self).bytes@,
            r is Ok <==> old(self).has(1),
            r is Ok ==> r->Ok_0 == old(self).bytes@[old(self).index as int] && final(self).index == old(self).index + 1,
            r is Err ==> r == Err::<u8, DecodeError>(DecodeError::OutOfBounds) && final(self).index == old(self).index,
    {
        if self.index < self.bytes.len() {
            let b = self.bytes[self.index];
            self.index = self.index + 1;
            Ok(b)
        } else {
            Err(DecodeError::OutOfBounds)
        }
    }

    pub fn read_u16(&mut self) -> (r: Result<u16, DecodeError>)
        ensures
            final(self).bytes@ == old(self).bytes@,
            r is Ok <==> old(self).has(2),
            r is Ok ==> r->Ok_0 == le_u16(old(self).bytes@, old(self).index as int) && final(self).index
                == old(self).index + 2,
            r is Err ==> r == Err::<u16, DecodeError>(DecodeError::OutOfBounds) && final(self).index == old(self).index,
    {
        if self.index <= self.bytes.len() && self.bytes.len() - self.index >= 2 {
            let i = self.index;
            let v = self.bytes[i] as u16 + self.bytes[i + 1] as u16 * 256;
            self.index = i + 2;
            Ok(v)
        } else {
            Err(DecodeError::OutOfBounds)
        }
    }

    pub fn read_u32(&mut self) -> (r: Result<u32, DecodeError>)
        ensures
            final(self).bytes@ == old(self).bytes@,
            r is Ok <==> old(self).has(4),
            r is Ok ==> r->Ok_0 == le_u32(old(self).bytes@, old(self).index as int) && final(self).index
                == old(self).index + 4,
            r is Err ==> r == Err::<u32, DecodeError>(DecodeError::OutOfBounds) && final(self).index == old(self).index,
    {
        if self.index <= self.bytes.len() && self.bytes.len() - self.index >= 4 {
            let i = self.index;
            let lo = self.bytes[i] as u32 + self.bytes[i + 1] as u32 * 256;
            let hi = self.bytes[i + 2] as u32 + self.bytes[i + 3] as u32 * 256;
            self.index = i + 4;
            Ok(lo + hi * 65536)
        } else {
            Err(DecodeError::OutOfBounds)
        }
    }

    pub fn read_u64(&mut self) -> (r: Result<u64, DecodeError>)
        ensures
            final(self).bytes@ == old(self).bytes@,
            r is Ok <==> old(self).has(8),
            r is Ok ==> r->Ok_0 == le_u64(old(self).bytes@, old(self).index as int) && final(self).index
                == old(self).index + 8,
            r is Err ==> r == Err::<u64, DecodeError>(DecodeError::OutOfBounds) && final(self).index == old(self).index,
    {
        if self.index <= self.bytes.len() && self.bytes.len() - self.index >= 8 {
            let lo = self.read_u32().unwrap();
            let hi = self.read_u32().unwrap();
            Ok(lo as u64 + hi as u64 * 4294967296)
        } else {
            Err(DecodeError::OutOfBounds)
        }
    }

    /// Copies the next `n` bytes out.
    pub fn read_n_bytes(&mut self, n: u32) -> (r: Result<Vec<u8>, DecodeError>)
        ensures
            final(self).bytes@ == old(self).bytes@,
            r is Ok <==> old(self).has(n as int),
            r is Ok ==> r->Ok_0@ == old(self).bytes@.subrange(old(self).index as int, old(self).index + n)
                && final(self).index == old(self).index + n,
            r is Err ==> r == Err::<Vec<u8>, DecodeError>(DecodeError::OutOfBounds) && final(self).index == old(self).index,
    {
        let n = n as usize;
        if self.index > self.bytes.len() || self.bytes.len() - self.index < n {
            return Err(DecodeError::OutOfBounds);
        }
        let start = self.index;
        let mut out: Vec<u8> = Vec::with_capacity(n);
        let mut i: usize = 0;
        while i < n
            invariant
                start + n <= self.bytes@.len() <= usize::MAX,
                i <= n,
                out@ == self.bytes@.subrange(start as int, start + i),
            decreases n - i,
        {
            out.push(self.bytes[start + i]);
            i = i + 1;
            assert(out@ =~= self.bytes@.subrange(start as int, start + i));
        }
        self.index = start + n;
        Ok(out)
    }

    /// Reads `len` bytes as UTF-8 text.
    pub fn read_string(&mut self, len: u32) -> (r: Result<String, DecodeError>)
        ensures
            final(self).bytes@ == old(self).bytes@,
            ({
                let b = old(self).bytes@.subrange(old(self).index as int, old(self).index + len);
                &&& r is Ok <==> old(self).has(len as int) && valid_utf8(b)
                &&& r is Ok ==> r->Ok_0@ == decode_utf8(b) && final(self).index == old(self).index + len
                &&& !old(self).has(len as int) ==> r == Err::<String, DecodeError>(DecodeError::OutOfBounds)
            }),
    {
        let b = self.read_n_bytes(len)?;
        match utf8_string(b) {
            Some(s) => Ok(s),
            None => Err(DecodeError::InvalidText),
        }
    }

    /// Reads up to the next zero byte and consumes it; fails when no zero
    /// byte follows the position.
    pub fn read_cstring(&mut self) -> (r: Result<String, DecodeError>)
        ensures
            final(self).bytes@ == old(self).bytes@,
            ({
                let s = old(self).bytes@;
                let p = old(self).index as int;
                let z = find_byte(s, 0, p);
                &&& r is Ok <==> p <= s.len() && z < s.len()
                &&& r is Ok ==> r->Ok_0@ == lossy_text(s.subrange(p, z)) && final(self).index == z + 1
            }),
    {
        let ghost s = self.bytes@;
        let ghost p = self.index as int;
        if self.index > self.bytes.len() {
            return Err(DecodeError::OutOfBounds);
        }
        proof {
            lemma_find_byte(s, 0, p);
        }
        let mut buf: Vec<u8> = Vec::new();
        loop
            invariant
                self.bytes@ == s,
                s == old(self).bytes@,
                p == old(self).index,
                0 <= p <= self.index <= find_byte(s, 0, p),
                find_byte(s, 0, self.index as int) == find_byte(s, 0, p),
                buf@ == s.subrange(p, self.index as int),
                p <= s.len(),
            decreases s.len() - self.index,
        {
            let ghost q = self.index as int;
            proof {
                lemma_find_byte(s, 0, q);
            }
            if self.index >= self.bytes.len() {
                return Err(DecodeError::OutOfBounds);
            }
            let b = self.bytes[self.index];
            self.index = self.index + 1;
            if b == 0 {
                return Ok(lossy_string(buf.as_slice()));
            }
            buf.push(b);
            assert(buf@ =~= s.subrange(p, self.index as int));
        }
    }
}

} // verus!
