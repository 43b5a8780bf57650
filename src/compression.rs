//! Block decompression of archive payloads.
use vstd::prelude::*;

verus! {

/// What LZ4 block decompression of `src` gives with room for `size` bytes.
pub uninterp spec fn lz4_block(src: Seq<u8>, size: int) -> Seq<u8>;

/// Whether LZ4 block decompression of `src` succeeds with room for `size` bytes.
pub uninterp spec fn lz4_fits(src: Seq<u8>, size: int) -> bool;

/// Relies on `lz4::block::decompress` with an explicit size: whether it
/// succeeds and what it returns depend on the input and the size alone, and
/// the output is at most that long.
#[verifier::external_body]
pub(crate) fn lz4_decompress(src: &[u8], size: u32) -> (r: Option<Vec<u8>>)
    requires
        size <= i32::MAX,
    ensures
        r is Some <==> lz4_fits(src@, size as int),
        r is Some ==> r->0@ == lz4_block(src@, size as int) && r->0@.len() <= size,
{
    lz4::block::decompress(src, Some(size as i32)).ok()
}

} // verus!
