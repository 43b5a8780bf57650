//! The localization archive: a table of named, optionally compressed
//! segments, one of which is the item manifest of `key=value` lines.
use vstd::prelude::*;

use crate::byte_reader::{copy_range, find_byte, lemma_find_byte, lemma_find_byte_at, le_u32, le_u64, ByteReader};
use crate::compression::{lz4_block, lz4_decompress, lz4_fits};
use crate::error::DecodeError;
use crate::str_map::StrMap;
use crate::text::{lossy_text, utf8_string};
use vstd::utf8::{decode_utf8, valid_utf8};

verus! {

/// The header version this decoder reads.
pub const ARC_VERSION: u32 = 3;

/// Byte value of a line feed.
pub const LF: u8 = 10;

/// Byte value of a carriage return.
pub const CR: u8 = 13;

/// Byte value of `#`, which starts a comment line.
pub const HASH: u8 = 35;

/// Byte value of `=`, which parts key from value.
pub const EQUALS: u8 = 61;

/// A line without the carriage return that may end it.
pub open spec fn trim_cr(l: Seq<u8>) -> Seq<u8> {
    if l.len() > 0 && l.last() == CR {
        l.drop_last()
    } else {
        l
    }
}

/// The lines of `d` from index `i`: runs between line feeds, the last one
/// running to the end.
pub open spec fn lines_from(d: Seq<u8>, i: int) -> Seq<Seq<u8>>
    decreases d.len() - i,
    via lines_from_decreases
{
    if i < 0 || i > d.len() {
        Seq::empty()
    } else {
        let e = find_byte(d, LF, i);
        if e >= d.len() {
            seq![d.subrange(i, d.len() as int)]
        } else {
            seq![d.subrange(i, e)] + lines_from(d, e + 1)
        }
    }
}

#[via_fn]
proof fn lines_from_decreases(d: Seq<u8>, i: int) {
    if 0 <= i <= d.len() {
        lemma_find_byte(d, LF, i);
    }
}

/// A blank line or a comment, which the manifest skips.
pub open spec fn is_skipped_line(l: Seq<u8>) -> bool {
    trim_cr(l).len() == 0 || trim_cr(l)[0] == HASH
}

/// Where the first `=` of a line stands.
pub open spec fn line_split(l: Seq<u8>) -> int {
    find_byte(trim_cr(l), EQUALS, 0)
}

/// The key and value of a line: the bytes before and after its first `=`;
/// `None` when it has none.
pub open spec fn line_pair(l: Seq<u8>) -> Option<(Seq<u8>, Seq<u8>)> {
    let t = trim_cr(l);
    let j = line_split(l);
    if j < t.len() {
        Some((t.subrange(0, j), t.subrange(j + 1, t.len() as int)))
    } else {
        None
    }
}

/// The key/value pairs of the manifest lines, in order; `None` when a line
/// that is neither blank nor a comment has no `=`.
pub open spec fn manifest_pairs(ls: Seq<Seq<u8>>) -> Option<Seq<(Seq<u8>, Seq<u8>)>>
    decreases ls.len(),
{
    if ls.len() == 0 {
        Some(Seq::empty())
    } else {
        match manifest_pairs(ls.drop_last()) {
            None => None,
            Some(ps) => {
                if is_skipped_line(ls.last()) {
                    Some(ps)
                } else {
                    match line_pair(ls.last()) {
                        Some(p) => Some(ps.push(p)),
                        None => None,
                    }
                }
            }
        }
    }
}

/// Every key and value is valid UTF-8.
pub open spec fn pairs_valid(ps: Seq<(Seq<u8>, Seq<u8>)>) -> bool {
    forall|j: int| 0 <= j < ps.len() ==> valid_utf8(#[trigger] ps[j].0) && valid_utf8(ps[j].1)
}

/// The map that inserting the pairs in order gives: a later key wins.
pub open spec fn pairs_map(ps: Seq<(Seq<u8>, Seq<u8>)>) -> Map<Seq<char>, Seq<char>>
    decreases ps.len(),
{
    if ps.len() == 0 {
        Map::empty()
    } else {
        pairs_map(ps.drop_last()).insert(decode_utf8(ps.last().0), decode_utf8(ps.last().1))
    }
}

/// A payload that is a well-formed manifest.
pub open spec fn manifest_ok(d: Seq<u8>) -> bool {
    &&& manifest_pairs(lines_from(d, 0)) is Some
    &&& pairs_valid(manifest_pairs(lines_from(d, 0))->0)
}

/// The entries a well-formed manifest payload holds.
pub open spec fn manifest_map(d: Seq<u8>) -> Map<Seq<char>, Seq<char>> {
    pairs_map(manifest_pairs(lines_from(d, 0))->0)
}

/// The segment names that hold the item manifest.
pub open spec fn is_manifest_name(s: Seq<char>) -> bool {
    s == "tags_items.txt"@ || s == "tagsgdx1_items.txt"@ || s == "tagsgdx2_items.txt"@
}

/// The first index at or after `i` whose name is a manifest name.
pub open spec fn first_manifest(names: Seq<Seq<char>>, i: int) -> Option<int>
    decreases names.len() - i,
{
    if i < 0 || i >= names.len() {
        None
    } else if is_manifest_name(names[i]) {
        Some(i)
    } else {
        first_manifest(names, i + 1)
    }
}

/// Entry `k` of the segment table at `offset`.
pub open spec fn part_at(d: Seq<u8>, offset: int, k: int) -> ArcRecordPartMetadata {
    ArcRecordPartMetadata {
        offset: le_u32(d, offset + 12 * k) as u32,
        len_compressed: le_u32(d, offset + 12 * k + 4) as u32,
        len_decompressed: le_u32(d, offset + 12 * k + 8) as u32,
    }
}

/// The item manifest's payload in an archive whose header is at the start of
/// `d`: the segment of the first name that is a manifest name.
pub open spec fn manifest_payload(d: Seq<u8>) -> Seq<u8> {
    segment_payload(d, part_at(d, le_u32(d, 24), first_manifest(archive_names(d)->0, 0)->0))
}

/// Lines after a failing prefix do not repair it, and a failing or
/// invalid pair stays in the result of every longer run of lines.
proof fn lemma_pairs_prefix(a: Seq<Seq<u8>>, b: Seq<Seq<u8>>)
    ensures
        manifest_pairs(a + b) is Some ==> manifest_pairs(a) is Some
            && manifest_pairs(a)->0.len() <= manifest_pairs(a + b)->0.len()
            && manifest_pairs(a + b)->0.subrange(0, manifest_pairs(a)->0.len() as int) == manifest_pairs(a)->0,
    decreases b.len(),
{
    if b.len() == 0 {
        assert(a + b =~= a);
        if manifest_pairs(a) is Some {
            assert(manifest_pairs(a)->0.subrange(0, manifest_pairs(a)->0.len() as int) =~= manifest_pairs(a)->0);
        }
    } else {
        let pre = b.drop_last();
        lemma_pairs_prefix(a, pre);
        assert((a + b).drop_last() =~= a + pre);
        if manifest_pairs(a + b) is Some {
            let x = manifest_pairs(a)->0;
            let y = manifest_pairs(a + pre)->0;
            let z = manifest_pairs(a + b)->0;
            assert(z.subrange(0, x.len() as int) =~= y.subrange(0, x.len() as int));
        }
    }
}

/// The fixed-size header of the archive.
pub struct ArcArchiveHeader {
    pub unknown: u32,
    pub version: u32,
    pub files_count: u32,
    pub records_count: u32,
    pub record_len: u32,
    pub string_table_len: u32,
    pub record_offset: u32,
}

impl ArcArchiveHeader {
    /// Reads the seven header words.
    pub fn new(r: &mut ByteReader) -> (h: Result<Self, DecodeError>)
        requires
            old(r).wf(),
        ensures
            final(r).wf(),
            final(r).data() == old(r).data(),
            h is Ok <==> old(r).pos() + 28 <= old(r).data().len(),
            h is Err ==> h == Err::<Self, DecodeError>(DecodeError::OutOfBounds),
            h is Ok ==> ({
                let d = old(r).data();
                let p = old(r).pos();
                let v = h->Ok_0;
                &&& v.unknown == le_u32(d, p) && v.version == le_u32(d, p + 4)
                &&& v.files_count == le_u32(d, p + 8) && v.records_count == le_u32(d, p + 12)
                &&& v.record_len == le_u32(d, p + 16) && v.string_table_len == le_u32(d, p + 20)
                &&& v.record_offset == le_u32(d, p + 24)
                &&& final(r).pos() == p + 28
            }),
    {
        if r.len() - r.position() < 28 {
            return Err(DecodeError::OutOfBounds);
        }
        let unknown = r.read_u32()?;
        let version = r.read_u32()?;
        let files_count = r.read_u32()?;
        let records_count = r.read_u32()?;
        let record_len = r.read_u32()?;
        let string_table_len = r.read_u32()?;
        let record_offset = r.read_u32()?;
        Ok(ArcArchiveHeader { unknown, version, files_count, records_count, record_len, string_table_len, record_offset })
    }
}

/// One entry of the record table.
pub struct ArcRecordHeader {
    pub record_type: u32,
    pub offset: u32,
    pub len_compressed: u32,
    pub len_decompressed: u32,
    pub unknown: u32,
    pub filetime: u64,
    pub parts_count: u32,
    pub index: u32,
    pub str_len: u32,
    pub str_offset: u32,
}

impl ArcRecordHeader {
    /// Reads the ten fields of a record entry, 44 bytes.
    pub fn new(r: &mut ByteReader) -> (h: Result<Self, DecodeError>)
        requires
            old(r).wf(),
        ensures
            final(r).wf(),
            final(r).data() == old(r).data(),
            h is Ok <==> old(r).pos() + 44 <= old(r).data().len(),
            h is Err ==> h == Err::<Self, DecodeError>(DecodeError::OutOfBounds),
            h is Ok ==> ({
                let d = old(r).data();
                let p = old(r).pos();
                let v = h->Ok_0;
                &&& v.record_type == le_u32(d, p) && v.offset == le_u32(d, p + 4)
                &&& v.len_compressed == le_u32(d, p + 8) && v.len_decompressed == le_u32(d, p + 12)
                &&& v.unknown == le_u32(d, p + 16) && v.filetime == le_u64(d, p + 20)
                &&& v.parts_count == le_u32(d, p + 28) && v.index == le_u32(d, p + 32)
                &&& v.str_len == le_u32(d, p + 36) && v.str_offset == le_u32(d, p + 40)
                &&& final(r).pos() == p + 44
            }),
    {
        if r.len() - r.position() < 44 {
            return Err(DecodeError::OutOfBounds);
        }
        let record_type = r.read_u32()?;
        let offset = r.read_u32()?;
        let len_compressed = r.read_u32()?;
        let len_decompressed = r.read_u32()?;
        let unknown = r.read_u32()?;
        let filetime = r.read_u64()?;
        let parts_count = r.read_u32()?;
        let index = r.read_u32()?;
        let str_len = r.read_u32()?;
        let str_offset = r.read_u32()?;
        Ok(ArcRecordHeader {
            record_type,
            offset,
            len_compressed,
            len_decompressed,
            unknown,
            filetime,
            parts_count,
            index,
            str_len,
            str_offset,
        })
    }
}

/// Where a segment lies and how long it is before and after decompression.
pub struct ArcRecordPartMetadata {
    pub offset: u32,
    pub len_compressed: u32,
    pub len_decompressed: u32,
}

impl ArcRecordPartMetadata {
    /// Reads the three words of a segment entry.
    pub fn new(r: &mut ByteReader) -> (h: Result<Self, DecodeError>)
        requires
            old(r).wf(),
        ensures
            final(r).wf(),
            final(r).data() == old(r).data(),
            h is Ok <==> old(r).pos() + 12 <= old(r).data().len(),
            h is Err ==> h == Err::<Self, DecodeError>(DecodeError::OutOfBounds),
            h is Ok ==> ({
                let d = old(r).data();
                let p = old(r).pos();
                let v = h->Ok_0;
                &&& v.offset == le_u32(d, p) && v.len_compressed == le_u32(d, p + 4)
                &&& v.len_decompressed == le_u32(d, p + 8)
                &&& final(r).pos() == p + 12
            }),
    {
        if r.len() - r.position() < 12 {
            return Err(DecodeError::OutOfBounds);
        }
        let offset = r.read_u32()?;
        let len_compressed = r.read_u32()?;
        let len_decompressed = r.read_u32()?;
        Ok(ArcRecordPartMetadata { offset, len_compressed, len_decompressed })
    }
}

/// The raw bytes of a segment.
pub open spec fn segment_bytes(d: Seq<u8>, m: ArcRecordPartMetadata) -> Seq<u8> {
    d.subrange(m.offset as int, m.offset + m.len_compressed)
}

/// The content of a segment: its bytes as they are when the two lengths
/// agree, else their decompression.
pub open spec fn segment_payload(d: Seq<u8>, m: ArcRecordPartMetadata) -> Seq<u8> {
    if m.len_compressed == m.len_decompressed {
        segment_bytes(d, m)
    } else {
        lz4_block(segment_bytes(d, m), m.len_decompressed as int)
    }
}

/// A segment can be read: it lies within the bytes and is stored raw, or
/// decompresses into its declared length.
pub open spec fn segment_ok(d: Seq<u8>, m: ArcRecordPartMetadata) -> bool {
    &&& m.offset + m.len_compressed <= d.len()
    &&& (m.len_compressed == m.len_decompressed || (m.len_decompressed <= i32::MAX && lz4_fits(
        segment_bytes(d, m),
        m.len_decompressed as int,
    )))
}

/// Moves the cursor to the sum of the offsets; fails when it lies past the end.
fn seek_sum(r: &mut ByteReader, a: u32, b: u32, c: u32) -> (res: Result<(), DecodeError>)
    requires
        old(r).wf(),
    ensures
        final(r).wf(),
        final(r).data() == old(r).data(),
        res is Ok <==> a + b + c <= old(r).data().len(),
        res is Ok ==> final(r).pos() == a + b + c,
        res is Err ==> res == Err::<(), DecodeError>(DecodeError::OutOfBounds),
{
    let total = a as u64 + b as u64 + c as u64;
    if total > r.len() as u64 {
        return Err(DecodeError::OutOfBounds);
    }
    r.seek(total as usize)
}

/// Reads the segment table at the record offset.
pub fn read_record_metadata(r: &mut ByteReader, header: &ArcArchiveHeader) -> (res: Result<
    Vec<ArcRecordPartMetadata>,
    DecodeError,
>)
    requires
        old(r).wf(),
    ensures
        final(r).wf(),
        final(r).data() == old(r).data(),
        res is Ok <==> header.record_offset + 12 * header.records_count <= old(r).data().len(),
        res is Ok ==> ({
            let v = res->Ok_0@;
            let d = old(r).data();
            &&& v.len() == header.records_count
            &&& forall|i: int| 0 <= i < v.len() ==> {
                let o = header.record_offset + 12 * i;
                &&& (#[trigger] v[i]).offset == le_u32(d, o)
                &&& v[i].len_compressed == le_u32(d, o + 4)
                &&& v[i].len_decompressed == le_u32(d, o + 8)
            }
        }),
        res is Err ==> res == Err::<Vec<ArcRecordPartMetadata>, DecodeError>(DecodeError::OutOfBounds),
{
    let ghost d = r.data();
    let total = header.record_offset as u64 + 12 * header.records_count as u64;
    if total > r.len() as u64 {
        return Err(DecodeError::OutOfBounds);
    }
    r.seek(header.record_offset as usize)?;
    let mut parts: Vec<ArcRecordPartMetadata> = Vec::new();
    let mut i: u32 = 0;
    while i < header.records_count
        invariant
            r.wf(),
            r.data() == d,
            i <= header.records_count,
            header.record_offset + 12 * header.records_count <= d.len(),
            r.pos() == header.record_offset + 12 * i,
            parts@.len() == i,
            forall|j: int| 0 <= j < i ==> {
                let o = header.record_offset + 12 * j;
                &&& (#[trigger] parts@[j]).offset == le_u32(d, o)
                &&& parts@[j].len_compressed == le_u32(d, o + 4)
                &&& parts@[j].len_decompressed == le_u32(d, o + 8)
            },
        decreases header.records_count - i,
    {
        let m = ArcRecordPartMetadata::new(r)?;
        parts.push(m);
        i = i + 1;
    }
    Ok(parts)
}

/// A name's text: its characters when it is valid UTF-8, else its lossy decoding.
pub open spec fn name_text(b: Seq<u8>) -> Seq<char> {
    if valid_utf8(b) {
        decode_utf8(b)
    } else {
        lossy_text(b)
    }
}

/// Where reading `n` null-terminated names from `pos` ends: one past the
/// last terminator, or the end of the bytes.
pub open spec fn names_end(d: Seq<u8>, pos: int, n: nat) -> int
    decreases n,
{
    if n == 0 || pos < 0 || pos >= d.len() {
        pos
    } else {
        let z = find_byte(d, 0, pos);
        names_end(d, if z < d.len() { z + 1 } else { z }, (n - 1) as nat)
    }
}

/// The `n` null-terminated names from `pos`; the last may run to the end of
/// the bytes.
pub open spec fn names_from(d: Seq<u8>, pos: int, n: nat) -> Option<Seq<Seq<char>>>
    decreases n,
{
    if n == 0 {
        Some(Seq::empty())
    } else if pos < 0 || pos >= d.len() {
        None
    } else {
        let z = find_byte(d, 0, pos);
        let next = if z < d.len() { z + 1 } else { z };
        match names_from(d, next, (n - 1) as nat) {
            Some(rest) => Some(seq![name_text(d.subrange(pos, z))] + rest),
            None => None,
        }
    }
}

/// A name table read whole holds as many names as it was asked for.
pub proof fn lemma_names_len(d: Seq<u8>, pos: int, n: nat)
    requires
        names_from(d, pos, n) is Some,
    ensures
        names_from(d, pos, n)->0.len() == n,
    decreases n,
{
    if n > 0 {
        let z = find_byte(d, 0, pos);
        let next = if z < d.len() { z + 1 } else { z };
        lemma_names_len(d, next, (n - 1) as nat);
    }
}

/// The segment names of an archive whose header is at the start of `d`:
/// right after the segment table.
pub open spec fn archive_names(d: Seq<u8>) -> Option<Seq<Seq<char>>> {
    names_from(d, le_u32(d, 24) + le_u32(d, 16), le_u32(d, 8) as nat)
}

/// `a` before what `o` holds, if it holds anything.
pub open spec fn prepend_names(a: Seq<Seq<char>>, o: Option<Seq<Seq<char>>>) -> Option<Seq<Seq<char>>> {
    match o {
        Some(r) => Some(a + r),
        None => None,
    }
}

/// The views of a sequence of strings.
pub open spec fn name_views(v: Seq<String>) -> Seq<Seq<char>> {
    Seq::new(v.len(), |i: int| v[i]@)
}

/// Reads the names of the segments, one null-terminated string each, right
/// after the segment table.
pub fn read_strings(r: &mut ByteReader, header: &ArcArchiveHeader) -> (res: Result<Vec<String>, DecodeError>)
    requires
        old(r).wf(),
    ensures
        final(r).wf(),
        final(r).data() == old(r).data(),
        ({
            let s = names_from(old(r).data(), header.record_offset + header.record_len, header.files_count as nat);
            &&& header.record_offset + header.record_len <= old(r).data().len() && s is Some ==> res is Ok
            &&& res is Ok ==> s is Some && name_views(res->Ok_0@) == s->0
            &&& res is Ok ==> res->Ok_0@.len() == header.files_count
            &&& res is Ok ==> final(r).pos() == names_end(old(r).data(), header.record_offset + header.record_len, header.files_count as nat)
        }),
{
    let ghost d = r.data();
    let ghost full = names_from(d, header.record_offset + header.record_len, header.files_count as nat);
    seek_sum(r, header.record_offset, header.record_len, 0)?;
    let mut names: Vec<String> = Vec::new();
    let mut i: u32 = 0;
    assert(name_views(names@) + Seq::<Seq<char>>::empty() =~= Seq::<Seq<char>>::empty());
    while i < header.files_count
        invariant
            r.wf(),
            r.data() == d,
            d == old(r).data(),
            i <= header.files_count,
            names@.len() == i,
            full == names_from(d, header.record_offset + header.record_len, header.files_count as nat),
            full == prepend_names(name_views(names@), names_from(d, r.pos(), (header.files_count - i) as nat)),
            full is Some ==> names_end(d, header.record_offset + header.record_len, header.files_count as nat) == names_end(d, r.pos(), (header.files_count - i) as nat),
        decreases header.files_count - i,
    {
        let ghost before = name_views(names@);
        let ghost p = r.pos();
        match r.read_null_string() {
            Some(s) => {
                let ghost rest = names_from(d, r.pos(), (header.files_count - i - 1) as nat);
                names.push(s);
                proof {
                    assert(name_views(names@) =~= before.push(s@));
                    if rest is Some {
                        assert(before + (seq![s@] + rest->0) =~= name_views(names@) + rest->0);
                    }
                }
            },
            None => return Err(DecodeError::OutOfBounds),
        }
        i = i + 1;
    }
    assert(name_views(names@) + Seq::<Seq<char>>::empty() =~= name_views(names@));
    proof {
        lemma_names_len(d, header.record_offset + header.record_len, header.files_count as nat);
    }
    Ok(names)
}

/// Reads the record table, right after the names.
pub fn read_record_headers(r: &mut ByteReader, header: &ArcArchiveHeader) -> (res: Result<
    Vec<ArcRecordHeader>,
    DecodeError,
>)
    requires
        old(r).wf(),
    ensures
        final(r).wf(),
        final(r).data() == old(r).data(),
        res is Ok <==> header.record_offset + header.record_len + header.string_table_len + 44
            * header.files_count <= old(r).data().len(),
        res is Ok ==> res->Ok_0@.len() == header.files_count,
{
    let total = header.record_offset as u64 + header.record_len as u64 + header.string_table_len as u64 + 44
        * header.files_count as u64;
    if total > r.len() as u64 {
        return Err(DecodeError::OutOfBounds);
    }
    seek_sum(r, header.record_offset, header.record_len, header.string_table_len)?;
    let ghost start = r.pos();
    let mut records: Vec<ArcRecordHeader> = Vec::new();
    let mut i: u32 = 0;
    while i < header.files_count
        invariant
            r.wf(),
            r.data() == old(r).data(),
            i <= header.files_count,
            start + 44 * header.files_count <= r.data().len(),
            r.pos() == start + 44 * i,
            records@.len() == i,
        decreases header.files_count - i,
    {
        let h = ArcRecordHeader::new(r)?;
        records.push(h);
        i = i + 1;
    }
    Ok(records)
}

/// The content of a segment: copied when its two lengths agree, else
/// block-decompressed into its declared length.
pub fn decompress(r: &mut ByteReader, m: &ArcRecordPartMetadata) -> (res: Result<Vec<u8>, DecodeError>)
    requires
        old(r).wf(),
    ensures
        final(r).wf(),
        final(r).data() == old(r).data(),
        m.offset + m.len_compressed > old(r).data().len() ==> res == Err::<Vec<u8>, DecodeError>(
            DecodeError::OutOfBounds,
        ),
        res is Ok <==> segment_ok(old(r).data(), *m),
        res is Ok ==> res->Ok_0@ == segment_payload(old(r).data(), *m),
{
    if m.offset as u64 + m.len_compressed as u64 > r.len() as u64 {
        return Err(DecodeError::OutOfBounds);
    }
    r.seek(m.offset as usize)?;
    let raw = r.read_n_bytes(m.len_compressed)?;
    if m.len_compressed == m.len_decompressed {
        Ok(raw)
    } else if m.len_decompressed > i32::MAX as u32 {
        Err(DecodeError::Decompression)
    } else {
        match lz4_decompress(raw.as_slice(), m.len_decompressed) {
            Some(v) => Ok(v),
            None => Err(DecodeError::Decompression),
        }
    }
}

/// Reads the line `payload[i..e]`: `None` for a blank or comment line, else
/// its key and value as text.
fn parse_line(payload: &[u8], i: usize, e: usize) -> (r: Result<Option<(String, String)>, DecodeError>)
    requires
        i <= e <= payload@.len(),
    ensures
        ({
            let l = payload@.subrange(i as int, e as int);
            &&& is_skipped_line(l) ==> r is Ok && r->Ok_0 is None
            &&& !is_skipped_line(l) && line_pair(l) is None ==> r == Err::<Option<(String, String)>, DecodeError>(
                DecodeError::MalformedLine,
            )
            &&& !is_skipped_line(l) && line_pair(l) is Some ==> {
                let p = line_pair(l)->0;
                &&& r is Ok <==> valid_utf8(p.0) && valid_utf8(p.1)
                &&& r is Ok ==> r->Ok_0 is Some
                &&& r is Ok ==> { let kv = r->Ok_0->0; kv.0@ == decode_utf8(p.0) && kv.1@ == decode_utf8(p.1) }
            }
        }),
{
    let ghost d = payload@;
    let ghost l = d.subrange(i as int, e as int);
    let mut end = e;
    if end > i && payload[end - 1] == CR {
        end = end - 1;
    }
    let ghost t = trim_cr(l);
    assert(t =~= d.subrange(i as int, end as int));
    if end == i || payload[i] == HASH {
        return Ok(None);
    }
    let mut j = i;
    while j < end && payload[j] != EQUALS
        invariant
            i <= j <= end <= d.len(),
            payload@ == d,
            t =~= d.subrange(i as int, end as int),
            forall|k: int| 0 <= k < j - i ==> t[k] != EQUALS,
        decreases end - j,
    {
        j = j + 1;
    }
    proof {
        lemma_find_byte_at(t, EQUALS, 0, j - i);
    }
    if j == end {
        return Err(DecodeError::MalformedLine);
    }
    let kb = copy_range(payload, i, j);
    let vb = copy_range(payload, j + 1, end);
    assert(kb@ =~= t.subrange(0, j - i));
    assert(vb@ =~= t.subrange(j - i + 1, t.len() as int));
    let key = match utf8_string(kb) {
        Some(s) => s,
        None => return Err(DecodeError::InvalidText),
    };
    let value = match utf8_string(vb) {
        Some(s) => s,
        None => return Err(DecodeError::InvalidText),
    };
    Ok(Some((key, value)))
}

/// The localization entries gathered from the archives added so far.
pub struct ArcParser {
    pub map: StrMap<String>,
}

impl ArcParser {
    pub fn new() -> (r: Self)
        ensures
            r.map.view() == Map::<Seq<char>, Seq<char>>::empty(),
    {
        ArcParser { map: StrMap::new() }
    }

    /// Adds the entries of a manifest payload: its lines split at line feeds,
    /// a trailing carriage return dropped, blank and `#` lines skipped, each
    /// other line split at its first `=`; a later key wins. Nothing is added
    /// when a line has no `=` or a key or value is not UTF-8.
    pub fn add_manifest(&mut self, payload: &[u8]) -> (r: Result<(), DecodeError>)
        ensures
            r is Ok <==> manifest_ok(payload@),
            r is Ok ==> final(self).map.view() == old(self).map.view().union_prefer_right(manifest_map(payload@)),
            r is Err ==> final(self).map.view() == old(self).map.view(),
    {
        let ghost d = payload@;
        let n = payload.len();
        let mut local: StrMap<String> = StrMap::new();
        let ghost mut done: Seq<Seq<u8>> = Seq::empty();
        let ghost mut ps: Seq<(Seq<u8>, Seq<u8>)> = Seq::empty();
        let mut i: usize = 0;
        let mut finished = false;
        while !finished
            invariant
                n == d.len(),
                payload@ == d,
                i <= n,
                finished ==> lines_from(d, 0) == done,
                !finished ==> lines_from(d, 0) == done + lines_from(d, i as int),
                manifest_pairs(done) == Some(ps),
                pairs_valid(ps),
                local.view() == pairs_map(ps),
            decreases (n - i) as int + if finished { 0int } else { 1int },
        {
            let mut e = i;
            while e < n && payload[e] != LF
                invariant
                    i <= e <= n,
                    n == d.len(),
                    payload@ == d,
                    forall|k: int| i <= k < e ==> d[k] != LF,
                decreases n - e,
            {
                e = e + 1;
            }
            proof {
                lemma_find_byte_at(d, LF, i as int, e as int);
            }
            let ghost l = d.subrange(i as int, e as int);
            let ghost rest: Seq<Seq<u8>> = if e == n { Seq::empty() } else { lines_from(d, e + 1) };
            assert(lines_from(d, i as int) =~= seq![l] + rest);
            assert(done.push(l).drop_last() =~= done);
            proof {
                lemma_pairs_prefix(done.push(l), rest);
                assert(done + (seq![l] + rest) =~= done.push(l) + rest);
            }
            match parse_line(payload, i, e) {
                Err(err) => {
                    proof {
                        let all = manifest_pairs(lines_from(d, 0));
                        if all is Some {
                            let pair = line_pair(l)->0;
                            let ps2 = ps.push(pair);
                            assert(manifest_pairs(done.push(l)) == Some(ps2));
                            assert(all->0.subrange(0, ps2.len() as int)[ps.len() as int] == pair);
                            assert(all->0[ps.len() as int] == pair);
                            assert(all->0[ps.len() as int].0 == pair.0);
                        }
                    }
                    return Err(err);
                },
                Ok(None) => {},
                Ok(Some((key, value))) => {
                    let ghost pair = line_pair(l)->0;
                    let ghost ps2 = ps.push(pair);
                    local.insert(key, value);
                    proof {
                        assert(ps2.drop_last() =~= ps);
                        ps = ps2;
                    }
                },
            }
            proof {
                done = done.push(l);
            }
            if e == n {
                finished = true;
            } else {
                i = e + 1;
            }
        }
        self.map.extend(local);
        Ok(())
    }

    /// Decodes a localization archive and adds the entries of its item
    /// manifest. The header version must be 3; nothing is added on failure.
    pub fn add_archive(&mut self, bytes: Vec<u8>) -> (r: Result<(), DecodeError>)
        ensures
            bytes@.len() < 28 ==> r == Err::<(), DecodeError>(DecodeError::OutOfBounds),
            bytes@.len() >= 28 && le_u32(bytes@, 4) != ARC_VERSION ==> r == Err::<(), DecodeError>(
                DecodeError::BadHeader,
            ),
            r is Err ==> final(self).map.view() == old(self).map.view(),
            ({
                let d = bytes@;
                let (fc, rc, rl, sl, ro) = (le_u32(d, 8), le_u32(d, 12), le_u32(d, 16), le_u32(d, 20), le_u32(d, 24));
                &&& d.len() >= 28 && le_u32(d, 4) == ARC_VERSION
                &&& ro + rl + sl + 44 * fc <= d.len() && ro + 12 * rc <= d.len() && ro + rl <= d.len()
                &&& archive_names(d) is Some && first_manifest(archive_names(d)->0, 0) is Some
                &&& first_manifest(archive_names(d)->0, 0)->0 < rc
                &&& segment_ok(d, part_at(d, ro, first_manifest(archive_names(d)->0, 0)->0))
                &&& manifest_ok(manifest_payload(d))
            }) ==> r is Ok,
            r is Ok ==> ({
                let d = bytes@;
                &&& archive_names(d) is Some
                &&& first_manifest(archive_names(d)->0, 0) is Some
                &&& first_manifest(archive_names(d)->0, 0)->0 < le_u32(d, 12)
                &&& manifest_ok(manifest_payload(d))
                &&& final(self).map.view() == old(self).map.view().union_prefer_right(manifest_map(manifest_payload(d)))
            }),
    {
        let mut reader = ByteReader::from_vec(bytes);
        let header = ArcArchiveHeader::new(&mut reader)?;
        if header.version != ARC_VERSION {
            return Err(DecodeError::BadHeader);
        }
        let record_headers = read_record_headers(&mut reader, &header)?;
        let parts = read_record_metadata(&mut reader, &header)?;
        let names = read_strings(&mut reader, &header)?;
        assert(record_headers@.len() == names@.len());
        let ghost nv = name_views(names@);
        let mut index: Option<usize> = None;
        let mut i: usize = 0;
        let a = "tags_items.txt".to_owned();
        let b = "tagsgdx1_items.txt".to_owned();
        let c = "tagsgdx2_items.txt".to_owned();
        assert(a@ == "tags_items.txt"@ && b@ == "tagsgdx1_items.txt"@ && c@ == "tagsgdx2_items.txt"@);
        while i < names.len() && index.is_none()
            invariant
                i <= names@.len(),
                nv == name_views(names@),
                a@ == "tags_items.txt"@ && b@ == "tagsgdx1_items.txt"@ && c@ == "tagsgdx2_items.txt"@,
                index is None ==> first_manifest(nv, 0) == first_manifest(nv, i as int),
                index is Some ==> index->0 == i && first_manifest(nv, 0) == Some(i as int),
            decreases names@.len() - i + if index is None { 1int } else { 0int },
        {
            assert(nv[i as int] == names@[i as int]@);
            if names[i].eq(&a) || names[i].eq(&b) || names[i].eq(&c) {
                index = Some(i);
            } else {
                i = i + 1;
            }
        }
        let k = match index {
            Some(k) => k,
            None => return Err(DecodeError::MissingManifest),
        };
        if k >= parts.len() {
            return Err(DecodeError::OutOfBounds);
        }
        assert(parts@[k as int] == part_at(reader.data(), header.record_offset as int, k as int));
        let data = decompress(&mut reader, &parts[k])?;
        self.add_manifest(data.as_slice())
    }
}

} // verus!
