//! The game database: a string table, a table of typed records, and per
//! record a payload of typed fields, compressed or raw.
use vstd::prelude::*;

use crate::byte_reader::{le_u16, le_u32, ByteReader};
use crate::compression::{lz4_block, lz4_decompress, lz4_fits};
use crate::error::DecodeError;
use crate::str_map::StrMap;
use crate::text::{is_prefix, starts_with};
use vstd::utf8::{decode_utf8, valid_utf8};

verus! {

/// The value the reserved header field must hold.
pub const ARZ_RESERVED: u16 = 2;

/// The header version this decoder reads.
pub const ARZ_VERSION: u16 = 3;

/// Where a record's payload starts after its declared offset.
pub const PAYLOAD_SHIFT: u32 = 24;

/// Field type code of a float value.
pub const FIELD_FLOAT: u16 = 1;

/// Field type code of a string-table index.
pub const FIELD_STRING: u16 = 2;

/// The views of a sequence of strings.
pub open spec fn string_views(v: Seq<String>) -> Seq<Seq<char>> {
    Seq::new(v.len(), |i: int| v[i]@)
}

/// The fixed-size header of the database.
pub struct ArzArchiveHeader {
    pub unknown: u16,
    pub version: u16,
    pub records_start: u32,
    pub records_len: u32,
    pub records_count: u32,
    pub strings_start: u32,
    pub strings_size: u32,
}

impl ArzArchiveHeader {
    /// Reads the two 16-bit and five 32-bit header fields.
    pub fn new(r: &mut ByteReader) -> (h: Result<Self, DecodeError>)
        requires
            old(r).wf(),
        ensures
            final(r).wf(),
            final(r).data() == old(r).data(),
            h is Ok <==> old(r).pos() + 24 <= old(r).data().len(),
            h is Err ==> h == Err::<Self, DecodeError>(DecodeError::OutOfBounds),
            h is Ok ==> ({
                let d = old(r).data();
                let p = old(r).pos();
                let v = h->Ok_0;
                &&& v.unknown == le_u16(d, p) && v.version == le_u16(d, p + 2)
                &&& v.records_start == le_u32(d, p + 4) && v.records_len == le_u32(d, p + 8)
                &&& v.records_count == le_u32(d, p + 12) && v.strings_start == le_u32(d, p + 16)
                &&& v.strings_size == le_u32(d, p + 20)
                &&& final(r).pos() == p + 24
            }),
    {
        if r.len() - r.position() < 24 {
            return Err(DecodeError::OutOfBounds);
        }
        let unknown = r.read_u16()?;
        let version = r.read_u16()?;
        let records_start = r.read_u32()?;
        let records_len = r.read_u32()?;
        let records_count = r.read_u32()?;
        let strings_start = r.read_u32()?;
        let strings_size = r.read_u32()?;
        Ok(ArzArchiveHeader { unknown, version, records_start, records_len, records_count, strings_start, strings_size })
    }
}

/// One entry of the record table.
pub struct ArzRecordHeader {
    pub string_index: u32,
    pub record_type: String,
    pub offset: u32,
    pub size_compressed: u32,
    pub size_decompressed: u32,
}

/// What a record entry says.
pub struct RecordModel {
    pub string_index: u32,
    pub record_type: Seq<char>,
    pub offset: u32,
    pub size_compressed: u32,
    pub size_decompressed: u32,
}

impl View for ArzRecordHeader {
    type V = RecordModel;

    open spec fn view(&self) -> RecordModel {
        RecordModel {
            string_index: self.string_index,
            record_type: self.record_type@,
            offset: self.offset,
            size_compressed: self.size_compressed,
            size_decompressed: self.size_decompressed,
        }
    }
}

/// The record entry at `p` and where it ends: path index, length-prefixed
/// UTF-8 type tag, payload offset and the two payload sizes.
pub open spec fn record_at(d: Seq<u8>, p: int) -> Option<(RecordModel, int)> {
    if p < 0 || p + 8 > d.len() {
        None
    } else {
        let n = le_u32(d, p + 4);
        let tag = d.subrange(p + 8, p + 8 + n);
        if p + 20 + n > d.len() || !valid_utf8(tag) {
            None
        } else {
            Some(
                (
                    RecordModel {
                        string_index: le_u32(d, p) as u32,
                        record_type: decode_utf8(tag),
                        offset: le_u32(d, p + 8 + n) as u32,
                        size_compressed: le_u32(d, p + 12 + n) as u32,
                        size_decompressed: le_u32(d, p + 16 + n) as u32,
                    },
                    p + 20 + n,
                ),
            )
        }
    }
}

/// The views of record entries.
pub open spec fn record_views(v: Seq<ArzRecordHeader>) -> Seq<RecordModel> {
    Seq::new(v.len(), |i: int| v[i]@)
}

impl ArzRecordHeader {
    /// Reads the path index, the length-prefixed type tag and the three
    /// payload words.
    pub fn read(r: &mut ByteReader) -> (h: Result<Self, DecodeError>)
        requires
            old(r).wf(),
        ensures
            final(r).wf(),
            final(r).data() == old(r).data(),
            record_at(old(r).data(), old(r).pos()) == (if h is Ok {
                Some((h->Ok_0@, final(r).pos()))
            } else {
                None::<(RecordModel, int)>
            }),
    {
        let string_index = r.read_u32()?;
        let str_len = r.read_u32()?;
        let record_type = r.read_string(str_len)?;
        let offset = r.read_u32()?;
        let size_compressed = r.read_u32()?;
        let size_decompressed = r.read_u32()?;
        Ok(ArzRecordHeader { string_index, record_type, offset, size_compressed, size_decompressed })
    }
}

/// The head of a typed field: type code, value count, and the string index of its name.
pub struct EntryHeader {
    pub entry_type: u16,
    pub entry_count: u16,
    pub string_index: u32,
}

impl EntryHeader {
    pub fn read(r: &mut ByteReader) -> (h: Result<Self, DecodeError>)
        requires
            old(r).wf(),
        ensures
            final(r).wf(),
            final(r).data() == old(r).data(),
            h is Ok <==> old(r).pos() + 8 <= old(r).data().len(),
            h is Err ==> h == Err::<Self, DecodeError>(DecodeError::OutOfBounds),
            h is Ok ==> ({
                let d = old(r).data();
                let p = old(r).pos();
                let v = h->Ok_0;
                &&& v.entry_type == le_u16(d, p) && v.entry_count == le_u16(d, p + 2)
                &&& v.string_index == le_u32(d, p + 4)
                &&& final(r).pos() == p + 8
            }),
    {
        if r.len() - r.position() < 8 {
            return Err(DecodeError::OutOfBounds);
        }
        let entry_type = r.read_u16()?;
        let entry_count = r.read_u16()?;
        let string_index = r.read_u32()?;
        Ok(EntryHeader { entry_type, entry_count, string_index })
    }
}

/// Extra facts about an affix record.
pub struct AffixInfo {
    pub tag_name: Option<String>,
    pub rarity: String,
    pub name: Option<String>,
}

/// A decoded record: an item with its path, display tag, rarity and level
/// requirement, or an affix.
pub enum EntryType {
    Affix(AffixInfo),
    Item(String, String, String, Option<u32>),
}

/// What a decoded record means.
pub enum EntryModel {
    Affix { tag_name: Option<Seq<char>>, rarity: Seq<char>, name: Option<Seq<char>> },
    Item { path: Seq<char>, tag: Seq<char>, rarity: Seq<char>, level: Option<u32> },
}

pub open spec fn opt_view(o: Option<String>) -> Option<Seq<char>> {
    match o {
        Some(s) => Some(s@),
        None => None,
    }
}

impl View for EntryType {
    type V = EntryModel;

    open spec fn view(&self) -> EntryModel {
        match self {
            EntryType::Affix(a) => EntryModel::Affix {
                tag_name: opt_view(a.tag_name),
                rarity: a.rarity@,
                name: opt_view(a.name),
            },
            EntryType::Item(p, t, r, l) => EntryModel::Item { path: p@, tag: t@, rarity: r@, level: *l },
        }
    }
}

/// The fields found so far while scanning a record's payload.
pub struct FoundFields {
    pub tag: Option<Seq<char>>,
    pub desc: Option<Seq<char>>,
    pub rarity: Option<Seq<char>>,
    pub level: Option<u32>,
}

/// Where a scan stands: byte position, 32-bit words announced so far, values
/// left in the current field, its type code and name, and what was found.
pub struct ScanState {
    pub pos: int,
    pub words: int,
    pub remaining: int,
    pub ty: u16,
    pub key: Seq<char>,
    pub found: FoundFields,
}

/// Every field the record's kind needs is known: tag and rarity, and for an
/// item also the level.
pub open spec fn fields_complete(f: FoundFields, affix: bool) -> bool {
    f.tag is Some && f.rarity is Some && (affix || f.level is Some)
}

/// How a field name is used: 1 display tag, 2 rarity, 3 description,
/// 4 level, 0 not at all.
pub open spec fn key_kind(key: Seq<char>) -> u8 {
    if key == "lootRandomizerName"@ || key == "itemNameTag"@ {
        1
    } else if key == "itemClassification"@ {
        2
    } else if key == "description"@ {
        3
    } else if key == "itemLevel"@ {
        4
    } else {
        0
    }
}

/// What one value `v` of a field named `key` with type code `ty` adds: a
/// string value names the display tag, rarity or description; an integer
/// value of `itemLevel` is the level. `None` when a string index is out of range.
pub open spec fn apply_value(ty: u16, key: Seq<char>, v: u32, strs: Seq<Seq<char>>, f: FoundFields) -> Option<
    FoundFields,
> {
    if ty == FIELD_FLOAT {
        Some(f)
    } else if ty == FIELD_STRING {
        if v >= strs.len() {
            None
        } else {
            let s = strs[v as int];
            let k = key_kind(key);
            if k == 1 {
                Some(FoundFields { tag: Some(s), ..f })
            } else if k == 2 {
                Some(FoundFields { rarity: Some(s), ..f })
            } else if k == 3 {
                Some(FoundFields { desc: Some(s), ..f })
            } else {
                Some(f)
            }
        }
    } else if key_kind(key) == 4 {
        Some(FoundFields { level: Some(v), ..f })
    } else {
        Some(f)
    }
}

/// The fields a payload `d` yields from state `st`: typed fields are read
/// until `limit` words were announced, or until the fields the kind needs are
/// all known, whatever follows. `None` when bytes run out or an index is out of range.
pub open spec fn scan_fields(d: Seq<u8>, strs: Seq<Seq<char>>, limit: int, affix: bool, st: ScanState) -> Option<
    FoundFields,
>
    decreases d.len() - st.pos,
{
    if fields_complete(st.found, affix) {
        Some(st.found)
    } else if st.remaining > 0 {
        if st.pos < 0 || st.pos + 4 > d.len() {
            None
        } else {
            match apply_value(st.ty, st.key, le_u32(d, st.pos) as u32, strs, st.found) {
                None => None,
                Some(f) => scan_fields(
                    d,
                    strs,
                    limit,
                    affix,
                    ScanState { pos: st.pos + 4, remaining: st.remaining - 1, found: f, ..st },
                ),
            }
        }
    } else if st.words >= limit {
        Some(st.found)
    } else if st.pos < 0 || st.pos + 8 > d.len() {
        None
    } else {
        let idx = le_u32(d, st.pos + 4);
        if idx >= strs.len() {
            None
        } else {
            let count = le_u16(d, st.pos + 2);
            scan_fields(
                d,
                strs,
                limit,
                affix,
                ScanState {
                    pos: st.pos + 8,
                    words: st.words + 2 + count,
                    remaining: count,
                    ty: le_u16(d, st.pos) as u16,
                    key: strs[idx],
                    found: st.found,
                },
            )
        }
    }
}

/// Nothing found yet.
pub open spec fn no_fields() -> FoundFields {
    FoundFields { tag: None, desc: None, rarity: None, level: None }
}

/// The fields of a whole payload whose declared decompressed size is `size`.
pub open spec fn record_fields(d: Seq<u8>, strs: Seq<Seq<char>>, size: u32, affix: bool) -> Option<FoundFields> {
    scan_fields(
        d,
        strs,
        size as int / 4,
        affix,
        ScanState { pos: 0, words: 0, remaining: 0, ty: 0, key: Seq::empty(), found: no_fields() },
    )
}

/// An item record whose payload starts with its display tag, its level and
/// its classification, one value each, yields those three whatever follows
/// them: the scan stops right after the third and reads nothing more.
pub proof fn lemma_scan_stops_after_item_fields(d: Seq<u8>, strs: Seq<Seq<char>>, size: u32)
    requires
        d.len() >= 36,
        size >= 28,
        le_u16(d, 0) == FIELD_STRING && le_u16(d, 2) == 1,
        le_u32(d, 4) < strs.len() && strs[le_u32(d, 4)] == "itemNameTag"@ && le_u32(d, 8) < strs.len(),
        le_u16(d, 12) != FIELD_FLOAT && le_u16(d, 12) != FIELD_STRING && le_u16(d, 14) == 1,
        le_u32(d, 16) < strs.len() && strs[le_u32(d, 16)] == "itemLevel"@,
        le_u16(d, 24) == FIELD_STRING && le_u16(d, 26) == 1,
        le_u32(d, 28) < strs.len() && strs[le_u32(d, 28)] == "itemClassification"@ && le_u32(d, 32) < strs.len(),
    ensures
        record_fields(d, strs, size, false) == Some(
            FoundFields {
                tag: Some(strs[le_u32(d, 8)]),
                desc: None,
                rarity: Some(strs[le_u32(d, 32)]),
                level: Some(le_u32(d, 20) as u32),
            },
        ),
{
    reveal_strlit("itemLevel");
    reveal_strlit("itemNameTag");
    reveal_strlit("itemClassification");
    reveal_strlit("lootRandomizerName");
    reveal_strlit("description");
    assert("itemLevel"@.len() == 9 && "itemNameTag"@.len() == 11 && "description"@.len() == 11);
    assert("itemClassification"@.len() == 18 && "lootRandomizerName"@.len() == 18);
    assert("itemClassification"@[0] != "lootRandomizerName"@[0]);
    assert("itemLevel"@ != "lootRandomizerName"@ && "itemLevel"@ != "itemNameTag"@);
    assert("itemLevel"@ != "itemClassification"@ && "itemLevel"@ != "description"@);
    assert("itemClassification"@ != "lootRandomizerName"@ && "itemClassification"@ != "itemNameTag"@);
    assert(key_kind("itemNameTag"@) == 1);
    assert(key_kind("itemLevel"@) == 4);
    assert(key_kind("itemClassification"@) == 2);
    reveal_with_fuel(scan_fields, 10);
}

/// The entry a record yields from its fields: an affix keeps its tag and
/// rarity; an item takes as display tag its tag, else a non-empty
/// description, else its own path. A missing rarity is empty.
pub open spec fn entry_model(path: Seq<char>, affix: bool, f: FoundFields) -> EntryModel {
    let rarity = match f.rarity {
        Some(r) => r,
        None => Seq::empty(),
    };
    if affix {
        EntryModel::Affix { tag_name: f.tag, rarity, name: None }
    } else {
        let tag = match f.tag {
            Some(t) => t,
            None => match f.desc {
                Some(d) => if d.len() > 0 {
                    d
                } else {
                    path
                },
                None => path,
            },
        };
        EntryModel::Item { path, tag, rarity, level: f.level }
    }
}

/// The entry for a record with the fields found, by the fallbacks of `entry_model`.
pub fn record_entry(
    path: &String,
    affix: bool,
    tag: Option<String>,
    desc: Option<String>,
    rarity: Option<String>,
    level: Option<u32>,
) -> (r: EntryType)
    ensures
        r@ == entry_model(
            path@,
            affix,
            FoundFields { tag: opt_view(tag), desc: opt_view(desc), rarity: opt_view(rarity), level },
        ),
{
    let rarity = match rarity {
        Some(r) => r,
        None => String::new(),
    };
    if affix {
        return EntryType::Affix(AffixInfo { tag_name: tag, rarity, name: None });
    }
    let shown = match tag {
        Some(t) => t,
        None => match desc {
            Some(d) => if !d.as_str().is_empty() {
                d
            } else {
                path.clone()
            },
            None => path.clone(),
        },
    };
    EntryType::Item(path.clone(), shown, rarity, level)
}

/// The names of the fields the scan looks for.
struct FieldNames {
    loot: String,
    tag: String,
    class: String,
    desc: String,
    level: String,
}

impl FieldNames {
    fn new() -> (r: Self)
        ensures
            r.wf(),
    {
        FieldNames {
            loot: "lootRandomizerName".to_owned(),
            tag: "itemNameTag".to_owned(),
            class: "itemClassification".to_owned(),
            desc: "description".to_owned(),
            level: "itemLevel".to_owned(),
        }
    }

    spec fn wf(&self) -> bool {
        &&& self.loot@ == "lootRandomizerName"@
        &&& self.tag@ == "itemNameTag"@
        &&& self.class@ == "itemClassification"@
        &&& self.desc@ == "description"@
        &&& self.level@ == "itemLevel"@
    }

    fn kind(&self, key: &String) -> (r: u8)
        requires
            self.wf(),
        ensures
            r == key_kind(key@),
    {
        if key.eq(&self.loot) || key.eq(&self.tag) {
            1
        } else if key.eq(&self.class) {
            2
        } else if key.eq(&self.desc) {
            3
        } else if key.eq(&self.level) {
            4
        } else {
            0
        }
    }
}

/// Scans a decompressed payload's typed fields and builds the record's entry.
/// Scanning stops as soon as the fields the kind needs are known, so what
/// follows them is never read.
pub fn parse_record(
    header: &ArzRecordHeader,
    data: Vec<u8>,
    record_name: &String,
    strings: &Vec<String>,
    is_affix: bool,
) -> (r: Result<EntryType, DecodeError>)
    ensures
        r is Ok <==> record_fields(data@, string_views(strings@), header.size_decompressed, is_affix) is Some,
        r is Ok ==> r->Ok_0@ == entry_model(
            record_name@,
            is_affix,
            record_fields(data@, string_views(strings@), header.size_decompressed, is_affix)->0,
        ),
{
    let ghost d = data@;
    let ghost strs = string_views(strings@);
    let names = FieldNames::new();
    let mut reader = ByteReader::from_vec(data);
    let limit: u64 = (header.size_decompressed / 4) as u64;
    let mut words: u64 = 0;
    let mut remaining: u16 = 0;
    let mut ty: u16 = 0;
    let mut kind: u8 = 0;
    let ghost mut key: Seq<char> = Seq::empty();
    let mut tag: Option<String> = None;
    let mut desc: Option<String> = None;
    let mut rarity: Option<String> = None;
    let mut level: Option<u32> = None;
    let ghost whole = record_fields(d, strs, header.size_decompressed, is_affix);
    while !(tag.is_some() && rarity.is_some() && (is_affix || level.is_some())) && !(remaining == 0 && words
        >= limit)
        invariant
            reader.wf(),
            reader.data() == d,
            d == data@,
            whole == record_fields(d, strs, header.size_decompressed, is_affix),
            names.wf(),
            strs == string_views(strings@),
            limit == header.size_decompressed as int / 4,
            words <= limit + 0x10002,
            remaining > 0 ==> kind == key_kind(key),
            scan_fields(
                d,
                strs,
                limit as int,
                is_affix,
                ScanState {
                    pos: reader.pos(),
                    words: words as int,
                    remaining: remaining as int,
                    ty,
                    key,
                    found: FoundFields {
                        tag: opt_view(tag),
                        desc: opt_view(desc),
                        rarity: opt_view(rarity),
                        level,
                    },
                },
            ) == whole,
        decreases d.len() - reader.pos(),
    {
        let ghost found = FoundFields { tag: opt_view(tag), desc: opt_view(desc), rarity: opt_view(rarity), level };
        let ghost st = ScanState {
            pos: reader.pos(),
            words: words as int,
            remaining: remaining as int,
            ty,
            key,
            found,
        };
        assert(!fields_complete(found, is_affix));
        if remaining > 0 {
            let v = match reader.read_u32() {
                Ok(v) => v,
                Err(e) => {
                    assert(scan_fields(d, strs, limit as int, is_affix, st) is None);
                    return Err(e);
                },
            };
            assert(apply_value(ty, key, v, strs, found) == apply_value(ty, key, le_u32(d, st.pos) as u32, strs, found));
            remaining = remaining - 1;
            if ty == FIELD_FLOAT {
            } else if ty == FIELD_STRING {
                if v as usize >= strings.len() {
                    assert(scan_fields(d, strs, limit as int, is_affix, st) is None);
                    return Err(DecodeError::BadStringIndex);
                }
                let s = &strings[v as usize];
                assert(s@ == strs[v as int]);
                if kind == 1 {
                    tag = Some(s.clone());
                } else if kind == 2 {
                    rarity = Some(s.clone());
                } else if kind == 3 {
                    desc = Some(s.clone());
                }
            } else if kind == 4 {
                level = Some(v);
            }
        } else {
            let h = match EntryHeader::read(&mut reader) {
                Ok(h) => h,
                Err(e) => {
                    assert(scan_fields(d, strs, limit as int, is_affix, st) is None);
                    return Err(e);
                },
            };
            if h.string_index as usize >= strings.len() {
                assert(scan_fields(d, strs, limit as int, is_affix, st) is None);
                return Err(DecodeError::BadStringIndex);
            }
            words = words + 2 + h.entry_count as u64;
            remaining = h.entry_count;
            ty = h.entry_type;
            kind = names.kind(&strings[h.string_index as usize]);
            proof {
                key = strs[h.string_index as int];
            }
        }
    }
    let ghost found = FoundFields { tag: opt_view(tag), desc: opt_view(desc), rarity: opt_view(rarity), level };
    assert(whole == Some(found));
    Ok(record_entry(record_name, is_affix, tag, desc, rarity, level))
}

/// The type tags of records that are decoded: the allowed prefixes, or
/// exactly `LootRandomizer`, but not the denied item sub-kinds.
pub open spec fn is_wanted_type(t: Seq<char>) -> bool {
    &&& (is_prefix("Armor"@, t) || is_prefix("Item"@, t) || is_prefix("QuestItem"@, t)
        || is_prefix("Weapon"@, t) || is_prefix("OneShot_Scroll"@, t) || t == "LootRandomizer"@)
    &&& !(is_prefix("Item"@, t) && (is_prefix("ItemTransmuter"@, t) || is_prefix("ItemTransmuterSet"@, t)
        || is_prefix("ItemSetFormula"@, t) || is_prefix("ItemRandomSetFormula"@, t)))
}

/// The record paths that are decoded: under one of the allowed roots, but
/// under none of the denied ones.
pub open spec fn is_wanted_path(p: Seq<char>) -> bool {
    &&& (is_prefix("records/items/"@, p) || is_prefix("records/creatures/npcs/npcgear/"@, p)
        || is_prefix("records/storyelements/"@, p) || is_prefix("records/endlessdungeon/"@, p))
    &&& !(is_prefix("records/items/enemygear/"@, p) || is_prefix("records/items/transmutes/"@, p)
        || is_prefix("records/items/lootaffixes/prefixunique/"@, p)
        || is_prefix("records/items/lootaffixes/suffixunique/"@, p)
        || is_prefix("records/items/lootaffixes/completionrelics"@, p)
        || is_prefix("records/items/lootaffixes/completion"@, p)
        || is_prefix("records/items/lootaffixes/crafting"@, p))
}

/// The type tag of affix records.
pub open spec fn is_affix_type(t: Seq<char>) -> bool {
    t == "LootRandomizer"@
}

/// Whether records with this type tag are decoded.
pub fn wanted_type(t: &String) -> (r: bool)
    ensures
        r == is_wanted_type(t@),
{
    let s = t.as_str();
    let affix = "LootRandomizer".to_owned();
    let allowed = starts_with(s, "Armor") || starts_with(s, "Item") || starts_with(s, "QuestItem") || starts_with(s, "Weapon")
        || starts_with(s, "OneShot_Scroll") || t.eq(&affix);
    let denied = starts_with(s, "Item") && (starts_with(s, "ItemTransmuter") || starts_with(s, "ItemTransmuterSet")
        || starts_with(s, "ItemSetFormula") || starts_with(s, "ItemRandomSetFormula"));
    allowed && !denied
}

/// Whether records under this path are decoded.
pub fn wanted_path(p: &String) -> (r: bool)
    ensures
        r == is_wanted_path(p@),
{
    let s = p.as_str();
    let allowed = starts_with(s, "records/items/") || starts_with(s, "records/creatures/npcs/npcgear/") || starts_with(
        s,
        "records/storyelements/",
    ) || starts_with(s, "records/endlessdungeon/");
    let denied = starts_with(s, "records/items/enemygear/") || starts_with(s, "records/items/transmutes/") || starts_with(
        s,
        "records/items/lootaffixes/prefixunique/",
    ) || starts_with(s, "records/items/lootaffixes/suffixunique/") || starts_with(
        s,
        "records/items/lootaffixes/completionrelics",
    ) || starts_with(s, "records/items/lootaffixes/completion") || starts_with(s, "records/items/lootaffixes/crafting");
    allowed && !denied
}

/// Records of a denied type or under a denied path are never decoded.
pub proof fn lemma_denied_records(t: Seq<char>, p: Seq<char>)
    ensures
        is_prefix("ItemRandomSetFormula"@, t) ==> !is_wanted_type(t),
        is_prefix("ItemTransmuter"@, t) ==> !is_wanted_type(t),
        is_prefix("ItemSetFormula"@, t) ==> !is_wanted_type(t),
        is_prefix("records/items/enemygear/"@, p) ==> !is_wanted_path(p),
        is_prefix("records/items/transmutes/"@, p) ==> !is_wanted_path(p),
{
    reveal_strlit("Item");
    reveal_strlit("ItemRandomSetFormula");
    reveal_strlit("ItemTransmuter");
    reveal_strlit("ItemSetFormula");
    if is_prefix("ItemRandomSetFormula"@, t) {
        assert(t.subrange(0, 4) =~= "ItemRandomSetFormula"@.subrange(0, 4));
        assert("ItemRandomSetFormula"@.subrange(0, 4) =~= "Item"@);
    }
    if is_prefix("ItemTransmuter"@, t) {
        assert(t.subrange(0, 4) =~= "ItemTransmuter"@.subrange(0, 4));
        assert("ItemTransmuter"@.subrange(0, 4) =~= "Item"@);
    }
    if is_prefix("ItemSetFormula"@, t) {
        assert(t.subrange(0, 4) =~= "ItemSetFormula"@.subrange(0, 4));
        assert("ItemSetFormula"@.subrange(0, 4) =~= "Item"@);
    }
}

/// The raw bytes of a record's payload, which starts 24 bytes after its offset.
pub open spec fn payload_bytes(d: Seq<u8>, h: RecordModel) -> Seq<u8> {
    d.subrange(h.offset + PAYLOAD_SHIFT, h.offset + PAYLOAD_SHIFT + h.size_compressed)
}

/// A record's payload: its bytes as they are when the two sizes agree, else
/// their decompression.
pub open spec fn record_payload(d: Seq<u8>, h: RecordModel) -> Seq<u8> {
    if h.size_compressed == h.size_decompressed {
        payload_bytes(d, h)
    } else {
        lz4_block(payload_bytes(d, h), h.size_decompressed as int)
    }
}

/// A record's payload can be read: it lies within the bytes and is stored
/// raw, or decompresses into its declared size.
pub open spec fn payload_ok(d: Seq<u8>, h: RecordModel) -> bool {
    &&& h.offset + PAYLOAD_SHIFT + h.size_compressed <= d.len()
    &&& (h.size_compressed == h.size_decompressed || (h.size_decompressed <= i32::MAX && lz4_fits(
        payload_bytes(d, h),
        h.size_decompressed as int,
    )))
}

/// Reads a record's payload.
pub fn decompress(r: &mut ByteReader, h: &ArzRecordHeader) -> (res: Result<Vec<u8>, DecodeError>)
    requires
        old(r).wf(),
    ensures
        final(r).wf(),
        final(r).data() == old(r).data(),
        h.offset + PAYLOAD_SHIFT + h.size_compressed > old(r).data().len() ==> res == Err::<Vec<u8>, DecodeError>(
            DecodeError::OutOfBounds,
        ),
        res is Ok <==> payload_ok(old(r).data(), h@),
        res is Ok ==> res->Ok_0@ == record_payload(old(r).data(), h@),
{
    let start = h.offset as u64 + PAYLOAD_SHIFT as u64;
    if start + h.size_compressed as u64 > r.len() as u64 {
        return Err(DecodeError::OutOfBounds);
    }
    r.seek(start as usize)?;
    let raw = r.read_n_bytes(h.size_compressed)?;
    if h.size_compressed == h.size_decompressed {
        Ok(raw)
    } else if h.size_decompressed > i32::MAX as u32 {
        Err(DecodeError::Decompression)
    } else {
        match lz4_decompress(raw.as_slice(), h.size_decompressed) {
            Some(v) => Ok(v),
            None => Err(DecodeError::Decompression),
        }
    }
}

/// The strings of the table from `pos` with `rem` strings left in the
/// current group: each group is a count and that many length-prefixed UTF-8
/// strings, and groups follow one another until `end` is reached.
pub open spec fn strings_from(d: Seq<u8>, end: int, pos: int, rem: int) -> Option<Seq<Seq<char>>>
    decreases d.len() - pos,
{
    if pos < 0 || pos > d.len() {
        None
    } else if rem > 0 {
        if pos + 4 > d.len() {
            None
        } else {
            let len = le_u32(d, pos);
            let b = d.subrange(pos + 4, pos + 4 + len);
            if pos + 4 + len > d.len() || !valid_utf8(b) {
                None
            } else {
                match strings_from(d, end, pos + 4 + len, rem - 1) {
                    Some(rest) => Some(seq![decode_utf8(b)] + rest),
                    None => None,
                }
            }
        }
    } else if pos >= end {
        Some(Seq::empty())
    } else if pos + 4 > d.len() {
        None
    } else {
        strings_from(d, end, pos + 4, le_u32(d, pos))
    }
}

/// Where reading the string table from `pos` with `rem` strings left stops:
/// the first group boundary at or past `end`.
pub open spec fn strings_end(d: Seq<u8>, end: int, pos: int, rem: int) -> int
    decreases d.len() - pos,
{
    if pos < 0 || pos > d.len() {
        pos
    } else if rem > 0 {
        if pos + 4 > d.len() {
            pos
        } else {
            let len = le_u32(d, pos);
            if pos + 4 + len > d.len() {
                pos
            } else {
                strings_end(d, end, pos + 4 + len, rem - 1)
            }
        }
    } else if pos >= end {
        pos
    } else if pos + 4 > d.len() {
        pos
    } else {
        strings_end(d, end, pos + 4, le_u32(d, pos))
    }
}

/// The string table of a database whose header is at the start of `d`.
pub open spec fn string_table(d: Seq<u8>) -> Option<Seq<Seq<char>>> {
    strings_from(d, le_u32(d, 16) + le_u32(d, 20), le_u32(d, 16), 0)
}

/// `a` before what `o` holds, if it holds anything.
pub open spec fn prepend<A>(a: Seq<A>, o: Option<Seq<A>>) -> Option<Seq<A>> {
    match o {
        Some(r) => Some(a + r),
        None => None,
    }
}

/// Reads the string table: groups of a count and that many length-prefixed
/// strings, until the position reaches the table's end.
pub fn read_strings(r: &mut ByteReader, header: &ArzArchiveHeader) -> (res: Result<Vec<String>, DecodeError>)
    requires
        old(r).wf(),
    ensures
        final(r).wf(),
        final(r).data() == old(r).data(),
        ({
            let s = strings_from(
                old(r).data(),
                header.strings_start + header.strings_size,
                header.strings_start as int,
                0,
            );
            &&& res is Ok <==> s is Some
            &&& res is Ok ==> string_views(res->Ok_0@) == s->0
            &&& res is Ok ==> final(r).pos() == strings_end(
                old(r).data(),
                header.strings_start + header.strings_size,
                header.strings_start as int,
                0,
            ) && final(r).pos() >= header.strings_start + header.strings_size
        }),
{
    let ghost d = r.data();
    let ghost full = strings_from(d, header.strings_start + header.strings_size, header.strings_start as int, 0);
    let end = header.strings_start as u64 + header.strings_size as u64;
    if header.strings_start as usize > r.len() {
        return Err(DecodeError::OutOfBounds);
    }
    r.seek(header.strings_start as usize)?;
    let mut strings: Vec<String> = Vec::new();
    let mut remaining: u32 = 0;
    assert(string_views(strings@) + Seq::<Seq<char>>::empty() =~= Seq::<Seq<char>>::empty());
    assert(prepend(string_views(strings@), full) == full);
    while remaining > 0 || (r.position() as u64) < end
        invariant
            r.wf(),
            r.data() == d,
            d == old(r).data(),
            end == header.strings_start + header.strings_size,
            full == strings_from(d, end as int, header.strings_start as int, 0),
            full == prepend(string_views(strings@), strings_from(d, end as int, r.pos(), remaining as int)),
            strings_end(d, end as int, header.strings_start as int, 0) == strings_end(d, end as int, r.pos(), remaining as int),
        decreases d.len() - r.pos(),
    {
        let ghost p = r.pos();
        if remaining > 0 {
            let len = r.read_u32()?;
            let s = r.read_string(len)?;
            let ghost rest = strings_from(d, end as int, r.pos(), remaining - 1);
            strings.push(s);
            remaining = remaining - 1;
            proof {
                let before = string_views(strings@.drop_last());
                assert(string_views(strings@) =~= before.push(s@));
                if rest is Some {
                    assert(before + (seq![s@] + rest->0) =~= string_views(strings@) + rest->0);
                }
            }
        } else {
            remaining = r.read_u32()?;
        }
    }
    assert(string_views(strings@) + Seq::<Seq<char>>::empty() =~= string_views(strings@));
    Ok(strings)
}

/// The record table from `pos`: `n` entries, each followed by eight bytes
/// that are skipped.
pub open spec fn records_from(d: Seq<u8>, pos: int, n: nat) -> Option<Seq<RecordModel>>
    decreases n,
{
    if n == 0 {
        if 0 <= pos <= d.len() {
            Some(Seq::empty())
        } else {
            None
        }
    } else {
        match record_at(d, pos) {
            None => None,
            Some((m, e)) => if e + 8 > d.len() {
                None
            } else {
                match records_from(d, e + 8, (n - 1) as nat) {
                    Some(rest) => Some(seq![m] + rest),
                    None => None,
                }
            },
        }
    }
}

/// Where reading `n` record entries from `pos` ends.
pub open spec fn records_end(d: Seq<u8>, pos: int, n: nat) -> int
    decreases n,
{
    if n == 0 {
        pos
    } else {
        match record_at(d, pos) {
            None => pos,
            Some((_, e)) => records_end(d, e + 8, (n - 1) as nat),
        }
    }
}

/// The record table of a database whose header is at the start of `d`.
pub open spec fn record_table(d: Seq<u8>) -> Option<Seq<RecordModel>> {
    records_from(d, le_u32(d, 4), le_u32(d, 12) as nat)
}

/// Reads the record table; each entry is followed by eight bytes that are skipped.
pub fn read_record_headers(r: &mut ByteReader, header: &ArzArchiveHeader) -> (res: Result<
    Vec<ArzRecordHeader>,
    DecodeError,
>)
    requires
        old(r).wf(),
    ensures
        final(r).wf(),
        final(r).data() == old(r).data(),
        ({
            let s = records_from(old(r).data(), header.records_start as int, header.records_count as nat);
            &&& res is Ok <==> s is Some
            &&& res is Ok ==> record_views(res->Ok_0@) == s->0
            &&& res is Ok ==> final(r).pos() == records_end(old(r).data(), header.records_start as int, header.records_count as nat)
        }),
{
    let ghost d = r.data();
    let ghost full = records_from(d, header.records_start as int, header.records_count as nat);
    if header.records_start as usize > r.len() {
        proof {
            lemma_records_from_start(d, header.records_start as int, header.records_count as nat);
        }
        return Err(DecodeError::OutOfBounds);
    }
    r.seek(header.records_start as usize)?;
    let mut records: Vec<ArzRecordHeader> = Vec::new();
    let mut i: u32 = 0;
    assert(record_views(records@) + Seq::<RecordModel>::empty() =~= Seq::<RecordModel>::empty());
    while i < header.records_count
        invariant
            r.wf(),
            r.data() == d,
            d == old(r).data(),
            i <= header.records_count,
            records@.len() == i,
            full == records_from(d, header.records_start as int, header.records_count as nat),
            full == prepend(record_views(records@), records_from(d, r.pos(), (header.records_count - i) as nat)),
            full is Some ==> records_end(d, header.records_start as int, header.records_count as nat) == records_end(d, r.pos(), (header.records_count - i) as nat),
        decreases header.records_count - i,
    {
        let h = ArzRecordHeader::read(r)?;
        let skip = r.position();
        if r.len() - skip < 8 {
            return Err(DecodeError::OutOfBounds);
        }
        r.seek(skip + 8)?;
        let ghost rest = records_from(d, r.pos(), (header.records_count - i - 1) as nat);
        let ghost before = record_views(records@);
        records.push(h);
        i = i + 1;
        proof {
            assert(record_views(records@) =~= before.push(h@));
            if rest is Some {
                assert(before + (seq![h@] + rest->0) =~= record_views(records@) + rest->0);
            }
        }
    }
    assert(record_views(records@) + Seq::<RecordModel>::empty() =~= record_views(records@));
    Ok(records)
}

/// A table that starts past the end of the bytes cannot be read.
proof fn lemma_records_from_start(d: Seq<u8>, pos: int, n: nat)
    requires
        pos > d.len(),
    ensures
        records_from(d, pos, n) is None,
{
}

/// Record `j` is decoded: its path index is in range, and its type and path are wanted.
pub open spec fn is_selected(strs: Seq<Seq<char>>, hs: Seq<RecordModel>, j: int) -> bool {
    &&& 0 <= j < hs.len()
    &&& hs[j].string_index < strs.len()
    &&& is_wanted_type(hs[j].record_type)
    &&& is_wanted_path(strs[hs[j].string_index as int])
}

/// Record `j` is decoded, is named `k`, is an affix or not as `affix` says,
/// and yields the entry `e`.
pub open spec fn yields(
    d: Seq<u8>,
    strs: Seq<Seq<char>>,
    hs: Seq<RecordModel>,
    j: int,
    k: Seq<char>,
    affix: bool,
    e: EntryModel,
) -> bool {
    &&& is_selected(strs, hs, j)
    &&& strs[hs[j].string_index as int] == k
    &&& is_affix_type(hs[j].record_type) == affix
    &&& record_fields(record_payload(d, hs[j]), strs, hs[j].size_decompressed, affix) is Some
    &&& e == entry_model(k, affix, record_fields(record_payload(d, hs[j]), strs, hs[j].size_decompressed, affix)->0)
}

/// Record `j` yields `e` for path `k`, and no later record among the first
/// `n` that is decoded into the same map has that path.
pub open spec fn last_yields(
    d: Seq<u8>,
    strs: Seq<Seq<char>>,
    hs: Seq<RecordModel>,
    j: int,
    k: Seq<char>,
    affix: bool,
    e: EntryModel,
    n: int,
) -> bool {
    &&& yields(d, strs, hs, j, k, affix, e)
    &&& forall|j2: int|
        j < j2 < n && #[trigger] is_selected(strs, hs, j2) && is_affix_type(hs[j2].record_type) == affix
            ==> strs[hs[j2].string_index as int] != k
}

/// The map holds exactly the paths of the first `n` records that are
/// decoded and of the kind `affix` says, each with the entry that the last
/// such record with that path yields.
pub open spec fn collected(
    m: Map<Seq<char>, EntryModel>,
    d: Seq<u8>,
    strs: Seq<Seq<char>>,
    hs: Seq<RecordModel>,
    n: int,
    affix: bool,
) -> bool {
    &&& forall|k: Seq<char>| #[trigger]
        m.contains_key(k) ==> exists|j: int| 0 <= j < n && #[trigger] last_yields(d, strs, hs, j, k, affix, m[k], n)
    &&& forall|j: int|
        0 <= j < n && #[trigger] is_selected(strs, hs, j) && is_affix_type(hs[j].record_type) == affix
            ==> m.contains_key(strs[hs[j].string_index as int])
}

/// A record that is not decoded into the map leaves it as collected.
proof fn lemma_collected_skip(
    m: Map<Seq<char>, EntryModel>,
    d: Seq<u8>,
    strs: Seq<Seq<char>>,
    hs: Seq<RecordModel>,
    n: int,
    affix: bool,
)
    requires
        collected(m, d, strs, hs, n, affix),
        0 <= n < hs.len(),
        !(is_selected(strs, hs, n) && is_affix_type(hs[n].record_type) == affix),
    ensures
        collected(m, d, strs, hs, n + 1, affix),
{
    assert forall|k: Seq<char>| #[trigger] m.contains_key(k) implies exists|j: int|
        0 <= j < n + 1 && #[trigger] last_yields(d, strs, hs, j, k, affix, m[k], n + 1) by {
        let j = choose|j: int| 0 <= j < n && #[trigger] last_yields(d, strs, hs, j, k, affix, m[k], n);
        assert(last_yields(d, strs, hs, j, k, affix, m[k], n + 1));
    }
}

/// A record decoded into the map is collected with its entry.
proof fn lemma_collected_insert(
    m: Map<Seq<char>, EntryModel>,
    d: Seq<u8>,
    strs: Seq<Seq<char>>,
    hs: Seq<RecordModel>,
    n: int,
    affix: bool,
    k: Seq<char>,
    e: EntryModel,
)
    requires
        collected(m, d, strs, hs, n, affix),
        yields(d, strs, hs, n, k, affix, e),
    ensures
        collected(m.insert(k, e), d, strs, hs, n + 1, affix),
{
    let m2 = m.insert(k, e);
    assert forall|k2: Seq<char>| #[trigger] m2.contains_key(k2) implies exists|j: int|
        0 <= j < n + 1 && #[trigger] last_yields(d, strs, hs, j, k2, affix, m2[k2], n + 1) by {
        if k2 == k {
            assert(last_yields(d, strs, hs, n, k2, affix, m2[k2], n + 1));
        } else {
            let j = choose|j: int| 0 <= j < n && #[trigger] last_yields(d, strs, hs, j, k2, affix, m[k2], n);
            assert(last_yields(d, strs, hs, j, k2, affix, m2[k2], n + 1));
        }
    }
}

/// A path under the enemy gear root, or one that only records of a denied
/// type such as `ItemRandomSetFormula` carry, never appears in a collected map.
pub proof fn lemma_denied_never_collected(
    m: Map<Seq<char>, EntryModel>,
    d: Seq<u8>,
    strs: Seq<Seq<char>>,
    hs: Seq<RecordModel>,
    n: int,
    affix: bool,
    k: Seq<char>,
)
    requires
        collected(m, d, strs, hs, n, affix),
        is_prefix("records/items/enemygear/"@, k) || forall|j: int|
            0 <= j < n && hs[j].string_index < strs.len() && #[trigger] strs[hs[j].string_index as int] == k
                ==> is_prefix("ItemRandomSetFormula"@, hs[j].record_type),
    ensures
        !m.contains_key(k),
{
    if m.contains_key(k) {
        let j = choose|j: int| 0 <= j < n && #[trigger] last_yields(d, strs, hs, j, k, affix, m[k], n);
        lemma_denied_records(hs[j].record_type, k);
    }
}

/// Every record's path index is in range, and every record that is decoded
/// has a readable payload whose fields can be read.
pub open spec fn records_decodable(d: Seq<u8>, strs: Seq<Seq<char>>, hs: Seq<RecordModel>) -> bool {
    &&& forall|j: int| 0 <= j < hs.len() ==> (#[trigger] hs[j]).string_index < strs.len()
    &&& forall|j: int|
        #[trigger] is_selected(strs, hs, j) ==> {
            &&& payload_ok(d, hs[j])
            &&& record_fields(
                record_payload(d, hs[j]),
                strs,
                hs[j].size_decompressed,
                is_affix_type(hs[j].record_type),
            ) is Some
        }
}

/// Decodes every record whose type and path are wanted, into the item map
/// or, for `LootRandomizer` records, the affix map; a later record with the
/// same path wins.
pub fn collect_records(r: &mut ByteReader, strings: &Vec<String>, headers: &Vec<ArzRecordHeader>) -> (res: Result<
    (StrMap<EntryType>, StrMap<EntryType>),
    DecodeError,
>)
    requires
        old(r).wf(),
    ensures
        final(r).wf(),
        final(r).data() == old(r).data(),
        records_decodable(old(r).data(), string_views(strings@), record_views(headers@)) ==> res is Ok,
        res is Ok ==> collected(
            res->Ok_0.0.view(),
            old(r).data(),
            string_views(strings@),
            record_views(headers@),
            headers@.len() as int,
            false,
        ),
        res is Ok ==> collected(
            res->Ok_0.1.view(),
            old(r).data(),
            string_views(strings@),
            record_views(headers@),
            headers@.len() as int,
            true,
        ),
{
    let ghost d = r.data();
    let ghost strs = string_views(strings@);
    let ghost hs = record_views(headers@);
    let loot = "LootRandomizer".to_owned();
    let mut items: StrMap<EntryType> = StrMap::new();
    let mut affixes: StrMap<EntryType> = StrMap::new();
    let mut i: usize = 0;
    while i < headers.len()
        invariant
            r.wf(),
            r.data() == d,
            d == old(r).data(),
            strs == string_views(strings@),
            hs == record_views(headers@),
            hs.len() == headers@.len(),
            loot@ == "LootRandomizer"@,
            i <= hs.len(),
            collected(items.view(), d, strs, hs, i as int, false),
            collected(affixes.view(), d, strs, hs, i as int, true),
        decreases hs.len() - i,
    {
        let h = &headers[i];
        let idx = h.string_index as usize;
        assert(hs[i as int] == h@);
        if idx >= strings.len() {
            return Err(DecodeError::BadStringIndex);
        }
        let name = &strings[idx];
        assert(name@ == strs[idx as int]);
        assert(hs[i as int] == h@);
        if wanted_type(&h.record_type) && wanted_path(name) {
            assert(is_selected(strs, hs, i as int));
            let data = decompress(r, h)?;
            let affix = h.record_type.eq(&loot);
            let entry = parse_record(h, data, name, strings, affix)?;
            let ghost e = entry@;
            assert(yields(d, strs, hs, i as int, name@, affix, e));
            proof {
                lemma_collected_insert(if affix { affixes.view() } else { items.view() }, d, strs, hs, i as int, affix, name@, e);
                lemma_collected_skip(if affix { items.view() } else { affixes.view() }, d, strs, hs, i as int, !affix);
            }
            if affix {
                affixes.insert(name.clone(), entry);
            } else {
                items.insert(name.clone(), entry);
            }
        } else {
            proof {
                lemma_collected_skip(items.view(), d, strs, hs, i as int, false);
                lemma_collected_skip(affixes.view(), d, strs, hs, i as int, true);
            }
        }
        i = i + 1;
    }
    Ok((items, affixes))
}

/// Decodes a database: checks its header (reserved 2, version 3), reads the
/// string and record tables, and collects the wanted records.
pub fn read_archive(bytes: Vec<u8>) -> (res: Result<(StrMap<EntryType>, StrMap<EntryType>), DecodeError>)
    ensures
        bytes@.len() < 24 ==> res == Err::<(StrMap<EntryType>, StrMap<EntryType>), DecodeError>(
            DecodeError::OutOfBounds,
        ),
        bytes@.len() >= 24 && (le_u16(bytes@, 0) != ARZ_RESERVED || le_u16(bytes@, 2) != ARZ_VERSION) ==> res
            == Err::<(StrMap<EntryType>, StrMap<EntryType>), DecodeError>(DecodeError::BadHeader),
        bytes@.len() >= 24 && le_u16(bytes@, 0) == ARZ_RESERVED && le_u16(bytes@, 2) == ARZ_VERSION && string_table(
            bytes@,
        ) is Some && record_table(bytes@) is Some && records_decodable(
            bytes@,
            string_table(bytes@)->0,
            record_table(bytes@)->0,
        ) ==> res is Ok,
        res is Ok ==> ({
            let d = bytes@;
            &&& d.len() >= 24 && le_u16(d, 0) == ARZ_RESERVED && le_u16(d, 2) == ARZ_VERSION
            &&& string_table(d) is Some && record_table(d) is Some
            &&& collected(res->Ok_0.0.view(), d, string_table(d)->0, record_table(d)->0, record_table(d)->0.len() as int, false)
            &&& collected(res->Ok_0.1.view(), d, string_table(d)->0, record_table(d)->0, record_table(d)->0.len() as int, true)
        }),
        res is Ok ==> forall|k: Seq<char>| #[trigger]
            res->Ok_0.0.view().contains_key(k) ==> is_wanted_path(k) && res->Ok_0.0.view()[k] is Item,
        res is Ok ==> forall|k: Seq<char>| #[trigger]
            res->Ok_0.1.view().contains_key(k) ==> is_wanted_path(k) && res->Ok_0.1.view()[k] is Affix,
{
    let mut reader = ByteReader::from_vec(bytes);
    let header = ArzArchiveHeader::new(&mut reader)?;
    if header.unknown != ARZ_RESERVED || header.version != ARZ_VERSION {
        return Err(DecodeError::BadHeader);
    }
    let strings = read_strings(&mut reader, &header)?;
    let headers = read_record_headers(&mut reader, &header)?;
    let maps = collect_records(&mut reader, &strings, &headers)?;
    let ghost strs = string_views(strings@);
    let ghost d = reader.data();
    assert forall|k: Seq<char>| #[trigger] maps.0.view().contains_key(k) implies is_wanted_path(k)
        && maps.0.view()[k] is Item by {
        let j = choose|j: int| 0 <= j < headers@.len() && last_yields(d, strs, record_views(headers@), j, k, false, maps.0.view()[k], headers@.len() as int);
    }
    assert forall|k: Seq<char>| #[trigger] maps.1.view().contains_key(k) implies is_wanted_path(k)
        && maps.1.view()[k] is Affix by {
        let j = choose|j: int| 0 <= j < headers@.len() && last_yields(d, strs, record_views(headers@), j, k, true, maps.1.view()[k], headers@.len() as int);
    }
    Ok(maps)
}

} // verus!
