use gdsearch::arz_parser::{parse_record, read_archive, wanted_path, wanted_type, ArzRecordHeader, EntryType};
use gdsearch::error::DecodeError;

struct Db {
    strings: Vec<String>,
}

impl Db {
    fn idx(&mut self, s: &str) -> u32 {
        if let Some(i) = self.strings.iter().position(|x| x == s) {
            return i as u32;
        }
        self.strings.push(s.to_string());
        (self.strings.len() - 1) as u32
    }
}

enum Field {
    Text(&'static str, &'static str),
    Int(&'static str, u32),
    Float(&'static str, f32),
}

fn payload(db: &mut Db, fields: &[Field]) -> Vec<u8> {
    let mut out = Vec::new();
    for f in fields {
        let (ty, key, val) = match f {
            Field::Text(k, v) => (2u16, *k, db.idx(v)),
            Field::Int(k, v) => (0u16, *k, *v),
            Field::Float(k, v) => (1u16, *k, v.to_bits()),
        };
        out.extend_from_slice(&ty.to_le_bytes());
        out.extend_from_slice(&1u16.to_le_bytes());
        out.extend_from_slice(&db.idx(key).to_le_bytes());
        out.extend_from_slice(&val.to_le_bytes());
    }
    out
}

/// A database of records given as (path, type tag, fields), payloads stored raw.
fn database(records: &[(&str, &str, Vec<Field>)]) -> Vec<u8> {
    let mut db = Db { strings: Vec::new() };
    let mut payloads = Vec::new();
    let mut paths = Vec::new();
    for (path, _, fields) in records {
        paths.push(db.idx(path));
        payloads.push(payload(&mut db, fields));
    }
    let mut strings = Vec::new();
    strings.extend_from_slice(&(db.strings.len() as u32).to_le_bytes());
    for s in &db.strings {
        strings.extend_from_slice(&(s.len() as u32).to_le_bytes());
        strings.extend_from_slice(s.as_bytes());
    }
    let strings_start = 24u32;
    let records_start = strings_start + strings.len() as u32;
    let table_len: u32 = records.iter().map(|(_, t, _)| 28 + t.len() as u32).sum();
    let mut payload_at = records_start + table_len;
    let mut table = Vec::new();
    for (i, (_, tag, _)) in records.iter().enumerate() {
        table.extend_from_slice(&paths[i].to_le_bytes());
        table.extend_from_slice(&(tag.len() as u32).to_le_bytes());
        table.extend_from_slice(tag.as_bytes());
        let n = payloads[i].len() as u32;
        for v in [payload_at - 24, n, n] {
            table.extend_from_slice(&v.to_le_bytes());
        }
        table.extend_from_slice(&[0xAB; 8]);
        payload_at += n;
    }
    let mut out = Vec::new();
    out.extend_from_slice(&2u16.to_le_bytes());
    out.extend_from_slice(&3u16.to_le_bytes());
    for v in [records_start, table_len, records.len() as u32, strings_start, strings.len() as u32] {
        out.extend_from_slice(&v.to_le_bytes());
    }
    out.extend_from_slice(&strings);
    out.extend_from_slice(&table);
    for p in payloads {
        out.extend_from_slice(&p);
    }
    out
}

fn sample() -> Vec<u8> {
    database(&[
        (
            "records/items/gear/boots.dbr",
            "ArmorProtective_Feet",
            vec![
                Field::Float("armor", 1.5),
                Field::Text("itemNameTag", "tagBoots"),
                Field::Int("itemLevel", 30),
                Field::Text("itemClassification", "Rare"),
            ],
        ),
        ("records/items/formula.dbr", "ItemRandomSetFormula", vec![Field::Text("itemNameTag", "tagFormula")]),
        ("records/items/enemygear/axe.dbr", "WeaponMelee_Axe", vec![Field::Text("itemNameTag", "tagAxe")]),
        (
            "records/items/lootaffixes/suffix/fox.dbr",
            "LootRandomizer",
            vec![Field::Text("lootRandomizerName", "tagFox"), Field::Text("itemClassification", "Magical")],
        ),
        ("records/items/misc/relic.dbr", "ItemRelic", vec![Field::Text("description", "tagRelic")]),
        ("records/items/misc/blank.dbr", "ItemArtifact", vec![Field::Text("description", "")]),
        ("records/skills/fire.dbr", "Skill_Attack", vec![Field::Text("itemNameTag", "tagSkill")]),
    ])
}

fn item(e: Option<&EntryType>) -> (String, String, String, Option<u32>) {
    match e {
        Some(EntryType::Item(p, t, r, l)) => (p.clone(), t.clone(), r.clone(), *l),
        _ => panic!("not an item"),
    }
}

#[test]
fn wanted_records_are_decoded() {
    let (items, affixes) = read_archive(sample()).unwrap();
    let boots = item(items.get(&"records/items/gear/boots.dbr".to_string()));
    assert_eq!(
        boots,
        ("records/items/gear/boots.dbr".to_string(), "tagBoots".to_string(), "Rare".to_string(), Some(30))
    );
    match affixes.get(&"records/items/lootaffixes/suffix/fox.dbr".to_string()) {
        Some(EntryType::Affix(a)) => {
            assert_eq!(a.tag_name.as_deref(), Some("tagFox"));
            assert_eq!(a.rarity, "Magical");
            assert_eq!(a.name, None);
        }
        _ => panic!("affix missing"),
    }
}

#[test]
fn denied_type_and_path_never_appear() {
    let (items, affixes) = read_archive(sample()).unwrap();
    for p in ["records/items/formula.dbr", "records/items/enemygear/axe.dbr", "records/skills/fire.dbr"] {
        assert!(items.get(&p.to_string()).is_none());
        assert!(affixes.get(&p.to_string()).is_none());
    }
    assert!(!wanted_type(&"ItemRandomSetFormula".to_string()));
    assert!(!wanted_type(&"ItemTransmuterSet".to_string()));
    assert!(!wanted_type(&"LootRandomizerTable".to_string()));
    assert!(wanted_type(&"LootRandomizer".to_string()));
    assert!(wanted_type(&"QuestItem".to_string()));
    assert!(!wanted_path(&"records/items/enemygear/sword.dbr".to_string()));
    assert!(!wanted_path(&"records/items/lootaffixes/crafting/a.dbr".to_string()));
    assert!(wanted_path(&"records/storyelements/a.dbr".to_string()));
}

#[test]
fn display_tag_fallbacks() {
    let (items, _) = read_archive(sample()).unwrap();
    let relic = item(items.get(&"records/items/misc/relic.dbr".to_string()));
    assert_eq!(relic.1, "tagRelic");
    assert_eq!(relic.2, "");
    let blank = item(items.get(&"records/items/misc/blank.dbr".to_string()));
    assert_eq!(blank.1, "records/items/misc/blank.dbr");
    assert_eq!(blank.3, None);
}

#[test]
fn bad_header_is_rejected() {
    let mut bytes = sample();
    bytes[2] = 4;
    assert!(matches!(read_archive(bytes), Err(DecodeError::BadHeader)));
    let mut bytes = sample();
    bytes[0] = 1;
    assert!(matches!(read_archive(bytes), Err(DecodeError::BadHeader)));
    assert!(matches!(read_archive(vec![2, 0, 3, 0]), Err(DecodeError::OutOfBounds)));
}

fn entry(ty: u16, key: u32, value: u32) -> Vec<u8> {
    let mut out = Vec::new();
    out.extend_from_slice(&ty.to_le_bytes());
    out.extend_from_slice(&1u16.to_le_bytes());
    out.extend_from_slice(&key.to_le_bytes());
    out.extend_from_slice(&value.to_le_bytes());
    out
}

fn strings() -> Vec<String> {
    ["itemNameTag", "itemLevel", "itemClassification", "tagSword", "Epic", "other"].iter().map(|s| s.to_string()).collect()
}

fn header(size: u32) -> ArzRecordHeader {
    ArzRecordHeader {
        string_index: 0,
        record_type: "WeaponMelee_Sword".to_string(),
        offset: 0,
        size_compressed: size,
        size_decompressed: size,
    }
}

#[test]
fn scan_stops_after_the_needed_fields() {
    let mut data = Vec::new();
    data.extend(entry(2, 0, 3));
    data.extend(entry(0, 1, 12));
    data.extend(entry(2, 2, 4));
    data.extend(entry(2, 9999, 9999));
    let e = parse_record(&header(data.len() as u32), data, &"records/items/sword.dbr".to_string(), &strings(), false)
        .unwrap();
    match e {
        EntryType::Item(p, t, r, l) => {
            assert_eq!(p, "records/items/sword.dbr");
            assert_eq!(t, "tagSword");
            assert_eq!(r, "Epic");
            assert_eq!(l, Some(12));
        }
        _ => panic!("not an item"),
    }
}

#[test]
fn malformed_field_before_completion_fails() {
    let mut data = Vec::new();
    data.extend(entry(2, 0, 3));
    data.extend(entry(2, 9999, 9999));
    data.extend(entry(0, 1, 12));
    data.extend(entry(2, 2, 4));
    let r = parse_record(&header(data.len() as u32), data, &"records/items/sword.dbr".to_string(), &strings(), false);
    assert!(matches!(r, Err(DecodeError::BadStringIndex)));
}

#[test]
fn affix_stops_without_level() {
    let mut data = Vec::new();
    data.extend(entry(2, 0, 3));
    data.extend(entry(2, 2, 4));
    data.extend(vec![0xFF; 3]);
    let r = parse_record(&header(64), data, &"records/items/lootaffixes/a.dbr".to_string(), &strings(), true).unwrap();
    match r {
        EntryType::Affix(a) => {
            assert_eq!(a.tag_name.as_deref(), Some("tagSword"));
            assert_eq!(a.rarity, "Epic");
        }
        _ => panic!("not an affix"),
    }
}

#[test]
fn truncated_payload_fails() {
    let mut data = entry(2, 0, 3);
    data.truncate(10);
    let r = parse_record(&header(16), data, &"records/items/x.dbr".to_string(), &strings(), false);
    assert!(matches!(r, Err(DecodeError::OutOfBounds)));
}

#[test]
fn scan_ends_at_declared_size() {
    let mut data = entry(2, 0, 3);
    data.extend(entry(2, 2, 4));
    let r = parse_record(&header(12), data, &"records/items/x.dbr".to_string(), &strings(), false).unwrap();
    match r {
        EntryType::Item(_, t, r, l) => {
            assert_eq!(t, "tagSword");
            assert_eq!(r, "");
            assert_eq!(l, None);
        }
        _ => panic!("not an item"),
    }
}
