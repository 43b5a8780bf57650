use gdsearch::arz_parser::{AffixInfo, EntryType};
use gdsearch::inventory_item::InventoryItem;
use gdsearch::item_search::{ItemLookup, Rarity, TagNames};
use gdsearch::stash::Stash;
use gdsearch::str_map::StrMap;

const PRIME: u32 = 39916801;

struct Enc {
    out: Vec<u8>,
    table: Vec<u32>,
    key: u32,
}

impl Enc {
    fn new(seed: u32) -> Enc {
        let mut k = seed ^ 0x55555555;
        let mut table = Vec::new();
        for _ in 0..256 {
            k = k.rotate_right(1).wrapping_mul(PRIME);
            table.push(k);
        }
        Enc { out: seed.to_le_bytes().to_vec(), key: table[255], table }
    }
    fn word(&mut self, v: u32) {
        let raw = v ^ self.key;
        self.out.extend_from_slice(&raw.to_le_bytes());
        for b in raw.to_be_bytes() {
            self.key ^= self.table[b as usize];
        }
    }
    fn peek_int(&mut self, v: u32) {
        self.out.extend_from_slice(&(v ^ self.key).to_le_bytes());
    }
    fn text(&mut self, s: &str) {
        self.word(s.len() as u32);
        for &p in s.as_bytes() {
            let raw = p ^ (self.key as u8);
            self.out.push(raw);
            self.key ^= self.table[raw as usize];
        }
    }
    fn raw_byte(&mut self, raw: u8) {
        self.key ^= self.table[raw as usize];
        self.out.push(raw);
    }
    /// Opens a block; returns where its length goes and the key it is encoded with.
    fn open(&mut self, tag: u32) -> (usize, u32) {
        self.word(tag);
        let at = self.out.len();
        self.out.extend_from_slice(&[0; 4]);
        (at, self.key)
    }
    fn close(&mut self, (at, k): (usize, u32)) {
        let len = (self.out.len() - at - 4) as u32;
        self.out[at..at + 4].copy_from_slice(&(len ^ k).to_le_bytes());
        self.peek_int(0);
    }
    fn item(&mut self, base: &str, prefix: &str, suffix: &str, stack: u32) {
        for s in [base, prefix, suffix, "", ""] {
            self.text(s);
        }
        self.word(7);
        self.text("");
        self.text("");
        self.word(0);
        self.text("");
        for v in [0, 0, 0, stack, 1, 2] {
            self.word(v);
        }
    }
}

fn two_tab_stash() -> Vec<u8> {
    stash_with_tab_sentinel(0)
}

fn stash_with_tab_sentinel(sentinel: u32) -> Vec<u8> {
    let mut e = Enc::new(0x0BADF00D);
    e.word(2);
    let outer = e.open(18);
    e.word(5);
    e.peek_int(0);
    e.text("");
    e.raw_byte(1);
    e.word(2);
    let tab = e.open(0);
    e.word(10);
    e.word(18);
    e.word(2);
    e.item("records/items/gear/boots.dbr", "", "records/items/lootaffixes/suffix/fox.dbr", 3);
    e.item("records/items/gear/helm.dbr", "", "", 1);
    e.close(tab);
    let tab = e.open(0);
    e.word(10);
    e.word(18);
    e.word(1);
    e.item("records/items/gear/ring.dbr", "", "", 1);
    let (at, k) = tab;
    let len = (e.out.len() - at - 4) as u32;
    e.out[at..at + 4].copy_from_slice(&(len ^ k).to_le_bytes());
    e.peek_int(sentinel);
    e.close(outer);
    e.out
}

fn lookup(term: &str) -> ItemLookup {
    let mut items = StrMap::new();
    for (path, tag, rarity) in [
        ("records/items/gear/boots.dbr", "tagBoots", "Rare"),
        ("records/items/gear/helm.dbr", "tagHelm", "Legendary"),
        ("records/items/gear/ring.dbr", "tagRing", "common"),
    ] {
        items.insert(
            path.to_string(),
            EntryType::Item(path.to_string(), tag.to_string(), rarity.to_string(), Some(20)),
        );
    }
    let mut affixes = StrMap::new();
    affixes.insert(
        "records/items/lootaffixes/suffix/fox.dbr".to_string(),
        EntryType::Affix(AffixInfo { tag_name: Some("tagFox".to_string()), rarity: "Magical".to_string(), name: None }),
    );
    let mut loc = StrMap::new();
    for (k, v) in [("tagBoots", "Boots of Swiftness"), ("tagHelm", "Crown"), ("tagRing", "^kRing"), ("tagFox", "of the Fox")] {
        loc.insert(k.to_string(), v.to_string());
    }
    ItemLookup { search_term: term.to_string(), localization_data: loc, tag_names: TagNames { items, affixes } }
}

#[test]
fn stash_search_finds_one_item() {
    let stash = Stash::new(two_tab_stash()).unwrap();
    assert_eq!(stash.tabs.len(), 2);
    assert_eq!(stash.tabs[0].len(), 2);
    assert_eq!(stash.tabs[1].len(), 1);
    let l = lookup("swiftness");
    let found: Vec<_> = stash.tabs.iter().flatten().filter_map(|i| l.check_item(i)).collect();
    assert_eq!(found.len(), 1);
    let c = &found[0];
    assert_eq!(c.name, "Boots of Swiftness");
    assert_eq!(c.prefix, None);
    assert_eq!(c.suffix.as_deref(), Some("of the Fox"));
    assert_eq!(c.quantity, 3);
    assert!(c.quantity > 1);
    assert_eq!(c.item_rarity, Rarity::Rare);
    assert_eq!(c.suffix_rarity, Rarity::Magical);
    assert_eq!(c.fmt_searchable_item_name(), " Boots of Swiftness of the Fox");
}

#[test]
fn stash_with_wrong_version_fails() {
    let mut e = Enc::new(1);
    e.word(3);
    assert!(matches!(Stash::new(e.out), Err(gdsearch::error::DecodeError::BadHeader)));
}

#[test]
fn stash_block_misalignment_is_fatal() {
    let mut bytes = two_tab_stash();
    bytes.insert(bytes.len() - 4, 0);
    assert!(Stash::new(bytes).is_err());
}

fn inv(base: &str, prefix: &str, suffix: &str, stack: u32) -> InventoryItem {
    InventoryItem {
        base_name: base.to_string(),
        prefix_name: prefix.to_string(),
        suffix_name: suffix.to_string(),
        modifier_name: String::new(),
        transmute_name: String::new(),
        seed: 0,
        component_name: String::new(),
        relic_completion_bonus: String::new(),
        relic_seed: 0,
        augment_name: String::new(),
        unknown: 0,
        augment_seed: 0,
        materia_combines: 0,
        stack_count: stack,
    }
}

#[test]
fn rare_component_mark_is_stripped() {
    let l = lookup("ring");
    let c = l.lookup_item(&inv("records/items/gear/ring.dbr", "", "", 1)).unwrap();
    assert_eq!(c.name, "Ring");
    assert_eq!(c.item_rarity, Rarity::RareComponent);
}

#[test]
fn unknown_items_and_affixes() {
    let l = lookup("crown");
    assert!(l.lookup_item(&inv("records/items/none.dbr", "", "", 1)).is_none());
    let c = l.lookup_item(&inv("records/items/gear/helm.dbr", "records/missing.dbr", "", 1)).unwrap();
    assert_eq!(c.prefix, None);
    assert_eq!(c.prefix_rarity, Rarity::CommonOrUnknown);
    assert_eq!(c.item_rarity, Rarity::Legendary);
    assert_eq!(c.level_req, Some(20));
    assert!(l.matches_search(&c));
    assert!(l.check_item(&inv("records/items/gear/boots.dbr", "", "", 1)).is_none());
}

#[test]
fn rarity_names_ignore_case() {
    assert_eq!(Rarity::of(&"LEGENDARY".to_string()), Rarity::Legendary);
    assert_eq!(Rarity::of(&"Epic".to_string()), Rarity::Epic);
    assert_eq!(Rarity::of(&"rare".to_string()), Rarity::Rare);
    assert_eq!(Rarity::of(&"Magical".to_string()), Rarity::Magical);
    assert_eq!(Rarity::of(&"Common".to_string()), Rarity::CommonOrUnknown);
}

#[test]
fn later_merged_map_wins() {
    let mut names = TagNames::new();
    let mut first = StrMap::new();
    first.insert("shared".to_string(), EntryType::Item("shared".into(), "tagBase".into(), "".into(), None));
    first.insert("only_first".to_string(), EntryType::Item("only_first".into(), "tagA".into(), "".into(), None));
    let mut second = StrMap::new();
    second.insert("shared".to_string(), EntryType::Item("shared".into(), "tagExpansion".into(), "".into(), None));
    names.merge(first, StrMap::new());
    names.merge(second, StrMap::new());
    match names.items.get(&"shared".to_string()) {
        Some(EntryType::Item(_, t, _, _)) => assert_eq!(t, "tagExpansion"),
        _ => panic!("missing"),
    }
    match names.items.get(&"only_first".to_string()) {
        Some(EntryType::Item(_, t, _, _)) => assert_eq!(t, "tagA"),
        _ => panic!("missing"),
    }
}

#[test]
fn tab_with_nonzero_sentinel_fails() {
    assert!(matches!(Stash::new(stash_with_tab_sentinel(7)), Err(gdsearch::error::DecodeError::BlockSentinel)));
}
