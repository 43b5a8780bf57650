use gdsearch::decrypt::Decrypt;
use gdsearch::error::DecodeError;
use gdsearch::player::{CharacterItems, PlayerHeader};
use gdsearch::stash_entry::StashEntry;

const PRIME: u32 = 39916801;

struct Enc {
    out: Vec<u8>,
    table: Vec<u32>,
    key: u32,
}

impl Enc {
    fn new(seed: u32) -> Enc {
        let mut k = seed ^ 0x55555555;
        let mut table = Vec::new();
        for _ in 0..256 {
            k = k.rotate_right(1).wrapping_mul(PRIME);
            table.push(k);
        }
        Enc { out: seed.to_le_bytes().to_vec(), key: table[255], table }
    }
    fn word(&mut self, v: u32) {
        let raw = v ^ self.key;
        self.out.extend_from_slice(&raw.to_le_bytes());
        for b in raw.to_be_bytes() {
            self.key ^= self.table[b as usize];
        }
    }
    fn peek_word(&mut self, v: u32) {
        self.out.extend_from_slice(&(v ^ self.key).to_le_bytes());
    }
    fn run(&mut self, plain: &[u8]) {
        for &p in plain {
            let raw = p ^ (self.key as u8);
            self.out.push(raw);
            self.key ^= self.table[raw as usize];
        }
    }
    fn text(&mut self, s: &str) {
        self.word(s.len() as u32);
        self.run(s.as_bytes());
    }
    fn wide(&mut self, s: &str) {
        let units: Vec<u16> = s.encode_utf16().collect();
        self.word(units.len() as u32);
        let bytes: Vec<u8> = units.iter().flat_map(|u| u.to_le_bytes()).collect();
        self.run(&bytes);
    }
    /// Writes a byte that decodes to something other than zero; returns what it decodes to.
    fn nonzero_byte(&mut self) -> u8 {
        for raw in 0..=255u8 {
            let k = self.key ^ self.table[raw as usize];
            let v = raw ^ (k as u8);
            if v != 0 {
                self.key = k;
                self.out.push(raw);
                return v;
            }
        }
        unreachable!()
    }
    fn open(&mut self, tag: u32) -> (usize, u32) {
        self.word(tag);
        let at = self.out.len();
        self.out.extend_from_slice(&[0; 4]);
        (at, self.key)
    }
    fn close(&mut self, (at, k): (usize, u32)) {
        let len = (self.out.len() - at - 4) as u32;
        self.out[at..at + 4].copy_from_slice(&(len ^ k).to_le_bytes());
        self.peek_word(0);
    }
    fn item(&mut self, base: &str, stack: u32) {
        for s in [base, "", "", "", ""] {
            self.text(s);
        }
        self.word(7);
        self.text("");
        self.text("");
        self.word(0);
        self.text("");
        for v in [0, 0, 0, stack, 3, 4] {
            self.word(v);
        }
    }
}

fn character(magic: u32) -> Vec<u8> {
    let mut e = Enc::new(0x5EED);
    e.word(magic);
    e.word(2);
    e.wide("Hero");
    e.nonzero_byte();
    e.text("tagClass");
    e.word(50);
    e.nonzero_byte();
    e.nonzero_byte();
    e.peek_word(0);
    e.word(8);
    for _ in 0..16 {
        e.nonzero_byte();
    }
    let info = e.open(1);
    e.word(5);
    for _ in 0..4 {
        e.nonzero_byte();
    }
    e.word(1000);
    e.nonzero_byte();
    e.word(3);
    for _ in 0..4 {
        e.nonzero_byte();
    }
    e.text("texture.tex");
    e.word(39);
    for _ in 0..39 {
        e.nonzero_byte();
    }
    e.close(info);
    let bio = e.open(2);
    e.word(8);
    for _ in 0..44 {
        e.nonzero_byte();
    }
    e.close(bio);
    let inv = e.open(3);
    e.word(4);
    e.nonzero_byte();
    e.word(1);
    e.word(0);
    e.word(0);
    let bag = e.open(0);
    e.nonzero_byte();
    e.word(1);
    e.item("records/items/bag_item.dbr", 2);
    e.close(bag);
    e.nonzero_byte();
    for i in 0..12 {
        e.item(&format!("records/items/slot{i}.dbr"), 1);
        e.nonzero_byte();
    }
    for _ in 0..2 {
        e.nonzero_byte();
        for _ in 0..2 {
            e.item("records/items/weapon.dbr", 1);
            e.nonzero_byte();
        }
    }
    e.close(inv);
    let stash = e.open(4);
    e.word(6);
    e.word(1);
    let tab = e.open(0);
    e.word(8);
    e.word(8);
    e.word(1);
    e.item("records/items/stashed.dbr", 5);
    e.close(tab);
    e.close(stash);
    e.out
}

#[test]
fn character_save_decodes() {
    let c = CharacterItems::read(character(0x58434447)).unwrap();
    assert_eq!(c.name, "Hero");
    assert_eq!(c.inventory.bags.len(), 1);
    assert_eq!(c.inventory.bags[0].items[0].base_name, "records/items/bag_item.dbr");
    assert_eq!(c.inventory.bags[0].items[0].stack_count, 2);
    assert_eq!(c.inventory.equipment.len(), 12);
    assert_eq!(c.inventory.equipment[11].item.base_name, "records/items/slot11.dbr");
    assert_eq!(c.inventory.weapon_set_2[1].item.base_name, "records/items/weapon.dbr");
    assert_eq!(c.stash.tabs.len(), 1);
    assert_eq!(c.stash.tabs[0][0].base_name, "records/items/stashed.dbr");
    assert_eq!(c.stash.tabs[0][0].stack_count, 5);
}

#[test]
fn character_save_with_wrong_magic_fails() {
    assert!(matches!(CharacterItems::read(character(0x12345678)), Err(DecodeError::BadHeader)));
    assert!(matches!(CharacterItems::read(vec![1, 2, 3, 4, 5]), Err(DecodeError::OutOfBounds)));
}

#[test]
fn truncated_character_save_fails() {
    let mut bytes = character(0x58434447);
    bytes.truncate(bytes.len() - 10);
    assert!(CharacterItems::read(bytes).is_err());
}

#[test]
fn player_header_fields() {
    let mut e = Enc::new(31);
    e.wide("Ünïcode");
    let sex = e.nonzero_byte();
    e.text("tagWarrior");
    e.word(42);
    e.nonzero_byte();
    let mut d = Decrypt::new(e.out).unwrap();
    let h = PlayerHeader::read(&mut d).unwrap();
    assert_eq!(h.name, "Ünïcode");
    assert_eq!(h.sex, sex != 0);
    assert_eq!(h.class_tag, "tagWarrior");
    assert_eq!(h.level, 42);
    assert!(h.hardcore);
}

#[test]
fn stash_entry_reads_sixteen_fields() {
    let mut e = Enc::new(64);
    e.item("records/items/a.dbr", 9);
    let mut d = Decrypt::new(e.out).unwrap();
    let s = StashEntry::read(&mut d).unwrap();
    assert_eq!(s.base_name, "records/items/a.dbr");
    assert_eq!(s.seed, 7);
    assert_eq!(s.stack_count, 9);
    assert_eq!(s.x_offset, 3);
    assert_eq!(s.y_offset, 4);
    assert!(matches!(StashEntry::read(&mut d), Err(DecodeError::OutOfBounds)));
}
