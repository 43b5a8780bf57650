//! A character save: header, character info, inventory and private stash.
use vstd::prelude::*;

use crate::decrypt::{byte_at, cipher_table, int_at, peek_at, CipherPos, Decrypt};
use crate::error::DecodeError;
use crate::fields::{
    block_layout, byte_layout, byte_of, byte_values, close_at, decoded, decoded_end, field_views, fields_at, fields_end,
    int_of, kind_of, lemma_fields_concat, lemma_fields_shape, lemma_fields_short, lemma_head_shape, lemma_repeat_len, lemma_repeat_none,
    repeat_at, text_of, values_at, Field, FieldKind, FieldValue,
};
use crate::inventory_item::{item_matches, stash_item_layout, InventoryItem};
use crate::stash::{
    after_seed, first_word, items_match, read_tabs, seed_of, stash_item_step, tab_step, tabs_match,
    StashItem,
};

verus! {

/// The magic number a character save starts with.
pub const SAVE_MAGIC: u32 = 0x58434447;

/// The save format version this decoder reads.
pub const SAVE_VERSION: u32 = 2;

/// The number of equipment slots.
pub const EQUIPMENT_SLOTS: usize = 12;

/// The character's private stash.
pub struct PlayerStash {
    pub tabs: Vec<Vec<InventoryItem>>,
}

/// What the private stash block holds before its tabs: version and tab count.
pub open spec fn player_stash_head() -> Seq<FieldKind> {
    seq![FieldKind::Int, FieldKind::Int]
}

/// The private stash from `c`: a block tagged 4 holding version 6, the tab
/// count, the tabs, and the block's end check.
pub open spec fn player_stash_at(d: Seq<u8>, t: Seq<u32>, c: CipherPos) -> Option<(Seq<Seq<Seq<FieldValue>>>, CipherPos)> {
    match fields_at(d, t, c, block_layout(player_stash_head())) {
        None => None,
        Some((hv, c1)) => {
            let end = c.pos + 8 + int_of(hv[1]);
            if end > u32::MAX || int_of(hv[0]) != 4 || int_of(hv[2]) != 6 {
                None
            } else {
                match repeat_at(tab_step(d, t), c1, int_of(hv[3]) as nat) {
                    None => None,
                    Some((tabs, c2)) => match close_at(d, t, c2, end) {
                        None => None,
                        Some(c3) => Some((tabs, c3)),
                    },
                }
            }
        },
    }
}

impl PlayerStash {
    /// Reads the block tagged 4 holding stash version 6 and its tabs.
    pub fn read(d: &mut Decrypt) -> (r: Result<PlayerStash, DecodeError>)
        requires
            old(d).wf(),
        ensures
            old(d).same_file(final(d)),
            ({
                let s = player_stash_at(old(d).data(), old(d).table(), old(d).at());
                &&& r is Ok <==> s is Some
                &&& r is Ok ==> tabs_match(r->Ok_0.tabs@, decoded(s)) && final(d).at() == decoded_end(s)
            }),
    {
        let ghost c0 = d.at();
        let ks = vec![FieldKind::Int, FieldKind::Int];
        assert(ks@ =~= player_stash_head());
        let (start, block, vs) = d.read_block_head(&ks)?;
        proof {
            lemma_head_shape(d.data(), d.table(), c0, ks@, seq![FieldValue::Int(start), FieldValue::Int(block.len)], vs@);
            assert(kind_of(vs@[0]@, ks@[0]) && kind_of(vs@[1]@, ks@[1]));
        }
        if start != 4 || vs[0].word() != 6 {
            return Err(DecodeError::BadHeader);
        }
        let num_tabs = vs[1].word();
        let tabs = read_tabs(d, num_tabs)?;
        d.close_block(&block)?;
        Ok(PlayerStash { tabs })
    }
}

/// An equipped item and whether it is attached.
pub struct InventoryEquipment {
    pub item: InventoryItem,
    pub attached: u8,
}

/// An equipment slot: a stash item, then its attached flag.
pub open spec fn equipment_layout() -> Seq<FieldKind> {
    stash_item_layout() + seq![FieldKind::Byte]
}

impl InventoryEquipment {
    /// Reads a stash item and its attached flag.
    pub fn read(d: &mut Decrypt) -> (r: Result<Self, DecodeError>)
        requires
            old(d).wf(),
        ensures
            old(d).same_file(final(d)),
            ({
                let (data, t, c) = (old(d).data(), old(d).table(), old(d).at());
                let vals = values_at(data, t, c, equipment_layout());
                &&& r is Ok <==> fields_at(data, t, c, equipment_layout()) is Some
                &&& r is Ok ==> item_matches(r->Ok_0.item, vals) && r->Ok_0.attached == byte_of(vals[16])
                    && final(d).at() == fields_end(data, t, c, equipment_layout())
            }),
    {
        let ghost (data, t, c0) = (d.data(), d.table(), d.at());
        let si = match StashItem::read(d) {
            Ok(si) => si,
            Err(e) => {
                proof {
                    crate::fields::lemma_fields_none_prefix(data, t, c0, stash_item_layout(), seq![FieldKind::Byte]);
                }
                return Err(e);
            },
        };
        proof {
            lemma_fields_concat(data, t, c0, stash_item_layout(), seq![FieldKind::Byte]);
            lemma_fields_short(data, t, d.at(), FieldKind::Byte, FieldKind::Byte);
            lemma_fields_shape(data, t, c0, stash_item_layout());
            let head = values_at(data, t, c0, stash_item_layout());
            let whole = values_at(data, t, c0, equipment_layout());
            if fields_at(data, t, c0, equipment_layout()) is Some {
                assert forall|i: int| 0 <= i < 16 implies whole[i] == head[i] by {}
            }
        }
        let attached = d.read_byte()?;
        Ok(InventoryEquipment { item: si.item, attached })
    }
}

/// Reading one equipment slot.
pub open spec fn equip_step(d: Seq<u8>, t: Seq<u32>) -> spec_fn(CipherPos) -> Option<(Seq<FieldValue>, CipherPos)> {
    |c: CipherPos| fields_at(d, t, c, equipment_layout())
}

/// The slot holds the values of an equipment slot: the item, then the attached flag.
pub open spec fn equip_matches(e: InventoryEquipment, vs: Seq<FieldValue>) -> bool {
    item_matches(e.item, vs) && e.attached == byte_of(vs[16])
}

/// The slots hold, in order, the decoded slots.
pub open spec fn equips_match(es: Seq<InventoryEquipment>, ms: Seq<Seq<FieldValue>>) -> bool {
    &&& es.len() == ms.len()
    &&& forall|i: int| 0 <= i < es.len() ==> equip_matches(#[trigger] es[i], ms[i])
}

/// Reads `n` equipment slots.
fn read_equipment(d: &mut Decrypt, n: usize) -> (r: Result<Vec<InventoryEquipment>, DecodeError>)
    requires
        old(d).wf(),
    ensures
        old(d).same_file(final(d)),
        ({
            let rep = repeat_at(equip_step(old(d).data(), old(d).table()), old(d).at(), n as nat);
            &&& r is Ok <==> rep is Some
            &&& r is Ok ==> equips_match(r->Ok_0@, decoded(rep)) && final(d).at() == decoded_end(rep)
        }),
{
    let ghost (b, t, c0) = (d.data(), d.table(), d.at());
    let mut slots: Vec<InventoryEquipment> = Vec::new();
    let ghost mut ms: Seq<Seq<FieldValue>> = Seq::empty();
    let mut i: usize = 0;
    while i < n
        invariant
            old(d).same_file(d),
            b == old(d).data(),
            t == old(d).table(),
            c0 == old(d).at(),
            i <= n,
            repeat_at(equip_step(b, t), c0, i as nat) == Some((ms, d.at())),
            equips_match(slots@, ms),
        decreases n - i,
    {
        let ghost ci = d.at();
        match InventoryEquipment::read(d) {
            Ok(e) => {
                proof {
                    ms = ms.push(values_at(b, t, ci, equipment_layout()));
                }
                slots.push(e);
                assert(equips_match(slots@, ms)) by {
                    assert forall|j: int| 0 <= j < slots@.len() implies equip_matches(#[trigger] slots@[j], ms[j]) by {
                        if j < slots@.len() - 1 {
                            assert(slots@[j] == slots@.drop_last()[j]);
                        }
                    }
                }
            },
            Err(e) => {
                proof {
                    assert(equip_step(b, t)(ci) == fields_at(b, t, ci, equipment_layout()));
                    assert(repeat_at(equip_step(b, t), c0, (i + 1) as nat) is None);
                    lemma_repeat_none(equip_step(b, t), c0, (i + 1) as nat, n as nat);
                }
                return Err(e);
            },
        }
        i = i + 1;
    }
    Ok(slots)
}

/// A bag of the inventory.
pub struct Bag {
    pub some_bool: u8,
    pub items: Vec<InventoryItem>,
}

/// What a bag's block holds before its items: a flag byte and the item count.
pub open spec fn bag_head() -> Seq<FieldKind> {
    seq![FieldKind::Byte, FieldKind::Int]
}

/// A bag from `c`: a block tagged 0 holding a flag byte, an item count, that
/// many stored items, and the block's end check.
pub open spec fn bag_at(d: Seq<u8>, t: Seq<u32>, c: CipherPos) -> Option<((u8, Seq<Seq<FieldValue>>), CipherPos)> {
    match fields_at(d, t, c, block_layout(bag_head())) {
        None => None,
        Some((hv, c1)) => {
            let end = c.pos + 8 + int_of(hv[1]);
            if end > u32::MAX || int_of(hv[0]) != 0 {
                None
            } else {
                match repeat_at(stash_item_step(d, t), c1, int_of(hv[3]) as nat) {
                    None => None,
                    Some((ms, c2)) => match close_at(d, t, c2, end) {
                        None => None,
                        Some(c3) => Some(((byte_of(hv[2]), ms), c3)),
                    },
                }
            }
        },
    }
}

/// Reading one bag.
pub open spec fn bag_step(d: Seq<u8>, t: Seq<u32>) -> spec_fn(CipherPos) -> Option<((u8, Seq<Seq<FieldValue>>), CipherPos)> {
    |c: CipherPos| bag_at(d, t, c)
}

/// The bags hold, in order, the decoded bags' flags and items.
pub open spec fn bags_match(bags: Seq<Bag>, ms: Seq<(u8, Seq<Seq<FieldValue>>)>) -> bool {
    &&& bags.len() == ms.len()
    &&& forall|i: int| 0 <= i < bags.len() ==> (#[trigger] bags[i]).some_bool == ms[i].0 && items_match(bags[i].items@, ms[i].1)
}

/// Reads `n` stored items and keeps the items.
fn read_items(d: &mut Decrypt, n: u32) -> (r: Result<Vec<InventoryItem>, DecodeError>)
    requires
        old(d).wf(),
    ensures
        old(d).same_file(final(d)),
        ({
            let rep = repeat_at(stash_item_step(old(d).data(), old(d).table()), old(d).at(), n as nat);
            &&& r is Ok <==> rep is Some
            &&& r is Ok ==> items_match(r->Ok_0@, decoded(rep)) && final(d).at() == decoded_end(rep)
        }),
{
    let ghost (b, t, c0) = (d.data(), d.table(), d.at());
    let mut items: Vec<InventoryItem> = Vec::new();
    let ghost mut ms: Seq<Seq<FieldValue>> = Seq::empty();
    let mut i: u32 = 0;
    while i < n
        invariant
            old(d).same_file(d),
            b == old(d).data(),
            t == old(d).table(),
            c0 == old(d).at(),
            i <= n,
            repeat_at(stash_item_step(b, t), c0, i as nat) == Some((ms, d.at())),
            items_match(items@, ms),
        decreases n - i,
    {
        let ghost ci = d.at();
        match StashItem::read(d) {
            Ok(si) => {
                proof {
                    ms = ms.push(values_at(b, t, ci, stash_item_layout()));
                }
                items.push(si.item);
                assert(items_match(items@, ms)) by {
                    assert forall|j: int| 0 <= j < items@.len() implies item_matches(#[trigger] items@[j], ms[j]) by {
                        if j < items@.len() - 1 {
                            assert(items@[j] == items@.drop_last()[j]);
                        }
                    }
                }
            },
            Err(e) => {
                proof {
                    assert(stash_item_step(b, t)(ci) == fields_at(b, t, ci, stash_item_layout()));
                    assert(repeat_at(stash_item_step(b, t), c0, (i + 1) as nat) is None);
                    lemma_repeat_none(stash_item_step(b, t), c0, (i + 1) as nat, n as nat);
                }
                return Err(e);
            },
        }
        i = i + 1;
    }
    Ok(items)
}

impl Bag {
    /// Reads a block tagged 0 holding a flag byte, an item count and the
    /// items in file order, then the block's end check.
    pub fn read(d: &mut Decrypt) -> (r: Result<Self, DecodeError>)
        requires
            old(d).wf(),
        ensures
            old(d).same_file(final(d)),
            ({
                let bag = bag_at(old(d).data(), old(d).table(), old(d).at());
                &&& r is Ok <==> bag is Some
                &&& r is Ok ==> r->Ok_0.some_bool == decoded(bag).0 && items_match(r->Ok_0.items@, decoded(bag).1)
                    && final(d).at() == decoded_end(bag)
            }),
    {
        let ghost c0 = d.at();
        let ks = vec![FieldKind::Byte, FieldKind::Int];
        assert(ks@ =~= bag_head());
        let (start, block, vs) = d.read_block_head(&ks)?;
        proof {
            lemma_head_shape(d.data(), d.table(), c0, ks@, seq![FieldValue::Int(start), FieldValue::Int(block.len)], vs@);
            assert(kind_of(vs@[0]@, ks@[0]) && kind_of(vs@[1]@, ks@[1]));
        }
        if start != 0 {
            return Err(DecodeError::BadHeader);
        }
        let some_bool = vs[0].byte();
        let len = vs[1].word();
        let items = read_items(d, len)?;
        d.close_block(&block)?;
        Ok(Bag { some_bool, items })
    }
}

/// Reads `n` bags.
fn read_bags(d: &mut Decrypt, n: u32) -> (r: Result<Vec<Bag>, DecodeError>)
    requires
        old(d).wf(),
    ensures
        old(d).same_file(final(d)),
        ({
            let rep = repeat_at(bag_step(old(d).data(), old(d).table()), old(d).at(), n as nat);
            &&& r is Ok <==> rep is Some
            &&& r is Ok ==> bags_match(r->Ok_0@, decoded(rep)) && final(d).at() == decoded_end(rep)
        }),
{
    let ghost (b, t, c0) = (d.data(), d.table(), d.at());
    let mut bags: Vec<Bag> = Vec::new();
    let ghost mut ms: Seq<(u8, Seq<Seq<FieldValue>>)> = Seq::empty();
    let mut i: u32 = 0;
    while i < n
        invariant
            old(d).same_file(d),
            b == old(d).data(),
            t == old(d).table(),
            c0 == old(d).at(),
            i <= n,
            repeat_at(bag_step(b, t), c0, i as nat) == Some((ms, d.at())),
            bags_match(bags@, ms),
        decreases n - i,
    {
        let ghost ci = d.at();
        match Bag::read(d) {
            Ok(bag) => {
                proof {
                    ms = ms.push(decoded(bag_at(b, t, ci)));
                }
                bags.push(bag);
                assert(bags_match(bags@, ms)) by {
                    assert forall|j: int| 0 <= j < bags@.len() implies (#[trigger] bags@[j]).some_bool == ms[j].0
                        && items_match(bags@[j].items@, ms[j].1) by {
                        if j < bags@.len() - 1 {
                            assert(bags@[j] == bags@.drop_last()[j]);
                        }
                    }
                }
            },
            Err(e) => {
                proof {
                    assert(bag_step(b, t)(ci) == bag_at(b, t, ci));
                    assert(repeat_at(bag_step(b, t), c0, (i + 1) as nat) is None);
                    lemma_repeat_none(bag_step(b, t), c0, (i + 1) as nat, n as nat);
                }
                return Err(e);
            },
        }
        i = i + 1;
    }
    Ok(bags)
}

/// The character's inventory: bags, equipment and two weapon sets.
pub struct Inventory {
    pub num_bags: u32,
    pub bags: Vec<Bag>,
    pub equipment: Vec<InventoryEquipment>,
    pub weapon_set_1: Vec<InventoryEquipment>,
    pub weapon_set_2: Vec<InventoryEquipment>,
    pub focused: u32,
    pub selected: u32,
    pub flag: u8,
    pub use_alternate: u8,
    pub alternate_1: u8,
    pub alternate_2: u8,
}

/// What the inventory block holds before its bags: version, a flag byte,
/// bag count, focused and selected bag.
pub open spec fn inventory_head() -> Seq<FieldKind> {
    seq![FieldKind::Int, FieldKind::Byte, FieldKind::Int, FieldKind::Int, FieldKind::Int]
}

/// What an inventory block decodes to: its head values, the bags, and the
/// equipment with the alternate bytes.
pub struct InventoryModel {
    pub head: Seq<FieldValue>,
    pub bags: Seq<(u8, Seq<Seq<FieldValue>>)>,
    pub use_alternate: u8,
    pub equipment: Seq<Seq<FieldValue>>,
    pub alternate_1: u8,
    pub weapon_set_1: Seq<Seq<FieldValue>>,
    pub alternate_2: u8,
    pub weapon_set_2: Seq<Seq<FieldValue>>,
}

/// What follows the bags: the alternate byte, twelve slots, then two weapon
/// sets of two each after an alternate byte, and the block's end check.
pub open spec fn equipment_at(d: Seq<u8>, t: Seq<u32>, c: CipherPos, end: int) -> Option<
    ((u8, Seq<Seq<FieldValue>>, u8, Seq<Seq<FieldValue>>, u8, Seq<Seq<FieldValue>>), CipherPos),
> {
    match byte_at(d, t, c) {
        None => None,
        Some((ua, c1)) => match repeat_at(equip_step(d, t), c1, 12) {
            None => None,
            Some((eq, c2)) => match byte_at(d, t, c2) {
                None => None,
                Some((a1, c3)) => match repeat_at(equip_step(d, t), c3, 2) {
                    None => None,
                    Some((s1, c4)) => match byte_at(d, t, c4) {
                        None => None,
                        Some((a2, c5)) => match repeat_at(equip_step(d, t), c5, 2) {
                            None => None,
                            Some((s2, c6)) => match close_at(d, t, c6, end) {
                                None => None,
                                Some(c7) => Some(((ua, eq, a1, s1, a2, s2), c7)),
                            },
                        },
                    },
                },
            },
        },
    }
}

/// An inventory from `c`: a block tagged 3 holding version 4, a nonzero flag
/// byte, the bag count, focused and selected bag, the bags, the equipment,
/// and the block's end check.
pub open spec fn inventory_at(d: Seq<u8>, t: Seq<u32>, c: CipherPos) -> Option<(InventoryModel, CipherPos)> {
    match fields_at(d, t, c, block_layout(inventory_head())) {
        None => None,
        Some((hv, c1)) => {
            let end = c.pos + 8 + int_of(hv[1]);
            if end > u32::MAX || int_of(hv[0]) != 3 || int_of(hv[2]) != 4 || byte_of(hv[3]) == 0 {
                None
            } else {
                match repeat_at(bag_step(d, t), c1, int_of(hv[4]) as nat) {
                    None => None,
                    Some((bags, c2)) => match equipment_at(d, t, c2, end) {
                        None => None,
                        Some(((ua, eq, a1, s1, a2, s2), c3)) => Some(
                            (
                                InventoryModel {
                                    head: hv,
                                    bags,
                                    use_alternate: ua,
                                    equipment: eq,
                                    alternate_1: a1,
                                    weapon_set_1: s1,
                                    alternate_2: a2,
                                    weapon_set_2: s2,
                                },
                                c3,
                            ),
                        ),
                    },
                }
            }
        },
    }
}

/// The inventory holds what the model decodes.
pub open spec fn inventory_matches(inv: Inventory, m: InventoryModel) -> bool {
    &&& inv.flag == byte_of(m.head[3]) && inv.num_bags == int_of(m.head[4])
    &&& inv.focused == int_of(m.head[5]) && inv.selected == int_of(m.head[6])
    &&& bags_match(inv.bags@, m.bags)
    &&& inv.use_alternate == m.use_alternate && equips_match(inv.equipment@, m.equipment)
    &&& inv.alternate_1 == m.alternate_1 && equips_match(inv.weapon_set_1@, m.weapon_set_1)
    &&& inv.alternate_2 == m.alternate_2 && equips_match(inv.weapon_set_2@, m.weapon_set_2)
}

impl Inventory {
    /// Reads the block tagged 3 holding inventory version 4: a nonzero flag,
    /// the bags, twelve equipment slots and two weapon sets of two, then the
    /// block's end check. A zero flag means the layout is not the one this
    /// decoder knows, and fails.
    pub fn read(d: &mut Decrypt) -> (r: Result<Self, DecodeError>)
        requires
            old(d).wf(),
        ensures
            old(d).same_file(final(d)),
            ({
                let m = inventory_at(old(d).data(), old(d).table(), old(d).at());
                &&& r is Ok <==> m is Some
                &&& r is Ok ==> inventory_matches(r->Ok_0, decoded(m)) && final(d).at() == decoded_end(m)
                &&& r is Ok ==> r->Ok_0.flag != 0 && r->Ok_0.bags@.len() == r->Ok_0.num_bags
                    && r->Ok_0.equipment@.len() == EQUIPMENT_SLOTS && r->Ok_0.weapon_set_1@.len() == 2
                    && r->Ok_0.weapon_set_2@.len() == 2
            }),
    {
        let ghost (b, t, c0) = (d.data(), d.table(), d.at());
        let ks = vec![FieldKind::Int, FieldKind::Byte, FieldKind::Int, FieldKind::Int, FieldKind::Int];
        assert(ks@ =~= inventory_head());
        let (start, block, vs) = d.read_block_head(&ks)?;
        proof {
            lemma_head_shape(d.data(), d.table(), c0, ks@, seq![FieldValue::Int(start), FieldValue::Int(block.len)], vs@);
            assert(kind_of(vs@[0]@, ks@[0]) && kind_of(vs@[1]@, ks@[1]) && kind_of(vs@[2]@, ks@[2]));
            assert(kind_of(vs@[3]@, ks@[3]) && kind_of(vs@[4]@, ks@[4]));
        }
        if start != 3 || vs[0].word() != 4 {
            return Err(DecodeError::BadHeader);
        }
        let flag = vs[1].byte();
        if flag == 0 {
            return Err(DecodeError::BadHeader);
        }
        let num_bags = vs[2].word();
        let focused = vs[3].word();
        let selected = vs[4].word();
        let ghost c1 = d.at();
        let bags = read_bags(d, num_bags)?;
        let ghost c2 = d.at();
        let use_alternate = d.read_byte()?;
        let ghost c3 = d.at();
        let equipment = read_equipment(d, EQUIPMENT_SLOTS)?;
        let alternate_1 = d.read_byte()?;
        let ghost c5 = d.at();
        let weapon_set_1 = read_equipment(d, 2)?;
        let alternate_2 = d.read_byte()?;
        let ghost c7 = d.at();
        let weapon_set_2 = read_equipment(d, 2)?;
        d.close_block(&block)?;
        proof {
            lemma_repeat_len(bag_step(b, t), c1, num_bags as nat);
            lemma_repeat_len(equip_step(b, t), c3, 12);
            lemma_repeat_len(equip_step(b, t), c5, 2);
            lemma_repeat_len(equip_step(b, t), c7, 2);
        }
        Ok(Inventory {
            num_bags,
            bags,
            equipment,
            weapon_set_1,
            weapon_set_2,
            focused,
            selected,
            flag,
            use_alternate,
            alternate_1,
            alternate_2,
        })
    }
}

/// The start of a save: the character's name and a few facts about it.
pub struct PlayerHeader {
    pub name: String,
    pub sex: bool,
    pub class_tag: String,
    pub level: u32,
    pub hardcore: bool,
}

/// The fields of the save header: name, sex, class tag, level, hardcore flag.
pub open spec fn player_header_layout() -> Seq<FieldKind> {
    seq![FieldKind::Wide, FieldKind::Byte, FieldKind::Text, FieldKind::Int, FieldKind::Byte]
}

impl PlayerHeader {
    pub fn read(d: &mut Decrypt) -> (r: Result<Self, DecodeError>)
        requires
            old(d).wf(),
        ensures
            old(d).same_file(final(d)),
            ({
                let (data, t, c) = (old(d).data(), old(d).table(), old(d).at());
                let vals = values_at(data, t, c, player_header_layout());
                &&& r is Ok <==> fields_at(data, t, c, player_header_layout()) is Some
                &&& r is Ok ==> r->Ok_0.name@ == text_of(vals[0]) && r->Ok_0.sex == (byte_of(vals[1]) != 0)
                    && r->Ok_0.class_tag@ == text_of(vals[2]) && r->Ok_0.level == int_of(vals[3])
                    && r->Ok_0.hardcore == (byte_of(vals[4]) != 0)
                    && final(d).at() == fields_end(data, t, c, player_header_layout())
            }),
    {
        let ghost c0 = d.at();
        let ks = vec![FieldKind::Wide, FieldKind::Byte, FieldKind::Text, FieldKind::Int, FieldKind::Byte];
        assert(ks@ =~= player_header_layout());
        let mut vs = d.read_fields(&ks)?;
        let ghost all = field_views(vs@);
        proof {
            lemma_fields_shape(old(d).data(), old(d).table(), c0, ks@);
            assert(kind_of(all[0], ks@[0]) && kind_of(all[1], ks@[1]) && kind_of(all[2], ks@[2]));
            assert(kind_of(all[3], ks@[3]) && kind_of(all[4], ks@[4]));
            assert(all[0] == vs@[0]@ && all[1] == vs@[1]@ && all[2] == vs@[2]@ && all[3] == vs@[3]@ && all[4] == vs@[4]@);
        }
        let hardcore = vs[4].byte() != 0;
        let level = vs[3].word();
        let sex = vs[1].byte() != 0;
        let class_tag = take_text(&mut vs, 2);
        let name = take_text(&mut vs, 0);
        Ok(PlayerHeader { name, sex, class_tag, level, hardcore })
    }
}

/// Takes the text out of field `i`, leaving a word in its place.
fn take_text(vs: &mut Vec<Field>, i: usize) -> (r: String)
    requires
        i < old(vs)@.len(),
        old(vs)@[i as int] is Text,
    ensures
        r@ == text_of(old(vs)@[i as int]@),
        final(vs)@.len() == old(vs)@.len(),
        forall|j: int| 0 <= j < old(vs)@.len() && j != i ==> final(vs)@[j] == old(vs)@[j],
{
    let mut f = Field::Int(0);
    std::mem::swap(&mut f, &mut vs[i]);
    f.into_text()
}

/// Character info, read field by field so the cipher key stays in step.
pub struct CharacterInfo {
    pub is_in_main_quest: u8,
    pub has_been_in_game: u8,
    pub difficulty: u8,
    pub greatest_difficulty: u8,
    pub money: u32,
    pub greatest_survival_difficulty: u8,
    pub current_tribute: u32,
    pub compass_state: u8,
    pub skill_window_show_help: u8,
    pub weapon_swap_active: u8,
    pub weapon_swap_enabled: u8,
    pub texture: String,
    pub loot_filter_len: u32,
    pub loot_filter: Vec<u8>,
}

/// What the character info block holds before its loot filter.
pub open spec fn character_info_head() -> Seq<FieldKind> {
    seq![
        FieldKind::Int,
        FieldKind::Byte,
        FieldKind::Byte,
        FieldKind::Byte,
        FieldKind::Byte,
        FieldKind::Int,
        FieldKind::Byte,
        FieldKind::Int,
        FieldKind::Byte,
        FieldKind::Byte,
        FieldKind::Byte,
        FieldKind::Byte,
        FieldKind::Text,
        FieldKind::Int,
    ]
}

/// Character info from `c`: a block tagged 1 holding version 5, the head
/// fields, 39 loot filter bytes, and the block's end check.
pub open spec fn character_info_at(d: Seq<u8>, t: Seq<u32>, c: CipherPos) -> Option<((Seq<FieldValue>, Seq<FieldValue>), CipherPos)> {
    match fields_at(d, t, c, block_layout(character_info_head())) {
        None => None,
        Some((hv, c1)) => {
            let end = c.pos + 8 + int_of(hv[1]);
            if end > u32::MAX || int_of(hv[0]) != 1 || int_of(hv[2]) != 5 {
                None
            } else {
                match fields_at(d, t, c1, byte_layout(39)) {
                    None => None,
                    Some((fv, c2)) => match close_at(d, t, c2, end) {
                        None => None,
                        Some(c3) => Some(((hv, fv), c3)),
                    },
                }
            }
        },
    }
}

impl CharacterInfo {
    /// Reads the block tagged 1 holding character info version 5.
    pub fn read(d: &mut Decrypt) -> (r: Result<Self, DecodeError>)
        requires
            old(d).wf(),
        ensures
            old(d).same_file(final(d)),
            ({
                let m = character_info_at(old(d).data(), old(d).table(), old(d).at());
                let v = decoded(m).0;
                let i = r->Ok_0;
                &&& r is Ok <==> m is Some
                &&& r is Ok ==> {
                    &&& i.is_in_main_quest == byte_of(v[3]) && i.has_been_in_game == byte_of(v[4])
                    &&& i.difficulty == byte_of(v[5]) && i.greatest_difficulty == byte_of(v[6])
                    &&& i.money == int_of(v[7]) && i.greatest_survival_difficulty == byte_of(v[8])
                    &&& i.current_tribute == int_of(v[9]) && i.compass_state == byte_of(v[10])
                    &&& i.skill_window_show_help == byte_of(v[11]) && i.weapon_swap_active == byte_of(v[12])
                    &&& i.weapon_swap_enabled == byte_of(v[13]) && i.texture@ == text_of(v[14])
                    &&& i.loot_filter_len == int_of(v[15]) && byte_values(i.loot_filter@) == decoded(m).1
                    &&& final(d).at() == decoded_end(m)
                }
            }),
    {
        let ghost c0 = d.at();
        let ks = vec![
            FieldKind::Int,
            FieldKind::Byte,
            FieldKind::Byte,
            FieldKind::Byte,
            FieldKind::Byte,
            FieldKind::Int,
            FieldKind::Byte,
            FieldKind::Int,
            FieldKind::Byte,
            FieldKind::Byte,
            FieldKind::Byte,
            FieldKind::Byte,
            FieldKind::Text,
            FieldKind::Int,
        ];
        assert(ks@ =~= character_info_head());
        let (start, block, mut vs) = d.read_block_head(&ks)?;
        proof {
            lemma_head_shape(d.data(), d.table(), c0, ks@, seq![FieldValue::Int(start), FieldValue::Int(block.len)], vs@);
            assert(kind_of(vs@[0]@, ks@[0]) && kind_of(vs@[1]@, ks@[1]) && kind_of(vs@[2]@, ks@[2]));
            assert(kind_of(vs@[3]@, ks@[3]) && kind_of(vs@[4]@, ks@[4]) && kind_of(vs@[5]@, ks@[5]));
            assert(kind_of(vs@[6]@, ks@[6]) && kind_of(vs@[7]@, ks@[7]) && kind_of(vs@[8]@, ks@[8]));
            assert(kind_of(vs@[9]@, ks@[9]) && kind_of(vs@[10]@, ks@[10]) && kind_of(vs@[11]@, ks@[11]));
            assert(kind_of(vs@[12]@, ks@[12]) && kind_of(vs@[13]@, ks@[13]));
        }
        if start != 1 || vs[0].word() != 5 {
            return Err(DecodeError::BadHeader);
        }
        let is_in_main_quest = vs[1].byte();
        let has_been_in_game = vs[2].byte();
        let difficulty = vs[3].byte();
        let greatest_difficulty = vs[4].byte();
        let money = vs[5].word();
        let greatest_survival_difficulty = vs[6].byte();
        let current_tribute = vs[7].word();
        let compass_state = vs[8].byte();
        let skill_window_show_help = vs[9].byte();
        let weapon_swap_active = vs[10].byte();
        let weapon_swap_enabled = vs[11].byte();
        let loot_filter_len = vs[13].word();
        let texture = take_text(&mut vs, 12);
        let loot_filter = d.read_bytes(39)?;
        d.close_block(&block)?;
        Ok(CharacterInfo {
            is_in_main_quest,
            has_been_in_game,
            difficulty,
            greatest_difficulty,
            money,
            greatest_survival_difficulty,
            current_tribute,
            compass_state,
            skill_window_show_help,
            weapon_swap_active,
            weapon_swap_enabled,
            texture,
            loot_filter_len,
            loot_filter,
        })
    }
}

/// A block from `c` that is skipped: tag and version as given, `size`
/// bytes, and the block's end check.
pub open spec fn skip_block_at(d: Seq<u8>, t: Seq<u32>, c: CipherPos, tag: u32, version: u32, size: nat) -> Option<CipherPos> {
    match fields_at(d, t, c, block_layout(seq![FieldKind::Int])) {
        None => None,
        Some((hv, c1)) => {
            let end = c.pos + 8 + int_of(hv[1]);
            if end > u32::MAX || int_of(hv[0]) != tag || int_of(hv[2]) != version {
                None
            } else {
                match fields_at(d, t, c1, byte_layout(size)) {
                    None => None,
                    Some((_, c2)) => close_at(d, t, c2, end),
                }
            }
        },
    }
}

/// Skips a block whose tag and version are known and whose body is `size` bytes.
pub fn skip_block_with_size_n(d: &mut Decrypt, expected_start: u32, version: u32, size: usize) -> (r: Result<
    (),
    DecodeError,
>)
    requires
        old(d).wf(),
    ensures
        old(d).same_file(final(d)),
        skip_block_at(old(d).data(), old(d).table(), old(d).at(), expected_start, version, size as nat) == (if r is Ok {
            Some(final(d).at())
        } else {
            None::<CipherPos>
        }),
{
    let ghost c0 = d.at();
    let ks = vec![FieldKind::Int];
    assert(ks@ =~= seq![FieldKind::Int]);
    let (start, block, vs) = d.read_block_head(&ks)?;
    proof {
        lemma_head_shape(d.data(), d.table(), c0, ks@, seq![FieldValue::Int(start), FieldValue::Int(block.len)], vs@);
        assert(kind_of(vs@[0]@, ks@[0]));
    }
    if start != expected_start || vs[0].word() != version {
        return Err(DecodeError::BadHeader);
    }
    let _skipped = d.read_bytes(size)?;
    d.close_block(&block)
}

/// What a character save holds that the search needs.
pub struct CharacterItems {
    pub name: String,
    pub inventory: Inventory,
    pub stash: PlayerStash,
}

/// What a character save decodes to that the search needs.
pub struct SaveModel {
    pub name: Seq<char>,
    pub inventory: InventoryModel,
    pub stash: Seq<Seq<Seq<FieldValue>>>,
}

/// A whole character save: the seed, the magic number, version 2, the
/// header, a byte, a zero, version 8, sixteen id bytes, the character info,
/// the biography block (tag 2, version 8, 44 bytes), the inventory and the
/// private stash.
pub open spec fn save_at(b: Seq<u8>) -> Option<SaveModel> {
    let t = cipher_table(seed_of(b));
    if b.len() < 4 {
        None
    } else {
        match int_at(b, t, after_seed(b)) {
            None => None,
            Some((magic, c1)) => if magic != SAVE_MAGIC {
                None
            } else {
                match int_at(b, t, c1) {
                    None => None,
                    Some((v, c2)) => if v != SAVE_VERSION {
                        None
                    } else {
                        match fields_at(b, t, c2, player_header_layout()) {
                            None => None,
                            Some((hv, c3)) => save_rest_at(b, t, c3, text_of(hv[0])),
                        }
                    },
                }
            },
        }
    }
}

/// What follows the save header, for the character named `name`.
pub open spec fn save_rest_at(b: Seq<u8>, t: Seq<u32>, c3: CipherPos, name: Seq<char>) -> Option<SaveModel> {
    match byte_at(b, t, c3) {
        None => None,
        Some((_, c4)) => match peek_at(b, t, c4) {
            None => None,
            Some((z, c5)) => if z != 0 {
                None
            } else {
                match int_at(b, t, c5) {
                    None => None,
                    Some((v8, c6)) => if v8 != 8 {
                        None
                    } else {
                        match fields_at(b, t, c6, byte_layout(16)) {
                            None => None,
                            Some((_, c7)) => match character_info_at(b, t, c7) {
                                None => None,
                                Some((_, c8)) => match skip_block_at(b, t, c8, 2, 8, 44) {
                                    None => None,
                                    Some(c9) => match inventory_at(b, t, c9) {
                                        None => None,
                                        Some((inv, c10)) => match player_stash_at(b, t, c10) {
                                            None => None,
                                            Some((st, _)) => Some(SaveModel { name, inventory: inv, stash: st }),
                                        },
                                    },
                                },
                            },
                        }
                    },
                }
            },
        },
    }
}

impl CharacterItems {
    /// Decodes a character save: magic number, version 2, header, info,
    /// biography (skipped), inventory and private stash.
    pub fn read(bytes: Vec<u8>) -> (r: Result<Self, DecodeError>)
        ensures
            r is Ok <==> save_at(bytes@) is Some,
            r is Ok ==> ({
                let m = save_at(bytes@)->0;
                &&& r->Ok_0.name@ == m.name
                &&& inventory_matches(r->Ok_0.inventory, m.inventory)
                &&& tabs_match(r->Ok_0.stash.tabs@, m.stash)
            }),
            bytes@.len() < 8 ==> r == Err::<Self, DecodeError>(DecodeError::OutOfBounds),
            bytes@.len() >= 8 && first_word(bytes@) != SAVE_MAGIC ==> r == Err::<Self, DecodeError>(
                DecodeError::BadHeader,
            ),
    {
        let mut d = Decrypt::new(bytes)?;
        if d.read_int()? != SAVE_MAGIC {
            return Err(DecodeError::BadHeader);
        }
        if d.read_int()? != SAVE_VERSION {
            return Err(DecodeError::BadHeader);
        }
        let header = PlayerHeader::read(&mut d)?;
        let _byte = d.read_byte()?;
        if d.next_int()? != 0 || d.read_int()? != 8 {
            return Err(DecodeError::BadHeader);
        }
        let _uid = d.read_bytes(16)?;
        let _info = CharacterInfo::read(&mut d)?;
        skip_block_with_size_n(&mut d, 2, 8, 44)?;
        let inventory = Inventory::read(&mut d)?;
        let stash = PlayerStash::read(&mut d)?;
        Ok(CharacterItems { name: header.name, inventory, stash })
    }
}

} // verus!
