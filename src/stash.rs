//! The shared stash file: tabs of items, each tab in its own block.
use vstd::prelude::*;

use crate::byte_reader::le_u32;
use crate::decrypt::{cipher_table, initial_key, int_at, CipherPos, Decrypt};
use crate::error::DecodeError;
use crate::fields::{
    block_layout, close_at, decoded, decoded_end, field_views, fields_at, fields_end, int_of, kind_of, lemma_fields_shape,
    lemma_head_shape, lemma_repeat_none, repeat_at, values_at, FieldKind, FieldValue,
};
use crate::inventory_item::{
    item_from_fields, item_layout, item_matches, stash_item_kinds, stash_item_layout, take_last, InventoryItem,
};

verus! {

/// The format version the stash file must give.
pub const STASH_FILE_VERSION: u32 = 2;

/// The tag of the block that holds the stash.
pub const STASH_BLOCK_TAG: u32 = 18;

/// The stash format version this decoder reads.
pub const STASH_VERSION: u32 = 5;

/// An item with its tile offsets in a stash tab or bag.
pub struct StashItem {
    pub item: InventoryItem,
    pub x_offset: u32,
    pub y_offset: u32,
}

impl StashItem {
    /// Reads an item, then its two tile offsets.
    pub fn read(d: &mut Decrypt) -> (r: Result<Self, DecodeError>)
        requires
            old(d).wf(),
        ensures
            old(d).same_file(final(d)),
            ({
                let (data, t, c) = (old(d).data(), old(d).table(), old(d).at());
                let vs = values_at(data, t, c, stash_item_layout());
                &&& r is Ok <==> fields_at(data, t, c, stash_item_layout()) is Some
                &&& r is Ok ==> item_matches(r->Ok_0.item, vs) && r->Ok_0.x_offset == int_of(vs[14])
                    && r->Ok_0.y_offset == int_of(vs[15]) && final(d).at() == fields_end(data, t, c, stash_item_layout())
            }),
    {
        let ghost c0 = d.at();
        let ks = stash_item_kinds();
        let mut vs = d.read_fields(&ks)?;
        let ghost all = vs@;
        proof {
            lemma_fields_shape(old(d).data(), old(d).table(), c0, stash_item_layout());
            assert forall|i: int| 0 <= i < 16 implies kind_of(#[trigger] all[i]@, stash_item_layout()[i]) by {
                assert(values_at(old(d).data(), old(d).table(), c0, stash_item_layout())[i] == field_views(all)[i]);
            }
            assert(kind_of(all[14]@, stash_item_layout()[14]) && kind_of(all[15]@, stash_item_layout()[15]));
        }
        let y_offset = take_last(&mut vs).word();
        let x_offset = take_last(&mut vs).word();
        proof {
            assert forall|i: int| 0 <= i < 14 implies kind_of(#[trigger] vs@[i]@, item_layout()[i]) by {
                assert(vs@[i] == all[i]);
                assert(stash_item_layout()[i] == item_layout()[i]);
            }
        }
        let ghost front = field_views(vs@);
        let item = item_from_fields(&mut vs);
        proof {
            let whole = field_views(all);
            assert forall|i: int| 0 <= i < 14 implies front[i] == whole[i] by {}
        }
        Ok(StashItem { item, x_offset, y_offset })
    }
}

/// The tabs of a shared stash, each the items it holds.
pub struct Stash {
    pub tabs: Vec<Vec<InventoryItem>>,
}

/// The seed of an encrypted file.
pub open spec fn seed_of(b: Seq<u8>) -> u32 {
    le_u32(b, 0) as u32
}

/// The first word of an encrypted file, decoded.
pub open spec fn first_word(b: Seq<u8>) -> u32 {
    (le_u32(b, 4) as u32) ^ initial_key(seed_of(b))
}

/// What the stash block holds before its tabs: stash version, a zero, the
/// mod name, the expansion flag and the tab count.
pub open spec fn stash_head() -> Seq<FieldKind> {
    seq![FieldKind::Int, FieldKind::Peek, FieldKind::Text, FieldKind::Byte, FieldKind::Int]
}

/// Reading one stored stash item: its sixteen values.
pub open spec fn stash_item_step(d: Seq<u8>, t: Seq<u32>) -> spec_fn(CipherPos) -> Option<(Seq<FieldValue>, CipherPos)> {
    |c: CipherPos| fields_at(d, t, c, stash_item_layout())
}

/// The items hold, in order, the values of the stored stash items.
pub open spec fn items_match(items: Seq<InventoryItem>, ms: Seq<Seq<FieldValue>>) -> bool {
    &&& items.len() == ms.len()
    &&& forall|i: int| 0 <= i < items.len() ==> item_matches(#[trigger] items[i], ms[i])
}

/// A tab from `c`: a block with width, height and item count, that many
/// stored items, and the block's end check.
pub open spec fn tab_at(d: Seq<u8>, t: Seq<u32>, c: CipherPos) -> Option<(Seq<Seq<FieldValue>>, CipherPos)> {
    match fields_at(d, t, c, block_layout(tab_head())) {
        None => None,
        Some((hv, c1)) => {
            let end = c.pos + 8 + int_of(hv[1]);
            if end > u32::MAX {
                None
            } else {
                match repeat_at(stash_item_step(d, t), c1, int_of(hv[4]) as nat) {
                    None => None,
                    Some((ms, c2)) => match close_at(d, t, c2, end) {
                        None => None,
                        Some(c3) => Some((ms, c3)),
                    },
                }
            }
        },
    }
}

/// Reading one tab.
pub open spec fn tab_step(d: Seq<u8>, t: Seq<u32>) -> spec_fn(CipherPos) -> Option<(Seq<Seq<FieldValue>>, CipherPos)> {
    |c: CipherPos| tab_at(d, t, c)
}

/// The tabs hold, in order, the items of the decoded tabs.
pub open spec fn tabs_match(tabs: Seq<Vec<InventoryItem>>, ms: Seq<Seq<Seq<FieldValue>>>) -> bool {
    &&& tabs.len() == ms.len()
    &&& forall|i: int| 0 <= i < tabs.len() ==> items_match((#[trigger] tabs[i])@, ms[i])
}

/// Where a reader stands once the seed is read.
pub open spec fn after_seed(b: Seq<u8>) -> CipherPos {
    CipherPos { pos: 4, key: initial_key(seed_of(b)) }
}

/// A whole stash file: the seed, version 2, then a block tagged 18 holding
/// stash version 5, a zero, the mod name, the expansion flag, the tab count,
/// the tabs, and the block's end check.
pub open spec fn stash_at(b: Seq<u8>) -> Option<Seq<Seq<Seq<FieldValue>>>> {
    let t = cipher_table(seed_of(b));
    if b.len() < 4 {
        None
    } else {
        match int_at(b, t, after_seed(b)) {
            None => None,
            Some((v, c1)) => if v != STASH_FILE_VERSION {
                None
            } else {
                match fields_at(b, t, c1, block_layout(stash_head())) {
                    None => None,
                    Some((hv, c2)) => {
                        let end = c1.pos + 8 + int_of(hv[1]);
                        if end > u32::MAX || int_of(hv[0]) != STASH_BLOCK_TAG || int_of(hv[2]) != STASH_VERSION
                            || int_of(hv[3]) != 0 {
                            None
                        } else {
                            match repeat_at(tab_step(b, t), c2, int_of(hv[6]) as nat) {
                                None => None,
                                Some((tabs, c3)) => match close_at(b, t, c3, end) {
                                    None => None,
                                    Some(_) => Some(tabs),
                                },
                            }
                        }
                    },
                }
            },
        }
    }
}

impl Stash {
    /// Decodes a stash file: version 2, then a block tagged 18 that holds
    /// stash version 5, a zero, a mod name, an expansion flag, and the tabs.
    pub fn new(bytes: Vec<u8>) -> (r: Result<Self, DecodeError>)
        ensures
            r is Ok <==> stash_at(bytes@) is Some,
            r is Ok ==> tabs_match(r->Ok_0.tabs@, stash_at(bytes@)->0),
            bytes@.len() < 8 ==> r == Err::<Self, DecodeError>(DecodeError::OutOfBounds),
            bytes@.len() >= 8 && first_word(bytes@) != STASH_FILE_VERSION ==> r == Err::<Self, DecodeError>(
                DecodeError::BadHeader,
            ),
    {
        let ghost b = bytes@;
        let mut d = Decrypt::new(bytes)?;
        let ghost t = d.table();
        if d.read_int()? != STASH_FILE_VERSION {
            return Err(DecodeError::BadHeader);
        }
        let ghost c = d.at();
        let ks = vec![FieldKind::Int, FieldKind::Peek, FieldKind::Text, FieldKind::Byte, FieldKind::Int];
        assert(ks@ =~= stash_head());
        let (tag, block, vs) = d.read_block_head(&ks)?;
        let ghost c2 = d.at();
        proof {
            lemma_head_shape(d.data(), d.table(), c, ks@, seq![FieldValue::Int(tag), FieldValue::Int(block.len)], vs@);
            assert(kind_of(vs@[0]@, ks@[0]) && kind_of(vs@[1]@, ks@[1]) && kind_of(vs@[4]@, ks@[4]));
        }
        if tag != STASH_BLOCK_TAG || vs[0].word() != STASH_VERSION || vs[1].word() != 0 {
            return Err(DecodeError::BadHeader);
        }
        let tabs_count = vs[4].word();
        let tabs = read_tabs(&mut d, tabs_count)?;
        d.close_block(&block)?;
        Ok(Stash { tabs })
    }
}

/// Reads `n` tabs one after another.
pub fn read_tabs(d: &mut Decrypt, n: u32) -> (r: Result<Vec<Vec<InventoryItem>>, DecodeError>)
    requires
        old(d).wf(),
    ensures
        old(d).same_file(final(d)),
        ({
            let rep = repeat_at(tab_step(old(d).data(), old(d).table()), old(d).at(), n as nat);
            &&& r is Ok <==> rep is Some
            &&& r is Ok ==> tabs_match(r->Ok_0@, decoded(rep)) && final(d).at() == decoded_end(rep)
        }),
{
    let ghost (b, t, c0) = (d.data(), d.table(), d.at());
    let mut tabs: Vec<Vec<InventoryItem>> = Vec::new();
    let ghost mut ms: Seq<Seq<Seq<FieldValue>>> = Seq::empty();
    let mut i: u32 = 0;
    while i < n
        invariant
            old(d).same_file(d),
            b == old(d).data(),
            t == old(d).table(),
            c0 == old(d).at(),
            i <= n,
            repeat_at(tab_step(b, t), c0, i as nat) == Some((ms, d.at())),
            tabs_match(tabs@, ms),
        decreases n - i,
    {
        let ghost ci = d.at();
        match read_stash_tab(d) {
            Ok(tab) => {
                proof {
                    ms = ms.push(decoded(tab_at(b, t, ci)));
                }
                tabs.push(tab);
                assert(tabs_match(tabs@, ms)) by {
                    assert forall|j: int| 0 <= j < tabs@.len() implies items_match((#[trigger] tabs@[j])@, ms[j]) by {
                        if j < tabs@.len() - 1 {
                            assert(tabs@[j] == tabs@.drop_last()[j]);
                        }
                    }
                }
            },
            Err(e) => {
                proof {
                    assert(tab_step(b, t)(ci) == tab_at(b, t, ci));
                    assert(repeat_at(tab_step(b, t), c0, (i + 1) as nat) is None);
                    lemma_repeat_none(tab_step(b, t), c0, (i + 1) as nat, n as nat);
                }
                return Err(e);
            },
        }
        i = i + 1;
    }
    Ok(tabs)
}

/// What a tab's block starts with after its tag and length: width, height
/// and item count.
pub open spec fn tab_head() -> Seq<FieldKind> {
    seq![FieldKind::Int, FieldKind::Int, FieldKind::Int]
}

/// Reads one tab: a block with width, height, an item count and that many
/// items, then the block's end check; the items come in file order.
pub fn read_stash_tab(d: &mut Decrypt) -> (r: Result<Vec<InventoryItem>, DecodeError>)
    requires
        old(d).wf(),
    ensures
        old(d).same_file(final(d)),
        ({
            let tab = tab_at(old(d).data(), old(d).table(), old(d).at());
            &&& r is Ok <==> tab is Some
            &&& r is Ok ==> items_match(r->Ok_0@, decoded(tab)) && final(d).at() == decoded_end(tab)
        }),
{
    let ghost (b, t, c0) = (d.data(), d.table(), d.at());
    let ks = vec![FieldKind::Int, FieldKind::Int, FieldKind::Int];
    assert(ks@ =~= tab_head());
    let (_tag, block, vs) = d.read_block_head(&ks)?;
    let ghost c1 = d.at();
    proof {
        lemma_head_shape(d.data(), d.table(), c0, ks@, seq![FieldValue::Int(_tag), FieldValue::Int(block.len)], vs@);
        assert(kind_of(vs@[2]@, ks@[2]));
    }
    let count = vs[2].word();
    let ghost hv = values_at(b, t, c0, block_layout(tab_head()));
    let mut items: Vec<InventoryItem> = Vec::new();
    let ghost mut ms: Seq<Seq<FieldValue>> = Seq::empty();
    let mut i: u32 = 0;
    while i < count
        invariant
            old(d).same_file(d),
            b == old(d).data(),
            t == old(d).table(),
            i <= count,
            repeat_at(stash_item_step(b, t), c1, i as nat) == Some((ms, d.at())),
            c0 == old(d).at(),
            fields_at(b, t, c0, block_layout(tab_head())) == Some((hv, c1)),
            int_of(hv[4]) == count,
            block.end == c0.pos + 8 + int_of(hv[1]),
            c0.pos + 8 + int_of(hv[1]) <= u32::MAX,
            items_match(items@, ms),
        decreases count - i,
    {
        let ghost ci = d.at();
        match StashItem::read(d) {
            Ok(si) => {
                proof {
                    ms = ms.push(values_at(b, t, ci, stash_item_layout()));
                }
                items.push(si.item);
                assert(items_match(items@, ms)) by {
                    assert forall|j: int| 0 <= j < items@.len() implies item_matches(#[trigger] items@[j], ms[j]) by {
                        if j < items@.len() - 1 {
                            assert(items@[j] == items@.drop_last()[j]);
                        }
                    }
                }
            },
            Err(e) => {
                proof {
                    assert(stash_item_step(b, t)(ci) == fields_at(b, t, ci, stash_item_layout()));
                    assert(repeat_at(stash_item_step(b, t), c1, (i + 1) as nat) is None);
                    lemma_repeat_none(stash_item_step(b, t), c1, (i + 1) as nat, count as nat);
                }
                return Err(e);
            },
        }
        i = i + 1;
    }
    d.close_block(&block)?;
    Ok(items)
}

} // verus!
