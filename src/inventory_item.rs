//! An item as the save formats store it.
use vstd::prelude::*;

use crate::decrypt::Decrypt;
use crate::error::DecodeError;
use crate::fields::{
    field_views, fields_at, fields_end, int_of, kind_of, lemma_fields_shape, text_of, values_at, Field, FieldKind, FieldValue,
};

verus! {

/// The fields of an item, in the order they are stored.
pub open spec fn item_layout() -> Seq<FieldKind> {
    seq![
        FieldKind::Text,
        FieldKind::Text,
        FieldKind::Text,
        FieldKind::Text,
        FieldKind::Text,
        FieldKind::Int,
        FieldKind::Text,
        FieldKind::Text,
        FieldKind::Int,
        FieldKind::Text,
        FieldKind::Int,
        FieldKind::Int,
        FieldKind::Int,
        FieldKind::Int,
    ]
}

/// An item in a stash tab or bag: the item, then its two tile offsets.
pub open spec fn stash_item_layout() -> Seq<FieldKind> {
    item_layout() + seq![FieldKind::Int, FieldKind::Int]
}

pub fn item_kinds() -> (r: Vec<FieldKind>)
    ensures
        r@ == item_layout(),
{
    let r = vec![
        FieldKind::Text,
        FieldKind::Text,
        FieldKind::Text,
        FieldKind::Text,
        FieldKind::Text,
        FieldKind::Int,
        FieldKind::Text,
        FieldKind::Text,
        FieldKind::Int,
        FieldKind::Text,
        FieldKind::Int,
        FieldKind::Int,
        FieldKind::Int,
        FieldKind::Int,
    ];
    assert(r@ =~= item_layout());
    r
}

pub fn stash_item_kinds() -> (r: Vec<FieldKind>)
    ensures
        r@ == stash_item_layout(),
{
    let mut r = item_kinds();
    r.push(FieldKind::Int);
    r.push(FieldKind::Int);
    assert(r@ =~= stash_item_layout());
    r
}

/// An item: its base record, affixes and the rest of what the save keeps of it.
pub struct InventoryItem {
    pub base_name: String,
    pub prefix_name: String,
    pub suffix_name: String,
    pub modifier_name: String,
    pub transmute_name: String,
    pub seed: u32,
    pub component_name: String,
    pub relic_completion_bonus: String,
    pub relic_seed: u32,
    pub augment_name: String,
    pub unknown: u32,
    pub augment_seed: u32,
    pub materia_combines: u32,
    pub stack_count: u32,
}

/// The item holds the values of the item layout, in order.
pub open spec fn item_matches(i: InventoryItem, vs: Seq<FieldValue>) -> bool {
    &&& i.base_name@ == text_of(vs[0])
    &&& i.prefix_name@ == text_of(vs[1])
    &&& i.suffix_name@ == text_of(vs[2])
    &&& i.modifier_name@ == text_of(vs[3])
    &&& i.transmute_name@ == text_of(vs[4])
    &&& i.seed == int_of(vs[5])
    &&& i.component_name@ == text_of(vs[6])
    &&& i.relic_completion_bonus@ == text_of(vs[7])
    &&& i.relic_seed == int_of(vs[8])
    &&& i.augment_name@ == text_of(vs[9])
    &&& i.unknown == int_of(vs[10])
    &&& i.augment_seed == int_of(vs[11])
    &&& i.materia_combines == int_of(vs[12])
    &&& i.stack_count == int_of(vs[13])
}

/// Removes and returns the last field.
pub fn take_last(vs: &mut Vec<Field>) -> (r: Field)
    requires
        old(vs)@.len() > 0,
    ensures
        r == old(vs)@.last(),
        final(vs)@ == old(vs)@.drop_last(),
{
    vs.pop().unwrap()
}

/// Builds an item from the first fourteen fields, which follow the item layout.
pub fn item_from_fields(vs: &mut Vec<Field>) -> (r: InventoryItem)
    requires
        old(vs)@.len() == 14,
        forall|i: int| 0 <= i < 14 ==> kind_of(#[trigger] old(vs)@[i]@, item_layout()[i]),
    ensures
        item_matches(r, field_views(old(vs)@)),
{
    let ghost v = field_views(vs@);
    proof {
        let o = vs@;
        assert(kind_of(o[0]@, item_layout()[0]) && kind_of(o[1]@, item_layout()[1]));
        assert(kind_of(o[2]@, item_layout()[2]) && kind_of(o[3]@, item_layout()[3]));
        assert(kind_of(o[4]@, item_layout()[4]) && kind_of(o[5]@, item_layout()[5]));
        assert(kind_of(o[6]@, item_layout()[6]) && kind_of(o[7]@, item_layout()[7]));
        assert(kind_of(o[8]@, item_layout()[8]) && kind_of(o[9]@, item_layout()[9]));
        assert(kind_of(o[10]@, item_layout()[10]) && kind_of(o[11]@, item_layout()[11]));
        assert(kind_of(o[12]@, item_layout()[12]) && kind_of(o[13]@, item_layout()[13]));
    }
    let stack_count = take_last(vs).word();
    let materia_combines = take_last(vs).word();
    let augment_seed = take_last(vs).word();
    let unknown = take_last(vs).word();
    let augment_name = take_last(vs).into_text();
    let relic_seed = take_last(vs).word();
    let relic_completion_bonus = take_last(vs).into_text();
    let component_name = take_last(vs).into_text();
    let seed = take_last(vs).word();
    let transmute_name = take_last(vs).into_text();
    let modifier_name = take_last(vs).into_text();
    let suffix_name = take_last(vs).into_text();
    let prefix_name = take_last(vs).into_text();
    let base_name = take_last(vs).into_text();
    InventoryItem {
        base_name,
        prefix_name,
        suffix_name,
        modifier_name,
        transmute_name,
        seed,
        component_name,
        relic_completion_bonus,
        relic_seed,
        augment_name,
        unknown,
        augment_seed,
        materia_combines,
        stack_count,
    }
}

impl InventoryItem {
    /// Reads the fourteen fields of an item, in order.
    pub fn read(d: &mut Decrypt) -> (r: Result<Self, DecodeError>)
        requires
            old(d).wf(),
        ensures
            old(d).same_file(final(d)),
            ({
                let f = fields_at(old(d).data(), old(d).table(), old(d).at(), item_layout());
                &&& r is Ok <==> f is Some
                &&& r is Ok ==> item_matches(r->Ok_0, values_at(old(d).data(), old(d).table(), old(d).at(), item_layout()))
                    && final(d).at() == fields_end(old(d).data(), old(d).table(), old(d).at(), item_layout())
            }),
    {
        let ghost c0 = d.at();
        let ks = item_kinds();
        let mut vs = d.read_fields(&ks)?;
        proof {
            lemma_fields_shape(old(d).data(), old(d).table(), c0, item_layout());
            assert forall|i: int| 0 <= i < 14 implies kind_of(#[trigger] vs@[i]@, item_layout()[i]) by {
                assert(values_at(old(d).data(), old(d).table(), c0, item_layout())[i] == field_views(vs@)[i]);
            }
        }
        Ok(item_from_fields(&mut vs))
    }
}

} // verus!
