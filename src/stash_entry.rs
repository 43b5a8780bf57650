//! A stash entry read whole: an item with its place in the stash grid.
use vstd::prelude::*;

use crate::decrypt::Decrypt;
use crate::error::DecodeError;
use crate::fields::{field_views, fields_at, fields_end, int_of, kind_of, lemma_fields_shape, text_of, values_at, FieldValue};
use crate::inventory_item::{item_from_fields, item_layout, stash_item_kinds, stash_item_layout, take_last};

verus! {

/// The sixteen fields of one stored stash item, tile offsets included.
pub struct StashEntry {
    pub base_name: String,
    pub prefix_name: String,
    pub suffix_name: String,
    pub modifier_name: String,
    pub transmute_name: String,
    pub seed: u32,
    pub component_name: String,
    pub relic_completion_bonus: String,
    pub relic_seed: u32,
    pub augment_name: String,
    pub unknown: u32,
    pub augment_seed: u32,
    pub materia_combines: u32,
    pub stack_count: u32,
    pub x_offset: u32,
    pub y_offset: u32,
}

/// The entry holds the values of the stash item layout, in order.
pub open spec fn entry_matches(e: StashEntry, vs: Seq<FieldValue>) -> bool {
    &&& e.base_name@ == text_of(vs[0])
    &&& e.prefix_name@ == text_of(vs[1])
    &&& e.suffix_name@ == text_of(vs[2])
    &&& e.modifier_name@ == text_of(vs[3])
    &&& e.transmute_name@ == text_of(vs[4])
    &&& e.seed == int_of(vs[5])
    &&& e.component_name@ == text_of(vs[6])
    &&& e.relic_completion_bonus@ == text_of(vs[7])
    &&& e.relic_seed == int_of(vs[8])
    &&& e.augment_name@ == text_of(vs[9])
    &&& e.unknown == int_of(vs[10])
    &&& e.augment_seed == int_of(vs[11])
    &&& e.materia_combines == int_of(vs[12])
    &&& e.stack_count == int_of(vs[13])
    &&& e.x_offset == int_of(vs[14])
    &&& e.y_offset == int_of(vs[15])
}

impl StashEntry {
    /// Reads the sixteen fields, in order.
    pub fn read(d: &mut Decrypt) -> (r: Result<Self, DecodeError>)
        requires
            old(d).wf(),
        ensures
            old(d).same_file(final(d)),
            ({
                let (data, t, c) = (old(d).data(), old(d).table(), old(d).at());
                &&& r is Ok <==> fields_at(data, t, c, stash_item_layout()) is Some
                &&& r is Ok ==> entry_matches(r->Ok_0, values_at(data, t, c, stash_item_layout()))
                    && final(d).at() == fields_end(data, t, c, stash_item_layout())
            }),
    {
        let ghost c0 = d.at();
        let ks = stash_item_kinds();
        let mut vs = d.read_fields(&ks)?;
        let ghost all = vs@;
        proof {
            lemma_fields_shape(old(d).data(), old(d).table(), c0, stash_item_layout());
            assert forall|i: int| 0 <= i < 16 implies kind_of(#[trigger] all[i]@, stash_item_layout()[i]) by {
                assert(values_at(old(d).data(), old(d).table(), c0, stash_item_layout())[i] == field_views(all)[i]);
            }
            assert(kind_of(all[14]@, stash_item_layout()[14]) && kind_of(all[15]@, stash_item_layout()[15]));
        }
        let y_offset = take_last(&mut vs).word();
        let x_offset = take_last(&mut vs).word();
        proof {
            assert forall|i: int| 0 <= i < 14 implies kind_of(#[trigger] vs@[i]@, item_layout()[i]) by {
                assert(vs@[i] == all[i]);
                assert(stash_item_layout()[i] == item_layout()[i]);
            }
        }
        let ghost front = field_views(vs@);
        let item = item_from_fields(&mut vs);
        proof {
            let whole = field_views(all);
            assert forall|i: int| 0 <= i < 14 implies front[i] == whole[i] by {}
        }
        Ok(StashEntry {
            base_name: item.base_name,
            prefix_name: item.prefix_name,
            suffix_name: item.suffix_name,
            modifier_name: item.modifier_name,
            transmute_name: item.transmute_name,
            seed: item.seed,
            component_name: item.component_name,
            relic_completion_bonus: item.relic_completion_bonus,
            relic_seed: item.relic_seed,
            augment_name: item.augment_name,
            unknown: item.unknown,
            augment_seed: item.augment_seed,
            materia_combines: item.materia_combines,
            stack_count: item.stack_count,
            x_offset,
            y_offset,
        })
    }
}

} // verus!
