//! Resolving inventory items to display names through the decoded maps,
//! and matching them against a search term.
use vstd::prelude::*;
use vstd::string::StringExecFns;

use crate::arz_parser::{EntryModel, EntryType};
use crate::inventory_item::InventoryItem;
use crate::str_map::StrMap;
use crate::text::{contains, is_prefix, lower_of, lowercase, occurs_in, strip_prefix};

verus! {

/// How rare an item or affix is, which decides its colour.
#[derive(Clone, Copy, Debug, PartialEq, Eq, Structural)]
pub enum Rarity {
    Legendary,
    Epic,
    Rare,
    RareComponent,
    Magical,
    CommonOrUnknown,
}

/// The rarity a classification names, compared in lower case.
pub open spec fn rarity_model(s: Seq<char>) -> Rarity {
    let l = lower_of(s);
    if l == "legendary"@ {
        Rarity::Legendary
    } else if l == "rare"@ {
        Rarity::Rare
    } else if l == "epic"@ {
        Rarity::Epic
    } else if l == "magical"@ {
        Rarity::Magical
    } else {
        Rarity::CommonOrUnknown
    }
}

impl Rarity {
    /// The rarity a classification names.
    pub fn of(s: &String) -> (r: Rarity)
        ensures
            r == rarity_model(s@),
    {
        let l = lowercase(s.as_str());
        if l.eq(&"legendary".to_owned()) {
            Rarity::Legendary
        } else if l.eq(&"rare".to_owned()) {
            Rarity::Rare
        } else if l.eq(&"epic".to_owned()) {
            Rarity::Epic
        } else if l.eq(&"magical".to_owned()) {
            Rarity::Magical
        } else {
            Rarity::CommonOrUnknown
        }
    }
}

/// The decoded records: items and affixes by record path.
pub struct TagNames {
    pub items: StrMap<EntryType>,
    pub affixes: StrMap<EntryType>,
}

impl TagNames {
    pub fn new() -> (r: Self)
        ensures
            r.items.view() == Map::<Seq<char>, EntryModel>::empty(),
            r.affixes.view() == Map::<Seq<char>, EntryModel>::empty(),
    {
        TagNames { items: StrMap::new(), affixes: StrMap::new() }
    }

    /// Merges the maps of one database in; on equal paths its entries win.
    pub fn merge(&mut self, items: StrMap<EntryType>, affixes: StrMap<EntryType>)
        ensures
            final(self).items.view() == old(self).items.view().union_prefer_right(items.view()),
            final(self).affixes.view() == old(self).affixes.view().union_prefer_right(affixes.view()),
    {
        self.items.extend(items);
        self.affixes.extend(affixes);
    }
}

/// Merging two per-file maps one after the other: on a key both hold, the
/// map merged later decides; a key only one holds keeps that value.
pub proof fn lemma_later_merge_wins(
    start: Map<Seq<char>, EntryModel>,
    first: Map<Seq<char>, EntryModel>,
    second: Map<Seq<char>, EntryModel>,
    k: Seq<char>,
)
    ensures
        second.contains_key(k) ==> start.union_prefer_right(first).union_prefer_right(second)[k] == second[k],
        first.contains_key(k) && !second.contains_key(k) ==> start.union_prefer_right(first).union_prefer_right(
            second,
        )[k] == first[k],
        start.union_prefer_right(first).union_prefer_right(second).contains_key(k) <==> start.contains_key(k)
            || first.contains_key(k) || second.contains_key(k),
{
}

/// What a resolved item shows.
pub struct CompleteModel {
    pub name: Seq<char>,
    pub item_rarity: Rarity,
    pub prefix: Option<Seq<char>>,
    pub prefix_rarity: Rarity,
    pub suffix: Option<Seq<char>>,
    pub suffix_rarity: Rarity,
    pub level_req: Option<u32>,
    pub quantity: u32,
}

/// An item resolved to display names.
pub struct CompleteItem {
    pub name: String,
    pub item_rarity: Rarity,
    pub prefix: Option<String>,
    pub prefix_rarity: Rarity,
    pub suffix: Option<String>,
    pub suffix_rarity: Rarity,
    pub level_req: Option<u32>,
    pub quantity: u32,
}

pub open spec fn opt_text(o: Option<String>) -> Option<Seq<char>> {
    match o {
        Some(s) => Some(s@),
        None => None,
    }
}

impl View for CompleteItem {
    type V = CompleteModel;

    open spec fn view(&self) -> CompleteModel {
        CompleteModel {
            name: self.name@,
            item_rarity: self.item_rarity,
            prefix: opt_text(self.prefix),
            prefix_rarity: self.prefix_rarity,
            suffix: opt_text(self.suffix),
            suffix_rarity: self.suffix_rarity,
            level_req: self.level_req,
            quantity: self.quantity,
        }
    }
}

/// A text, or the empty text.
pub open spec fn or_empty(o: Option<Seq<char>>) -> Seq<char> {
    match o {
        Some(s) => s,
        None => Seq::empty(),
    }
}

/// The text a search is matched against: prefix, name and suffix with a
/// space between each.
pub open spec fn searchable_name(c: CompleteModel) -> Seq<char> {
    or_empty(c.prefix) + " "@ + c.name + " "@ + or_empty(c.suffix)
}

/// The display name and rarity an affix record gives: its own name, else the
/// localization of its tag; `None` and common when the record is missing.
pub open spec fn affix_part(
    affixes: Map<Seq<char>, EntryModel>,
    loc: Map<Seq<char>, Seq<char>>,
    record: Seq<char>,
) -> (Option<Seq<char>>, Rarity) {
    if record.len() == 0 || !affixes.contains_key(record) {
        (None, Rarity::CommonOrUnknown)
    } else {
        match affixes[record] {
            EntryModel::Affix { tag_name, rarity, name } => {
                let shown = match name {
                    Some(n) => Some(n),
                    None => match tag_name {
                        Some(t) => if loc.contains_key(t) {
                            Some(loc[t])
                        } else {
                            None
                        },
                        None => None,
                    },
                };
                (shown, rarity_model(rarity))
            },
            EntryModel::Item { .. } => (None, Rarity::CommonOrUnknown),
        }
    }
}

/// An item resolved through the maps: its base record must be an item whose
/// tag is localized. A localized name marked `^k` is a rare component and
/// shows without the mark; otherwise the record's classification decides.
pub open spec fn lookup_model(
    items: Map<Seq<char>, EntryModel>,
    affixes: Map<Seq<char>, EntryModel>,
    loc: Map<Seq<char>, Seq<char>>,
    base: Seq<char>,
    prefix: Seq<char>,
    suffix: Seq<char>,
    stack: u32,
) -> Option<CompleteModel> {
    if !items.contains_key(base) {
        None
    } else {
        match items[base] {
            EntryModel::Item { tag, rarity, level, .. } => {
                if !loc.contains_key(tag) {
                    None
                } else {
                    let n = loc[tag];
                    let component = is_prefix("^k"@, n);
                    let p = affix_part(affixes, loc, prefix);
                    let s = affix_part(affixes, loc, suffix);
                    Some(
                        CompleteModel {
                            name: if component {
                                n.subrange(2, n.len() as int)
                            } else {
                                n
                            },
                            item_rarity: if component {
                                Rarity::RareComponent
                            } else {
                                rarity_model(rarity)
                            },
                            prefix: p.0,
                            prefix_rarity: p.1,
                            suffix: s.0,
                            suffix_rarity: s.1,
                            level_req: level,
                            quantity: stack,
                        },
                    )
                }
            },
            EntryModel::Affix { .. } => None,
        }
    }
}

/// An item whose base record is a localized item, with no prefix and a
/// suffix whose affix record has a localized tag and no name of its own,
/// resolves to its localized name, no prefix, the suffix's localized name,
/// its level requirement and its stack count.
pub proof fn lemma_lookup_with_suffix(
    items: Map<Seq<char>, EntryModel>,
    affixes: Map<Seq<char>, EntryModel>,
    loc: Map<Seq<char>, Seq<char>>,
    base: Seq<char>,
    suffix: Seq<char>,
    stack: u32,
    path: Seq<char>,
    tag: Seq<char>,
    rarity: Seq<char>,
    level: Option<u32>,
    suffix_tag: Seq<char>,
    suffix_rarity: Seq<char>,
)
    requires
        items.contains_key(base),
        items[base] == (EntryModel::Item { path, tag, rarity, level }),
        loc.contains_key(tag),
        !is_prefix("^k"@, loc[tag]),
        suffix.len() > 0,
        affixes.contains_key(suffix),
        affixes[suffix] == (EntryModel::Affix { tag_name: Some(suffix_tag), rarity: suffix_rarity, name: None }),
        loc.contains_key(suffix_tag),
    ensures
        lookup_model(items, affixes, loc, base, Seq::empty(), suffix, stack) == Some(
            CompleteModel {
                name: loc[tag],
                item_rarity: rarity_model(rarity),
                prefix: None,
                prefix_rarity: Rarity::CommonOrUnknown,
                suffix: Some(loc[suffix_tag]),
                suffix_rarity: rarity_model(suffix_rarity),
                level_req: level,
                quantity: stack,
            },
        ),
{
}

impl CompleteItem {
    /// Prefix, name and suffix with a space between each; a missing affix is empty.
    pub fn fmt_searchable_item_name(&self) -> (r: String)
        ensures
            r@ == searchable_name(self@),
    {
        let mut s = String::new();
        match &self.prefix {
            Some(p) => s.append(p.as_str()),
            None => {},
        }
        s.append(" ");
        s.append(self.name.as_str());
        s.append(" ");
        match &self.suffix {
            Some(x) => s.append(x.as_str()),
            None => {},
        }
        assert(s@ =~= searchable_name(self@));
        s
    }
}

/// The maps a search resolves items through, and the term it looks for.
pub struct ItemLookup {
    pub search_term: String,
    pub localization_data: StrMap<String>,
    pub tag_names: TagNames,
}

impl ItemLookup {
    /// The display name and rarity of an affix record.
    fn affix(&self, record: &String) -> (r: (Option<String>, Rarity))
        ensures
            (opt_text(r.0), r.1) == affix_part(
                self.tag_names.affixes.view(),
                self.localization_data.view(),
                record@,
            ),
    {
        if record.as_str().is_empty() {
            return (None, Rarity::CommonOrUnknown);
        }
        match self.tag_names.affixes.get(record) {
            Some(EntryType::Affix(info)) => {
                let rarity = Rarity::of(&info.rarity);
                let shown = match &info.name {
                    Some(n) => Some(n.clone()),
                    None => match &info.tag_name {
                        Some(t) => match self.localization_data.get(t) {
                            Some(n) => Some(n.clone()),
                            None => None,
                        },
                        None => None,
                    },
                };
                (shown, rarity)
            },
            _ => (None, Rarity::CommonOrUnknown),
        }
    }

    /// Resolves an inventory item to its display names, or `None` when its
    /// base record is not a known item or its tag is not localized.
    pub fn lookup_item(&self, inventory_item: &InventoryItem) -> (r: Option<CompleteItem>)
        ensures
            match r {
                Some(c) => lookup_model(
                    self.tag_names.items.view(),
                    self.tag_names.affixes.view(),
                    self.localization_data.view(),
                    inventory_item.base_name@,
                    inventory_item.prefix_name@,
                    inventory_item.suffix_name@,
                    inventory_item.stack_count,
                ) == Some(c@),
                None => lookup_model(
                    self.tag_names.items.view(),
                    self.tag_names.affixes.view(),
                    self.localization_data.view(),
                    inventory_item.base_name@,
                    inventory_item.prefix_name@,
                    inventory_item.suffix_name@,
                    inventory_item.stack_count,
                ) is None,
            },
    {
        let (tag_name, item_rarity, level_req) = match self.tag_names.items.get(&inventory_item.base_name) {
            Some(EntryType::Item(_record, tag, rarity, level)) => (tag, rarity, *level),
            _ => return None,
        };
        let item_name = match self.localization_data.get(tag_name) {
            Some(n) => n,
            None => return None,
        };
        let (prefix, prefix_rarity) = self.affix(&inventory_item.prefix_name);
        let (suffix, suffix_rarity) = self.affix(&inventory_item.suffix_name);
        proof {
            reveal_strlit("^k");
        }
        let (name, rarity) = match strip_prefix(item_name.as_str(), "^k") {
            Some(rest) => (rest, Rarity::RareComponent),
            None => (item_name.clone(), Rarity::of(item_rarity)),
        };
        Some(CompleteItem {
            name,
            item_rarity: rarity,
            prefix,
            prefix_rarity,
            suffix,
            suffix_rarity,
            level_req,
            quantity: inventory_item.stack_count,
        })
    }

    /// Whether a resolved item's searchable name, in lower case, holds the search term.
    pub fn matches_search(&self, item: &CompleteItem) -> (r: bool)
        ensures
            r == occurs_in(self.search_term@, lower_of(searchable_name(item@))),
    {
        let name = item.fmt_searchable_item_name();
        let lower = lowercase(name.as_str());
        contains(lower.as_str(), self.search_term.as_str())
    }

    /// The resolved item when it matches the search term, else `None`.
    pub fn check_item(&self, inventory_item: &InventoryItem) -> (r: Option<CompleteItem>)
        ensures
            ({
                let m = lookup_model(
                    self.tag_names.items.view(),
                    self.tag_names.affixes.view(),
                    self.localization_data.view(),
                    inventory_item.base_name@,
                    inventory_item.prefix_name@,
                    inventory_item.suffix_name@,
                    inventory_item.stack_count,
                );
                &&& r is Some <==> m is Some && occurs_in(self.search_term@, lower_of(searchable_name(m->0)))
                &&& r is Some ==> r->0@ == m->0
            }),
    {
        match self.lookup_item(inventory_item) {
            Some(c) => if self.matches_search(&c) {
                Some(c)
            } else {
                None
            },
            None => None,
        }
    }
}

} // verus!
