//! A map keyed by text in which a later insertion of a key wins.
use vstd::prelude::*;

verus! {

/// The map that inserting `s` in order into an empty map gives.
pub open spec fn entries_map<V: View>(s: Seq<(String, V)>) -> Map<Seq<char>, V::V>
    decreases s.len(),
{
    if s.len() == 0 {
        Map::empty()
    } else {
        entries_map(s.drop_last()).insert(s.last().0@, s.last().1@)
    }
}

/// Entries past `i` that do not hold key `k` leave its lookup as it was at `i`.
proof fn lemma_entries_map_prefix<V: View>(s: Seq<(String, V)>, i: int, k: Seq<char>)
    requires
        0 <= i <= s.len(),
        forall|j: int| i <= j < s.len() ==> s[j].0@ != k,
    ensures
        entries_map(s).contains_key(k) == entries_map(s.take(i)).contains_key(k),
        entries_map(s).contains_key(k) ==> entries_map(s)[k] == entries_map(s.take(i))[k],
    decreases s.len() - i,
{
    if i < s.len() {
        let pre = s.drop_last();
        assert(pre.take(i) =~= s.take(i));
        lemma_entries_map_prefix(pre, i, k);
    } else {
        assert(s.take(i) =~= s);
    }
}

/// Appending entries merges their map into the earlier one, the later entries winning.
pub proof fn lemma_entries_map_append<V: View>(a: Seq<(String, V)>, b: Seq<(String, V)>)
    ensures
        entries_map(a + b) == entries_map(a).union_prefer_right(entries_map(b)),
    decreases b.len(),
{
    if b.len() == 0 {
        assert(a + b =~= a);
        assert(entries_map(a).union_prefer_right(entries_map(b)) =~= entries_map(a));
    } else {
        let pre = b.drop_last();
        lemma_entries_map_append(a, pre);
        assert((a + b).drop_last() =~= a + pre);
        assert(entries_map(a + b) =~= entries_map(a).union_prefer_right(entries_map(b)));
    }
}

/// A map from text keys to values; inserting a key already present replaces its value.
pub struct StrMap<V> {
    entries: Vec<(String, V)>,
}

impl<V: View> StrMap<V> {
    /// What the map holds.
    pub closed spec fn view(&self) -> Map<Seq<char>, V::V> {
        entries_map(self.entries@)
    }

    pub fn new() -> (r: Self)
        ensures
            r.view() == Map::<Seq<char>, V::V>::empty(),
    {
        StrMap { entries: Vec::new() }
    }

    pub fn insert(&mut self, key: String, value: V)
        ensures
            final(self).view() == old(self).view().insert(key@, value@),
    {
        let ghost k = key@;
        self.entries.push((key, value));
        assert(self.entries@.drop_last() =~= old(self).entries@);
    }

    pub fn get(&self, key: &String) -> (r: Option<&V>)
        ensures
            r is Some <==> self.view().contains_key(key@),
            r is Some ==> r->0@ == self.view()[key@],
    {
        let mut i = self.entries.len();
        while i > 0
            invariant
                i <= self.entries@.len(),
                forall|j: int| i <= j < self.entries@.len() ==> self.entries@[j].0@ != key@,
            decreases i,
        {
            let e = &self.entries[i - 1];
            if e.0.eq(key) {
                proof {
                    let s = self.entries@;
                    lemma_entries_map_prefix(s, i as int, key@);
                    assert(s.take(i as int).drop_last() =~= s.take(i - 1));
                }
                return Some(&e.1);
            }
            i = i - 1;
        }
        proof {
            lemma_entries_map_prefix(self.entries@, 0, key@);
        }
        None
    }

    /// Moves every entry of `other` in, in order; its values win on equal keys.
    pub fn extend(&mut self, other: StrMap<V>)
        ensures
            final(self).view() == old(self).view().union_prefer_right(other.view()),
    {
        let mut o = other.entries;
        proof {
            lemma_entries_map_append(self.entries@, o@);
        }
        self.entries.append(&mut o);
    }
}

} // verus!
