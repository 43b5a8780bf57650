//! Where the game and its saves are: `key=value` settings, and the files
//! the search reads under those directories.
use vstd::prelude::*;
use vstd::string::StringExecFns;

use crate::arc_parser::{lines_from, trim_cr, EQUALS, LF, CR};
use crate::byte_reader::{copy_range, find_byte, lemma_find_byte_at};
use crate::str_map::StrMap;
use crate::text::{lossy_string, lossy_text, trim, trim_of};

verus! {

/// The key and value of a settings line, split at its first `=`; `None`
/// when it has no `=` or either side is empty.
pub open spec fn setting_of(l: Seq<u8>) -> Option<(Seq<u8>, Seq<u8>)> {
    let t = trim_cr(l);
    let j = find_byte(t, EQUALS, 0);
    if 0 < j && j + 1 < t.len() {
        Some((t.subrange(0, j), t.subrange(j + 1, t.len() as int)))
    } else {
        None
    }
}

/// The settings the lines give, in order; each side is trimmed of whitespace
/// and a later key wins.
pub open spec fn settings_map(ls: Seq<Seq<u8>>) -> Map<Seq<char>, Seq<char>>
    decreases ls.len(),
{
    if ls.len() == 0 {
        Map::empty()
    } else {
        let m = settings_map(ls.drop_last());
        match setting_of(ls.last()) {
            Some((k, v)) => m.insert(trim_of(lossy_text(k)), trim_of(lossy_text(v))),
            None => m,
        }
    }
}

/// `dir` followed by `/` and `rel`.
pub open spec fn joined(dir: Seq<char>, rel: Seq<char>) -> Seq<char> {
    dir + "/"@ + rel
}

/// Settings read from a configuration file.
pub struct Config {
    pub map: StrMap<String>,
}

/// `dir` joined with `rel`.
fn join(dir: &String, rel: &str) -> (r: String)
    ensures
        r@ == joined(dir@, rel@),
{
    let mut s = dir.clone();
    s.append("/");
    s.append(rel);
    s
}

/// The setting in the line `text[i..e]`, trimmed.
fn setting_in(text: &[u8], i: usize, e: usize) -> (r: Option<(String, String)>)
    requires
        i <= e <= text@.len(),
    ensures
        ({
            let s = setting_of(text@.subrange(i as int, e as int));
            &&& r is Some <==> s is Some
            &&& r is Some ==> {
                let (key, value) = r->0;
                let (kb, vb) = s->0;
                &&& key@ == trim_of(lossy_text(kb))
                &&& value@ == trim_of(lossy_text(vb))
            }
        }),
{
    let ghost d = text@;
    let ghost t = trim_cr(d.subrange(i as int, e as int));
    let mut end = e;
    if end > i && text[end - 1] == CR {
        end = end - 1;
    }
    assert(t =~= d.subrange(i as int, end as int));
    let mut j = i;
    while j < end && text[j] != EQUALS
        invariant
            i <= j <= end <= d.len(),
            text@ == d,
            t =~= d.subrange(i as int, end as int),
            forall|k: int| 0 <= k < j - i ==> t[k] != EQUALS,
        decreases end - j,
    {
        j = j + 1;
    }
    proof {
        lemma_find_byte_at(t, EQUALS, 0, j - i);
    }
    if j == i || j == end || j + 1 == end {
        return None;
    }
    let kb = copy_range(text, i, j);
    let vb = copy_range(text, j + 1, end);
    assert(kb@ =~= t.subrange(0, j - i));
    assert(vb@ =~= t.subrange(j - i + 1, t.len() as int));
    let key = trim(lossy_string(kb.as_slice()).as_str());
    let value = trim(lossy_string(vb.as_slice()).as_str());
    Some((key, value))
}

impl Config {
    /// Reads `key=value` lines; lines without `=` or with an empty side are
    /// skipped, both sides are trimmed, and a later key wins.
    pub fn parse(text: &[u8]) -> (r: Config)
        ensures
            r.map.view() == settings_map(lines_from(text@, 0)),
    {
        let ghost d = text@;
        let n = text.len();
        let mut map: StrMap<String> = StrMap::new();
        let ghost mut done: Seq<Seq<u8>> = Seq::empty();
        let mut i: usize = 0;
        let mut finished = false;
        while !finished
            invariant
                n == d.len(),
                text@ == d,
                i <= n,
                finished ==> lines_from(d, 0) == done,
                !finished ==> lines_from(d, 0) == done + lines_from(d, i as int),
                map.view() == settings_map(done),
            decreases (n - i) as int + if finished { 0int } else { 1int },
        {
            let mut e = i;
            while e < n && text[e] != LF
                invariant
                    i <= e <= n,
                    n == d.len(),
                    text@ == d,
                    forall|k: int| i <= k < e ==> d[k] != LF,
                decreases n - e,
            {
                e = e + 1;
            }
            proof {
                lemma_find_byte_at(d, LF, i as int, e as int);
            }
            let ghost l = d.subrange(i as int, e as int);
            let ghost rest: Seq<Seq<u8>> = if e == n { Seq::empty() } else { lines_from(d, e + 1) };
            assert(lines_from(d, i as int) =~= seq![l] + rest);
            assert(done.push(l).drop_last() =~= done);
            assert(done + (seq![l] + rest) =~= done.push(l) + rest);
            match setting_in(text, i, e) {
                Some((key, value)) => map.insert(key, value),
                None => {},
            }
            proof {
                done = done.push(l);
            }
            if e == n {
                finished = true;
            } else {
                i = e + 1;
            }
        }
        Config { map }
    }

    /// The game's installation directory, if set.
    pub fn installation_dir(&self) -> (r: Option<String>)
        ensures
            r is Some <==> self.map.view().contains_key("installation_dir"@),
            r is Some ==> r->0@ == self.map.view()["installation_dir"@],
    {
        match self.map.get(&"installation_dir".to_owned()) {
            Some(s) => Some(s.clone()),
            None => None,
        }
    }

    /// The save directory, if set.
    pub fn save_dir(&self) -> (r: Option<String>)
        ensures
            r is Some <==> self.map.view().contains_key("save_dir"@),
            r is Some ==> r->0@ == self.map.view()["save_dir"@],
    {
        match self.map.get(&"save_dir".to_owned()) {
            Some(s) => Some(s.clone()),
            None => None,
        }
    }

    /// The shared softcore and hardcore stash files under the save directory.
    pub fn stash_candidates(&self) -> (r: Option<(String, String)>)
        ensures
            r is Some <==> self.map.view().contains_key("save_dir"@),
            r is Some ==> {
                let dir = self.map.view()["save_dir"@];
                let (soft, hard) = r->0;
                &&& soft@ == joined(dir, "transfer.gst"@)
                &&& hard@ == joined(dir, "transfer.gsh"@)
            },
    {
        match self.save_dir() {
            Some(dir) => Some((join(&dir, "transfer.gst"), join(&dir, "transfer.gsh"))),
            None => None,
        }
    }

    /// The directory that holds one directory per character.
    pub fn characters_dir(&self) -> (r: Option<String>)
        ensures
            r is Some <==> self.map.view().contains_key("save_dir"@),
            r is Some ==> r->0@ == joined(self.map.view()["save_dir"@], "main"@),
    {
        match self.save_dir() {
            Some(dir) => Some(join(&dir, "main")),
            None => None,
        }
    }

    /// The base game's and the expansions' databases, in that order.
    pub fn database_candidates(&self) -> (r: Vec<String>)
        ensures
            !self.map.view().contains_key("installation_dir"@) ==> r@.len() == 0,
            self.map.view().contains_key("installation_dir"@) ==> {
                let dir = self.map.view()["installation_dir"@];
                &&& r@.len() == 3
                &&& r@[0]@ == joined(dir, "database/database.arz"@)
                &&& r@[1]@ == joined(dir, "gdx1/database/GDX1.arz"@)
                &&& r@[2]@ == joined(dir, "gdx2/database/GDX2.arz"@)
            },
    {
        let mut r: Vec<String> = Vec::new();
        if let Some(dir) = self.installation_dir() {
            r.push(join(&dir, "database/database.arz"));
            r.push(join(&dir, "gdx1/database/GDX1.arz"));
            r.push(join(&dir, "gdx2/database/GDX2.arz"));
        }
        r
    }

    /// The English localization archives of the base game and the
    /// expansions, in that order.
    pub fn localization_candidates(&self) -> (r: Vec<String>)
        ensures
            !self.map.view().contains_key("installation_dir"@) ==> r@.len() == 0,
            self.map.view().contains_key("installation_dir"@) ==> {
                let dir = self.map.view()["installation_dir"@];
                &&& r@.len() == 3
                &&& r@[0]@ == joined(dir, "resources/Text_EN.arc"@)
                &&& r@[1]@ == joined(dir, "gdx1/resources/Text_EN.arc"@)
                &&& r@[2]@ == joined(dir, "gdx2/resources/Text_EN.arc"@)
            },
    {
        let mut r: Vec<String> = Vec::new();
        if let Some(dir) = self.installation_dir() {
            r.push(join(&dir, "resources/Text_EN.arc"));
            r.push(join(&dir, "gdx1/resources/Text_EN.arc"));
            r.push(join(&dir, "gdx2/resources/Text_EN.arc"));
        }
        r
    }
}

} // verus!
