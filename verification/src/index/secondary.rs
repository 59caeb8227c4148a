//! Tables over an index whose answers are plain strings.

use regex::Regex;
use vstd::prelude::*;

use crate::index::lookup::{entry_at, kept, Lookup};
use crate::index::schema::{all_provides_spec, EntryView, IndexEntry, IndexFile, PkgnameView};
use crate::names::{bare_spec, regex_is_match, regex_matches};
use crate::text::str_views;

verus! {

broadcast use {vstd::string::group_string_axioms, crate::seqs::lemma_map_push};

/// The tables.
pub struct Secondary {
    /// From names of each kind to entries.
    pub tables: Lookup,
}

/// The texts of an entry that a search looks at: the names of its packages, its
/// description and what it provides.
pub open spec fn plain_texts(e: EntryView) -> Seq<Seq<char>> {
    name_texts(e.pkgnames) + (match e.pkgdesc {
        Some(d) => seq![d],
        None => seq![],
    }) + all_provides_spec(e)
}

/// The names of the packages.
pub open spec fn name_texts(p: Seq<PkgnameView>) -> Seq<Seq<char>> {
    p.map_values(|n: PkgnameView| n.name)
}

/// Whether `re` matches one of the texts that a search looks at.
pub open spec fn plain_match(e: EntryView, re: Regex) -> bool {
    exists|i: int| 0 <= i < plain_texts(e).len() && regex_matches(re, #[trigger] plain_texts(e)[i])
}

/// Whether every one of `res` matches some text of the entry.
pub open spec fn all_plain_match(e: EntryView, res: Seq<Regex>) -> bool {
    forall|i: int| 0 <= i < res.len() ==> plain_match(e, #[trigger] res[i])
}

fn entry_texts<'a>(e: &'a IndexEntry) -> (r: Vec<&'a str>)
    ensures
        str_views(r@) == plain_texts(e@),
{
    let mut r: Vec<&'a str> = Vec::new();
    let ghost names = name_texts(e@.pkgnames);
    let mut i: usize = 0;
    assert(str_views(r@) =~= names.take(0));
    while i < e.pkgnames.len()
        invariant
            names == name_texts(e@.pkgnames),
            names.len() == e.pkgnames.len(),
            i <= e.pkgnames.len(),
            str_views(r@) == names.take(i as int),
        decreases e.pkgnames.len() - i,
    {
        r.push(e.pkgnames[i].name.as_str());
        proof {
            crate::seqs::lemma_take_succ(names, i as int);
            assert(e@.pkgnames[i as int] == e.pkgnames@[i as int]@);
        }
        assert(str_views(r@) =~= names.take(i as int + 1));
        i = i + 1;
    }
    assert(names.take(i as int) =~= names);
    let ghost mut want = names;
    assert(str_views(r@) =~= want);
    match &e.pkgdesc {
        Some(d) => {
            r.push(d.as_str());
            proof {
                want = want + seq![d@];
            }
        },
        None => {
            proof {
                want = want + seq![];
            }
        },
    }
    assert(str_views(r@) =~= want);
    let provides = e.all_provides();
    let ghost all = all_provides_spec(e@);
    let mut j: usize = 0;
    assert(want + all.take(0) =~= want);
    assert(all.len() == provides@.len());
    while j < provides.len()
        invariant
            all == all_provides_spec(e@),
            provides@.map_values(|t: &crate::names::PkgTarget| t@) == all,
            all.len() == provides@.len(),
            j <= provides.len(),
            str_views(r@) == want + all.take(j as int),
        decreases provides.len() - j,
    {
        let p: &'a str = provides[j].as_str();
        r.push(p);
        proof {
            crate::seqs::lemma_take_succ(all, j as int);
            assert(all[j as int] == provides@[j as int]@);
        }
        assert(str_views(r@) =~= want + all.take(j as int + 1));
        j = j + 1;
    }
    assert(all.take(j as int) =~= all);
    r
}

fn matches_plainly(e: &IndexEntry, re: &Regex) -> (r: bool)
    ensures
        r == plain_match(e@, *re),
{
    let texts = entry_texts(e);
    let ghost all = plain_texts(e@);
    assert(all.len() == texts@.len());
    let mut i: usize = 0;
    while i < texts.len()
        invariant
            all == plain_texts(e@),
            str_views(texts@) == all,
            all.len() == texts@.len(),
            i <= texts.len(),
            forall|j: int| 0 <= j < i ==> !regex_matches(*re, #[trigger] all[j]),
        decreases texts.len() - i,
    {
        assert(all[i as int] == texts@[i as int]@);
        if regex_is_match(re, texts[i]) {
            return true;
        }
        i = i + 1;
    }
    false
}

impl Secondary {
    /// Builds the tables of an index.
    pub fn build(idx: &IndexFile) -> (r: Self)
        requires
            idx.entries.len() <= 0x1_0000_0000,
        ensures
            r.tables.indexes(idx.rows()),
    {
        Secondary { tables: Lookup::build(idx) }
    }

    /// The entry that provides `name` and the pkgname that stands for it.
    pub fn provider_of<'a>(&self, idx: &'a IndexFile, name: &str) -> (r: Option<(usize, &'a str)>)
        ensures
            match r {
                Some((i, n)) => i < idx.entries.len() && i <= u32::MAX && self.tables.provider_hit(
                    idx.rows(),
                    bare_spec(name@),
                ) == Some((i as u32, n@)),
                None => self.tables.provider_hit(idx.rows(), bare_spec(name@)) is None,
            },
    {
        match self.tables.provider_of(idx, name) {
            Some((i, n)) => Some((i, n.as_str())),
            None => None,
        }
    }

    /// The entry that a target means: by pkgname, else by what entries provide, else
    /// by pkgbase.
    pub fn lookup<'a>(&self, idx: &'a IndexFile, target: &str) -> (r: Option<&'a IndexEntry>)
        ensures
            match r {
                Some(e) => entry_at(idx.entries@, self.tables.primary(bare_spec(target@))) == Some(
                    *e,
                ),
                None => entry_at(idx.entries@, self.tables.primary(bare_spec(target@))) is None,
            },
    {
        self.tables.lookup(idx, target)
    }

    /// The entries in which every one of `regexes` matches somewhere. The
    /// descriptions of single pkgnames are not looked at.
    pub fn search<'a>(&self, idx: &'a IndexFile, regexes: &Vec<Regex>) -> (r: Vec<&'a IndexEntry>)
        ensures
            r@.map_values(|e: &IndexEntry| *e) == kept(
                idx.entries@,
                idx.entries@.map_values(|e: IndexEntry| all_plain_match(e@, regexes@)),
            ),
    {
        let mut keep: Vec<bool> = Vec::new();
        let mut i: usize = 0;
        while i < idx.entries.len()
            invariant
                i <= idx.entries.len(),
                keep.len() == i,
                forall|k: int|
                    0 <= k < i ==> #[trigger] keep@[k] == all_plain_match(
                        idx.entries@[k]@,
                        regexes@,
                    ),
            decreases idx.entries.len() - i,
        {
            let mut all = true;
            let mut j: usize = 0;
            while j < regexes.len()
                invariant
                    i < idx.entries.len(),
                    j <= regexes.len(),
                    all == (forall|k: int|
                        0 <= k < j ==> plain_match(idx.entries@[i as int]@, #[trigger] regexes@[k])),
                decreases regexes.len() - j,
            {
                if !matches_plainly(&idx.entries[i], &regexes[j]) {
                    all = false;
                }
                j = j + 1;
            }
            keep.push(all);
            i = i + 1;
        }
        assert(keep@ =~= idx.entries@.map_values(|e: IndexEntry| all_plain_match(e@, regexes@)));
        crate::index::lookup::pick(idx, &keep)
    }
}

} // verus!
