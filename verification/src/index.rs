//! The index of the AUR: what it holds, how it is built and how names are found
//! in it.

use regex::Regex;
use vstd::prelude::*;

use crate::index::lookup::{all_match, entry_at, kept, law_tables_stay_within, AurClass, Lookup};
use crate::index::schema::{IndexEntry, IndexFile};
use crate::names::{bare_spec, PkgBase, PkgName, PkgTarget, RepoName};
use crate::pacman::invoke::REPO_AUR;

pub mod archive;
pub mod fresh;
pub mod info;
pub mod lookup;
pub mod schema;
pub mod secondary;
pub mod srcinfo;
pub mod update;

verus! {

/// The position of an entry in the index.
#[derive(Debug, Clone, Copy, PartialEq, Eq, PartialOrd, Ord, Hash, Structural)]
pub struct EntryIdx(pub usize);

impl EntryIdx {
    /// The position `i`.
    pub fn new(i: usize) -> (r: Self)
        ensures
            r.0 == i,
    {
        EntryIdx(i)
    }
}

/// Where the AUR stands in this run.
#[derive(Debug, Clone, Copy, PartialEq, Eq, Structural)]
pub enum AurState {
    /// It is on, and its index is on disk.
    Ready,
    /// It is on and was never synced.
    NotSetUp,
    /// It is turned off.
    Disabled,
}

impl AurState {
    /// Where the AUR stands, by the configuration and by whether the index is on
    /// disk. An index that is left from before does not count where the AUR is
    /// turned off.
    pub fn probe(aur: bool, index_exists: bool) -> (r: Self)
        ensures
            r == (if !aur {
                AurState::Disabled
            } else if index_exists {
                AurState::Ready
            } else {
                AurState::NotSetUp
            }),
    {
        if !aur {
            AurState::Disabled
        } else if index_exists {
            AurState::Ready
        } else {
            AurState::NotSetUp
        }
    }
}

/// An index together with its tables.
pub struct AurIndexData {
    idx: IndexFile,
    by: Lookup,
    label: RepoName,
}

impl AurIndexData {
    #[verifier::type_invariant]
    spec fn fits(self) -> bool {
        &&& self.idx.entries.len() <= 0x1_0000_0000
        &&& self.by.indexes(self.idx.rows())
        &&& self.label@ == "aur"@
    }

    /// The index.
    pub closed spec fn file(self) -> IndexFile {
        self.idx
    }

    /// Its tables.
    pub closed spec fn tables(self) -> Lookup {
        self.by
    }

    /// No entries at all.
    pub fn empty() -> (r: Self)
        ensures
            r.file().entries@.len() == 0,
            r.tables().indexes(r.file().rows()),
    {
        Self::from_index(IndexFile::empty())
    }

    /// An index and the tables that are built for it.
    pub fn from_index(idx: IndexFile) -> (r: Self)
        requires
            idx.entries.len() <= 0x1_0000_0000,
        ensures
            r.file() == idx,
            r.tables().indexes(idx.rows()),
    {
        let by = Lookup::build(&idx);
        AurIndexData { idx, by, label: RepoName::new(REPO_AUR) }
    }

    /// The index.
    pub fn index(&self) -> (r: &IndexFile)
        ensures
            *r == self.file(),
            self.tables().indexes(r.rows()),
            r.entries.len() <= 0x1_0000_0000,
    {
        proof {
            use_type_invariant(self);
        }
        &self.idx
    }

    /// The tables.
    pub fn lookup(&self) -> (r: &Lookup)
        ensures
            *r == self.tables(),
            r.indexes(self.file().rows()),
    {
        proof {
            use_type_invariant(self);
        }
        &self.by
    }

    /// The repository that rows from here name.
    pub fn label(&self) -> (r: &RepoName)
        ensures
            r@ == "aur"@,
    {
        proof {
            use_type_invariant(self);
        }
        &self.label
    }

    /// The entry that a target means: by pkgname, else by what entries provide, else
    /// by pkgbase.
    pub fn entry(&self, target: &PkgTarget) -> (r: Option<&IndexEntry>)
        ensures
            match r {
                Some(e) => entry_at(
                    self.file().entries@,
                    self.tables().primary(bare_spec(target@)),
                ) == Some(*e),
                None => entry_at(
                    self.file().entries@,
                    self.tables().primary(bare_spec(target@)),
                ) is None,
            },
    {
        self.by.lookup(&self.idx, target.as_str())
    }

    /// The entries in which every one of `regexes` matches somewhere.
    pub fn search(&self, regexes: &Vec<Regex>) -> (r: Vec<&IndexEntry>)
        ensures
            r@.map_values(|e: &IndexEntry| *e) == kept(
                self.file().entries@,
                self.file().entries@.map_values(|e: IndexEntry| all_match(e@, regexes@)),
            ),
    {
        self.by.search(&self.idx, regexes)
    }

    /// What the AUR calls a name that pacman has installed.
    pub fn classify_foreign(&self, name: &PkgName) -> (r: AurClass<'_>)
        ensures
            match r {
                AurClass::AsPkgname(e) => entry_at(
                    self.file().entries@,
                    self.tables().name_hit(name@),
                ) == Some(*e),
                AurClass::AsProvides(e) => self.tables().name_hit(name@) is None && entry_at(
                    self.file().entries@,
                    self.tables().provides_hit(name@),
                ) == Some(*e),
                AurClass::AsPkgbase(e) => self.tables().name_hit(name@) is None
                    && self.tables().provides_hit(name@) is None && entry_at(
                    self.file().entries@,
                    self.tables().base_hit(name@),
                ) == Some(*e),
                AurClass::NotInAur => self.tables().primary(name@) is None,
            },
    {
        proof {
            use_type_invariant(self);
            law_tables_stay_within(self.by, self.idx.rows());
        }
        self.by.classify_foreign(&self.idx, name)
    }

    /// The pkgbase that an installed name belongs to.
    pub fn pkgbase_of(&self, name: &PkgName) -> (r: Option<&PkgBase>)
        ensures
            match r {
                Some(b) => entry_at(self.file().entries@, self.tables().primary(name@)) matches Some(
                    e,
                ) && e.pkgbase@ == b@,
                None => self.tables().primary(name@) is None,
            },
    {
        match self.classify_foreign(name) {
            AurClass::AsPkgname(e) | AurClass::AsProvides(e) | AurClass::AsPkgbase(e) => Some(
                &e.pkgbase,
            ),
            AurClass::NotInAur => None,
        }
    }
}

} // verus!
