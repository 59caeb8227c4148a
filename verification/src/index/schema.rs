//! What the index holds of each pkgbase.

use vstd::prelude::*;

use crate::names::{pkgtarget_views, Arch, OptDep, OptDepView, PkgBase, PkgName, PkgTarget, Url};
use crate::text::opt_view;
use crate::units::UnixTime;
use crate::version::Version;

verus! {

broadcast use {vstd::string::group_string_axioms, crate::seqs::lemma_map_push};

/// One pkgname of a pkgbase, with what its own section of the `.SRCINFO` says.
/// What the pkgbase says holds of every pkgname and is not repeated here.
#[derive(Debug, PartialEq, Eq)]
pub struct Pkgname {
    /// The pkgname.
    pub name: PkgName,
    /// The `provides` of this pkgname alone.
    pub provides: Vec<PkgTarget>,
    /// The description of this pkgname alone.
    pub pkgdesc: Option<String>,
}

/// What a [`Pkgname`] says.
pub struct PkgnameView {
    pub name: Seq<char>,
    pub provides: Seq<Seq<char>>,
    pub pkgdesc: Option<Seq<char>>,
}

impl View for Pkgname {
    type V = PkgnameView;

    open spec fn view(&self) -> PkgnameView {
        PkgnameView {
            name: self.name@,
            provides: pkgtarget_views(self.provides@),
            pkgdesc: opt_view(self.pkgdesc),
        }
    }
}

/// One pkgbase.
#[derive(Debug)]
pub struct IndexEntry {
    /// The pkgbase, which is also its branch of the mirror.
    pub pkgbase: PkgBase,
    /// The pkgnames that it produces.
    pub pkgnames: Vec<Pkgname>,
    /// The `pkgver` field.
    pub pkgver: String,
    /// The `pkgrel` field.
    pub pkgrel: String,
    /// The `epoch` field, which is often missing.
    pub epoch: Option<String>,
    /// The description that holds of every pkgname.
    pub pkgdesc: Option<String>,
    /// The address of the upstream.
    pub url: Option<Url>,
    /// What the packages need to run.
    pub depends: Vec<PkgTarget>,
    /// What a build needs.
    pub makedepends: Vec<PkgTarget>,
    /// What the tests of a build need.
    pub checkdepends: Vec<PkgTarget>,
    /// What the packages can make use of.
    pub optdepends: Vec<OptDep>,
    /// The `provides` that hold of every pkgname.
    pub provides: Vec<PkgTarget>,
    /// What cannot be installed beside the packages.
    pub conflicts: Vec<PkgTarget>,
    /// What the packages supersede.
    pub replaces: Vec<PkgTarget>,
    /// The architectures.
    pub arch: Vec<Arch>,
    /// The commit at the tip of the branch.
    pub commit_oid: [u8; 20],
    /// The `.SRCINFO` blob in that commit.
    pub srcinfo_blob_oid: [u8; 20],
    /// When that commit was made.
    pub commit_time: UnixTime,
}

/// What an [`IndexEntry`] says.
pub struct EntryView {
    pub pkgbase: Seq<char>,
    pub pkgnames: Seq<PkgnameView>,
    pub pkgver: Seq<char>,
    pub pkgrel: Seq<char>,
    pub epoch: Option<Seq<char>>,
    pub pkgdesc: Option<Seq<char>>,
    pub url: Option<Seq<char>>,
    pub depends: Seq<Seq<char>>,
    pub makedepends: Seq<Seq<char>>,
    pub checkdepends: Seq<Seq<char>>,
    pub optdepends: Seq<OptDepView>,
    pub provides: Seq<Seq<char>>,
    pub conflicts: Seq<Seq<char>>,
    pub replaces: Seq<Seq<char>>,
    pub arch: Seq<Seq<char>>,
    pub commit_oid: Seq<u8>,
    pub srcinfo_blob_oid: Seq<u8>,
    pub commit_time: int,
}

/// The views of a list of pkgnames.
pub open spec fn pkgname_list(v: Seq<Pkgname>) -> Seq<PkgnameView> {
    v.map_values(|p: Pkgname| p@)
}

/// The views of a list of optional dependencies.
pub open spec fn optdep_list(v: Seq<OptDep>) -> Seq<OptDepView> {
    v.map_values(|o: OptDep| o@)
}

/// The views of a list of architectures.
pub open spec fn arch_list(v: Seq<Arch>) -> Seq<Seq<char>> {
    v.map_values(|a: Arch| a@)
}

/// The view of an address that may be missing.
pub open spec fn url_view(u: Option<Url>) -> Option<Seq<char>> {
    match u {
        Some(u) => Some(u@),
        None => None,
    }
}

impl View for IndexEntry {
    type V = EntryView;

    open spec fn view(&self) -> EntryView {
        EntryView {
            pkgbase: self.pkgbase@,
            pkgnames: pkgname_list(self.pkgnames@),
            pkgver: self.pkgver@,
            pkgrel: self.pkgrel@,
            epoch: opt_view(self.epoch),
            pkgdesc: opt_view(self.pkgdesc),
            url: url_view(self.url),
            depends: pkgtarget_views(self.depends@),
            makedepends: pkgtarget_views(self.makedepends@),
            checkdepends: pkgtarget_views(self.checkdepends@),
            optdepends: optdep_list(self.optdepends@),
            provides: pkgtarget_views(self.provides@),
            conflicts: pkgtarget_views(self.conflicts@),
            replaces: pkgtarget_views(self.replaces@),
            arch: arch_list(self.arch@),
            commit_oid: self.commit_oid@,
            srcinfo_blob_oid: self.srcinfo_blob_oid@,
            commit_time: self.commit_time.0 as int,
        }
    }
}

/// An entry that says nothing.
pub open spec fn blank_entry() -> EntryView {
    EntryView {
        pkgbase: Seq::empty(),
        pkgnames: Seq::empty(),
        pkgver: Seq::empty(),
        pkgrel: Seq::empty(),
        epoch: None,
        pkgdesc: None,
        url: None,
        depends: Seq::empty(),
        makedepends: Seq::empty(),
        checkdepends: Seq::empty(),
        optdepends: Seq::empty(),
        provides: Seq::empty(),
        conflicts: Seq::empty(),
        replaces: Seq::empty(),
        arch: Seq::empty(),
        commit_oid: Seq::new(20, |i: int| 0u8),
        srcinfo_blob_oid: Seq::new(20, |i: int| 0u8),
        commit_time: 0,
    }
}

impl Default for IndexEntry {
    fn default() -> (r: Self)
        ensures
            r@ == blank_entry(),
    {
        let r = IndexEntry {
            pkgbase: PkgBase::default(),
            pkgnames: Vec::new(),
            pkgver: String::new(),
            pkgrel: String::new(),
            epoch: None,
            pkgdesc: None,
            url: None,
            depends: Vec::new(),
            makedepends: Vec::new(),
            checkdepends: Vec::new(),
            optdepends: Vec::new(),
            provides: Vec::new(),
            conflicts: Vec::new(),
            replaces: Vec::new(),
            arch: Vec::new(),
            commit_oid: [0u8; 20],
            srcinfo_blob_oid: [0u8; 20],
            commit_time: UnixTime::new(0),
        };
        assert(r@.pkgnames =~= Seq::empty());
        assert(r@.depends =~= Seq::empty());
        assert(r@.optdepends =~= Seq::empty());
        assert(r@.arch =~= Seq::empty());
        assert(r@.commit_oid =~= blank_entry().commit_oid);
        assert(r@.srcinfo_blob_oid =~= blank_entry().srcinfo_blob_oid);
        r
    }
}

fn copy_opt(o: &Option<String>) -> (r: Option<String>)
    ensures
        opt_view(r) == opt_view(*o),
{
    match o {
        Some(s) => Some(s.clone()),
        None => None,
    }
}

fn copy_targets(v: &Vec<PkgTarget>) -> (r: Vec<PkgTarget>)
    ensures
        pkgtarget_views(r@) == pkgtarget_views(v@),
{
    let mut r: Vec<PkgTarget> = Vec::new();
    let mut i: usize = 0;
    while i < v.len()
        invariant
            i <= v.len(),
            pkgtarget_views(r@) == pkgtarget_views(v@).take(i as int),
        decreases v.len() - i,
    {
        r.push(v[i].clone());
        i = i + 1;
        assert(pkgtarget_views(r@) =~= pkgtarget_views(v@).take(i as int));
    }
    assert(pkgtarget_views(v@).take(i as int) =~= pkgtarget_views(v@));
    r
}

impl Clone for Pkgname {
    fn clone(&self) -> (r: Self)
        ensures
            r@ == self@,
    {
        Pkgname {
            name: self.name.clone(),
            provides: copy_targets(&self.provides),
            pkgdesc: copy_opt(&self.pkgdesc),
        }
    }
}

impl Clone for IndexEntry {
    fn clone(&self) -> (r: Self)
        ensures
            r@ == self@,
    {
        let mut pkgnames: Vec<Pkgname> = Vec::new();
        let mut i: usize = 0;
        while i < self.pkgnames.len()
            invariant
                i <= self.pkgnames.len(),
                pkgname_list(pkgnames@) == pkgname_list(self.pkgnames@).take(i as int),
            decreases self.pkgnames.len() - i,
        {
            pkgnames.push(self.pkgnames[i].clone());
            i = i + 1;
            assert(pkgname_list(pkgnames@) =~= pkgname_list(self.pkgnames@).take(i as int));
        }
        assert(pkgname_list(pkgnames@) =~= pkgname_list(self.pkgnames@));
        let mut optdepends: Vec<OptDep> = Vec::new();
        let mut j: usize = 0;
        while j < self.optdepends.len()
            invariant
                j <= self.optdepends.len(),
                optdep_list(optdepends@) == optdep_list(self.optdepends@).take(j as int),
            decreases self.optdepends.len() - j,
        {
            optdepends.push(self.optdepends[j].clone());
            j = j + 1;
            assert(optdep_list(optdepends@) =~= optdep_list(self.optdepends@).take(j as int));
        }
        assert(optdep_list(optdepends@) =~= optdep_list(self.optdepends@));
        let mut arch: Vec<Arch> = Vec::new();
        let mut k: usize = 0;
        while k < self.arch.len()
            invariant
                k <= self.arch.len(),
                arch_list(arch@) == arch_list(self.arch@).take(k as int),
            decreases self.arch.len() - k,
        {
            arch.push(self.arch[k].clone());
            k = k + 1;
            assert(arch_list(arch@) =~= arch_list(self.arch@).take(k as int));
        }
        assert(arch_list(arch@) =~= arch_list(self.arch@));
        let url = match &self.url {
            Some(u) => Some(u.clone()),
            None => None,
        };
        IndexEntry {
            pkgbase: self.pkgbase.clone(),
            pkgnames,
            pkgver: self.pkgver.clone(),
            pkgrel: self.pkgrel.clone(),
            epoch: copy_opt(&self.epoch),
            pkgdesc: copy_opt(&self.pkgdesc),
            url,
            depends: copy_targets(&self.depends),
            makedepends: copy_targets(&self.makedepends),
            checkdepends: copy_targets(&self.checkdepends),
            optdepends,
            provides: copy_targets(&self.provides),
            conflicts: copy_targets(&self.conflicts),
            replaces: copy_targets(&self.replaces),
            arch,
            commit_oid: self.commit_oid,
            srcinfo_blob_oid: self.srcinfo_blob_oid,
            commit_time: self.commit_time,
        }
    }
}

/// The index: its header and the entries, sorted by pkgbase.
#[derive(Debug)]
pub struct IndexFile {
    /// The version of the archive's layout.
    pub format_version: u32,
    /// The head of the mirror when the index was written.
    pub mirror_head_oid: [u8; 20],
    /// When the index was written.
    pub built_at_unix: u64,
    /// The entries.
    pub entries: Vec<IndexEntry>,
}

/// The version of the archive's layout that this build reads and writes. An older
/// archive must be rebuilt: with other types the same bytes would read as
/// something else.
pub const FORMAT_VERSION: u32 = 6;

/// The views of a list of entries.
pub open spec fn entry_list(v: Seq<IndexEntry>) -> Seq<EntryView> {
    v.map_values(|e: IndexEntry| e@)
}

impl IndexFile {
    /// The version of the archive's layout.
    pub const FORMAT_VERSION: u32 = FORMAT_VERSION;

    /// What the entries say.
    pub open spec fn rows(self) -> Seq<EntryView> {
        entry_list(self.entries@)
    }

    /// An index without entries, for when there is none on disk.
    pub fn empty() -> (r: Self)
        ensures
            r.format_version == FORMAT_VERSION,
            r.mirror_head_oid@ == Seq::new(20, |i: int| 0u8),
            r.built_at_unix == 0,
            r.entries@ == Seq::<IndexEntry>::empty(),
    {
        let r = IndexFile {
            format_version: FORMAT_VERSION,
            mirror_head_oid: [0u8; 20],
            built_at_unix: 0,
            entries: Vec::new(),
        };
        assert(r.mirror_head_oid@ =~= Seq::new(20, |i: int| 0u8));
        r
    }
}

/// Every `provides` of an entry: those of the pkgbase, then those of each pkgname.
pub open spec fn all_provides_spec(e: EntryView) -> Seq<Seq<char>> {
    e.provides + scoped_provides_spec(e.pkgnames)
}

/// The `provides` of the pkgnames, one pkgname after the other.
pub open spec fn scoped_provides_spec(p: Seq<PkgnameView>) -> Seq<Seq<char>>
    decreases p.len(),
{
    if p.len() == 0 {
        Seq::empty()
    } else {
        scoped_provides_spec(p.drop_last()) + p.last().provides
    }
}

/// A description that says something.
pub open spec fn nonempty_spec(d: Option<Seq<char>>) -> Option<Seq<char>> {
    match d {
        Some(s) if s.len() > 0 => Some(s),
        _ => None,
    }
}

fn nonempty<'a>(d: &'a Option<String>) -> (r: Option<&'a str>)
    ensures
        match r {
            Some(s) => nonempty_spec(opt_view(*d)) == Some(s@),
            None => nonempty_spec(opt_view(*d)) == None::<Seq<char>>,
        },
{
    match d {
        Some(s) => if s.as_str().is_empty() {
            None
        } else {
            Some(s.as_str())
        },
        None => None,
    }
}

/// The description of the first pkgname that reads like the pkgbase, unless that
/// description is missing or empty.
pub open spec fn canonical_desc(base: Seq<char>, p: Seq<PkgnameView>) -> Option<Seq<char>>
    decreases p.len(),
{
    if p.len() == 0 {
        None
    } else if p[0].name == base {
        nonempty_spec(p[0].pkgdesc)
    } else {
        canonical_desc(base, p.drop_first())
    }
}

/// The first description that says something.
pub open spec fn first_desc(p: Seq<PkgnameView>) -> Option<Seq<char>>
    decreases p.len(),
{
    if p.len() == 0 {
        None
    } else {
        match nonempty_spec(p[0].pkgdesc) {
            Some(d) => Some(d),
            None => first_desc(p.drop_first()),
        }
    }
}

/// The description that stands for the whole pkgbase: its own, else that of the
/// pkgname that reads like it, else the first that a pkgname has.
pub open spec fn display_desc_spec(e: EntryView) -> Option<Seq<char>> {
    match nonempty_spec(e.pkgdesc) {
        Some(d) => Some(d),
        None => match canonical_desc(e.pkgbase, e.pkgnames) {
            Some(d) => Some(d),
            None => first_desc(e.pkgnames),
        },
    }
}

/// The whole version of an entry. An empty epoch counts as none.
pub open spec fn version_spec(e: EntryView) -> Seq<char> {
    let epoch = match nonempty_spec(e.epoch) {
        Some(s) => s + ":"@,
        None => Seq::empty(),
    };
    epoch + e.pkgver + "-"@ + e.pkgrel
}

impl IndexEntry {
    /// Every `provides` of the pkgbase: its own, then those of each pkgname.
    pub fn all_provides<'a>(&'a self) -> (r: Vec<&'a PkgTarget>)
        ensures
            r@.map_values(|t: &PkgTarget| t@) == all_provides_spec(self@),
    {
        let mut r: Vec<&'a PkgTarget> = Vec::new();
        let mut i: usize = 0;
        while i < self.provides.len()
            invariant
                i <= self.provides.len(),
                r@.map_values(|t: &PkgTarget| t@) == self@.provides.take(i as int),
            decreases self.provides.len() - i,
        {
            r.push(&self.provides[i]);
            i = i + 1;
            assert(r@.map_values(|t: &PkgTarget| t@) =~= self@.provides.take(i as int));
        }
        assert(self@.provides.take(i as int) =~= self@.provides);
        let mut j: usize = 0;
        assert(self@.pkgnames.take(0) =~= Seq::<PkgnameView>::empty());
        assert(self@.provides + Seq::<Seq<char>>::empty() =~= self@.provides);
        while j < self.pkgnames.len()
            invariant
                j <= self.pkgnames.len(),
                r@.map_values(|t: &PkgTarget| t@) == self@.provides + scoped_provides_spec(
                    self@.pkgnames.take(j as int),
                ),
            decreases self.pkgnames.len() - j,
        {
            let own = &self.pkgnames[j].provides;
            let ghost texts = pkgtarget_views(own@);
            let ghost before = r@.map_values(|t: &PkgTarget| t@);
            let mut k: usize = 0;
            assert(before + texts.take(0) =~= before);
            while k < own.len()
                invariant
                    k <= own.len(),
                    texts == pkgtarget_views(own@),
                    r@.map_values(|t: &PkgTarget| t@) == before + texts.take(k as int),
                decreases own.len() - k,
            {
                r.push(&own[k]);
                k = k + 1;
                assert(r@.map_values(|t: &PkgTarget| t@) =~= before + texts.take(k as int));
            }
            assert(texts.take(k as int) =~= texts);
            j = j + 1;
            assert(self@.pkgnames.take(j as int).drop_last() =~= self@.pkgnames.take(j as int - 1));
            assert(self@.pkgnames.take(j as int).last().provides == texts);
            assert(r@.map_values(|t: &PkgTarget| t@) =~= self@.provides + scoped_provides_spec(
                self@.pkgnames.take(j as int),
            ));
        }
        assert(self@.pkgnames.take(j as int) =~= self@.pkgnames);
        r
    }

    /// The description that stands for the whole pkgbase.
    pub fn display_desc<'a>(&'a self) -> (r: Option<&'a str>)
        ensures
            match r {
                Some(s) => display_desc_spec(self@) == Some(s@),
                None => display_desc_spec(self@) == None::<Seq<char>>,
            },
    {
        match nonempty(&self.pkgdesc) {
            Some(d) => {
                return Some(d);
            },
            None => {},
        }
        let ghost all = self@.pkgnames;
        let mut i: usize = 0;
        assert(all.skip(0) =~= all);
        while i < self.pkgnames.len() && !self.pkgbase.matches_pkgname(&self.pkgnames[i].name)
            invariant
                all == self@.pkgnames,
                i <= self.pkgnames.len(),
                canonical_desc(self@.pkgbase, all.skip(i as int)) == canonical_desc(
                    self@.pkgbase,
                    all,
                ),
            decreases self.pkgnames.len() - i,
        {
            assert(all.skip(i as int)[0].name == self.pkgnames@[i as int].name@);
            assert(all.skip(i as int).drop_first() =~= all.skip(i as int + 1));
            i = i + 1;
        }
        if i < self.pkgnames.len() {
            assert(all.skip(i as int)[0] == self.pkgnames@[i as int]@);
            match nonempty(&self.pkgnames[i].pkgdesc) {
                Some(d) => {
                    return Some(d);
                },
                None => {},
            }
        }
        let mut j: usize = 0;
        while j < self.pkgnames.len()
            invariant
                all == self@.pkgnames,
                j <= self.pkgnames.len(),
                nonempty_spec(self@.pkgdesc) is None,
                canonical_desc(self@.pkgbase, all) is None,
                first_desc(all.skip(j as int)) == first_desc(all),
            decreases self.pkgnames.len() - j,
        {
            assert(all.skip(j as int)[0] == self.pkgnames@[j as int]@);
            assert(all.skip(j as int).drop_first() =~= all.skip(j as int + 1));
            match nonempty(&self.pkgnames[j].pkgdesc) {
                Some(d) => {
                    return Some(d);
                },
                None => {},
            }
            j = j + 1;
        }
        None
    }

    /// The whole version.
    pub fn version(&self) -> (r: Version)
        ensures
            r@ == version_spec(self@),
    {
        let mut s = String::new();
        match nonempty(&self.epoch) {
            Some(e) => {
                s.append(e);
                s.append(":");
            },
            None => {},
        }
        s.append(self.pkgver.as_str());
        s.append("-");
        s.append(self.pkgrel.as_str());
        assert(s@ =~= version_spec(self@));
        Version::new(s.as_str())
    }
}

} // verus!
