//! What pacman's databases say, as plain tables.

use vstd::prelude::*;

use crate::index::schema::{scoped_provides_spec, EntryView, IndexEntry, PkgnameView};
use crate::maps::NameMap;
use crate::names::{bare_spec, pkgname_views, pkgtarget_views, PkgName, PkgTarget};
use crate::seqs::lemma_take_succ;
use crate::text::{same, views};
use crate::version::Version;

verus! {

broadcast use {vstd::string::group_string_axioms, crate::seqs::lemma_map_push};

/// How an AUR entry refers to the installed package that it displaces.
#[derive(Debug, Clone, Copy, PartialEq, Eq, Structural)]
pub enum MatchedVia {
    /// One of its pkgnames is installed.
    Pkgname,
    /// It replaces an installed package.
    Replaces,
    /// It provides the name of an installed package.
    Provides,
}

/// The installed package that an AUR entry displaces. The version is always that
/// of the installed package, never one out of a `provides`.
#[derive(Debug, Clone, Copy)]
pub struct InstalledCounterpart<'a> {
    pub pkgname: &'a PkgName,
    pub version: &'a Version,
    pub via: MatchedVia,
}

/// One package of a database.
pub struct PkgRecord {
    /// Its name.
    pub name: PkgName,
    /// Its version.
    pub version: Version,
    /// The names that it provides, without versions.
    pub provides: Vec<String>,
    /// What it needs.
    pub depends: Vec<PkgTarget>,
}

/// The local database and the sync databases, read once.
pub struct PacmanIndex {
    /// From an installed package to its version.
    pub installed: NameMap<PkgName, Version>,
    /// From a provided name to the installed packages that provide it.
    pub installed_providers: NameMap<String, Vec<PkgName>>,
    /// From a package of a sync repository to its version. Of several repositories
    /// the first that has the package counts.
    pub sync_versions: NameMap<PkgName, Version>,
    /// From a provided name to the sync packages that provide it.
    pub sync_providers: NameMap<String, Vec<PkgName>>,
    /// From a package of a sync repository to what it needs.
    pub sync_depends: NameMap<PkgName, Vec<PkgTarget>>,
}

/// The first of `names` in `dom`.
pub open spec fn first_in(names: Seq<Seq<char>>, dom: Set<Seq<char>>) -> Option<Seq<char>>
    decreases names.len(),
{
    if names.len() == 0 {
        None
    } else {
        match first_in(names.drop_last(), dom) {
            Some(n) => Some(n),
            None => if dom.contains(names.last()) {
                Some(names.last())
            } else {
                None
            },
        }
    }
}

/// The names of a list of dependency expressions, the constraints stripped.
pub open spec fn bares(s: Seq<Seq<char>>) -> Seq<Seq<char>> {
    s.map_values(|t: Seq<char>| bare_spec(t))
}

/// The names of a list of pkgnames.
pub open spec fn own_names(p: Seq<PkgnameView>) -> Seq<Seq<char>> {
    p.map_values(|p: PkgnameView| p.name)
}

/// What an entry provides, the claims of single pkgnames first.
pub open spec fn provided_names(e: EntryView) -> Seq<Seq<char>> {
    bares(scoped_provides_spec(e.pkgnames)) + bares(e.provides)
}

/// The installed package that an entry displaces when nobody says which is meant:
/// a pkgname goes before what the entry replaces, and that before what it
/// provides; among equals the first declared counts.
pub open spec fn unhinted_spec(e: EntryView, dom: Set<Seq<char>>) -> Option<
    (Seq<char>, MatchedVia),
> {
    match first_in(own_names(e.pkgnames), dom) {
        Some(n) => Some((n, MatchedVia::Pkgname)),
        None => match first_in(bares(e.replaces), dom) {
            Some(n) => Some((n, MatchedVia::Replaces)),
            None => match first_in(provided_names(e), dom) {
                Some(n) => Some((n, MatchedVia::Provides)),
                None => None,
            },
        },
    }
}

/// How an entry refers to the installed package `n`, if it does.
pub open spec fn for_hint_spec(e: EntryView, dom: Set<Seq<char>>, n: Seq<char>) -> Option<
    (Seq<char>, MatchedVia),
> {
    if !dom.contains(n) {
        None
    } else if own_names(e.pkgnames).contains(n) {
        Some((n, MatchedVia::Pkgname))
    } else if bares(e.replaces).contains(n) {
        Some((n, MatchedVia::Replaces))
    } else if provided_names(e).contains(n) {
        Some((n, MatchedVia::Provides))
    } else {
        None
    }
}

/// The installed package that an entry displaces. A hint that the entry refers to
/// and that is installed decides; any other hint is as good as none.
pub open spec fn counterpart_spec(
    e: EntryView,
    dom: Set<Seq<char>>,
    hint: Option<Seq<char>>,
) -> Option<(Seq<char>, MatchedVia)> {
    match hint {
        Some(n) => match for_hint_spec(e, dom, n) {
            Some(hit) => Some(hit),
            None => unhinted_spec(e, dom),
        },
        None => unhinted_spec(e, dom),
    }
}

/// The view of a name that may be missing.
pub open spec fn opt_name(o: Option<&PkgName>) -> Option<Seq<char>> {
    match o {
        Some(n) => Some(n@),
        None => None,
    }
}

/// `r` is the counterpart `hit`, with the version that is installed.
pub open spec fn counterpart_is(
    r: Option<InstalledCounterpart>,
    hit: Option<(Seq<char>, MatchedVia)>,
    installed: Map<Seq<char>, Version>,
) -> bool {
    match r {
        Some(c) => hit == Some((c.pkgname@, c.via)) && installed.dom().contains(c.pkgname@)
            && *c.version == installed[c.pkgname@],
        None => hit is None,
    }
}

proof fn lemma_first_in_stays(
    names: Seq<Seq<char>>,
    dom: Set<Seq<char>>,
    k: int,
    n: Seq<char>,
)
    requires
        0 <= k <= names.len(),
        first_in(names.take(k), dom) == Some(n),
    ensures
        first_in(names, dom) == Some(n),
    decreases names.len() - k,
{
    if k == names.len() {
        assert(names.take(k) =~= names);
    } else {
        lemma_take_succ(names, k);
        lemma_first_in_stays(names, dom, k + 1, n);
    }
}

proof fn lemma_first_in_append(a: Seq<Seq<char>>, b: Seq<Seq<char>>, dom: Set<Seq<char>>)
    ensures
        first_in(a + b, dom) == (match first_in(a, dom) {
            Some(n) => Some(n),
            None => first_in(b, dom),
        }),
    decreases b.len(),
{
    if b.len() == 0 {
        assert(a + b =~= a);
    } else {
        assert((a + b).drop_last() =~= a + b.drop_last());
        lemma_first_in_append(a, b.drop_last(), dom);
    }
}

impl PacmanIndex {
    /// Databases without packages.
    pub fn default() -> (r: Self)
        ensures
            r.installed@ == Map::<Seq<char>, Version>::empty(),
            r.installed_providers@ == Map::<Seq<char>, Vec<PkgName>>::empty(),
            r.sync_versions@ == Map::<Seq<char>, Version>::empty(),
            r.sync_providers@ == Map::<Seq<char>, Vec<PkgName>>::empty(),
            r.sync_depends@ == Map::<Seq<char>, Vec<PkgTarget>>::empty(),
    {
        PacmanIndex {
            installed: NameMap::new(),
            installed_providers: NameMap::new(),
            sync_versions: NameMap::new(),
            sync_providers: NameMap::new(),
            sync_depends: NameMap::new(),
        }
    }

    /// The version of an installed package.
    pub fn installed_version(&self, name: &str) -> (r: Option<&Version>)
        ensures
            match r {
                Some(v) => self.installed@.dom().contains(name@) && *v == self.installed@[name@],
                None => !self.installed@.dom().contains(name@),
            },
    {
        self.installed.get(name)
    }

    /// Tests whether a package is installed.
    pub fn is_installed(&self, name: &str) -> (r: bool)
        ensures
            r == self.installed@.dom().contains(name@),
    {
        self.installed.contains_key(name)
    }

    /// A sync repository has a package of that name, or one that provides it.
    pub open spec fn syncs(self, name: Seq<char>) -> bool {
        self.sync_versions@.dom().contains(name) || self.sync_providers@.dom().contains(name)
    }

    /// Tests whether a sync repository has a package of that name, or one that
    /// provides it.
    pub fn in_sync(&self, name: &str) -> (r: bool)
        ensures
            r == self.syncs(name@),
    {
        self.sync_versions.contains_key(name) || self.sync_providers.contains_key(name)
    }

    /// The version of a sync package. A provided name has none of its own.
    pub fn sync_version(&self, name: &str) -> (r: Option<&Version>)
        ensures
            match r {
                Some(v) => self.sync_versions@.dom().contains(name@) && *v
                    == self.sync_versions@[name@],
                None => !self.sync_versions@.dom().contains(name@),
            },
    {
        self.sync_versions.get(name)
    }

    /// What a sync package needs.
    pub open spec fn needs(self, name: Seq<char>) -> Seq<Seq<char>> {
        if self.sync_depends@.dom().contains(name) {
            pkgtarget_views(self.sync_depends@[name]@)
        } else {
            Seq::empty()
        }
    }

    /// What a sync package needs.
    pub fn sync_depends(&self, name: &PkgName) -> (r: Option<&Vec<PkgTarget>>)
        ensures
            match r {
                Some(v) => pkgtarget_views(v@) == self.needs(name@),
                None => self.needs(name@).len() == 0,
            },
    {
        self.sync_depends.get(name.as_str())
    }

    /// The package that pacman would act on for a name, and whether it is installed:
    /// the installed package of that name, else the first installed one that provides
    /// it, else the same among the sync packages.
    pub open spec fn concrete(self, name: Seq<char>) -> Option<(Seq<char>, bool)> {
        if self.installed@.dom().contains(name) {
            Some((name, true))
        } else if self.installed_providers@.dom().contains(name)
            && self.installed_providers@[name]@.len() > 0 {
            Some((self.installed_providers@[name]@[0]@, true))
        } else if self.sync_versions@.dom().contains(name) {
            Some((name, false))
        } else if self.sync_providers@.dom().contains(name) && self.sync_providers@[name]@.len()
            > 0 {
            Some((self.sync_providers@[name]@[0]@, false))
        } else {
            None
        }
    }

    /// Finds the package that pacman would act on for a name.
    pub fn resolve_concrete(&self, name: &str) -> (r: Option<(&PkgName, bool)>)
        ensures
            match r {
                Some((n, installed)) => self.concrete(name@) == Some((n@, installed)),
                None => self.concrete(name@) is None,
            },
    {
        match self.installed.get_key_value(name) {
            Some((n, _)) => {
                return Some((n, true));
            },
            None => {},
        }
        match self.installed_providers.get(name) {
            Some(provs) => {
                if provs.len() > 0 {
                    return Some((&provs[0], true));
                }
            },
            None => {},
        }
        match self.sync_versions.get_key_value(name) {
            Some((n, _)) => {
                return Some((n, false));
            },
            None => {},
        }
        match self.sync_providers.get(name) {
            Some(provs) => {
                if provs.len() > 0 {
                    return Some((&provs[0], false));
                }
            },
            None => {},
        }
        None
    }

    /// The installed package that an entry displaces.
    pub fn counterpart<'a>(&'a self, entry: &'a IndexEntry) -> (r: Option<InstalledCounterpart<'a>>)
        ensures
            counterpart_is(
                r,
                counterpart_spec(entry@, self.installed@.dom(), None),
                self.installed@,
            ),
    {
        self.counterpart_with_hint(entry, None)
    }

    /// The installed package that an entry displaces, where the user may have said
    /// which one they mean.
    pub fn counterpart_with_hint<'a>(&'a self, entry: &'a IndexEntry, hint: Option<&PkgName>) -> (r:
        Option<InstalledCounterpart<'a>>)
        ensures
            counterpart_is(
                r,
                counterpart_spec(entry@, self.installed@.dom(), opt_name(hint)),
                self.installed@,
            ),
    {
        match hint {
            Some(h) => match self.counterpart_for_hint(entry, h) {
                Some(c) => Some(c),
                None => self.counterpart_unhinted(entry),
            },
            None => self.counterpart_unhinted(entry),
        }
    }

    fn counterpart_for_hint<'a>(&'a self, entry: &'a IndexEntry, hint: &PkgName) -> (r: Option<
        InstalledCounterpart<'a>,
    >)
        ensures
            counterpart_is(
                r,
                for_hint_spec(entry@, self.installed@.dom(), hint@),
                self.installed@,
            ),
    {
        match self.installed.get_key_value(hint.as_str()) {
            Some((name, version)) => {
                if names_hold(entry, name) {
                    return Some(
                        InstalledCounterpart { pkgname: name, version, via: MatchedVia::Pkgname },
                    );
                }
                if targets_hold(&entry.replaces, name) {
                    return Some(
                        InstalledCounterpart { pkgname: name, version, via: MatchedVia::Replaces },
                    );
                }
                let scoped = scoped_hold(entry, name);
                let based = targets_hold(&entry.provides, name);
                proof {
                    lemma_contains_append(
                        bares(scoped_provides_spec(entry@.pkgnames)),
                        bares(entry@.provides),
                        name@,
                    );
                }
                if scoped || based {
                    return Some(
                        InstalledCounterpart { pkgname: name, version, via: MatchedVia::Provides },
                    );
                }
                None
            },
            None => None,
        }
    }

    fn counterpart_unhinted<'a>(&'a self, entry: &'a IndexEntry) -> (r: Option<
        InstalledCounterpart<'a>,
    >)
        ensures
            counterpart_is(r, unhinted_spec(entry@, self.installed@.dom()), self.installed@),
    {
        let ghost dom = self.installed@.dom();
        let ghost own = own_names(entry@.pkgnames);
        let mut i: usize = 0;
        assert(own.take(0) =~= Seq::<Seq<char>>::empty());
        while i < entry.pkgnames.len()
            invariant
                dom == self.installed@.dom(),
                own == own_names(entry@.pkgnames),
                i <= entry.pkgnames.len(),
                first_in(own.take(i as int), dom) is None,
            decreases entry.pkgnames.len() - i,
        {
            proof {
                lemma_take_succ(own, i as int);
            }
            assert(own[i as int] == entry.pkgnames@[i as int].name@);
            match self.installed.get_key_value(entry.pkgnames[i].name.as_str()) {
                Some((name, version)) => {
                    proof {
                        lemma_first_in_stays(own, dom, i as int + 1, name@);
                    }
                    return Some(
                        InstalledCounterpart { pkgname: name, version, via: MatchedVia::Pkgname },
                    );
                },
                None => {},
            }
            i = i + 1;
        }
        assert(own.take(i as int) =~= own);
        match self.first_installed(&entry.replaces) {
            Some((name, version)) => {
                return Some(
                    InstalledCounterpart { pkgname: name, version, via: MatchedVia::Replaces },
                );
            },
            None => {},
        }
        proof {
            lemma_first_in_append(
                bares(scoped_provides_spec(entry@.pkgnames)),
                bares(entry@.provides),
                dom,
            );
        }
        let ghost all = entry@.pkgnames;
        let mut j: usize = 0;
        assert(all.take(0) =~= Seq::<PkgnameView>::empty());
        assert(bares(Seq::<Seq<char>>::empty()) =~= Seq::<Seq<char>>::empty());
        while j < entry.pkgnames.len()
            invariant
                dom == self.installed@.dom(),
                all == entry@.pkgnames,
                j <= entry.pkgnames.len(),
                first_in(own_names(entry@.pkgnames), dom) is None,
                first_in(bares(entry@.replaces), dom) is None,
                first_in(provided_names(entry@), dom) == (match first_in(
                    bares(scoped_provides_spec(all)),
                    dom,
                ) {
                    Some(n) => Some(n),
                    None => first_in(bares(entry@.provides), dom),
                }),
                first_in(bares(scoped_provides_spec(all.take(j as int))), dom) is None,
            decreases entry.pkgnames.len() - j,
        {
            proof {
                lemma_take_succ(all, j as int);
                let head = scoped_provides_spec(all.take(j as int));
                assert(all[j as int] == entry.pkgnames@[j as int]@);
                assert(bares(head + all[j as int].provides) =~= bares(head) + bares(
                    all[j as int].provides,
                ));
                lemma_first_in_append(bares(head), bares(all[j as int].provides), dom);
            }
            match self.first_installed(&entry.pkgnames[j].provides) {
                Some((name, version)) => {
                    proof {
                        lemma_scoped_first(all, dom, j as int + 1, name@);
                    }
                    return Some(
                        InstalledCounterpart { pkgname: name, version, via: MatchedVia::Provides },
                    );
                },
                None => {},
            }
            j = j + 1;
        }
        assert(all.take(j as int) =~= all);
        match self.first_installed(&entry.provides) {
            Some((name, version)) => Some(
                InstalledCounterpart { pkgname: name, version, via: MatchedVia::Provides },
            ),
            None => None,
        }
    }

    /// Finds the first target whose name is installed.
    fn first_installed<'a>(&'a self, targets: &Vec<PkgTarget>) -> (r: Option<
        (&'a PkgName, &'a Version),
    >)
        ensures
            match r {
                Some((n, v)) => {
                    &&& first_in(bares(pkgtarget_views(targets@)), self.installed@.dom()) == Some(
                        n@,
                    )
                    &&& self.installed@.dom().contains(n@)
                    &&& *v == self.installed@[n@]
                },
                None => first_in(
                    bares(pkgtarget_views(targets@)),
                    self.installed@.dom(),
                ) is None,
            },
    {
        let ghost dom = self.installed@.dom();
        let ghost names = bares(pkgtarget_views(targets@));
        let mut i: usize = 0;
        assert(names.take(0) =~= Seq::<Seq<char>>::empty());
        while i < targets.len()
            invariant
                dom == self.installed@.dom(),
                names == bares(pkgtarget_views(targets@)),
                i <= targets.len(),
                first_in(names.take(i as int), dom) is None,
            decreases targets.len() - i,
        {
            proof {
                lemma_take_succ(names, i as int);
            }
            assert(names[i as int] == bare_spec(targets@[i as int]@));
            match self.installed.get_key_value(targets[i].bare()) {
                Some((n, v)) => {
                    proof {
                        lemma_first_in_stays(names, dom, i as int + 1, n@);
                    }
                    return Some((n, v));
                },
                None => {},
            }
            i = i + 1;
        }
        assert(names.take(i as int) =~= names);
        None
    }

    /// The installed packages that no sync repository has, with their versions.
    pub fn foreign(&self) -> (r: Vec<(PkgName, Version)>)
        ensures
            forall|i: int|
                0 <= i < r.len() ==> {
                    &&& self.installed@.dom().contains((#[trigger] r@[i]).0@)
                    &&& !self.sync_versions@.dom().contains(r@[i].0@)
                    &&& r@[i].1@ == self.installed@[r@[i].0@]@
                },
            forall|n: Seq<char>| #[trigger]
                self.installed@.dom().contains(n) && !self.sync_versions@.dom().contains(n)
                    ==> exists|i: int| 0 <= i < r.len() && (#[trigger] r@[i]).0@ == n,
            forall|i: int, j: int|
                0 <= i < j < r.len() ==> (#[trigger] r@[i]).0@ != (#[trigger] r@[j]).0@,
    {
        let mut r: Vec<(PkgName, Version)> = Vec::new();
        let n: usize = self.installed.len();
        let ghost order = self.installed.order();
        let mut i: usize = 0;
        while i < n
            invariant
                n == order.len(),
                order == self.installed.order(),
                order.no_duplicates(),
                forall|k: Seq<char>|
                    order.contains(k) <==> #[trigger] self.installed@.dom().contains(k),
                i <= n,
                forall|k: int|
                    0 <= k < r.len() ==> {
                        &&& self.installed@.dom().contains((#[trigger] r@[k]).0@)
                        &&& !self.sync_versions@.dom().contains(r@[k].0@)
                        &&& r@[k].1@ == self.installed@[r@[k].0@]@
                        &&& exists|w: int| 0 <= w < i && order[w] == r@[k].0@
                    },
                forall|k: int|
                    0 <= k < i && !self.sync_versions@.dom().contains(#[trigger] order[k])
                        ==> exists|w: int| 0 <= w < r.len() && (#[trigger] r@[w]).0@ == order[k],
                forall|k: int, l: int|
                    0 <= k < l < r.len() ==> (#[trigger] r@[k]).0@ != (#[trigger] r@[l]).0@,
            decreases n - i,
        {
            let name = self.installed.key_at(i);
            assert(order.contains(order[i as int]));
            let ghost before = r@;
            if !self.sync_versions.contains_key(name.as_str()) {
                let version = self.installed.value_at(i);
                r.push((name.clone(), version.clone()));
                assert(r@[before.len() as int].0@ == order[i as int]);
                assert forall|k: int|
                    0 <= k < i + 1 && !self.sync_versions@.dom().contains(
                        #[trigger] order[k],
                    ) implies exists|w: int| 0 <= w < r.len() && (#[trigger] r@[w]).0@
                    == order[k] by {
                    if k < i {
                        let w = choose|w: int| 0 <= w < before.len() && (#[trigger] before[w]).0@ == order[k];
                        assert(r@[w] == before[w]);
                    }
                }
            }
            i = i + 1;
        }
        assert forall|k: Seq<char>| #[trigger]
            self.installed@.dom().contains(k) && !self.sync_versions@.dom().contains(
                k,
            ) implies exists|w: int| 0 <= w < r.len() && (#[trigger] r@[w]).0@ == k by {
            assert(order.contains(k));
            let p = choose|p: int| 0 <= p < order.len() && order[p] == k;
            assert(order[p] == k);
        }
        r
    }
}

proof fn lemma_scoped_first(
    all: Seq<PkgnameView>,
    dom: Set<Seq<char>>,
    k: int,
    n: Seq<char>,
)
    requires
        0 <= k <= all.len(),
        first_in(bares(scoped_provides_spec(all.take(k))), dom) == Some(n),
    ensures
        first_in(bares(scoped_provides_spec(all)), dom) == Some(n),
    decreases all.len() - k,
{
    if k == all.len() {
        assert(all.take(k) =~= all);
    } else {
        lemma_take_succ(all, k);
        let head = scoped_provides_spec(all.take(k));
        assert(bares(head + all[k].provides) =~= bares(head) + bares(all[k].provides));
        lemma_first_in_append(bares(head), bares(all[k].provides), dom);
        lemma_scoped_first(all, dom, k + 1, n);
    }
}

proof fn lemma_contains_append(a: Seq<Seq<char>>, b: Seq<Seq<char>>, n: Seq<char>)
    ensures
        (a + b).contains(n) <==> a.contains(n) || b.contains(n),
{
    if a.contains(n) {
        let i = choose|i: int| 0 <= i < a.len() && a[i] == n;
        assert((a + b)[i] == n);
    }
    if b.contains(n) {
        let i = choose|i: int| 0 <= i < b.len() && b[i] == n;
        assert((a + b)[a.len() + i] == n);
    }
    if (a + b).contains(n) {
        let i = choose|i: int| 0 <= i < (a + b).len() && (a + b)[i] == n;
        if i < a.len() {
            assert(a[i] == n);
        } else {
            assert(b[i - a.len()] == n);
        }
    }
}

fn names_hold(e: &IndexEntry, n: &PkgName) -> (r: bool)
    ensures
        r == own_names(e@.pkgnames).contains(n@),
{
    let ghost own = own_names(e@.pkgnames);
    let mut i: usize = 0;
    while i < e.pkgnames.len()
        invariant
            own == own_names(e@.pkgnames),
            i <= e.pkgnames.len(),
            forall|k: int| 0 <= k < i ==> own[k] != n@,
        decreases e.pkgnames.len() - i,
    {
        assert(own[i as int] == e.pkgnames@[i as int].name@);
        if e.pkgnames[i].name.same_as(n) {
            return true;
        }
        i = i + 1;
    }
    false
}

fn targets_hold(targets: &Vec<PkgTarget>, n: &PkgName) -> (r: bool)
    ensures
        r == bares(pkgtarget_views(targets@)).contains(n@),
{
    let ghost names = bares(pkgtarget_views(targets@));
    let mut i: usize = 0;
    while i < targets.len()
        invariant
            names == bares(pkgtarget_views(targets@)),
            i <= targets.len(),
            forall|k: int| 0 <= k < i ==> names[k] != n@,
        decreases targets.len() - i,
    {
        assert(names[i as int] == bare_spec(targets@[i as int]@));
        if targets[i].refers_to(n) {
            return true;
        }
        i = i + 1;
    }
    false
}

fn scoped_hold(e: &IndexEntry, n: &PkgName) -> (r: bool)
    ensures
        r == bares(scoped_provides_spec(e@.pkgnames)).contains(n@),
{
    let ghost all = e@.pkgnames;
    let mut i: usize = 0;
    let mut found = false;
    assert(all.take(0) =~= Seq::<PkgnameView>::empty());
    while i < e.pkgnames.len()
        invariant
            all == e@.pkgnames,
            i <= e.pkgnames.len(),
            found == bares(scoped_provides_spec(all.take(i as int))).contains(n@),
        decreases e.pkgnames.len() - i,
    {
        proof {
            lemma_take_succ(all, i as int);
            let head = scoped_provides_spec(all.take(i as int));
            assert(all[i as int] == e.pkgnames@[i as int]@);
            assert(bares(head + all[i as int].provides) =~= bares(head) + bares(
                all[i as int].provides,
            ));
            lemma_contains_append(bares(head), bares(all[i as int].provides), n@);
        }
        if targets_hold(&e.pkgnames[i].provides, n) {
            found = true;
        }
        i = i + 1;
    }
    assert(all.take(i as int) =~= all);
    found
}

/// What a [`PkgRecord`] says.
pub struct RecordView {
    pub name: Seq<char>,
    pub version: Seq<char>,
    pub provides: Seq<Seq<char>>,
    pub depends: Seq<Seq<char>>,
}

impl View for PkgRecord {
    type V = RecordView;

    open spec fn view(&self) -> RecordView {
        RecordView {
            name: self.name@,
            version: self.version@,
            provides: views(self.provides@),
            depends: pkgtarget_views(self.depends@),
        }
    }
}

/// The views of the packages of a database.
pub open spec fn record_views(v: Seq<PkgRecord>) -> Seq<RecordView> {
    v.map_values(|p: PkgRecord| p@)
}

/// The packages of all databases, one database after the other.
pub open spec fn in_turn(dbs: Seq<Vec<PkgRecord>>) -> Seq<RecordView>
    decreases dbs.len(),
{
    if dbs.len() == 0 {
        Seq::empty()
    } else {
        in_turn(dbs.drop_last()) + record_views(dbs.last()@)
    }
}

/// How often `x` stands in `s`.
pub open spec fn times(s: Seq<Seq<char>>, x: Seq<char>) -> nat
    decreases s.len(),
{
    if s.len() == 0 {
        0
    } else {
        times(s.drop_last(), x) + (if s.last() == x {
            1nat
        } else {
            0nat
        })
    }
}

/// The packages that provide `p`, once for each time they do.
pub open spec fn provided_by(recs: Seq<RecordView>, p: Seq<char>) -> Seq<Seq<char>>
    decreases recs.len(),
{
    if recs.len() == 0 {
        Seq::empty()
    } else {
        provided_by(recs.drop_last(), p) + Seq::new(
            times(recs.last().provides, p),
            |i: int| recs.last().name,
        )
    }
}

/// `m` leads each provided name to the packages that provide it.
pub open spec fn lists_providers(recs: Seq<RecordView>, m: Map<Seq<char>, Vec<PkgName>>) -> bool {
    &&& forall|p: Seq<char>| #[trigger]
        m.dom().contains(p) <==> provided_by(recs, p).len() > 0
    &&& forall|p: Seq<char>| #[trigger]
        m.dom().contains(p) ==> pkgname_views(m[p]@) == provided_by(recs, p)
}

/// The last package of that name.
pub open spec fn last_named(recs: Seq<RecordView>, n: Seq<char>) -> Option<RecordView>
    decreases recs.len(),
{
    if recs.len() == 0 {
        None
    } else if recs.last().name == n {
        Some(recs.last())
    } else {
        last_named(recs.drop_last(), n)
    }
}

/// The first package of that name.
pub open spec fn first_named(recs: Seq<RecordView>, n: Seq<char>) -> Option<RecordView>
    decreases recs.len(),
{
    if recs.len() == 0 {
        None
    } else {
        match first_named(recs.drop_last(), n) {
            Some(r) => Some(r),
            None => if recs.last().name == n {
                Some(recs.last())
            } else {
                None
            },
        }
    }
}

/// `m` leads each installed package to its version.
pub open spec fn lists_installed(recs: Seq<RecordView>, m: Map<Seq<char>, Version>) -> bool {
    forall|n: Seq<char>|
        match last_named(recs, n) {
            Some(r) => #[trigger] m.dom().contains(n) && m[n]@ == r.version,
            None => !m.dom().contains(n),
        }
}

/// `v` leads each sync package to its version and `d` to what it needs.
pub open spec fn lists_synced(
    recs: Seq<RecordView>,
    v: Map<Seq<char>, Version>,
    d: Map<Seq<char>, Vec<PkgTarget>>,
) -> bool {
    forall|n: Seq<char>|
        match first_named(recs, n) {
            Some(r) => #[trigger] v.dom().contains(n) && v[n]@ == r.version && d.dom().contains(n)
                && pkgtarget_views(d[n]@) == r.depends,
            None => !v.dom().contains(n) && !d.dom().contains(n),
        }
}

/// Adds a package to the providers of every name that it provides.
fn enter_providers(
    m: &mut NameMap<String, Vec<PkgName>>,
    rec: &PkgRecord,
    Ghost(recs): Ghost<Seq<RecordView>>,
)
    requires
        lists_providers(recs, old(m)@),
    ensures
        lists_providers(recs.push(rec@), final(m)@),
{
    let ghost texts = rec@.provides;
    let ghost name = rec@.name;
    let mut j: usize = 0;
    assert(texts.take(0) =~= Seq::<Seq<char>>::empty());
    assert forall|p: Seq<char>| #[trigger] m@.dom().contains(p) implies pkgname_views(m@[p]@)
        == provided_by(recs, p) + Seq::new(times(texts.take(0), p), |i: int| name) by {
        assert(provided_by(recs, p) + Seq::new(0, |i: int| name) =~= provided_by(recs, p));
    }
    while j < rec.provides.len()
        invariant
            texts == views(rec.provides@),
            name == rec.name@,
            j <= rec.provides.len(),
            forall|p: Seq<char>| #[trigger]
                m@.dom().contains(p) <==> provided_by(recs, p).len() + times(
                    texts.take(j as int),
                    p,
                ) > 0,
            forall|p: Seq<char>| #[trigger]
                m@.dom().contains(p) ==> pkgname_views(m@[p]@) == provided_by(recs, p) + Seq::new(
                    times(texts.take(j as int), p),
                    |i: int| name,
                ),
        decreases rec.provides.len() - j,
    {
        proof {
            lemma_take_succ(texts, j as int);
        }
        let ghost now = m@;
        let p = rec.provides[j].as_str();
        let ghost b = p@;
        assert(texts[j as int] == b);
        let mut list: Vec<PkgName> = if m.contains_key(p) {
            m.replace(p, Vec::new())
        } else {
            Vec::new()
        };
        let ghost had = pkgname_views(list@);
        list.push(rec.name.clone());
        let ghost has = pkgname_views(list@);
        assert(has =~= had.push(name));
        m.insert(rec.provides[j].clone(), list);
        proof {
            let c = times(texts.take(j as int), b);
            if !now.dom().contains(b) {
                assert(had =~= provided_by(recs, b) + Seq::new(c, |i: int| name));
            }
            assert(has =~= provided_by(recs, b) + Seq::new(c + 1, |i: int| name));
            assert forall|n: Seq<char>| #[trigger] m@.dom().contains(n) implies pkgname_views(
                m@[n]@,
            ) == provided_by(recs, n) + Seq::new(
                times(texts.take(j as int + 1), n),
                |i: int| name,
            ) by {
                if n != b {
                    assert(now.dom().contains(n));
                }
            }
            assert forall|n: Seq<char>| #[trigger]
                m@.dom().contains(n) <==> provided_by(recs, n).len() + times(
                    texts.take(j as int + 1),
                    n,
                ) > 0 by {
                if n != b {
                    assert(m@.dom().contains(n) <==> now.dom().contains(n));
                }
            }
        }
        j = j + 1;
    }
    assert(texts.take(j as int) =~= texts);
    let ghost next = recs.push(rec@);
    assert(next.drop_last() =~= recs);
    assert(next.last() == rec@);
}

fn copy_depends(v: &Vec<PkgTarget>) -> (r: Vec<PkgTarget>)
    ensures
        pkgtarget_views(r@) == pkgtarget_views(v@),
{
    let mut r: Vec<PkgTarget> = Vec::new();
    let mut i: usize = 0;
    while i < v.len()
        invariant
            i <= v.len(),
            pkgtarget_views(r@) == pkgtarget_views(v@).take(i as int),
        decreases v.len() - i,
    {
        r.push(v[i].clone());
        i = i + 1;
        assert(pkgtarget_views(r@) =~= pkgtarget_views(v@).take(i as int));
    }
    assert(pkgtarget_views(v@).take(i as int) =~= pkgtarget_views(v@));
    r
}

/// Enters a sync package, unless one of that name is there already.
fn enter_sync(
    versions: &mut NameMap<PkgName, Version>,
    depends: &mut NameMap<PkgName, Vec<PkgTarget>>,
    rec: &PkgRecord,
    Ghost(recs): Ghost<Seq<RecordView>>,
)
    requires
        lists_synced(recs, old(versions)@, old(depends)@),
    ensures
        lists_synced(recs.push(rec@), final(versions)@, final(depends)@),
{
    let ghost v = versions@;
    let ghost next = recs.push(rec@);
    assert(next.drop_last() =~= recs);
    assert(next.last() == rec@);
    if !versions.contains_key(rec.name.as_str()) {
        versions.insert(rec.name.clone(), rec.version.clone());
        depends.insert(rec.name.clone(), copy_depends(&rec.depends));
    }
    assert forall|n: Seq<char>|
        match first_named(next, n) {
            Some(r) => #[trigger] versions@.dom().contains(n) && versions@[n]@ == r.version
                && depends@.dom().contains(n) && pkgtarget_views(depends@[n]@) == r.depends,
            None => !versions@.dom().contains(n) && !depends@.dom().contains(n),
        } by {
        assert(versions@.dom().contains(n) <==> n == rec@.name || v.dom().contains(n));
        assert(v.dom().contains(rec@.name) <==> first_named(recs, rec@.name) is Some);
    }
}

impl PacmanIndex {
    /// Builds the tables from the packages of the local database and of each sync
    /// database, in the order of `pacman.conf`.
    pub fn build(local: &Vec<PkgRecord>, sync: &Vec<Vec<PkgRecord>>) -> (r: Self)
        ensures
            lists_installed(record_views(local@), r.installed@),
            lists_providers(record_views(local@), r.installed_providers@),
            lists_synced(in_turn(sync@), r.sync_versions@, r.sync_depends@),
            lists_providers(in_turn(sync@), r.sync_providers@),
    {
        let mut out = PacmanIndex::default();
        let ghost recs = record_views(local@);
        let mut i: usize = 0;
        assert(recs.take(0) =~= Seq::<RecordView>::empty());
        while i < local.len()
            invariant
                recs == record_views(local@),
                i <= local.len(),
                lists_installed(recs.take(i as int), out.installed@),
                lists_providers(recs.take(i as int), out.installed_providers@),
                out.sync_versions@ == Map::<Seq<char>, Version>::empty(),
                out.sync_providers@ == Map::<Seq<char>, Vec<PkgName>>::empty(),
                out.sync_depends@ == Map::<Seq<char>, Vec<PkgTarget>>::empty(),
            decreases local.len() - i,
        {
            let rec = &local[i];
            proof {
                lemma_take_succ(recs, i as int);
            }
            assert(recs[i as int] == rec@);
            let ghost before = out.installed@;
            out.installed.insert(rec.name.clone(), rec.version.clone());
            enter_providers(&mut out.installed_providers, rec, Ghost(recs.take(i as int)));
            proof {
                let next = recs.take(i as int + 1);
                assert forall|n: Seq<char>|
                    match last_named(next, n) {
                        Some(r) => #[trigger] out.installed@.dom().contains(n) && out.installed@[n]@
                            == r.version,
                        None => !out.installed@.dom().contains(n),
                    } by {
                    assert(out.installed@.dom().contains(n) <==> n == rec@.name
                        || before.dom().contains(n));
                }
            }
            i = i + 1;
        }
        assert(recs.take(i as int) =~= recs);
        let mut k: usize = 0;
        assert(sync@.take(0) =~= Seq::<Vec<PkgRecord>>::empty());
        while k < sync.len()
            invariant
                lists_installed(record_views(local@), out.installed@),
                lists_providers(record_views(local@), out.installed_providers@),
                k <= sync.len(),
                lists_synced(in_turn(sync@.take(k as int)), out.sync_versions@, out.sync_depends@),
                lists_providers(in_turn(sync@.take(k as int)), out.sync_providers@),
            decreases sync.len() - k,
        {
            let db = &sync[k];
            let ghost head = in_turn(sync@.take(k as int));
            let ghost own = record_views(db@);
            proof {
                lemma_take_succ(sync@, k as int);
            }
            let mut j: usize = 0;
            assert(head + own.take(0) =~= head);
            while j < db.len()
                invariant
                    lists_installed(record_views(local@), out.installed@),
                    lists_providers(record_views(local@), out.installed_providers@),
                    own == record_views(db@),
                    j <= db.len(),
                    lists_synced(head + own.take(j as int), out.sync_versions@, out.sync_depends@),
                    lists_providers(head + own.take(j as int), out.sync_providers@),
                decreases db.len() - j,
            {
                let rec = &db[j];
                let ghost upto = head + own.take(j as int);
                let ghost next = head + own.take(j as int + 1);
                proof {
                    assert(own[j as int] == rec@);
                    assert(next =~= upto.push(rec@));
                }
                enter_sync(&mut out.sync_versions, &mut out.sync_depends, rec, Ghost(upto));
                enter_providers(&mut out.sync_providers, rec, Ghost(upto));
                j = j + 1;
                assert(next == head + own.take(j as int));
            }
            assert(own.take(j as int) =~= own);
            k = k + 1;
        }
        assert(sync@.take(k as int) =~= sync@);
        out
    }
}

/// Without a hint, or with one that the entry does not refer to or that is not
/// installed, the counterpart is the one that the walk without a hint finds.
pub proof fn law_useless_hint(e: EntryView, dom: Set<Seq<char>>, n: Seq<char>)
    requires
        !dom.contains(n) || !(own_names(e.pkgnames).contains(n) || bares(e.replaces).contains(n)
            || provided_names(e).contains(n)),
    ensures
        counterpart_spec(e, dom, Some(n)) == counterpart_spec(e, dom, None),
{
}

/// A hint that is installed and that the entry refers to is the counterpart.
pub proof fn law_hint_decides(e: EntryView, dom: Set<Seq<char>>, n: Seq<char>)
    requires
        dom.contains(n),
        own_names(e.pkgnames).contains(n) || bares(e.replaces).contains(n) || provided_names(
            e,
        ).contains(n),
    ensures
        counterpart_spec(e, dom, Some(n)) matches Some((m, _)) && m == n,
{
}

proof fn lemma_first_in(names: Seq<Seq<char>>, dom: Set<Seq<char>>)
    ensures
        match first_in(names, dom) {
            Some(n) => names.contains(n) && dom.contains(n),
            None => forall|i: int| 0 <= i < names.len() ==> !dom.contains(#[trigger] names[i]),
        },
    decreases names.len(),
{
    if names.len() > 0 {
        lemma_first_in(names.drop_last(), dom);
        match first_in(names.drop_last(), dom) {
            Some(n) => {
                let rest = names.drop_last();
                let i = choose|i: int| 0 <= i < rest.len() && rest[i] == n;
                assert(names[i] == n);
            },
            None => {
                assert forall|i: int| 0 <= i < names.len() - 1 implies !dom.contains(
                    #[trigger] names[i],
                ) by {
                    assert(names.drop_last()[i] == names[i]);
                }
                assert(names[names.len() - 1] == names.last());
            },
        }
    }
}

/// There is a counterpart exactly if the entry refers to something that is
/// installed, and the counterpart is installed.
pub proof fn law_counterpart_is_installed(
    e: EntryView,
    dom: Set<Seq<char>>,
    hint: Option<Seq<char>>,
)
    ensures
        counterpart_spec(e, dom, hint) matches Some((n, _)) ==> dom.contains(n),
        counterpart_spec(e, dom, hint) is Some <==> exists|n: Seq<char>| #[trigger]
            dom.contains(n) && (own_names(e.pkgnames).contains(n) || bares(e.replaces).contains(n)
                || provided_names(e).contains(n)),
{
    let own = own_names(e.pkgnames);
    let rep = bares(e.replaces);
    let prov = provided_names(e);
    lemma_first_in(own, dom);
    lemma_first_in(rep, dom);
    lemma_first_in(prov, dom);
}

} // verus!
