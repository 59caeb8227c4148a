//! Where a name comes from: pacman's databases, the AUR, or nowhere.

use vstd::prelude::*;

use crate::index::lookup::Lookup;
use crate::index::schema::{EntryView, IndexFile};
use crate::index::EntryIdx;
use crate::names::{bare_spec, PkgName};
use crate::pacman::alpm_db::PacmanIndex;

verus! {

broadcast use vstd::string::group_string_axioms;

/// Where a name is to be had, with the package that pacman would act on. A name
/// that is only provided stands for the package that provides it.
#[derive(Debug, PartialEq, Eq)]
pub enum Source {
    /// It is installed: nothing to do.
    Installed(PkgName),
    /// A sync repository has it.
    Repo(PkgName),
    /// The AUR has it.
    Aur(EntryIdx),
    /// Nobody has it.
    Missing,
}

/// What a [`Source`] says.
pub enum SourceView {
    Installed(Seq<char>),
    Repo(Seq<char>),
    Aur(int),
    Missing,
}

impl View for Source {
    type V = SourceView;

    open spec fn view(&self) -> SourceView {
        match *self {
            Source::Installed(n) => SourceView::Installed(n@),
            Source::Repo(n) => SourceView::Repo(n@),
            Source::Aur(i) => SourceView::Aur(i.0 as int),
            Source::Missing => SourceView::Missing,
        }
    }
}

/// Where pacman would take a name from.
#[derive(Debug, PartialEq, Eq)]
pub enum PacHit {
    /// It is installed.
    Installed(PkgName),
    /// A sync repository has it.
    Repo(PkgName),
}

/// How an AUR entry came to be meant by a name.
#[derive(Debug, PartialEq, Eq)]
pub enum AurVia {
    /// The name is one of its pkgnames.
    Pkgname,
    /// It provides the name; this pkgname stands for it.
    Provides(PkgName),
    /// The name is its pkgbase.
    Pkgbase,
}

/// An AUR entry that is meant by a name.
#[derive(Debug, PartialEq, Eq)]
pub struct AurHit {
    pub entry: EntryIdx,
    pub via: AurVia,
}

/// Everything that claims a name: pacman's package, and the AUR entry. Both are
/// kept, since a split package that is installed still has siblings in the AUR.
#[derive(Debug, PartialEq, Eq)]
pub struct Classification {
    pub pac: Option<PacHit>,
    pub aur: Option<AurHit>,
}

/// What an [`AurVia`] says.
pub enum AurViaView {
    Pkgname,
    Provides(Seq<char>),
    Pkgbase,
}

/// What a [`Classification`] says: pacman's package and whether it is installed,
/// and the position of the AUR entry and how it came to be meant.
pub struct ClassificationView {
    pub pac: Option<(Seq<char>, bool)>,
    pub aur: Option<(int, AurViaView)>,
}

impl View for AurVia {
    type V = AurViaView;

    open spec fn view(&self) -> AurViaView {
        match *self {
            AurVia::Pkgname => AurViaView::Pkgname,
            AurVia::Provides(n) => AurViaView::Provides(n@),
            AurVia::Pkgbase => AurViaView::Pkgbase,
        }
    }
}

impl View for Classification {
    type V = ClassificationView;

    open spec fn view(&self) -> ClassificationView {
        ClassificationView {
            pac: match self.pac {
                Some(PacHit::Installed(n)) => Some((n@, true)),
                Some(PacHit::Repo(n)) => Some((n@, false)),
                None => None,
            },
            aur: match self.aur {
                Some(h) => Some((h.entry.0 as int, h.via@)),
                None => None,
            },
        }
    }
}

/// The AUR entry that a name means: by pkgname, else by what it provides, else by
/// pkgbase.
pub open spec fn aur_claim(by: Lookup, rows: Seq<EntryView>, n: Seq<char>) -> Option<
    (int, AurViaView),
> {
    match by.name_hit(n) {
        Some(i) => Some((i as int, AurViaView::Pkgname)),
        None => match by.provider_hit(rows, bare_spec(n)) {
            Some((i, p)) => Some((i as int, AurViaView::Provides(p))),
            None => match by.base_hit(n) {
                Some(i) => Some((i as int, AurViaView::Pkgbase)),
                None => None,
            },
        },
    }
}

/// The source that counts: pacman's package goes before the AUR's.
pub open spec fn source_spec(c: ClassificationView) -> SourceView {
    match (c.pac, c.aur) {
        (Some((n, true)), _) => SourceView::Installed(n),
        (Some((n, false)), _) => SourceView::Repo(n),
        (None, Some((i, _))) => SourceView::Aur(i),
        (None, None) => SourceView::Missing,
    }
}

/// Everything that claims a name.
pub open spec fn classify_spec(
    by: Lookup,
    rows: Seq<EntryView>,
    pac: PacmanIndex,
    n: Seq<char>,
) -> ClassificationView {
    ClassificationView { pac: pac.concrete(n), aur: aur_claim(by, rows, n) }
}

impl Classification {
    /// The source that counts.
    pub fn source(&self) -> (r: Source)
        ensures
            r@ == source_spec(self@),
    {
        match &self.pac {
            Some(PacHit::Installed(n)) => Source::Installed(n.clone()),
            Some(PacHit::Repo(n)) => Source::Repo(n.clone()),
            None => match &self.aur {
                Some(h) => Source::Aur(h.entry),
                None => Source::Missing,
            },
        }
    }
}

/// Finds everything that claims `name`, whose version constraint has been stripped.
pub fn classify_full(idx: &IndexFile, by: &Lookup, pac: &PacmanIndex, name: &str) -> (r:
    Classification)
    ensures
        r@ == classify_spec(*by, idx.rows(), *pac, name@),
{
    let pac_hit = match pac.resolve_concrete(name) {
        Some((n, true)) => Some(PacHit::Installed(n.clone())),
        Some((n, false)) => Some(PacHit::Repo(n.clone())),
        None => None,
    };
    let aur_hit = match by.find_name(name) {
        Some(i) => Some(AurHit { entry: EntryIdx::new(i as usize), via: AurVia::Pkgname }),
        None => match by.provider_of(idx, name) {
            Some((i, n)) => Some(
                AurHit { entry: EntryIdx::new(i), via: AurVia::Provides(n.clone()) },
            ),
            None => match by.find_base(name) {
                Some(i) => Some(AurHit { entry: EntryIdx::new(i as usize), via: AurVia::Pkgbase }),
                None => None,
            },
        },
    };
    Classification { pac: pac_hit, aur: aur_hit }
}

/// Finds the source of `name`, whose version constraint has been stripped.
pub fn classify(idx: &IndexFile, by: &Lookup, pac: &PacmanIndex, name: &str) -> (r: Source)
    ensures
        r@ == source_spec(classify_spec(*by, idx.rows(), *pac, name@)),
{
    classify_full(idx, by, pac, name).source()
}

/// A name that pacman can satisfy never comes from the AUR, and a name that it
/// cannot satisfy never comes from a repository.
pub proof fn law_pacman_wins(
    by: Lookup,
    rows: Seq<EntryView>,
    pac: PacmanIndex,
    n: Seq<char>,
)
    ensures
        pac.concrete(n) is Some <==> {
            ||| source_spec(classify_spec(by, rows, pac, n)) is Installed
            ||| source_spec(classify_spec(by, rows, pac, n)) is Repo
        },
        pac.concrete(n) is None && aur_claim(by, rows, n) is None <==> source_spec(
            classify_spec(by, rows, pac, n),
        ) is Missing,
{
}

/// What is installed, by name or by what it provides, is never installed again.
pub proof fn law_installed_wins(
    by: Lookup,
    rows: Seq<EntryView>,
    pac: PacmanIndex,
    n: Seq<char>,
)
    requires
        pac.installed@.dom().contains(n) || (pac.installed_providers@.dom().contains(n)
            && pac.installed_providers@[n]@.len() > 0),
    ensures
        source_spec(classify_spec(by, rows, pac, n)) is Installed,
{
}

} // verus!
