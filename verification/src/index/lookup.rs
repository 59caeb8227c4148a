//! Finding entries by pkgname, by what they provide and by pkgbase.

use regex::Regex;
use smallvec::SmallVec;
use vstd::prelude::*;

use crate::index::schema::{
    all_provides_spec, EntryView, IndexEntry, IndexFile, PkgnameView,
};
use crate::maps::NameMap;
use crate::names::{
    bare_name, bare_spec, pkgtarget_views, regex_is_match, regex_matches, PkgBase, PkgName,
    PkgTarget, VirtualName,
};
use crate::seqs::lemma_take_succ;
use crate::text::{same, str_views};

verus! {

broadcast use {vstd::string::group_string_axioms, crate::seqs::lemma_map_push};

/// The positions of the entries that provide one name. Nearly always there are
/// one or two, which a `smallvec::SmallVec` keeps without an allocation.
#[derive(Debug)]
#[verifier::external_body]
pub struct ProviderList {
    items: SmallVec<[u32; 2]>,
}

/// The positions in a list of providers, in order.
pub uninterp spec fn provider_items(list: ProviderList) -> Seq<u32>;

impl ProviderList {
    /// Calls `smallvec::SmallVec::new`, which makes an empty list.
    #[verifier::external_body]
    fn new() -> (r: Self)
        ensures
            provider_items(r) == Seq::<u32>::empty(),
    {
        ProviderList { items: SmallVec::new() }
    }

    /// Calls `smallvec::SmallVec::push`, which adds `x` at the end.
    #[verifier::external_body]
    fn push(&mut self, x: u32)
        ensures
            provider_items(*final(self)) == provider_items(*old(self)).push(x),
    {
        self.items.push(x)
    }

    /// Calls `first` on the slice that a `smallvec::SmallVec` dereferences to: the
    /// first position, if there is any.
    #[verifier::external_body]
    pub(crate) fn first(&self) -> (r: Option<u32>)
        ensures
            r == (if provider_items(*self).len() == 0 {
                None
            } else {
                Some(provider_items(*self)[0])
            }),
    {
        self.items.first().copied()
    }

    /// Calls `last` on the slice that a `smallvec::SmallVec` dereferences to: the
    /// last position, if there is any.
    #[verifier::external_body]
    fn last(&self) -> (r: Option<u32>)
        ensures
            r == (if provider_items(*self).len() == 0 {
                None
            } else {
                Some(provider_items(*self).last())
            }),
    {
        self.items.last().copied()
    }
}

/// Strips a version constraint (`>=`, `=`, `<` and the like, with the version).
pub fn strip_version_constraint<'a>(dep: &'a str) -> (r: &'a str)
    ensures
        r@ == bare_spec(dep@),
{
    bare_name(dep)
}

/// One of the pkgnames reads `n`.
pub open spec fn has_pkgname(e: EntryView, n: Seq<char>) -> bool {
    exists|j: int| 0 <= j < e.pkgnames.len() && (#[trigger] e.pkgnames[j]).name == n
}

/// How many of `provs` are `n`, their version constraints stripped.
pub open spec fn claims(provs: Seq<Seq<char>>, n: Seq<char>) -> nat
    decreases provs.len(),
{
    if provs.len() == 0 {
        0
    } else {
        claims(provs.drop_last(), n) + (if bare_spec(provs.last()) == n {
            1nat
        } else {
            0nat
        })
    }
}

/// The positions of the entries that provide `n`, in order.
pub open spec fn providers_of(rows: Seq<EntryView>, n: Seq<char>) -> Seq<u32>
    decreases rows.len(),
{
    if rows.len() == 0 {
        Seq::empty()
    } else {
        with_claim(
            providers_of(rows.drop_last(), n),
            (rows.len() - 1) as u32,
            claims(all_provides_spec(rows.last()), n),
        )
    }
}

/// `list`, with `at` at its end where anything was claimed.
pub open spec fn with_claim(list: Seq<u32>, at: u32, claimed: nat) -> Seq<u32> {
    if claimed > 0 {
        list.push(at)
    } else {
        list
    }
}

/// `m` leads each pkgname to the last entry that has it.
pub open spec fn names_last(rows: Seq<EntryView>, m: Map<Seq<char>, u32>) -> bool {
    &&& forall|n: Seq<char>| #[trigger]
        m.dom().contains(n) ==> m[n] < rows.len() && has_pkgname(rows[m[n] as int], n)
    &&& forall|n: Seq<char>, i: int|
        0 <= i < rows.len() && #[trigger] has_pkgname(rows[i], n) ==> m.dom().contains(n) && i
            <= m[n]
}

/// `m` leads each pkgbase to the last entry that has it.
pub open spec fn bases_last(rows: Seq<EntryView>, m: Map<Seq<char>, u32>) -> bool {
    &&& forall|n: Seq<char>| #[trigger]
        m.dom().contains(n) ==> m[n] < rows.len() && rows[m[n] as int].pkgbase == n
    &&& forall|i: int|
        0 <= i < rows.len() ==> m.dom().contains(#[trigger] rows[i].pkgbase) && i
            <= m[rows[i].pkgbase]
}

/// `m` leads each provided name to the entries that provide it.
pub open spec fn provides_all(rows: Seq<EntryView>, m: Map<Seq<char>, ProviderList>) -> bool {
    &&& forall|n: Seq<char>| #[trigger]
        m.dom().contains(n) <==> providers_of(rows, n).len() > 0
    &&& forall|n: Seq<char>| #[trigger]
        m.dom().contains(n) ==> provider_items(m[n]) == providers_of(rows, n)
}

/// The tables that lead from names to positions in the index. Each is keyed by
/// names of one kind: a pkgname, a provided name and a pkgbase may read the same
/// and still mean different entries.
pub struct Lookup {
    /// From pkgnames. Where two entries have the same pkgname, the later one is
    /// found.
    pub by_name: NameMap<PkgName, u32>,
    /// From provided names to every entry that provides them.
    pub by_provides: NameMap<VirtualName, ProviderList>,
    /// From pkgbases, so that a pkgbase is found even where no pkgname reads like
    /// it.
    pub by_pkgbase: NameMap<PkgBase, u32>,
}

impl Lookup {
    /// The tables are those of `rows`.
    pub open spec fn indexes(self, rows: Seq<EntryView>) -> bool {
        &&& names_last(rows, self.by_name@)
        &&& provides_all(rows, self.by_provides@)
        &&& bases_last(rows, self.by_pkgbase@)
    }

    /// Builds the tables of an index.
    pub fn build(idx: &IndexFile) -> (r: Self)
        requires
            idx.entries.len() <= 0x1_0000_0000,
        ensures
            r.indexes(idx.rows()),
    {
        let ghost rows = idx.rows();
        let mut by_name: NameMap<PkgName, u32> = NameMap::new();
        let mut by_provides: NameMap<VirtualName, ProviderList> = NameMap::new();
        let mut by_pkgbase: NameMap<PkgBase, u32> = NameMap::new();
        let mut i: usize = 0;
        assert(rows.take(0) =~= Seq::<EntryView>::empty());
        while i < idx.entries.len()
            invariant
                rows == idx.rows(),
                idx.entries.len() <= 0x1_0000_0000,
                i <= idx.entries.len(),
                names_last(rows.take(i as int), by_name@),
                provides_all(rows.take(i as int), by_provides@),
                bases_last(rows.take(i as int), by_pkgbase@),
            decreases idx.entries.len() - i,
        {
            let e = &idx.entries[i];
            let at: u32 = i as u32;
            proof {
                lemma_take_succ(rows, i as int);
            }
            assert(rows[i as int] == e@);
            enter_pkgnames(&mut by_name, e, at, Ghost(rows.take(i as int)));
            enter_provides(&mut by_provides, e, at, Ghost(rows.take(i as int)));
            let ghost bases = by_pkgbase@;
            by_pkgbase.insert(e.pkgbase.clone(), at);
            proof {
                let upto = rows.take(i as int);
                let next = rows.take(i as int + 1);
                assert forall|k: int| 0 <= k < next.len() implies by_pkgbase@.dom().contains(
                    #[trigger] next[k].pkgbase,
                ) && k <= by_pkgbase@[next[k].pkgbase] by {
                    if k < i {
                        assert(next[k] == upto[k]);
                    }
                }
                assert forall|n: Seq<char>| #[trigger]
                    by_pkgbase@.dom().contains(n) implies by_pkgbase@[n] < next.len()
                    && next[by_pkgbase@[n] as int].pkgbase == n by {
                    if n != e@.pkgbase {
                        assert(bases.dom().contains(n));
                        assert(next[bases[n] as int] == upto[bases[n] as int]);
                    }
                }
            }
            i = i + 1;
        }
        assert(rows.take(i as int) =~= rows);
        Lookup { by_name, by_provides, by_pkgbase }
    }
}

/// Leads every pkgname of `e` to the position `at`.
fn enter_pkgnames(
    m: &mut NameMap<PkgName, u32>,
    e: &IndexEntry,
    at: u32,
    Ghost(rows): Ghost<Seq<EntryView>>,
)
    requires
        at == rows.len(),
        names_last(rows, old(m)@),
    ensures
        names_last(rows.push(e@), final(m)@),
{
    let ghost before = m@;
    let ghost next = rows.push(e@);
    let mut j: usize = 0;
    while j < e.pkgnames.len()
        invariant
            at == rows.len(),
            names_last(rows, before),
            next == rows.push(e@),
            j <= e.pkgnames.len(),
            forall|n: Seq<char>| #[trigger]
                m@.dom().contains(n) ==> (before.dom().contains(n) && m@[n] == before[n]) || (m@[n]
                    == at && has_pkgname(e@, n)),
            forall|n: Seq<char>| #[trigger]
                before.dom().contains(n) ==> m@.dom().contains(n) && m@[n] >= before[n],
            forall|k: int|
                0 <= k < j ==> m@.dom().contains((#[trigger] e@.pkgnames[k]).name)
                    && m@[e@.pkgnames[k].name] == at,
        decreases e.pkgnames.len() - j,
    {
        assert(e@.pkgnames[j as int].name == e.pkgnames@[j as int].name@);
        m.insert(e.pkgnames[j].name.clone(), at);
        j = j + 1;
    }
    assert forall|n: Seq<char>| #[trigger] m@.dom().contains(n) implies m@[n] < next.len()
        && has_pkgname(next[m@[n] as int], n) by {
        if before.dom().contains(n) && m@[n] == before[n] {
            assert(next[before[n] as int] == rows[before[n] as int]);
        }
    }
    assert forall|n: Seq<char>, i: int|
        0 <= i < next.len() && #[trigger] has_pkgname(next[i], n) implies m@.dom().contains(n) && i
        <= m@[n] by {
        if i < rows.len() {
            assert(next[i] == rows[i]);
            assert(has_pkgname(rows[i], n));
        } else {
            let k = choose|k: int| 0 <= k < e@.pkgnames.len() && (#[trigger] e@.pkgnames[k]).name == n;
            assert(e@.pkgnames[k].name == n);
        }
    }
}

/// Adds the position `at` to the providers of every name that `e` provides.
fn enter_provides(
    m: &mut NameMap<VirtualName, ProviderList>,
    e: &IndexEntry,
    at: u32,
    Ghost(rows): Ghost<Seq<EntryView>>,
)
    requires
        at == rows.len(),
        provides_all(rows, old(m)@),
    ensures
        provides_all(rows.push(e@), final(m)@),
{
    let ghost before = m@;
    let ghost next = rows.push(e@);
    let provs = e.all_provides();
    let ghost texts = all_provides_spec(e@);
    let mut j: usize = 0;
    assert(texts.take(0) =~= Seq::<Seq<char>>::empty());
    while j < provs.len()
        invariant
            at == rows.len(),
            provs@.map_values(|t: &PkgTarget| t@) == texts,
            j <= provs.len(),
            forall|n: Seq<char>| #[trigger]
                m@.dom().contains(n) <==> providers_of(rows, n).len() + claims(
                    texts.take(j as int),
                    n,
                ) > 0,
            forall|n: Seq<char>| #[trigger]
                m@.dom().contains(n) ==> provider_items(m@[n]) == with_claim(
                    providers_of(rows, n),
                    at,
                    claims(texts.take(j as int), n),
                ),
        decreases provs.len() - j,
    {
        proof {
            lemma_take_succ(texts, j as int);
        }
        let ghost now = m@;
        let bare = provs[j].bare();
        let ghost b = bare@;
        assert(texts[j as int] == provs@[j as int]@);
        let mut list = if m.contains_key(bare) {
            m.replace(bare, ProviderList::new())
        } else {
            ProviderList::new()
        };
        let ghost had = provider_items(list);
        let listed = match list.last() {
            Some(last) => last == at,
            None => false,
        };
        if !listed {
            list.push(at);
        }
        proof {
            let c = claims(texts.take(j as int), b);
            lemma_providers(rows, b);
            if !now.dom().contains(b) {
                assert(had =~= with_claim(providers_of(rows, b), at, c));
            }
            assert(provider_items(list) == providers_of(rows, b).push(at));
        }
        m.insert(VirtualName::new(bare), list);
        proof {
            assert forall|n: Seq<char>| #[trigger] m@.dom().contains(n) implies provider_items(m@[n])
                == with_claim(providers_of(rows, n), at, claims(texts.take(j as int + 1), n)) by {
                if n != b {
                    assert(now.dom().contains(n));
                }
            }
            assert forall|n: Seq<char>| #[trigger]
                m@.dom().contains(n) <==> providers_of(rows, n).len() + claims(
                    texts.take(j as int + 1),
                    n,
                ) > 0 by {
                if n != b {
                    assert(m@.dom().contains(n) <==> now.dom().contains(n));
                }
            }
        }
        j = j + 1;
    }
    assert(texts.take(j as int) =~= texts);
    assert(next.drop_last() =~= rows);
    assert(next.last() == e@);
}

/// What the AUR calls a name that pacman has installed.
#[derive(Debug, Clone, Copy)]
pub enum AurClass<'a> {
    /// It is a pkgname of this entry.
    AsPkgname(&'a IndexEntry),
    /// This entry provides it.
    AsProvides(&'a IndexEntry),
    /// It is the pkgbase of this entry.
    AsPkgbase(&'a IndexEntry),
    /// The AUR does not know it.
    NotInAur,
}

/// The entry at a position, if there is one.
pub open spec fn entry_at(entries: Seq<IndexEntry>, hit: Option<u32>) -> Option<IndexEntry> {
    match hit {
        Some(i) if i < entries.len() => Some(entries[i as int]),
        _ => None,
    }
}

/// The pkgname whose own `provides` claims `n` first.
pub open spec fn first_claimant(p: Seq<PkgnameView>, n: Seq<char>) -> Option<int>
    decreases p.len(),
{
    if p.len() == 0 {
        None
    } else {
        match first_claimant(p.drop_last(), n) {
            Some(i) => Some(i),
            None => if claims(p.last().provides, n) > 0 {
                Some(p.len() - 1)
            } else {
                None
            },
        }
    }
}

/// The pkgname of an entry that stands for the provided name `n`: the first that
/// claims it for itself, else the first of all.
pub open spec fn provider_in(e: EntryView, n: Seq<char>) -> Option<int> {
    match first_claimant(e.pkgnames, n) {
        Some(i) => Some(i),
        None => if e.pkgnames.len() > 0 {
            Some(0)
        } else {
            None
        },
    }
}

proof fn lemma_claims(provs: Seq<Seq<char>>, n: Seq<char>, i: int)
    requires
        0 <= i < provs.len(),
        bare_spec(provs[i]) == n,
    ensures
        claims(provs, n) > 0,
    decreases provs.len(),
{
    if i < provs.len() - 1 {
        lemma_claims(provs.drop_last(), n, i);
    }
}

/// Tests whether one of `provs` is `n`, its version constraint stripped.
pub(crate) fn claims_name(provs: &Vec<PkgTarget>, n: &str) -> (r: bool)
    ensures
        r == (claims(pkgtarget_views(provs@), n@) > 0),
{
    let ghost texts = pkgtarget_views(provs@);
    let mut i: usize = 0;
    assert(texts.take(0) =~= Seq::<Seq<char>>::empty());
    while i < provs.len()
        invariant
            texts == pkgtarget_views(provs@),
            i <= provs.len(),
            claims(texts.take(i as int), n@) == 0,
        decreases provs.len() - i,
    {
        proof {
            lemma_take_succ(texts, i as int);
        }
        assert(texts[i as int] == provs@[i as int]@);
        if same(provs[i].bare(), n) {
            proof {
                lemma_claims(texts, n@, i as int);
            }
            return true;
        }
        i = i + 1;
    }
    assert(texts.take(i as int) =~= texts);
    false
}

proof fn lemma_first_claimant_stays(p: Seq<PkgnameView>, n: Seq<char>, k: int, i: int)
    requires
        0 <= k <= p.len(),
        first_claimant(p.take(k), n) == Some(i),
    ensures
        first_claimant(p, n) == Some(i),
    decreases p.len() - k,
{
    if k == p.len() {
        assert(p.take(k) =~= p);
    } else {
        lemma_take_succ(p, k);
        lemma_first_claimant_stays(p, n, k + 1, i);
    }
}

/// Finds the pkgname that stands for the provided name `n`.
pub(crate) fn find_provider(e: &IndexEntry, n: &str) -> (r: Option<usize>)
    ensures
        match r {
            Some(i) => i < e.pkgnames.len() && provider_in(e@, n@) == Some(i as int),
            None => provider_in(e@, n@) == None::<int>,
        },
{
    let ghost all = e@.pkgnames;
    let mut i: usize = 0;
    assert(all.take(0) =~= Seq::<PkgnameView>::empty());
    while i < e.pkgnames.len()
        invariant
            all == e@.pkgnames,
            i <= e.pkgnames.len(),
            first_claimant(all.take(i as int), n@) == None::<int>,
        decreases e.pkgnames.len() - i,
    {
        proof {
            lemma_take_succ(all, i as int);
        }
        assert(all[i as int] == e.pkgnames@[i as int]@);
        if claims_name(&e.pkgnames[i].provides, n) {
            proof {
                lemma_first_claimant_stays(all, n@, i as int + 1, i as int);
            }
            return Some(i);
        }
        i = i + 1;
    }
    assert(all.take(i as int) =~= all);
    if e.pkgnames.len() > 0 {
        Some(0)
    } else {
        None
    }
}

/// The texts of an entry that a search looks at.
pub open spec fn searchable(e: EntryView) -> Seq<Seq<char>> {
    pkgname_texts(e.pkgnames) + opt_text(e.pkgdesc) + all_provides_spec(e)
}

/// A text that may be missing, as a list.
pub open spec fn opt_text(o: Option<Seq<char>>) -> Seq<Seq<char>> {
    match o {
        Some(t) => seq![t],
        None => Seq::empty(),
    }
}

/// The names and the descriptions of the pkgnames.
pub open spec fn pkgname_texts(p: Seq<PkgnameView>) -> Seq<Seq<char>>
    decreases p.len(),
{
    if p.len() == 0 {
        Seq::empty()
    } else {
        pkgname_texts(p.drop_last()).push(p.last().name) + opt_text(p.last().pkgdesc)
    }
}

/// Lists the texts of an entry that a search looks at.
pub fn searchable_texts<'a>(e: &'a IndexEntry) -> (r: Vec<&'a str>)
    ensures
        str_views(r@) == searchable(e@),
{
    let mut r: Vec<&'a str> = Vec::new();
    let mut i: usize = 0;
    assert(e@.pkgnames.take(0) =~= Seq::<PkgnameView>::empty());
    assert(str_views(r@) =~= Seq::<Seq<char>>::empty());
    while i < e.pkgnames.len()
        invariant
            i <= e.pkgnames.len(),
            str_views(r@) == pkgname_texts(e@.pkgnames.take(i as int)),
        decreases e.pkgnames.len() - i,
    {
        proof {
            lemma_take_succ(e@.pkgnames, i as int);
        }
        let ghost p = e@.pkgnames[i as int];
        assert(p == e.pkgnames@[i as int]@);
        let ghost before = str_views(r@);
        r.push(e.pkgnames[i].name.as_str());
        match &e.pkgnames[i].pkgdesc {
            Some(d) => {
                r.push(d.as_str());
            },
            None => {},
        }
        assert(str_views(r@) =~= before.push(p.name) + opt_text(p.pkgdesc));
        i = i + 1;
    }
    assert(e@.pkgnames.take(i as int) =~= e@.pkgnames);
    let ghost names = str_views(r@);
    match &e.pkgdesc {
        Some(d) => {
            r.push(d.as_str());
        },
        None => {},
    }
    assert(str_views(r@) =~= names + opt_text(e@.pkgdesc));
    let ghost before = str_views(r@);
    let provs = e.all_provides();
    let ghost texts = all_provides_spec(e@);
    let mut j: usize = 0;
    assert(before + texts.take(0) =~= before);
    while j < provs.len()
        invariant
            provs@.map_values(|t: &PkgTarget| t@) == texts,
            j <= provs.len(),
            str_views(r@) == before + texts.take(j as int),
        decreases provs.len() - j,
    {
        assert(texts[j as int] == provs@[j as int]@);
        r.push(provs[j].as_str());
        j = j + 1;
        assert(str_views(r@) =~= before + texts.take(j as int));
    }
    assert(texts.take(j as int) =~= texts);
    r
}

/// `re` matches one of the texts of an entry.
pub open spec fn entry_matches_spec(e: EntryView, re: Regex) -> bool {
    exists|i: int| 0 <= i < searchable(e).len() && regex_matches(re, #[trigger] searchable(e)[i])
}

fn entry_matches(e: &IndexEntry, re: &Regex) -> (r: bool)
    ensures
        r == entry_matches_spec(e@, *re),
{
    let texts = searchable_texts(e);
    let mut i: usize = 0;
    while i < texts.len()
        invariant
            str_views(texts@) == searchable(e@),
            i <= texts.len(),
            forall|j: int| 0 <= j < i ==> !regex_matches(*re, #[trigger] searchable(e@)[j]),
        decreases texts.len() - i,
    {
        assert(searchable(e@)[i as int] == texts@[i as int]@);
        if regex_is_match(re, texts[i]) {
            return true;
        }
        i = i + 1;
    }
    false
}

/// Every one of `res` matches some text of the entry.
pub open spec fn all_match(e: EntryView, res: Seq<Regex>) -> bool {
    forall|i: int| 0 <= i < res.len() ==> entry_matches_spec(e, #[trigger] res[i])
}

/// The elements of `s` at which `keep` is set, in order.
pub open spec fn kept<A>(s: Seq<A>, keep: Seq<bool>) -> Seq<A>
    decreases s.len(),
{
    if s.len() == 0 {
        s
    } else {
        let rest = kept(s.drop_last(), keep);
        if keep[s.len() - 1] {
            rest.push(s.last())
        } else {
            rest
        }
    }
}

/// Picks the entries at which `keep` is set.
pub fn pick<'a>(idx: &'a IndexFile, keep: &Vec<bool>) -> (r: Vec<&'a IndexEntry>)
    requires
        keep.len() == idx.entries.len(),
    ensures
        r@.map_values(|e: &IndexEntry| *e) == kept(idx.entries@, keep@),
{
    let mut r: Vec<&'a IndexEntry> = Vec::new();
    let mut i: usize = 0;
    assert(idx.entries@.take(0) =~= Seq::<IndexEntry>::empty());
    assert(r@.map_values(|e: &IndexEntry| *e) =~= Seq::<IndexEntry>::empty());
    while i < idx.entries.len()
        invariant
            keep.len() == idx.entries.len(),
            i <= idx.entries.len(),
            r@.map_values(|e: &IndexEntry| *e) == kept(idx.entries@.take(i as int), keep@),
        decreases idx.entries.len() - i,
    {
        proof {
            lemma_take_succ(idx.entries@, i as int);
        }
        if keep[i] {
            r.push(&idx.entries[i]);
        }
        i = i + 1;
    }
    assert(idx.entries@.take(i as int) =~= idx.entries@);
    r
}

impl Lookup {
    /// The position to which a pkgname leads.
    pub open spec fn name_hit(self, n: Seq<char>) -> Option<u32> {
        if self.by_name@.dom().contains(n) {
            Some(self.by_name@[n])
        } else {
            None
        }
    }

    /// The first position to which a provided name leads.
    pub open spec fn provides_hit(self, n: Seq<char>) -> Option<u32> {
        if self.by_provides@.dom().contains(n) && provider_items(self.by_provides@[n]).len() > 0 {
            Some(provider_items(self.by_provides@[n])[0])
        } else {
            None
        }
    }

    /// The position to which a pkgbase leads.
    pub open spec fn base_hit(self, n: Seq<char>) -> Option<u32> {
        if self.by_pkgbase@.dom().contains(n) {
            Some(self.by_pkgbase@[n])
        } else {
            None
        }
    }

    /// The position to which a name leads: as a pkgname, else as a provided name,
    /// else as a pkgbase.
    pub open spec fn primary(self, n: Seq<char>) -> Option<u32> {
        match self.name_hit(n) {
            Some(i) => Some(i),
            None => match self.provides_hit(n) {
                Some(i) => Some(i),
                None => self.base_hit(n),
            },
        }
    }

    /// The entry to which a provided name leads, and the pkgname that stands for it.
    pub open spec fn provider_hit(self, rows: Seq<EntryView>, n: Seq<char>) -> Option<
        (u32, Seq<char>),
    > {
        match self.provides_hit(n) {
            Some(i) if i < rows.len() => match provider_in(rows[i as int], n) {
                Some(k) => Some((i, rows[i as int].pkgnames[k].name)),
                None => None,
            },
            _ => None,
        }
    }

    /// Every position in the tables is below `len`.
    pub open spec fn within(self, len: nat) -> bool {
        &&& forall|n: Seq<char>| (#[trigger] self.name_hit(n)) matches Some(i) ==> i < len
        &&& forall|n: Seq<char>| (#[trigger] self.provides_hit(n)) matches Some(i) ==> i < len
        &&& forall|n: Seq<char>| (#[trigger] self.base_hit(n)) matches Some(i) ==> i < len
    }

    pub(crate) fn find_name(&self, n: &str) -> (r: Option<u32>)
        ensures
            r == self.name_hit(n@),
    {
        match self.by_name.get(n) {
            Some(i) => Some(*i),
            None => None,
        }
    }

    pub(crate) fn find_provides(&self, n: &str) -> (r: Option<u32>)
        ensures
            r == self.provides_hit(n@),
    {
        match self.by_provides.get(n) {
            Some(list) => list.first(),
            None => None,
        }
    }

    pub(crate) fn find_base(&self, n: &str) -> (r: Option<u32>)
        ensures
            r == self.base_hit(n@),
    {
        match self.by_pkgbase.get(n) {
            Some(i) => Some(*i),
            None => None,
        }
    }

    pub(crate) fn find_primary(&self, n: &str) -> (r: Option<u32>)
        ensures
            r == self.primary(n@),
    {
        match self.find_name(n) {
            Some(i) => Some(i),
            None => match self.find_provides(n) {
                Some(i) => Some(i),
                None => self.find_base(n),
            },
        }
    }

    /// The entry that provides `name`, and which of its pkgnames stands for it: the
    /// first that claims the name for itself, else the first of all, since what the
    /// pkgbase provides every pkgname provides.
    pub fn provider_of<'a>(&self, idx: &'a IndexFile, name: &str) -> (r: Option<
        (usize, &'a PkgName),
    >)
        ensures
            match r {
                Some((i, n)) => i < idx.entries.len() && i <= u32::MAX && self.provider_hit(
                    idx.rows(),
                    bare_spec(name@),
                ) == Some((i as u32, n@)),
                None => self.provider_hit(idx.rows(), bare_spec(name@)) is None,
            },
    {
        let bare = strip_version_constraint(name);
        match self.find_provides(bare) {
            Some(at) => {
                let i: usize = at as usize;
                if i < idx.entries.len() {
                    let e = &idx.entries[i];
                    match find_provider(e, bare) {
                        Some(k) => Some((i, &e.pkgnames[k].name)),
                        None => None,
                    }
                } else {
                    None
                }
            },
            None => None,
        }
    }

    /// What the AUR calls a name that pacman has installed.
    pub fn classify_foreign<'a>(&self, idx: &'a IndexFile, name: &PkgName) -> (r: AurClass<'a>)
        requires
            self.within(idx.entries.len() as nat),
        ensures
            match r {
                AurClass::AsPkgname(e) => entry_at(idx.entries@, self.name_hit(name@)) == Some(*e),
                AurClass::AsProvides(e) => self.name_hit(name@) is None && entry_at(
                    idx.entries@,
                    self.provides_hit(name@),
                ) == Some(*e),
                AurClass::AsPkgbase(e) => self.name_hit(name@) is None && self.provides_hit(
                    name@,
                ) is None && entry_at(idx.entries@, self.base_hit(name@)) == Some(*e),
                AurClass::NotInAur => self.primary(name@) is None,
            },
    {
        let s = name.as_str();
        match self.find_name(s) {
            Some(i) => {
                return AurClass::AsPkgname(&idx.entries[i as usize]);
            },
            None => {},
        }
        match self.find_provides(s) {
            Some(i) => {
                return AurClass::AsProvides(&idx.entries[i as usize]);
            },
            None => {},
        }
        match self.find_base(s) {
            Some(i) => AurClass::AsPkgbase(&idx.entries[i as usize]),
            None => AurClass::NotInAur,
        }
    }

    /// The entry that has the pkgname.
    pub fn lookup_pkgname<'a>(&self, idx: &'a IndexFile, name: &PkgName) -> (r: Option<
        &'a IndexEntry,
    >)
        ensures
            match r {
                Some(e) => entry_at(idx.entries@, self.name_hit(name@)) == Some(*e),
                None => entry_at(idx.entries@, self.name_hit(name@)) is None,
            },
    {
        entry_ref(idx, self.find_name(name.as_str()))
    }

    /// The entry that has the pkgbase.
    pub fn lookup_pkgbase<'a>(&self, idx: &'a IndexFile, pkgbase: &PkgBase) -> (r: Option<
        &'a IndexEntry,
    >)
        ensures
            match r {
                Some(e) => entry_at(idx.entries@, self.base_hit(pkgbase@)) == Some(*e),
                None => entry_at(idx.entries@, self.base_hit(pkgbase@)) is None,
            },
    {
        entry_ref(idx, self.find_base(pkgbase.as_str()))
    }

    /// The entry that a target means: by pkgname, else by what entries provide, else
    /// by pkgbase. A version constraint is ignored.
    pub fn lookup<'a>(&self, idx: &'a IndexFile, target: &str) -> (r: Option<&'a IndexEntry>)
        ensures
            match r {
                Some(e) => entry_at(idx.entries@, self.primary(bare_spec(target@))) == Some(*e),
                None => entry_at(idx.entries@, self.primary(bare_spec(target@))) is None,
            },
    {
        entry_ref(idx, self.find_primary(strip_version_constraint(target)))
    }

    /// The entries in whose names, descriptions and `provides` every one of
    /// `regexes` matches somewhere.
    pub fn search<'a>(&self, idx: &'a IndexFile, regexes: &Vec<Regex>) -> (r: Vec<&'a IndexEntry>)
        ensures
            r@.map_values(|e: &IndexEntry| *e) == kept(
                idx.entries@,
                idx.entries@.map_values(|e: IndexEntry| all_match(e@, regexes@)),
            ),
    {
        let mut keep: Vec<bool> = Vec::new();
        let mut i: usize = 0;
        while i < idx.entries.len()
            invariant
                i <= idx.entries.len(),
                keep.len() == i,
                forall|k: int|
                    0 <= k < i ==> #[trigger] keep@[k] == all_match(idx.entries@[k]@, regexes@),
            decreases idx.entries.len() - i,
        {
            let mut all = true;
            let mut j: usize = 0;
            while j < regexes.len()
                invariant
                    i < idx.entries.len(),
                    j <= regexes.len(),
                    all == (forall|k: int|
                        0 <= k < j ==> entry_matches_spec(idx.entries@[i as int]@, #[trigger] regexes@[k])),
                decreases regexes.len() - j,
            {
                if !entry_matches(&idx.entries[i], &regexes[j]) {
                    all = false;
                }
                j = j + 1;
            }
            keep.push(all);
            i = i + 1;
        }
        assert(keep@ =~= idx.entries@.map_values(|e: IndexEntry| all_match(e@, regexes@)));
        pick(idx, &keep)
    }
}

fn entry_ref<'a>(idx: &'a IndexFile, hit: Option<u32>) -> (r: Option<&'a IndexEntry>)
    ensures
        match r {
            Some(e) => entry_at(idx.entries@, hit) == Some(*e),
            None => entry_at(idx.entries@, hit) is None,
        },
{
    match hit {
        Some(i) => {
            let at: usize = i as usize;
            if at < idx.entries.len() {
                Some(&idx.entries[at])
            } else {
                None
            }
        },
        None => None,
    }
}

/// An entry knows a name: it has it as a pkgname or as its pkgbase, or provides it.
pub open spec fn knows(e: EntryView, n: Seq<char>) -> bool {
    has_pkgname(e, n) || claims(all_provides_spec(e), n) > 0 || e.pkgbase == n
}

proof fn lemma_providers(rows: Seq<EntryView>, n: Seq<char>)
    requires
        rows.len() <= 0x1_0000_0000,
    ensures
        forall|k: int|
            0 <= k < providers_of(rows, n).len() ==> {
                &&& #[trigger] providers_of(rows, n)[k] < rows.len()
                &&& claims(all_provides_spec(rows[providers_of(rows, n)[k] as int]), n) > 0
            },
        forall|i: int|
            0 <= i < rows.len() && claims(all_provides_spec(#[trigger] rows[i]), n) > 0
                ==> providers_of(rows, n).contains(i as u32),
        forall|k: int, l: int|
            0 <= k < l < providers_of(rows, n).len() ==> providers_of(rows, n)[k] < providers_of(
                rows,
                n,
            )[l],
    decreases rows.len(),
{
    if rows.len() > 0 {
        let rest = rows.drop_last();
        let all = providers_of(rows, n);
        let less = providers_of(rest, n);
        lemma_providers(rest, n);
        assert forall|k: int| 0 <= k < all.len() implies {
            &&& #[trigger] all[k] < rows.len()
            &&& claims(all_provides_spec(rows[all[k] as int]), n) > 0
        } by {
            if k < less.len() {
                assert(all[k] == less[k]);
                assert(rest[less[k] as int] == rows[less[k] as int]);
            }
        }
        assert forall|i: int|
            0 <= i < rows.len() && claims(all_provides_spec(#[trigger] rows[i]), n)
                > 0 implies all.contains(i as u32) by {
            if i < rest.len() {
                assert(rest[i] == rows[i]);
                let k = choose|k: int| 0 <= k < less.len() && less[k] == i as u32;
                assert(all[k] == i as u32);
            } else {
                assert(all[all.len() - 1] == i as u32);
            }
        }
    }
}

/// A provided name leads to exactly the entries that provide it, each of them once
/// and in order.
pub proof fn law_each_provider_is_listed_once(by: Lookup, rows: Seq<EntryView>, n: Seq<char>)
    requires
        by.indexes(rows),
        rows.len() <= 0x1_0000_0000,
    ensures
        by.by_provides@.dom().contains(n) <==> exists|i: int|
            0 <= i < rows.len() && claims(all_provides_spec(#[trigger] rows[i]), n) > 0,
        by.by_provides@.dom().contains(n) ==> {
            let items = provider_items(by.by_provides@[n]);
            &&& forall|k: int, l: int| 0 <= k < l < items.len() ==> items[k] < items[l]
            &&& forall|i: int|
                0 <= i < rows.len() ==> (items.contains(i as u32) <==> claims(
                    all_provides_spec(#[trigger] rows[i]),
                    n,
                ) > 0)
            &&& forall|k: int| 0 <= k < items.len() ==> #[trigger] items[k] < rows.len()
        },
{
    lemma_providers(rows, n);
    let items = providers_of(rows, n);
    if items.len() > 0 {
        assert(items[0] < rows.len());
        assert(claims(all_provides_spec(rows[items[0] as int]), n) > 0);
    }
    assert forall|i: int| 0 <= i < rows.len() && items.contains(i as u32) implies claims(
        all_provides_spec(#[trigger] rows[i]),
        n,
    ) > 0 by {
        let k = choose|k: int| 0 <= k < items.len() && items[k] == i as u32;
        assert(items[k] < rows.len());
    }
}

/// The tables of an index never lead past its end.
pub proof fn law_tables_stay_within(by: Lookup, rows: Seq<EntryView>)
    requires
        by.indexes(rows),
        rows.len() <= 0x1_0000_0000,
    ensures
        by.within(rows.len()),
{
    assert forall|n: Seq<char>| #[trigger] by.provides_hit(n) is Some implies by.provides_hit(n)->0
        < rows.len() by {
        lemma_providers(rows, n);
    }
}

/// A name leads somewhere exactly if some entry knows it, and then to an entry that
/// does.
pub proof fn law_found_where_known(by: Lookup, rows: Seq<EntryView>, n: Seq<char>)
    requires
        by.indexes(rows),
        rows.len() <= 0x1_0000_0000,
    ensures
        by.primary(n) is Some <==> exists|i: int| 0 <= i < rows.len() && #[trigger] knows(rows[i], n),
        by.primary(n) matches Some(i) ==> i < rows.len() && knows(rows[i as int], n),
{
    lemma_providers(rows, n);
    if by.primary(n) is Some {
        assert(knows(rows[by.primary(n)->0 as int], n));
    }
    if exists|i: int| 0 <= i < rows.len() && #[trigger] knows(rows[i], n) {
        let i = choose|i: int| 0 <= i < rows.len() && #[trigger] knows(rows[i], n);
        if claims(all_provides_spec(rows[i]), n) > 0 {
            assert(by.by_provides@.dom().contains(n));
        }
    }
}

} // verus!
