//! Before resolving: what the user typed is turned into names that mean one
//! pkgbase, with the pkgnames that they want of a split package.
//!
//! A pkgname may belong to two entries while a pkgbase never does, so a target
//! that reaches an entry through its pkgbase or through what it provides goes on as
//! the pkgbase. Of a split package only the chosen pkgnames are installed, although
//! a build always produces all of them.

use vstd::prelude::*;

use crate::error::Error;
use crate::index::lookup::{claims, claims_name, Lookup};
use crate::index::schema::{EntryView, IndexEntry, IndexFile};
use crate::index::srcinfo::dedup_spec;
use crate::maps::NameMap;
use crate::names::{bare_name, bare_spec, pkgname_views, PkgBase, PkgName};
use crate::pacman::alpm_db::{own_names, PacmanIndex};
use crate::seqs::lemma_take_succ;
use crate::targets::Target;
use crate::text::{same, views};

verus! {

broadcast use {vstd::string::group_string_axioms, crate::seqs::lemma_map_push};

/// What [`expand_pkgbase_targets`] makes of the targets.
pub struct ExpandedTargets {
    /// What to resolve, one for each target.
    pub targets: Vec<String>,
    /// From a split pkgbase to the pkgnames to install, where not all of them are
    /// wanted.
    pub selections: NameMap<PkgBase, Vec<PkgName>>,
    /// The pkgnames that the user named in effect: they are installed explicitly.
    pub direct_pkgnames: Vec<PkgName>,
    /// From a pkgbase to the installed package that the user means.
    pub counterpart_hints: NameMap<PkgBase, PkgName>,
}

/// The pkgnames that depend on nobody knows which sibling: every sibling that the
/// dependencies of the pkgbase name.
pub open spec fn sibling_deps(
    depends: Seq<Seq<char>>,
    own: Seq<Seq<char>>,
    name: Seq<char>,
) -> Seq<Seq<char>>
    decreases depends.len(),
{
    if depends.len() == 0 {
        Seq::empty()
    } else {
        let rest = sibling_deps(depends.drop_last(), own, name);
        let d = bare_spec(depends.last());
        if own.contains(d) && d != name {
            rest.push(d)
        } else {
            rest
        }
    }
}

/// A pkgname with the siblings that it may need, each once.
pub open spec fn chosen_spec(e: EntryView, name: Seq<char>) -> Seq<Seq<char>> {
    dedup_spec(seq![name] + sibling_deps(e.depends, own_names(e.pkgnames), name))
}

/// What becomes of one target.
pub struct DecisionView {
    /// What to resolve in its place.
    pub spec: Seq<char>,
    /// The pkgbase and its pkgnames that are wanted, where not all of them are.
    pub selection: Option<(Seq<char>, Seq<Seq<char>>)>,
    /// The pkgnames that are meant.
    pub direct: Seq<Seq<char>>,
}

/// The target goes on as it is.
pub open spec fn passthrough_spec(spec: Seq<char>) -> DecisionView {
    DecisionView { spec, selection: None, direct: Seq::empty() }
}

/// pacman can satisfy the name, so that the target goes on as it is. If the name is
/// also a pkgname of a split package, its siblings still stay away.
pub open spec fn pacman_wins_spec(
    by: Lookup,
    rows: Seq<EntryView>,
    spec: Seq<char>,
    bare: Seq<char>,
) -> DecisionView {
    DecisionView {
        spec,
        selection: match by.name_hit(bare) {
            Some(i) if rows[i as int].pkgnames.len() > 1 => Some(
                (rows[i as int].pkgbase, chosen_spec(rows[i as int], bare)),
            ),
            _ => None,
        },
        direct: Seq::empty(),
    }
}

/// The name is a pkgname of `e`. If `e` is split, the target becomes the pkgbase
/// and its siblings stay away.
pub open spec fn pkgname_decision(e: EntryView, spec: Seq<char>, bare: Seq<char>) -> DecisionView {
    if e.pkgnames.len() == 1 {
        passthrough_spec(spec)
    } else {
        DecisionView {
            spec: e.pkgbase,
            selection: Some((e.pkgbase, chosen_spec(e, bare))),
            direct: seq![bare],
        }
    }
}

/// `e` provides the name and `name` stands for it. The target becomes the pkgbase.
/// If that one pkgname claims the provided name for itself, its siblings stay away.
pub open spec fn virtual_decision(e: EntryView, name: Seq<char>, bare: Seq<char>) -> DecisionView {
    let scoped = exists|k: int|
        0 <= k < e.pkgnames.len() && (#[trigger] e.pkgnames[k]).name == name && claims(
            e.pkgnames[k].provides,
            bare,
        ) > 0;
    DecisionView {
        spec: e.pkgbase,
        selection: if scoped && e.pkgnames.len() > 1 {
            Some((e.pkgbase, chosen_spec(e, name)))
        } else {
            None
        },
        direct: seq![name],
    }
}

/// The name is the pkgbase of `e`, and the user wants `chosen` of it.
pub open spec fn pkgbase_decision(e: EntryView, chosen: Seq<Seq<char>>) -> DecisionView {
    DecisionView {
        spec: e.pkgbase,
        selection: if chosen.len() < e.pkgnames.len() {
            Some((e.pkgbase, chosen))
        } else {
            None
        },
        direct: chosen,
    }
}

/// What is wrong with a choice of the pkgnames of `e`.
pub open spec fn choice_fault(e: EntryView, chosen: Seq<Seq<char>>) -> Option<Seq<char>> {
    if chosen.len() == 0 {
        Some("no pkgnames selected for pkgbase `"@ + e.pkgbase + "`"@)
    } else {
        match first_stranger(chosen, own_names(e.pkgnames)) {
            Some(c) => Some(
                "selector returned `"@ + c + "` which is not a pkgname of `"@ + e.pkgbase + "`"@,
            ),
            None => None,
        }
    }
}

/// The first of `chosen` that is not in `own`.
pub open spec fn first_stranger(chosen: Seq<Seq<char>>, own: Seq<Seq<char>>) -> Option<Seq<char>>
    decreases chosen.len(),
{
    if chosen.len() == 0 {
        None
    } else {
        match first_stranger(chosen.drop_last(), own) {
            Some(c) => Some(c),
            None => if own.contains(chosen.last()) {
                None
            } else {
                Some(chosen.last())
            },
        }
    }
}

/// The ways that a target can take.
pub enum Route {
    /// pacman can satisfy the name.
    Pacman,
    /// It is a pkgname of the entry at this position.
    Pkgname(int),
    /// It is provided by the entry at this position; this pkgname stands for it.
    Virtual(int, Seq<char>),
    /// It is provided, but by no pkgname.
    Dangling,
    /// It is the pkgbase of the entry at this position.
    Pkgbase(int),
    /// Nobody knows it.
    Unknown,
}

/// The way that a name takes.
pub open spec fn route(
    by: Lookup,
    rows: Seq<EntryView>,
    pac: PacmanIndex,
    bare: Seq<char>,
) -> Route {
    if pac.installed@.dom().contains(bare) || pac.syncs(bare) {
        Route::Pacman
    } else if by.by_name@.dom().contains(bare) {
        Route::Pkgname(by.by_name@[bare] as int)
    } else if by.by_provides@.dom().contains(bare) {
        match by.provider_hit(rows, bare_spec(bare)) {
            Some((i, n)) => Route::Virtual(i as int, n),
            None => Route::Dangling,
        }
    } else if by.by_pkgbase@.dom().contains(bare) {
        Route::Pkgbase(by.by_pkgbase@[bare] as int)
    } else {
        Route::Unknown
    }
}

/// A selector picks, of a pkgbase and its pkgnames, those to install.
pub open spec fn may_answer<F: Fn(&PkgBase, &Vec<PkgName>) -> Result<Vec<PkgName>, Error>>(
    select: F,
    e: EntryView,
    answer: Result<Vec<PkgName>, Error>,
) -> bool {
    exists|b: PkgBase, names: Vec<PkgName>|
        b@ == e.pkgbase && pkgname_views(names@) == own_names(e.pkgnames)
            && #[trigger] call_ensures(select, (&b, &names), answer)
}

/// The selector may answer `chosen`, in which nothing is wrong.
pub open spec fn may_choose<F: Fn(&PkgBase, &Vec<PkgName>) -> Result<Vec<PkgName>, Error>>(
    select: F,
    e: EntryView,
    chosen: Seq<Seq<char>>,
) -> bool {
    choice_fault(e, chosen) is None && exists|c: Vec<PkgName>|
        pkgname_views(c@) == chosen && #[trigger] may_answer(
            select,
            e,
            Ok::<Vec<PkgName>, Error>(c),
        )
}

/// `d` is what becomes of a target that the user typed as `spec`.
pub open spec fn decides<F: Fn(&PkgBase, &Vec<PkgName>) -> Result<Vec<PkgName>, Error>>(
    by: Lookup,
    rows: Seq<EntryView>,
    pac: PacmanIndex,
    select: F,
    spec: Seq<char>,
    d: DecisionView,
) -> bool {
    let bare = bare_spec(spec);
    match route(by, rows, pac, bare) {
        Route::Pacman => d == pacman_wins_spec(by, rows, spec, bare),
        Route::Pkgname(i) => d == pkgname_decision(rows[i], spec, bare),
        Route::Virtual(i, n) => d == virtual_decision(rows[i], n, bare),
        Route::Pkgbase(i) => exists|chosen: Seq<Seq<char>>| #[trigger]
            may_choose(select, rows[i], chosen) && d == pkgbase_decision(rows[i], chosen),
        Route::Unknown => d == passthrough_spec(spec),
        Route::Dangling => false,
    }
}

/// The selector is asked about the target, and its answer does not do: `e` says so.
pub open spec fn refuses<F: Fn(&PkgBase, &Vec<PkgName>) -> Result<Vec<PkgName>, Error>>(
    by: Lookup,
    rows: Seq<EntryView>,
    pac: PacmanIndex,
    select: F,
    spec: Seq<char>,
    e: Error,
) -> bool {
    match route(by, rows, pac, bare_spec(spec)) {
        Route::Pkgbase(i) => {
            ||| may_answer(select, rows[i], Err::<Vec<PkgName>, Error>(e))
            ||| exists|c: Vec<PkgName>| #[trigger]
                may_answer(select, rows[i], Ok::<Vec<PkgName>, Error>(c)) && choice_fault(
                    rows[i],
                    pkgname_views(c@),
                ) == Some(e.text()) && e is Other
        },
        _ => false,
    }
}

/// The list with what is new in `more` added to it.
pub open spec fn merged(old: Seq<Seq<char>>, more: Seq<Seq<char>>) -> Seq<Seq<char>>
    decreases more.len(),
{
    if more.len() == 0 {
        old
    } else {
        let m = merged(old, more.drop_last());
        if m.contains(more.last()) {
            m
        } else {
            m.push(more.last())
        }
    }
}

/// The pkgnames that are wanted of each pkgbase after the decisions `ds`. Several
/// targets may each add to the same pkgbase.
pub open spec fn selections_spec(ds: Seq<DecisionView>) -> Map<Seq<char>, Seq<Seq<char>>>
    decreases ds.len(),
{
    if ds.len() == 0 {
        Map::empty()
    } else {
        let m = selections_spec(ds.drop_last());
        match ds.last().selection {
            Some((b, chosen)) => {
                let had = if m.dom().contains(b) {
                    m[b]
                } else {
                    Seq::empty()
                };
                m.insert(b, merged(had, chosen))
            },
            None => m,
        }
    }
}

/// The pkgnames that the decisions `ds` mean.
pub open spec fn direct_spec(ds: Seq<DecisionView>) -> Seq<Seq<char>>
    decreases ds.len(),
{
    if ds.len() == 0 {
        Seq::empty()
    } else {
        direct_spec(ds.drop_last()) + ds.last().direct
    }
}

/// What a [`Target`] says.
pub struct TargetView {
    pub spec: Seq<char>,
    pub hint: Option<Seq<char>>,
}

impl View for Target {
    type V = TargetView;

    open spec fn view(&self) -> TargetView {
        TargetView {
            spec: self.spec@,
            hint: match self.hint {
                Some(h) => Some(h@),
                None => None,
            },
        }
    }
}

/// The views of the targets.
pub open spec fn target_views(v: Seq<Target>) -> Seq<TargetView> {
    v.map_values(|t: Target| t@)
}

/// The pkgbase that a target means in the AUR, and the installed package that the
/// user means by it: their own hint, else the name, unless the name is only that of
/// the pkgbase.
pub open spec fn hint_spec(by: Lookup, rows: Seq<EntryView>, t: TargetView) -> Option<
    (Seq<char>, Seq<char>),
> {
    let bare = bare_spec(t.spec);
    let dest: Option<(Seq<char>, bool)> = match by.name_hit(bare) {
        Some(i) => Some((rows[i as int].pkgbase, true)),
        None => if by.by_provides@.dom().contains(bare) {
            match by.provider_hit(rows, bare_spec(bare)) {
                Some((i, _)) => Some((rows[i as int].pkgbase, true)),
                None => None,
            }
        } else {
            match by.base_hit(bare) {
                Some(i) => Some((rows[i as int].pkgbase, false)),
                None => None,
            }
        },
    };
    match dest {
        Some((b, named)) => match t.hint {
            Some(h) => Some((b, h)),
            None => if named {
                Some((b, bare))
            } else {
                None
            },
        },
        None => None,
    }
}

/// The hints of the targets `ts`: of several for one pkgbase the first counts.
pub open spec fn hints_spec(by: Lookup, rows: Seq<EntryView>, ts: Seq<TargetView>) -> Map<
    Seq<char>,
    Seq<char>,
>
    decreases ts.len(),
{
    if ts.len() == 0 {
        Map::empty()
    } else {
        let m = hints_spec(by, rows, ts.drop_last());
        match hint_spec(by, rows, ts.last()) {
            Some((b, h)) if !m.dom().contains(b) => m.insert(b, h),
            _ => m,
        }
    }
}

/// `m` holds the lists `v`.
pub open spec fn lists_are(
    m: Map<Seq<char>, Vec<PkgName>>,
    v: Map<Seq<char>, Seq<Seq<char>>>,
) -> bool {
    &&& forall|b: Seq<char>| #[trigger] m.dom().contains(b) <==> v.dom().contains(b)
    &&& forall|b: Seq<char>| #[trigger] m.dom().contains(b) ==> pkgname_views(m[b]@) == v[b]
}

/// `m` holds the names `v`.
pub open spec fn names_are(m: Map<Seq<char>, PkgName>, v: Map<Seq<char>, Seq<char>>) -> bool {
    &&& forall|b: Seq<char>| #[trigger] m.dom().contains(b) <==> v.dom().contains(b)
    &&& forall|b: Seq<char>| #[trigger] m.dom().contains(b) ==> m[b]@ == v[b]
}

/// `out` is what the decisions `ds` on the targets `ts` come to.
pub open spec fn expansion_is(
    out: ExpandedTargets,
    by: Lookup,
    rows: Seq<EntryView>,
    ts: Seq<TargetView>,
    ds: Seq<DecisionView>,
) -> bool {
    &&& views(out.targets@) == ds.map_values(|d: DecisionView| d.spec)
    &&& lists_are(out.selections@, selections_spec(ds))
    &&& pkgname_views(out.direct_pkgnames@) == direct_spec(ds)
    &&& names_are(out.counterpart_hints@, hints_spec(by, rows, ts))
}

/// The decisions on the first targets.
pub open spec fn decided<F: Fn(&PkgBase, &Vec<PkgName>) -> Result<Vec<PkgName>, Error>>(
    by: Lookup,
    rows: Seq<EntryView>,
    pac: PacmanIndex,
    select: F,
    ts: Seq<TargetView>,
    ds: Seq<DecisionView>,
) -> bool {
    &&& ds.len() <= ts.len()
    &&& forall|i: int|
        0 <= i < ds.len() ==> #[trigger] decides(by, rows, pac, select, ts[i].spec, ds[i])
}

/// No target that is reached is provided by an entry without pkgnames alone. A target
/// is reached once those before it are decided, whatever the selector said of them.
pub open spec fn never_dangles<F: Fn(&PkgBase, &Vec<PkgName>) -> Result<Vec<PkgName>, Error>>(
    by: Lookup,
    rows: Seq<EntryView>,
    pac: PacmanIndex,
    select: F,
    ts: Seq<TargetView>,
) -> bool {
    forall|ds: Seq<DecisionView>| #[trigger]
        decided(by, rows, pac, select, ts, ds) && ds.len() < ts.len() ==> !(route(
            by,
            rows,
            pac,
            bare_spec(ts[ds.len() as int].spec),
        ) is Dangling)
}

struct TargetDecision {
    spec: String,
    selection: Option<(PkgBase, Vec<PkgName>)>,
    direct_pkgnames: Vec<PkgName>,
}

impl View for TargetDecision {
    type V = DecisionView;

    closed spec fn view(&self) -> DecisionView {
        DecisionView {
            spec: self.spec@,
            selection: match self.selection {
                Some((b, c)) => Some((b@, pkgname_views(c@))),
                None => None,
            },
            direct: pkgname_views(self.direct_pkgnames@),
        }
    }
}

impl TargetDecision {
    fn passthrough(spec: String) -> (r: Self)
        ensures
            r@ == passthrough_spec(spec@),
    {
        let r = TargetDecision { spec, selection: None, direct_pkgnames: Vec::new() };
        assert(r@.direct =~= Seq::<Seq<char>>::empty());
        r
    }
}

fn holds(v: &Vec<PkgName>, n: &str) -> (r: bool)
    ensures
        r == pkgname_views(v@).contains(n@),
{
    let mut i: usize = 0;
    while i < v.len()
        invariant
            i <= v.len(),
            forall|k: int| 0 <= k < i ==> #[trigger] pkgname_views(v@)[k] != n@,
        decreases v.len() - i,
    {
        assert(pkgname_views(v@)[i as int] == v@[i as int]@);
        if same(v[i].as_str(), n) {
            return true;
        }
        i = i + 1;
    }
    false
}

fn names_of(e: &IndexEntry) -> (r: Vec<PkgName>)
    ensures
        pkgname_views(r@) == own_names(e@.pkgnames),
{
    let ghost own = own_names(e@.pkgnames);
    let mut r: Vec<PkgName> = Vec::new();
    let mut i: usize = 0;
    assert(own.take(0) =~= Seq::<Seq<char>>::empty());
    assert(pkgname_views(r@) =~= Seq::<Seq<char>>::empty());
    while i < e.pkgnames.len()
        invariant
            own == own_names(e@.pkgnames),
            i <= e.pkgnames.len(),
            pkgname_views(r@) == own.take(i as int),
        decreases e.pkgnames.len() - i,
    {
        proof {
            lemma_take_succ(own, i as int);
        }
        assert(own[i as int] == e.pkgnames@[i as int].name@);
        r.push(e.pkgnames[i].name.clone());
        i = i + 1;
    }
    assert(own.take(i as int) =~= own);
    r
}

fn sibling_runtime_deps(e: &IndexEntry, name: &str) -> (r: Vec<PkgName>)
    ensures
        pkgname_views(r@) == sibling_deps(e@.depends, own_names(e@.pkgnames), name@),
{
    let own = names_of(e);
    let ghost all = e@.depends;
    let mut r: Vec<PkgName> = Vec::new();
    let mut i: usize = 0;
    assert(all.take(0) =~= Seq::<Seq<char>>::empty());
    assert(pkgname_views(r@) =~= Seq::<Seq<char>>::empty());
    while i < e.depends.len()
        invariant
            all == e@.depends,
            pkgname_views(own@) == own_names(e@.pkgnames),
            i <= e.depends.len(),
            pkgname_views(r@) == sibling_deps(all.take(i as int), own_names(e@.pkgnames), name@),
        decreases e.depends.len() - i,
    {
        proof {
            lemma_take_succ(all, i as int);
        }
        assert(all[i as int] == e.depends@[i as int]@);
        let d = e.depends[i].bare();
        if holds(&own, d) && !same(d, name) {
            r.push(PkgName::new(d));
        }
        i = i + 1;
    }
    assert(all.take(i as int) =~= all);
    r
}

/// Adds to `list` what is new in `more`.
fn merge_names(list: &mut Vec<PkgName>, more: &Vec<PkgName>)
    ensures
        pkgname_views(final(list)@) == merged(pkgname_views(old(list)@), pkgname_views(more@)),
{
    let ghost had = pkgname_views(list@);
    let ghost all = pkgname_views(more@);
    let mut i: usize = 0;
    assert(all.take(0) =~= Seq::<Seq<char>>::empty());
    while i < more.len()
        invariant
            all == pkgname_views(more@),
            i <= more.len(),
            pkgname_views(list@) == merged(had, all.take(i as int)),
        decreases more.len() - i,
    {
        proof {
            lemma_take_succ(all, i as int);
        }
        assert(all[i as int] == more@[i as int]@);
        if !holds(list, more[i].as_str()) {
            list.push(more[i].clone());
        }
        i = i + 1;
    }
    assert(all.take(i as int) =~= all);
}

/// Adding to a list without repetitions is removing the repetitions of both.
proof fn lemma_merged_is_dedup(a: Seq<Seq<char>>, b: Seq<Seq<char>>)
    ensures
        merged(dedup_spec(a), b) == dedup_spec(a + b),
    decreases b.len(),
{
    if b.len() == 0 {
        assert(a + b =~= a);
    } else {
        lemma_merged_is_dedup(a, b.drop_last());
        assert((a + b).drop_last() =~= a + b.drop_last());
    }
}

fn chosen_with_sibling_deps(e: &IndexEntry, name: &str) -> (r: Vec<PkgName>)
    ensures
        pkgname_views(r@) == chosen_spec(e@, name@),
{
    let mut r: Vec<PkgName> = Vec::new();
    r.push(PkgName::new(name));
    let ghost first = seq![name@];
    assert(pkgname_views(r@) =~= first);
    proof {
        assert(first.drop_last() =~= Seq::<Seq<char>>::empty());
        assert(dedup_spec(Seq::<Seq<char>>::empty()) =~= Seq::<Seq<char>>::empty());
        assert(dedup_spec(first) =~= first);
        lemma_merged_is_dedup(
            first,
            sibling_deps(e@.depends, own_names(e@.pkgnames), name@),
        );
    }
    merge_names(&mut r, &sibling_runtime_deps(e, name));
    r
}

fn decide_pacman_wins(idx: &IndexFile, by: &Lookup, spec: &str, bare: &str) -> (r: TargetDecision)
    requires
        by.within(idx.entries.len() as nat),
    ensures
        r@ == pacman_wins_spec(*by, idx.rows(), spec@, bare@),
{
    let selection = match by.find_name(bare) {
        Some(i) => {
            let e = &idx.entries[i as usize];
            assert(idx.rows()[i as int] == e@);
            if e.pkgnames.len() > 1 {
                Some((e.pkgbase.clone(), chosen_with_sibling_deps(e, bare)))
            } else {
                None
            }
        },
        None => None,
    };
    let r = TargetDecision { spec: spec.to_owned(), selection, direct_pkgnames: Vec::new() };
    assert(r@.direct =~= Seq::<Seq<char>>::empty());
    r
}

fn decide_pkgname(e: &IndexEntry, spec: &str, bare: &str) -> (r: TargetDecision)
    ensures
        r@ == pkgname_decision(e@, spec@, bare@),
{
    if e.pkgnames.len() == 1 {
        return TargetDecision::passthrough(spec.to_owned());
    }
    let chosen = chosen_with_sibling_deps(e, bare);
    let mut direct: Vec<PkgName> = Vec::new();
    direct.push(PkgName::new(bare));
    let r = TargetDecision {
        spec: e.pkgbase.to_string(),
        selection: Some((e.pkgbase.clone(), chosen)),
        direct_pkgnames: direct,
    };
    assert(r@.direct =~= seq![bare@]);
    r
}

fn decide_virtual(e: &IndexEntry, name: &PkgName, bare: &str) -> (r: TargetDecision)
    ensures
        r@ == virtual_decision(e@, name@, bare@),
{
    let mut scoped = false;
    let mut k: usize = 0;
    while k < e.pkgnames.len()
        invariant
            k <= e.pkgnames.len(),
            scoped == exists|w: int|
                0 <= w < k && (#[trigger] e@.pkgnames[w]).name == name@ && claims(
                    e@.pkgnames[w].provides,
                    bare@,
                ) > 0,
        decreases e.pkgnames.len() - k,
    {
        assert(e@.pkgnames[k as int] == e.pkgnames@[k as int]@);
        if e.pkgnames[k].name.same_as(name) && claims_name(&e.pkgnames[k].provides, bare) {
            scoped = true;
        }
        k = k + 1;
    }
    let selection = if scoped && e.pkgnames.len() > 1 {
        Some((e.pkgbase.clone(), chosen_with_sibling_deps(e, name.as_str())))
    } else {
        None
    };
    let mut direct: Vec<PkgName> = Vec::new();
    direct.push(name.clone());
    let r = TargetDecision { spec: e.pkgbase.to_string(), selection, direct_pkgnames: direct };
    assert(r@.direct =~= seq![name@]);
    r
}

fn copy_names(v: &Vec<PkgName>) -> (r: Vec<PkgName>)
    ensures
        pkgname_views(r@) == pkgname_views(v@),
{
    let mut r: Vec<PkgName> = Vec::new();
    let mut i: usize = 0;
    assert(pkgname_views(r@) =~= pkgname_views(v@).take(0));
    while i < v.len()
        invariant
            i <= v.len(),
            pkgname_views(r@) == pkgname_views(v@).take(i as int),
        decreases v.len() - i,
    {
        proof {
            lemma_take_succ(pkgname_views(v@), i as int);
        }
        r.push(v[i].clone());
        i = i + 1;
    }
    assert(pkgname_views(v@).take(i as int) =~= pkgname_views(v@));
    r
}

proof fn lemma_stranger_stays(
    chosen: Seq<Seq<char>>,
    own: Seq<Seq<char>>,
    k: int,
    c: Seq<char>,
)
    requires
        0 <= k <= chosen.len(),
        first_stranger(chosen.take(k), own) == Some(c),
    ensures
        first_stranger(chosen, own) == Some(c),
    decreases chosen.len() - k,
{
    if k == chosen.len() {
        assert(chosen.take(k) =~= chosen);
    } else {
        lemma_take_succ(chosen, k);
        lemma_stranger_stays(chosen, own, k + 1, c);
    }
}

/// Checks the choice of the pkgnames of `e` that a selector made. It must not be
/// empty, and must hold nothing but pkgnames of `e`.
pub fn check_choice(e: &IndexEntry, chosen: &Vec<PkgName>) -> (r: Result<(), Error>)
    ensures
        match r {
            Ok(_) => choice_fault(e@, pkgname_views(chosen@)) is None,
            Err(err) => err is Other && choice_fault(e@, pkgname_views(chosen@)) == Some(
                err.text(),
            ),
        },
{
    let ghost all = pkgname_views(chosen@);
    let ghost own = own_names(e@.pkgnames);
    if chosen.len() == 0 {
        let mut m = String::new();
        m.append("no pkgnames selected for pkgbase `");
        m.append(e.pkgbase.as_str());
        m.append("`");
        assert(m@ =~= "no pkgnames selected for pkgbase `"@ + e@.pkgbase + "`"@);
        return Err(Error::Other(m));
    }
    let names = names_of(e);
    let mut i: usize = 0;
    assert(all.take(0) =~= Seq::<Seq<char>>::empty());
    while i < chosen.len()
        invariant
            all == pkgname_views(chosen@),
            own == own_names(e@.pkgnames),
            pkgname_views(names@) == own,
            chosen.len() > 0,
            i <= chosen.len(),
            first_stranger(all.take(i as int), own) is None,
        decreases chosen.len() - i,
    {
        proof {
            lemma_take_succ(all, i as int);
        }
        let c = chosen[i].as_str();
        assert(all[i as int] == c@);
        if !holds(&names, c) {
            proof {
                lemma_stranger_stays(all, own, i as int + 1, c@);
            }
            let mut m = String::new();
            m.append("selector returned `");
            m.append(c);
            m.append("` which is not a pkgname of `");
            m.append(e.pkgbase.as_str());
            m.append("`");
            assert(m@ =~= "selector returned `"@ + c@ + "` which is not a pkgname of `"@
                + e@.pkgbase + "`"@);
            return Err(Error::Other(m));
        }
        i = i + 1;
    }
    assert(all.take(i as int) =~= all);
    Ok(())
}

fn decide_pkgbase<F: Fn(&PkgBase, &Vec<PkgName>) -> Result<Vec<PkgName>, Error>>(
    e: &IndexEntry,
    select: &F,
) -> (r: Result<TargetDecision, Error>)
    requires
        forall|b: PkgBase, n: Vec<PkgName>| #[trigger] call_requires(*select, (&b, &n)),
    ensures
        match r {
            Ok(d) => exists|chosen: Seq<Seq<char>>| #[trigger]
                may_choose(*select, e@, chosen) && d@ == pkgbase_decision(e@, chosen),
            Err(err) => {
                ||| may_answer(*select, e@, Err::<Vec<PkgName>, Error>(err))
                ||| exists|c: Vec<PkgName>| #[trigger]
                    may_answer(*select, e@, Ok::<Vec<PkgName>, Error>(c)) && choice_fault(
                        e@,
                        pkgname_views(c@),
                    ) == Some(err.text()) && err is Other
            },
        },
{
    let names = names_of(e);
    let answer = select(&e.pkgbase, &names);
    assert(call_ensures(*select, (&e.pkgbase, &names), answer));
    assert(may_answer(*select, e@, answer));
    let chosen = match answer {
        Ok(c) => c,
        Err(err) => {
            return Err(err);
        },
    };
    match check_choice(e, &chosen) {
        Ok(_) => {},
        Err(err) => {
            return Err(err);
        },
    }
    assert(may_choose(*select, e@, pkgname_views(chosen@)));
    let selection = if chosen.len() < e.pkgnames.len() {
        Some((e.pkgbase.clone(), copy_names(&chosen)))
    } else {
        None
    };
    let r = TargetDecision { spec: e.pkgbase.to_string(), selection, direct_pkgnames: chosen };
    assert(r@ == pkgbase_decision(e@, pkgname_views(chosen@)));
    Ok(r)
}

/// Records the hint of a target, unless the pkgbase has one already.
fn record_target_hint(
    by: &Lookup,
    idx: &IndexFile,
    t: &Target,
    bare: &str,
    hints: &mut NameMap<PkgBase, PkgName>,
    Ghost(ts): Ghost<Seq<TargetView>>,
)
    requires
        by.within(idx.entries.len() as nat),
        bare@ == bare_spec(t.spec@),
        names_are(old(hints)@, hints_spec(*by, idx.rows(), ts)),
    ensures
        names_are(final(hints)@, hints_spec(*by, idx.rows(), ts.push(t@))),
{
    let ghost rows = idx.rows();
    assert(ts.push(t@).drop_last() =~= ts);
    let dest: Option<(usize, bool)> = match by.find_name(bare) {
        Some(i) => Some((i as usize, true)),
        None => if by.by_provides.contains_key(bare) {
            match by.provider_of(idx, bare) {
                Some((i, _)) => Some((i, true)),
                None => None,
            }
        } else {
            match by.find_base(bare) {
                Some(i) => Some((i as usize, false)),
                None => None,
            }
        },
    };
    match dest {
        Some((i, named)) => {
            let pkgbase = &idx.entries[i].pkgbase;
            assert(rows[i as int].pkgbase == pkgbase@);
            let hint = match &t.hint {
                Some(h) => Some(h.clone()),
                None => if named {
                    Some(PkgName::new(bare))
                } else {
                    None
                },
            };
            match hint {
                Some(h) => {
                    assert(hint_spec(*by, rows, t@) == Some((pkgbase@, h@)));
                    if !hints.contains_key(pkgbase.as_str()) {
                        hints.insert(pkgbase.clone(), h);
                    }
                },
                None => {},
            }
        },
        None => {},
    }
}

/// Adds what a target wants of a pkgbase to what earlier targets want of it.
fn extend_selection(
    selections: &mut NameMap<PkgBase, Vec<PkgName>>,
    pkgbase: &PkgBase,
    additions: &Vec<PkgName>,
)
    ensures
        final(selections)@.dom() == old(selections)@.dom().insert(pkgbase@),
        forall|b: Seq<char>|
            b != pkgbase@ && #[trigger] old(selections)@.dom().contains(b)
                ==> final(selections)@[b] == old(selections)@[b],
        pkgname_views(final(selections)@[pkgbase@]@) == merged(
            if old(selections)@.dom().contains(pkgbase@) {
                pkgname_views(old(selections)@[pkgbase@]@)
            } else {
                Seq::empty()
            },
            pkgname_views(additions@),
        ),
{
    let ghost before = selections@;
    let mut list: Vec<PkgName> = if selections.contains_key(pkgbase.as_str()) {
        selections.replace(pkgbase.as_str(), Vec::new())
    } else {
        Vec::new()
    };
    assert(!before.dom().contains(pkgbase@) ==> pkgname_views(list@) =~= Seq::<Seq<char>>::empty());
    merge_names(&mut list, additions);
    selections.insert(pkgbase.clone(), list);
    assert(selections@.dom() =~= before.dom().insert(pkgbase@));
}

fn append_names(list: &mut Vec<PkgName>, more: &Vec<PkgName>)
    ensures
        pkgname_views(final(list)@) == pkgname_views(old(list)@) + pkgname_views(more@),
{
    let ghost had = pkgname_views(list@);
    let ghost all = pkgname_views(more@);
    let mut i: usize = 0;
    assert(had + all.take(0) =~= had);
    while i < more.len()
        invariant
            all == pkgname_views(more@),
            i <= more.len(),
            pkgname_views(list@) == had + all.take(i as int),
        decreases more.len() - i,
    {
        proof {
            lemma_take_succ(all, i as int);
        }
        list.push(more[i].clone());
        i = i + 1;
        assert(pkgname_views(list@) =~= had + all.take(i as int));
    }
    assert(all.take(i as int) =~= all);
}

/// Tests whether a target can be expanded, wherever it stands in the list. One that is provided, but only by an
/// entry without pkgnames, cannot: no package stands for it.
pub fn is_expandable(idx: &IndexFile, by: &Lookup, pac: &PacmanIndex, t: &Target) -> (r: bool)
    ensures
        r == !(route(*by, idx.rows(), *pac, bare_spec(t.spec@)) is Dangling),
{
    let bare = bare_name(t.spec.as_str());
    if pac.is_installed(bare) || pac.in_sync(bare) || by.by_name.contains_key(bare)
        || !by.by_provides.contains_key(bare) {
        true
    } else {
        by.provider_of(idx, bare).is_some()
    }
}

/// Turns the targets into names that mean one pkgbase each.
///
/// `select` is asked for every target that is nothing but a pkgbase; it picks the
/// pkgnames to install. Without the tables of the AUR every target goes on as it is.
pub fn expand_pkgbase_targets<
    F: Fn(&PkgBase, &Vec<PkgName>) -> Result<Vec<PkgName>, Error>,
>(
    idx: &IndexFile,
    by: Option<&Lookup>,
    pac: &PacmanIndex,
    targets: &Vec<Target>,
    select: F,
) -> (r: Result<ExpandedTargets, Error>)
    requires
        by matches Some(b) ==> b.within(idx.entries.len() as nat) && never_dangles(
            *b,
            idx.rows(),
            *pac,
            select,
            target_views(targets@),
        ),
        forall|b: PkgBase, n: Vec<PkgName>| #[trigger] call_requires(select, (&b, &n)),
    ensures
        match (by, r) {
            (None, Ok(out)) => {
                &&& views(out.targets@) == targets@.map_values(|t: Target| t.spec@)
                &&& out.selections@.dom() == Set::<Seq<char>>::empty()
                &&& out.direct_pkgnames.len() == 0
                &&& out.counterpart_hints@.dom() == Set::<Seq<char>>::empty()
            },
            (None, Err(_)) => false,
            (Some(b), Ok(out)) => exists|ds: Seq<DecisionView>|
                {
                    &&& ds.len() == targets.len()
                    &&& #[trigger] decided(
                        *b,
                        idx.rows(),
                        *pac,
                        select,
                        target_views(targets@),
                        ds,
                    )
                    &&& expansion_is(out, *b, idx.rows(), target_views(targets@), ds)
                },
            (Some(b), Err(e)) => exists|ds: Seq<DecisionView>|
                {
                    &&& ds.len() < targets.len()
                    &&& #[trigger] decided(
                        *b,
                        idx.rows(),
                        *pac,
                        select,
                        target_views(targets@),
                        ds,
                    )
                    &&& refuses(
                        *b,
                        idx.rows(),
                        *pac,
                        select,
                        targets@[ds.len() as int].spec@,
                        e,
                    )
                },
        },
{
    let mut out = ExpandedTargets {
        targets: Vec::new(),
        selections: NameMap::new(),
        direct_pkgnames: Vec::new(),
        counterpart_hints: NameMap::new(),
    };
    let tables = match by {
        Some(b) => b,
        None => {
            let mut i: usize = 0;
            let ghost all = targets@.map_values(|t: Target| t.spec@);
            assert(views(out.targets@) =~= all.take(0));
            while i < targets.len()
                invariant
                    all == targets@.map_values(|t: Target| t.spec@),
                    i <= targets.len(),
                    views(out.targets@) == all.take(i as int),
                    out.selections@ == Map::<Seq<char>, Vec<PkgName>>::empty(),
                    out.direct_pkgnames.len() == 0,
                    out.counterpart_hints@ == Map::<Seq<char>, PkgName>::empty(),
                decreases targets.len() - i,
            {
                proof {
                    lemma_take_succ(all, i as int);
                }
                out.targets.push(targets[i].spec.clone());
                i = i + 1;
            }
            assert(all.take(i as int) =~= all);
            assert(out.selections@.dom() =~= Set::<Seq<char>>::empty());
            assert(out.counterpart_hints@.dom() =~= Set::<Seq<char>>::empty());
            return Ok(out);
        },
    };
    let ghost rows = idx.rows();
    let ghost ts = target_views(targets@);
    let ghost mut ds: Seq<DecisionView> = Seq::empty();
    let mut i: usize = 0;
    proof {
        assert(ts.take(0) =~= Seq::<TargetView>::empty());
        assert(ds.map_values(|d: DecisionView| d.spec) =~= Seq::<Seq<char>>::empty());
        assert(views(out.targets@) =~= Seq::<Seq<char>>::empty());
        assert(pkgname_views(out.direct_pkgnames@) =~= Seq::<Seq<char>>::empty());
    }
    while i < targets.len()
        invariant
            by == Some(tables),
            rows == idx.rows(),
            ts == target_views(targets@),
            tables.within(idx.entries.len() as nat),
            never_dangles(*tables, rows, *pac, select, ts),
            forall|b: PkgBase, n: Vec<PkgName>| #[trigger] call_requires(select, (&b, &n)),
            i <= targets.len(),
            ds.len() == i,
            decided(*tables, rows, *pac, select, ts, ds),
            expansion_is(out, *tables, rows, ts.take(i as int), ds),
        decreases targets.len() - i,
    {
        let t = &targets[i];
        let bare = bare_name(t.spec.as_str());
        proof {
            lemma_take_succ(ts, i as int);
        }
        assert(ts[i as int] == t@);
        assert(!(route(*tables, rows, *pac, bare_spec(t.spec@)) is Dangling));
        record_target_hint(tables, idx, t, bare, &mut out.counterpart_hints, Ghost(ts.take(i as int)));
        let decision = if pac.is_installed(bare) || pac.in_sync(bare) {
            decide_pacman_wins(idx, tables, t.spec.as_str(), bare)
        } else {
            match tables.find_name(bare) {
                Some(at) => {
                    let e = &idx.entries[at as usize];
                    assert(rows[at as int] == e@);
                    decide_pkgname(e, t.spec.as_str(), bare)
                },
                None => if tables.by_provides.contains_key(bare) {
                    let found = tables.provider_of(idx, bare);
                    assert(found is Some);
                    let (at, name) = found.unwrap();
                    let e = &idx.entries[at];
                    assert(rows[at as int] == e@);
                    decide_virtual(e, name, bare)
                } else {
                    match tables.find_base(bare) {
                        Some(at) => {
                            let e = &idx.entries[at as usize];
                            assert(rows[at as int] == e@);
                            match decide_pkgbase(e, &select) {
                                Ok(d) => d,
                                Err(err) => {
                                    assert(refuses(
                                        *tables,
                                        idx.rows(),
                                        *pac,
                                        select,
                                        targets@[ds.len() as int].spec@,
                                        err,
                                    ));
                                    assert(by matches Some(b) && *b == *tables);
                                    return Err(err);
                                },
                            }
                        },
                        None => TargetDecision::passthrough(t.spec.clone()),
                    }
                },
            }
        };
        let ghost d = decision@;
        assert(decides(*tables, rows, *pac, select, t.spec@, d));
        let ghost before = out;
        let TargetDecision { spec, selection, direct_pkgnames } = decision;
        out.targets.push(spec);
        match &selection {
            Some((pkgbase, chosen)) => {
                extend_selection(&mut out.selections, pkgbase, chosen);
            },
            None => {},
        }
        append_names(&mut out.direct_pkgnames, &direct_pkgnames);
        proof {
            let next = ds.push(d);
            assert(next.drop_last() =~= ds);
            assert(next.last() == d);
            assert forall|k: int| 0 <= k < next.len() implies #[trigger] decides(
                *tables,
                rows,
                *pac,
                select,
                ts[k].spec,
                next[k],
            ) by {
                if k < ds.len() {
                    assert(next[k] == ds[k]);
                    assert(decides(*tables, rows, *pac, select, ts[k].spec, ds[k]));
                }
            }
            assert(lists_are(out.selections@, selections_spec(next)));
            ds = next;
        }
        i = i + 1;
    }
    assert(ts.take(i as int) =~= ts);
    Ok(out)
}

/// Only a target that is nothing but a pkgbase can fail: without one, the expansion
/// succeeds whatever the selector does.
pub proof fn law_only_pkgbases_ask<
    F: Fn(&PkgBase, &Vec<PkgName>) -> Result<Vec<PkgName>, Error>,
>(by: Lookup, rows: Seq<EntryView>, pac: PacmanIndex, select: F, spec: Seq<char>, e: Error)
    requires
        refuses(by, rows, pac, select, spec, e),
    ensures
        !pac.installed@.dom().contains(bare_spec(spec)),
        !pac.syncs(bare_spec(spec)),
        by.name_hit(bare_spec(spec)) is None,
        by.base_hit(bare_spec(spec)) is Some,
{
}

/// A selection is never lost: later decisions only add to it.
pub proof fn law_selections_grow(ds: Seq<DecisionView>, d: DecisionView, b: Seq<char>, n: Seq<char>)
    requires
        selections_spec(ds).dom().contains(b),
        selections_spec(ds)[b].contains(n),
    ensures
        selections_spec(ds.push(d)).dom().contains(b),
        selections_spec(ds.push(d))[b].contains(n),
{
    assert(ds.push(d).drop_last() =~= ds);
    match d.selection {
        Some((x, chosen)) => {
            if x == b {
                lemma_merged_keeps(selections_spec(ds)[b], chosen, n);
            }
        },
        None => {},
    }
}

proof fn lemma_merged_keeps(had: Seq<Seq<char>>, more: Seq<Seq<char>>, n: Seq<char>)
    requires
        had.contains(n),
    ensures
        merged(had, more).contains(n),
    decreases more.len(),
{
    if more.len() > 0 {
        lemma_merged_keeps(had, more.drop_last(), n);
        let m = merged(had, more.drop_last());
        let i = choose|i: int| 0 <= i < m.len() && m[i] == n;
        assert(m.push(more.last())[i] == n);
    }
}

/// The first hint for a pkgbase stays.
pub proof fn law_first_hint_stays(
    by: Lookup,
    rows: Seq<EntryView>,
    ts: Seq<TargetView>,
    t: TargetView,
    b: Seq<char>,
)
    requires
        hints_spec(by, rows, ts).dom().contains(b),
    ensures
        hints_spec(by, rows, ts.push(t)).dom().contains(b),
        hints_spec(by, rows, ts.push(t))[b] == hints_spec(by, rows, ts)[b],
{
    assert(ts.push(t).drop_last() =~= ts);
}

} // verus!
