//! From the targets that a user named to what has to be installed and built, and
//! in which order.

use vstd::prelude::*;

use crate::error::Error;
use crate::index::lookup::{has_pkgname, Lookup};
use crate::index::schema::{EntryView, IndexFile};
use crate::maps::{NameMap, NameSet};
use crate::names::{bare_name, bare_spec, pkgbase_views, PkgBase, PkgName, PkgTarget};
use crate::order::{sort_dedup, sorted_list_of};
use crate::pacman::alpm_db::PacmanIndex;
use crate::resolver::classify::{classify_spec, source_spec, SourceView};
use crate::resolver::topo::{are_strata, graph, nested_views, reports_cycle, Graph};
use crate::seqs::lemma_take_succ;
use crate::text::{join, join_spec, same, views};

pub mod classify;
pub mod conflict;
pub mod pkgbase_expand;
pub mod topo;
mod walk;

verus! {

broadcast use {vstd::string::group_string_axioms, crate::seqs::lemma_map_push};

/// What has to be installed and built.
pub struct Plan {
    /// The packages of sync repositories that the user named. They are installed
    /// explicitly.
    pub direct_repo: Vec<String>,
    /// The packages of sync repositories that something else needs. They are
    /// installed as dependencies.
    pub transitive_repo: Vec<String>,
    /// The pkgbases to build. Each stratum is built and installed before the next:
    /// it holds what the next needs for building. What is only needed at run time
    /// does not order the builds.
    pub aur_strata: Vec<Vec<PkgBase>>,
    /// From a pkgbase to those that it needs for building, so that the failure of
    /// one can keep others from being tried.
    pub aur_make_edges: NameMap<PkgBase, Vec<PkgBase>>,
    /// The targets as the user typed them.
    pub direct_targets: NameSet<PkgTarget>,
    /// From a split pkgbase to the pkgnames to install, where not all are wanted.
    pub pkgname_selections: NameMap<PkgBase, Vec<PkgName>>,
    /// The pkgbases that the user named, as opposed to those that others need.
    pub direct_aur: NameSet<PkgBase>,
    /// From a pkgbase to the installed package that the user means by it.
    pub counterpart_hints: NameMap<PkgBase, PkgName>,
}

/// A pkgbase with what a [`Plan`] says of it.
pub struct PkgbasePlan<'a> {
    pub pkgbase: &'a PkgBase,
    pub selection: Option<&'a Vec<PkgName>>,
    pub hint: Option<&'a PkgName>,
}

/// The views of the strata of a plan.
pub open spec fn strata_views(v: Seq<Vec<PkgBase>>) -> Seq<Seq<Seq<char>>> {
    v.map_values(|l: Vec<PkgBase>| pkgbase_views(l@))
}

/// The strata one after the other.
pub open spec fn flat(s: Seq<Seq<Seq<char>>>) -> Seq<Seq<char>>
    decreases s.len(),
{
    if s.len() == 0 {
        Seq::empty()
    } else {
        flat(s.drop_last()) + s.last()
    }
}

impl Plan {
    /// A plan that does nothing.
    pub fn default() -> (r: Self)
        ensures
            r.direct_repo.len() == 0,
            r.transitive_repo.len() == 0,
            r.aur_strata.len() == 0,
            r.aur_make_edges@ == Map::<Seq<char>, Vec<PkgBase>>::empty(),
            r.direct_targets@ == Set::<Seq<char>>::empty(),
            r.pkgname_selections@ == Map::<Seq<char>, Vec<PkgName>>::empty(),
            r.direct_aur@ == Set::<Seq<char>>::empty(),
            r.counterpart_hints@ == Map::<Seq<char>, PkgName>::empty(),
    {
        Plan {
            direct_repo: Vec::new(),
            transitive_repo: Vec::new(),
            aur_strata: Vec::new(),
            aur_make_edges: NameMap::new(),
            direct_targets: NameSet::new(),
            pkgname_selections: NameMap::new(),
            direct_aur: NameSet::new(),
            counterpart_hints: NameMap::new(),
        }
    }

    /// All pkgbases to build, in the order of the strata.
    pub fn aur_order(&self) -> (r: Vec<PkgBase>)
        ensures
            pkgbase_views(r@) == flat(strata_views(self.aur_strata@)),
    {
        let ghost all = strata_views(self.aur_strata@);
        let mut r: Vec<PkgBase> = Vec::new();
        let mut i: usize = 0;
        assert(all.take(0) =~= Seq::<Seq<Seq<char>>>::empty());
        assert(pkgbase_views(r@) =~= Seq::<Seq<char>>::empty());
        while i < self.aur_strata.len()
            invariant
                all == strata_views(self.aur_strata@),
                i <= self.aur_strata.len(),
                pkgbase_views(r@) == flat(all.take(i as int)),
            decreases self.aur_strata.len() - i,
        {
            proof {
                lemma_take_succ(all, i as int);
            }
            let stratum = &self.aur_strata[i];
            let ghost own = pkgbase_views(stratum@);
            assert(all[i as int] == own);
            let ghost before = pkgbase_views(r@);
            let mut j: usize = 0;
            assert(before + own.take(0) =~= before);
            while j < stratum.len()
                invariant
                    own == pkgbase_views(stratum@),
                    j <= stratum.len(),
                    pkgbase_views(r@) == before + own.take(j as int),
                decreases stratum.len() - j,
            {
                proof {
                    lemma_take_succ(own, j as int);
                }
                r.push(stratum[j].clone());
                j = j + 1;
                assert(pkgbase_views(r@) =~= before + own.take(j as int));
            }
            assert(own.take(j as int) =~= own);
            i = i + 1;
        }
        assert(all.take(i as int) =~= all);
        r
    }

    /// Everything in the plan was named by the user.
    pub open spec fn all_requested(self) -> bool {
        &&& self.transitive_repo.len() == 0
        &&& forall|l: int, k: int|
            0 <= l < self.aur_strata@.len() && 0 <= k < self.aur_strata@[l]@.len()
                ==> self.direct_aur@.contains((#[trigger] self.aur_strata@[l]@[k])@)
    }

    /// Tests whether everything in the plan was named by the user. Then there is
    /// nothing to confirm.
    pub fn only_requested(&self) -> (r: bool)
        ensures
            r == self.all_requested(),
    {
        if self.transitive_repo.len() > 0 {
            return false;
        }
        let mut i: usize = 0;
        while i < self.aur_strata.len()
            invariant
                i <= self.aur_strata.len(),
                forall|l: int, k: int|
                    0 <= l < i && 0 <= k < self.aur_strata@[l]@.len() ==> self.direct_aur@.contains(
                        (#[trigger] self.aur_strata@[l]@[k])@,
                    ),
            decreases self.aur_strata.len() - i,
        {
            let stratum = &self.aur_strata[i];
            let mut j: usize = 0;
            while j < stratum.len()
                invariant
                    i < self.aur_strata.len(),
                    *stratum == self.aur_strata@[i as int],
                    j <= stratum.len(),
                    forall|k: int|
                        0 <= k < j ==> self.direct_aur@.contains((#[trigger] stratum@[k])@),
                decreases stratum.len() - j,
            {
                if !self.direct_aur.contains(stratum[j].as_str()) {
                    assert(!self.direct_aur@.contains(
                        self.aur_strata@[i as int]@[j as int]@,
                    ));
                    return false;
                }
                j = j + 1;
            }
            i = i + 1;
        }
        true
    }

    /// What the plan says of a pkgbase.
    pub fn pkgbase_plan<'a>(&'a self, pkgbase: &'a PkgBase) -> (r: PkgbasePlan<'a>)
        ensures
            r.pkgbase == pkgbase,
            match r.selection {
                Some(v) => self.pkgname_selections@.dom().contains(pkgbase@) && *v
                    == self.pkgname_selections@[pkgbase@],
                None => !self.pkgname_selections@.dom().contains(pkgbase@),
            },
            match r.hint {
                Some(n) => self.counterpart_hints@.dom().contains(pkgbase@) && *n
                    == self.counterpart_hints@[pkgbase@],
                None => !self.counterpart_hints@.dom().contains(pkgbase@),
            },
    {
        PkgbasePlan {
            pkgbase,
            selection: self.pkgname_selections.get(pkgbase.as_str()),
            hint: self.counterpart_hints.get(pkgbase.as_str()),
        }
    }
}

/// Everything that decides what is needed.
pub struct World {
    pub by: Lookup,
    pub rows: Seq<EntryView>,
    pub pac: PacmanIndex,
    pub targets: Seq<Seq<char>>,
}

/// Something that is needed: a dependency expression, and whether the user named it.
pub struct Item {
    pub target: Seq<char>,
    pub direct: bool,
}

impl World {
    /// The user named it, or typed its name although it came up as a dependency.
    pub open spec fn is_direct(self, x: Item) -> bool {
        x.direct || exists|i: int|
            0 <= i < self.targets.len() && bare_spec(#[trigger] self.targets[i]) == bare_spec(
                x.target,
            )
    }

    /// Where it is to be had. What the user named is built anew although it is
    /// installed, if the AUR has it; what is only needed is left as it is.
    pub open spec fn source(self, x: Item) -> SourceView {
        let bare = bare_spec(x.target);
        let s = source_spec(classify_spec(self.by, self.rows, self.pac, bare));
        if x.direct && s is Installed {
            match self.by.primary(bare) {
                Some(i) => SourceView::Aur(i as int),
                None => s,
            }
        } else {
            s
        }
    }
}

/// The names of dependency expressions, without the empty ones.
pub open spec fn dep_names(s: Seq<Seq<char>>) -> Seq<Seq<char>>
    decreases s.len(),
{
    if s.len() == 0 {
        Seq::empty()
    } else {
        let rest = dep_names(s.drop_last());
        let b = bare_spec(s.last());
        if b.len() > 0 {
            rest.push(b)
        } else {
            rest
        }
    }
}

/// The dependency expressions that name something.
pub open spec fn naming(s: Seq<Seq<char>>) -> Seq<Seq<char>>
    decreases s.len(),
{
    if s.len() == 0 {
        Seq::empty()
    } else {
        let rest = naming(s.drop_last());
        if bare_spec(s.last()).len() > 0 {
            rest.push(s.last())
        } else {
            rest
        }
    }
}

/// What an entry needs for building.
pub open spec fn build_needs(e: EntryView) -> Seq<Seq<char>> {
    dep_names(e.makedepends) + dep_names(e.checkdepends)
}

/// What an entry needs for running or for building.
pub open spec fn all_needs(e: EntryView) -> Seq<Seq<char>> {
    dep_names(e.depends) + build_needs(e)
}

/// From a pkgbase to the entry that stands for it.
pub type Chosen = Map<Seq<char>, int>;

impl World {
    /// What comes up next because `x` is needed.
    pub open spec fn next(self, rep: Chosen, x: Item) -> Seq<Seq<char>> {
        match self.source(x) {
            SourceView::Repo(c) => naming(self.pac.needs(c)),
            SourceView::Aur(i) => if rep.dom().contains(self.rows[i].pkgbase) {
                all_needs(self.rows[rep[self.rows[i].pkgbase]])
            } else {
                Seq::empty()
            },
            _ => Seq::empty(),
        }
    }

    /// `s` holds the targets and, with each item, what that item needs.
    pub open spec fn is_closed(self, rep: Chosen, s: Set<Item>) -> bool {
        &&& forall|i: int|
            0 <= i < self.targets.len() ==> s.contains(
                (Item { target: #[trigger] self.targets[i], direct: true }),
            )
        &&& forall|x: Item, k: int|
            s.contains(x) && 0 <= k < self.next(rep, x).len() ==> s.contains(
                (Item { target: #[trigger] self.next(rep, x)[k], direct: false }),
            )
    }

    /// `x` is needed: it is in the smallest set that holds the targets and, with each
    /// item, what that item needs.
    pub open spec fn is_needed(self, rep: Chosen, x: Item) -> bool {
        forall|s: Set<Item>| #[trigger] self.is_closed(rep, s) ==> s.contains(x)
    }

    /// `x` is needed and comes from the AUR entry at position `i`.
    pub open spec fn needs_entry(self, rep: Chosen, x: Item, i: int) -> bool {
        self.is_needed(rep, x) && self.source(x) == SourceView::Aur(i)
    }

    /// `rep` chooses one of the needed entries for each needed pkgbase. Where no two
    /// entries have the same pkgbase there is nothing to choose.
    pub open spec fn is_choice(self, rep: Chosen) -> bool {
        &&& forall|x: Item, i: int| #[trigger]
            self.needs_entry(rep, x, i) ==> rep.dom().contains(self.rows[i].pkgbase)
        &&& forall|b: Seq<char>| #[trigger]
            rep.dom().contains(b) ==> {
                &&& 0 <= rep[b] < self.rows.len()
                &&& self.rows[rep[b]].pkgbase == b
                &&& exists|x: Item| #[trigger] self.needs_entry(rep, x, rep[b])
            }
    }

    /// The package `n` of a sync repository is needed by an item that the user named,
    /// or by one that they did not, as `direct` says.
    pub open spec fn needs_repo(self, rep: Chosen, n: Seq<char>, direct: bool) -> bool {
        exists|x: Item| #[trigger]
            self.is_needed(rep, x) && self.source(x) == SourceView::Repo(n) && self.is_direct(x)
                == direct
    }

    /// The pkgbase `b` is needed by an item that the user named.
    pub open spec fn names_base(self, rep: Chosen, b: Seq<char>) -> bool {
        exists|x: Item, i: int| #[trigger]
            self.needs_entry(rep, x, i) && self.rows[i].pkgbase == b && self.is_direct(x)
    }

    /// `n` is needed and nobody has it.
    pub open spec fn lacks(self, rep: Chosen, n: Seq<char>) -> bool {
        exists|x: Item| #[trigger]
            self.is_needed(rep, x) && self.source(x) == SourceView::Missing && bare_spec(x.target)
                == n
    }

    /// What is needed and nobody has.
    pub open spec fn missing(self, rep: Chosen) -> Set<Seq<char>> {
        Set::new(|n: Seq<char>| self.lacks(rep, n))
    }

    /// `owner` leads each pkgname of the needed entries to the pkgbase of one that has
    /// it.
    pub open spec fn is_owner(self, rep: Chosen, owner: Map<Seq<char>, Seq<char>>) -> bool {
        &&& forall|x: Item, i: int, n: Seq<char>| #[trigger]
            self.needs_entry(rep, x, i) && #[trigger] has_pkgname(self.rows[i], n)
                ==> owner.dom().contains(n)
        &&& forall|n: Seq<char>| #[trigger]
            owner.dom().contains(n) ==> exists|x: Item, i: int| #[trigger]
                self.needs_entry(rep, x, i) && has_pkgname(self.rows[i], n) && owner[n]
                    == self.rows[i].pkgbase
    }

    /// The targets, as the user named them.
    pub open spec fn start(self) -> Seq<Item> {
        self.targets.map_values(|t: Seq<char>| Item { target: t, direct: true })
    }

    /// The repository packages that came up in `done`.
    pub open spec fn met(self, done: Seq<Item>) -> Set<Seq<char>>
        decreases done.len(),
    {
        if done.len() == 0 {
            Set::empty()
        } else {
            match self.source(done.last()) {
                SourceView::Repo(c) => self.met(done.drop_last()).insert(c),
                _ => self.met(done.drop_last()),
            }
        }
    }

    /// The entries that stand for their pkgbases: of each, the one that came up first
    /// in `done`.
    pub open spec fn chosen(self, done: Seq<Item>) -> Chosen
        decreases done.len(),
    {
        if done.len() == 0 {
            Map::empty()
        } else {
            let rest = self.chosen(done.drop_last());
            match self.source(done.last()) {
                SourceView::Aur(i) => if rest.dom().contains(self.rows[i].pkgbase) {
                    rest
                } else {
                    rest.insert(self.rows[i].pkgbase, i)
                },
                _ => rest,
            }
        }
    }

    /// From each pkgname to the pkgbase that came up with it last in `done`.
    pub open spec fn owned(self, done: Seq<Item>) -> Map<Seq<char>, Seq<char>>
        decreases done.len(),
    {
        if done.len() == 0 {
            Map::empty()
        } else {
            let rest = self.owned(done.drop_last());
            match self.source(done.last()) {
                SourceView::Aur(i) => rest.union_prefer_right(names_of(self.rows[i])),
                _ => rest,
            }
        }
    }

    /// The repository packages in the order in which they came up first in `done`;
    /// those that the user named, or the others, as `direct` says.
    pub open spec fn repos(self, done: Seq<Item>, direct: bool) -> Seq<Seq<char>>
        decreases done.len(),
    {
        if done.len() == 0 {
            Seq::empty()
        } else {
            let rest = self.repos(done.drop_last(), direct);
            match self.source(done.last()) {
                SourceView::Repo(c) => if self.is_direct(done.last()) == direct
                    && !rest.contains(c) {
                    rest.push(c)
                } else {
                    rest
                },
                _ => rest,
            }
        }
    }

    /// What comes up with `x` after `done`: what it needs, the first time that its
    /// package or its pkgbase comes up.
    pub open spec fn brings(self, done: Seq<Item>, x: Item) -> Seq<Item> {
        match self.source(x) {
            SourceView::Repo(c) => if self.met(done).contains(c) {
                Seq::empty()
            } else {
                as_needed(naming(self.pac.needs(c)))
            },
            SourceView::Aur(i) => if self.chosen(done).dom().contains(self.rows[i].pkgbase) {
                Seq::empty()
            } else {
                as_needed(all_needs(self.rows[i]))
            },
            _ => Seq::empty(),
        }
    }

    /// What has come up and is not in `done`, the last of which is looked at next.
    pub open spec fn waiting(self, done: Seq<Item>) -> Seq<Item>
        decreases done.len(),
    {
        if done.len() == 0 {
            self.start()
        } else {
            self.waiting(done.drop_last()).drop_last() + self.brings(done.drop_last(), done.last())
        }
    }

    /// `done` looks at what came up last, time and again.
    pub open spec fn follows(self, done: Seq<Item>) -> bool {
        forall|k: int|
            0 <= k < done.len() ==> {
                &&& self.waiting(#[trigger] done.take(k)).len() > 0
                &&& done[k] == self.waiting(done.take(k)).last()
            }
    }

    /// `done` is the walk over everything that the targets need: it goes on until
    /// nothing is left.
    pub open spec fn is_walk(self, done: Seq<Item>) -> bool {
        self.follows(done) && self.waiting(done).len() == 0
    }

    /// `done` holds exactly what is needed, under its own choice of entries.
    pub open spec fn is_complete(self, done: Seq<Item>) -> bool {
        &&& self.is_choice(self.chosen(done))
        &&& self.is_owner(self.chosen(done), self.owned(done))
        &&& forall|x: Item| #[trigger]
            done.contains(x) <==> self.is_needed(self.chosen(done), x)
    }

    /// The graph in which a cycle is an error: what each pkgbase needs, itself left out.
    pub open spec fn need_graph(self, rep: Chosen) -> Graph {
        Map::new(
            |b: Seq<char>| rep.dom().contains(b),
            |b: Seq<char>| others(all_needs(self.rows[rep[b]]), b),
        )
    }

    /// The graph that orders the builds: the pkgbases that each needs for building.
    pub open spec fn make_graph(self, rep: Chosen, owner: Map<Seq<char>, Seq<char>>) -> Graph {
        Map::new(
            |b: Seq<char>| rep.dom().contains(b),
            |b: Seq<char>| owners(build_needs(self.rows[rep[b]]), owner, b),
        )
    }
}

/// From each pkgname of an entry to its pkgbase.
pub open spec fn names_of(e: EntryView) -> Map<Seq<char>, Seq<char>> {
    Map::new(|n: Seq<char>| has_pkgname(e, n), |n: Seq<char>| e.pkgbase)
}

/// Dependency expressions as items.
pub open spec fn as_needed(s: Seq<Seq<char>>) -> Seq<Item> {
    s.map_values(|t: Seq<char>| Item { target: t, direct: false })
}

/// What is not in `drop`, in the same order.
pub open spec fn unlisted(s: Seq<Seq<char>>, drop: Seq<Seq<char>>) -> Seq<Seq<char>>
    decreases s.len(),
{
    if s.len() == 0 {
        Seq::empty()
    } else if drop.contains(s.last()) {
        unlisted(s.drop_last(), drop)
    } else {
        unlisted(s.drop_last(), drop).push(s.last())
    }
}

/// The dependencies that are not `b` itself.
pub open spec fn others(s: Seq<Seq<char>>, b: Seq<char>) -> Seq<Seq<char>>
    decreases s.len(),
{
    if s.len() == 0 {
        Seq::empty()
    } else {
        let rest = others(s.drop_last(), b);
        if bare_spec(s.last()) == b {
            rest
        } else {
            rest.push(s.last())
        }
    }
}

/// The pkgbases that own the dependencies, `b` itself left out.
pub open spec fn owners(
    s: Seq<Seq<char>>,
    owner: Map<Seq<char>, Seq<char>>,
    b: Seq<char>,
) -> Seq<Seq<char>>
    decreases s.len(),
{
    if s.len() == 0 {
        Seq::empty()
    } else {
        let rest = owners(s.drop_last(), owner, b);
        let n = bare_spec(s.last());
        if owner.dom().contains(n) && owner[n] != b {
            rest.push(owner[n])
        } else {
            rest
        }
    }
}

/// The plan for what is needed.
pub open spec fn plan_is(
    w: World,
    rep: Chosen,
    owner: Map<Seq<char>, Seq<char>>,
    plan: Plan,
) -> bool {
    let direct = views(plan.direct_repo@);
    let transitive = views(plan.transitive_repo@);
    &&& direct.no_duplicates()
    &&& forall|n: Seq<char>| #[trigger] direct.contains(n) <==> w.needs_repo(rep, n, true)
    &&& transitive.no_duplicates()
    &&& forall|n: Seq<char>| #[trigger]
        transitive.contains(n) <==> w.needs_repo(rep, n, false) && !w.needs_repo(rep, n, true)
    &&& forall|b: Seq<char>| #[trigger] plan.direct_aur@.contains(b) <==> w.names_base(rep, b)
    &&& plan.direct_targets@ == w.targets.to_set()
    &&& are_strata(w.make_graph(rep, owner), rep.dom(), strata_views(plan.aur_strata@))
    &&& edges_are(plan.aur_make_edges@, w.make_graph(rep, owner))
    &&& plan.pkgname_selections@.dom() == Set::<Seq<char>>::empty()
    &&& plan.counterpart_hints@.dom() == Set::<Seq<char>>::empty()
}

/// `m` holds the edges of `g`.
pub open spec fn edges_are(m: Map<Seq<char>, Vec<PkgBase>>, g: Graph) -> bool {
    &&& forall|b: Seq<char>| #[trigger] m.dom().contains(b) <==> g.dom().contains(b)
    &&& forall|b: Seq<char>| #[trigger] m.dom().contains(b) ==> pkgbase_views(m[b]@) == g[b]
}

/// The repository packages of a plan, in the order in which the walk met them.
pub open spec fn lists_are(w: World, done: Seq<Item>, plan: Plan) -> bool {
    &&& views(plan.direct_repo@) == w.repos(done, true)
    &&& views(plan.transitive_repo@) == unlisted(w.repos(done, false), w.repos(done, true))
}

/// What resolving comes to after the walk `done`: names that nobody has go before
/// cycles, and without either there is a plan.
pub open spec fn outcome_is(w: World, done: Seq<Item>, r: Result<Plan, Error>) -> bool {
    let rep = w.chosen(done);
    let owner = w.owned(done);
    match r {
        Ok(plan) => {
            &&& w.missing(rep) == Set::<Seq<char>>::empty()
            &&& topo::search(w.need_graph(rep), rep.dom()) is Order
            &&& plan_is(w, rep, owner, plan)
            &&& lists_are(w, done, plan)
        },
        Err(Error::UnknownTargets(m)) => {
            &&& w.missing(rep) != Set::<Seq<char>>::empty()
            &&& exists|names: Seq<Seq<char>>| #[trigger]
                sorted_list_of(names, w.missing(rep)) && m@ == join_spec(names, ", "@)
        },
        Err(e) => {
            &&& w.missing(rep) == Set::<Seq<char>>::empty()
            &&& if topo::search(w.need_graph(rep), rep.dom()) is Cycle {
                reports_cycle(w.need_graph(rep), rep.dom(), e)
            } else {
                reports_cycle(w.make_graph(rep, owner), rep.dom(), e)
            }
        },
    }
}

/// The pkgbases that each pkgbase needs for building.
fn resolve_make_edges(
    make_edges: &NameMap<String, Vec<String>>,
    owner: &NameMap<PkgName, PkgBase>,
) -> (r: NameMap<String, Vec<String>>)
    ensures
        forall|b: Seq<char>| #[trigger]
            r@.dom().contains(b) <==> make_edges@.dom().contains(b),
        forall|b: Seq<char>| #[trigger]
            r@.dom().contains(b) ==> views(r@[b]@) == owners(
                views(make_edges@[b]@),
                owner_view(owner@),
                b,
            ),
{
    let mut r: NameMap<String, Vec<String>> = NameMap::new();
    let n: usize = make_edges.len();
    let ghost order = make_edges.order();
    let mut i: usize = 0;
    while i < n
        invariant
            n == order.len(),
            order == make_edges.order(),
            order.no_duplicates(),
            i <= n,
            forall|b: Seq<char>| #[trigger]
                r@.dom().contains(b) <==> order.take(i as int).contains(b),
            forall|b: Seq<char>| #[trigger]
                r@.dom().contains(b) ==> views(r@[b]@) == owners(
                    views(make_edges@[b]@),
                    owner_view(owner@),
                    b,
                ),
        decreases n - i,
    {
        let base = make_edges.key_at(i);
        let list = make_edges.value_at(i);
        let resolved = owners_of(list, owner, base.as_str());
        let ghost before = r@;
        r.insert(base.clone(), resolved);
        proof {
            lemma_take_succ(order, i as int);
            topo::lemma_push_contains(order.take(i as int), order[i as int]);
            assert forall|b: Seq<char>| #[trigger]
                r@.dom().contains(b) <==> order.take(i as int + 1).contains(b) by {
                assert(before.dom().contains(b) <==> order.take(i as int).contains(b));
            }
            assert forall|b: Seq<char>| #[trigger] r@.dom().contains(b) implies views(r@[b]@)
                == owners(views(make_edges@[b]@), owner_view(owner@), b) by {
                if b != order[i as int] {
                    assert(before.dom().contains(b));
                }
            }
        }
        i = i + 1;
    }
    assert(order.take(i as int) =~= order);
    r
}

/// The view of a table of owners.
pub open spec fn owner_view(m: Map<Seq<char>, PkgBase>) -> Map<Seq<char>, Seq<char>> {
    m.map_values(|b: PkgBase| b@)
}

fn owners_of(deps: &Vec<String>, owner: &NameMap<PkgName, PkgBase>, b: &str) -> (r: Vec<String>)
    ensures
        views(r@) == owners(views(deps@), owner_view(owner@), b@),
{
    let ghost all = views(deps@);
    let mut r: Vec<String> = Vec::new();
    let mut i: usize = 0;
    assert(all.take(0) =~= Seq::<Seq<char>>::empty());
    assert(views(r@) =~= Seq::<Seq<char>>::empty());
    while i < deps.len()
        invariant
            all == views(deps@),
            i <= deps.len(),
            views(r@) == owners(all.take(i as int), owner_view(owner@), b@),
        decreases deps.len() - i,
    {
        proof {
            lemma_take_succ(all, i as int);
        }
        assert(all[i as int] == deps@[i as int]@);
        match owner.get(bare_name(deps[i].as_str())) {
            Some(o) => {
                if !same(o.as_str(), b) {
                    r.push(o.to_string());
                }
            },
            None => {},
        }
        i = i + 1;
    }
    assert(all.take(i as int) =~= all);
    r
}

fn to_bases(v: &Vec<String>) -> (r: Vec<PkgBase>)
    ensures
        pkgbase_views(r@) == views(v@),
{
    let ghost all = views(v@);
    let mut r: Vec<PkgBase> = Vec::new();
    let mut i: usize = 0;
    assert(pkgbase_views(r@) =~= all.take(0));
    while i < v.len()
        invariant
            all == views(v@),
            i <= v.len(),
            pkgbase_views(r@) == all.take(i as int),
        decreases v.len() - i,
    {
        proof {
            lemma_take_succ(all, i as int);
        }
        r.push(PkgBase::new(v[i].as_str()));
        i = i + 1;
    }
    assert(all.take(i as int) =~= all);
    r
}

fn to_strata(v: &Vec<Vec<String>>) -> (r: Vec<Vec<PkgBase>>)
    ensures
        strata_views(r@) == nested_views(v@),
{
    let ghost all = nested_views(v@);
    let mut r: Vec<Vec<PkgBase>> = Vec::new();
    let mut i: usize = 0;
    assert(strata_views(r@) =~= all.take(0));
    while i < v.len()
        invariant
            all == nested_views(v@),
            i <= v.len(),
            strata_views(r@) == all.take(i as int),
        decreases v.len() - i,
    {
        proof {
            lemma_take_succ(all, i as int);
        }
        r.push(to_bases(&v[i]));
        i = i + 1;
    }
    assert(all.take(i as int) =~= all);
    r
}

fn to_edges(m: &NameMap<String, Vec<String>>) -> (r: NameMap<PkgBase, Vec<PkgBase>>)
    ensures
        edges_are(r@, graph(m@)),
{
    let mut r: NameMap<PkgBase, Vec<PkgBase>> = NameMap::new();
    let n: usize = m.len();
    let ghost order = m.order();
    let mut i: usize = 0;
    while i < n
        invariant
            n == order.len(),
            order == m.order(),
            order.no_duplicates(),
            i <= n,
            forall|b: Seq<char>| #[trigger]
                r@.dom().contains(b) <==> order.take(i as int).contains(b),
            forall|b: Seq<char>| #[trigger]
                r@.dom().contains(b) ==> pkgbase_views(r@[b]@) == views(m@[b]@),
        decreases n - i,
    {
        let ghost before = r@;
        r.insert(PkgBase::new(m.key_at(i).as_str()), to_bases(m.value_at(i)));
        proof {
            lemma_take_succ(order, i as int);
            topo::lemma_push_contains(order.take(i as int), order[i as int]);
            assert forall|b: Seq<char>| #[trigger]
                r@.dom().contains(b) <==> order.take(i as int + 1).contains(b) by {
                assert(before.dom().contains(b) <==> order.take(i as int).contains(b));
            }
            assert forall|b: Seq<char>| #[trigger] r@.dom().contains(b) implies pkgbase_views(
                r@[b]@,
            ) == views(m@[b]@) by {
                if b != order[i as int] {
                    assert(before.dom().contains(b));
                }
            }
        }
        i = i + 1;
    }
    assert(order.take(i as int) =~= order);
    r
}

/// Keeps what is not in `drop`, which lists `listed`.
fn without(v: &Vec<String>, drop: &NameSet<String>, Ghost(listed): Ghost<Seq<Seq<char>>>) -> (r:
    Vec<String>)
    requires
        views(v@).no_duplicates(),
        forall|n: Seq<char>| #[trigger] drop@.contains(n) <==> listed.contains(n),
    ensures
        views(r@).no_duplicates(),
        forall|n: Seq<char>| #[trigger]
            views(r@).contains(n) <==> views(v@).contains(n) && !drop@.contains(n),
        views(r@) == unlisted(views(v@), listed),
{
    let ghost all = views(v@);
    let mut r: Vec<String> = Vec::new();
    let mut i: usize = 0;
    assert(views(r@) =~= Seq::<Seq<char>>::empty());
    assert(all.take(0) =~= Seq::<Seq<char>>::empty());
    while i < v.len()
        invariant
            all == views(v@),
            all.no_duplicates(),
            i <= v.len(),
            views(r@).no_duplicates(),
            forall|n: Seq<char>| #[trigger] drop@.contains(n) <==> listed.contains(n),
            forall|n: Seq<char>| #[trigger]
                views(r@).contains(n) <==> all.take(i as int).contains(n) && !drop@.contains(n),
            views(r@) == unlisted(all.take(i as int), listed),
        decreases v.len() - i,
    {
        let ghost x = all[i as int];
        assert(x == v@[i as int]@);
        let ghost before = views(r@);
        proof {
            lemma_take_succ(all, i as int);
            topo::lemma_push_contains(all.take(i as int), x);
            assert(!all.take(i as int).contains(x)) by {
                if all.take(i as int).contains(x) {
                    let k = choose|k: int|
                        0 <= k < all.take(i as int).len() && all.take(i as int)[k] == x;
                    assert(all[k] == all[i as int]);
                }
            }
        }
        if !drop.contains(v[i].as_str()) {
            r.push(v[i].clone());
            proof {
                assert(!before.contains(x));
                assert(views(r@) =~= before.push(x));
                topo::lemma_push_contains(before, x);
            }
        }
        i = i + 1;
    }
    assert(all.take(i as int) =~= all);
    r
}

fn set_of(v: &Vec<String>) -> (r: NameSet<String>)
    ensures
        forall|n: Seq<char>| #[trigger] r@.contains(n) <==> views(v@).contains(n),
{
    let ghost all = views(v@);
    let mut r: NameSet<String> = NameSet::new();
    let mut i: usize = 0;
    while i < v.len()
        invariant
            all == views(v@),
            i <= v.len(),
            forall|n: Seq<char>| #[trigger] r@.contains(n) <==> all.take(i as int).contains(n),
        decreases v.len() - i,
    {
        proof {
            lemma_take_succ(all, i as int);
            topo::lemma_push_contains(all.take(i as int), all[i as int]);
        }
        assert(all[i as int] == v@[i as int]@);
        let _ = r.insert(v[i].clone());
        i = i + 1;
    }
    assert(all.take(i as int) =~= all);
    r
}

/// The names that the user typed, and the same without version constraints.
fn direct_names(targets: &Vec<String>) -> (r: (NameSet<PkgTarget>, NameSet<String>))
    ensures
        r.0@ == views(targets@).to_set(),
        forall|n: Seq<char>| #[trigger]
            r.1@.contains(n) <==> exists|i: int|
                0 <= i < targets.len() && bare_spec(#[trigger] views(targets@)[i]) == n,
{
    let ghost all = views(targets@);
    let mut typed: NameSet<PkgTarget> = NameSet::new();
    let mut bare: NameSet<String> = NameSet::new();
    let mut i: usize = 0;
    while i < targets.len()
        invariant
            all == views(targets@),
            i <= targets.len(),
            forall|n: Seq<char>| #[trigger] typed@.contains(n) <==> all.take(i as int).contains(n),
            forall|n: Seq<char>| #[trigger]
                bare@.contains(n) <==> exists|k: int|
                    0 <= k < i && bare_spec(#[trigger] all[k]) == n,
        decreases targets.len() - i,
    {
        proof {
            lemma_take_succ(all, i as int);
            topo::lemma_push_contains(all.take(i as int), all[i as int]);
        }
        assert(all[i as int] == targets@[i as int]@);
        let _ = typed.insert(PkgTarget::new(targets[i].as_str()));
        let _ = bare.insert(bare_name(targets[i].as_str()).to_owned());
        i = i + 1;
    }
    assert(all.take(i as int) =~= all);
    assert(typed@ =~= all.to_set()) by {
        assert forall|n: Seq<char>| typed@.contains(n) <==> all.to_set().contains(n) by {
            assert(typed@.contains(n) <==> all.contains(n));
        }
    }
    (typed, bare)
}

/// The world in which targets are resolved.
pub open spec fn world(
    idx: IndexFile,
    by: Lookup,
    pac: PacmanIndex,
    targets: Seq<String>,
) -> World {
    World { by, rows: idx.rows(), pac, targets: views(targets) }
}

/// Resolves the targets into a plan.
pub fn resolve(idx: &IndexFile, by: &Lookup, pac: &PacmanIndex, targets: &Vec<String>) -> (r:
    Result<Plan, Error>)
    requires
        by.within(idx.entries.len() as nat),
    ensures
        exists|done: Seq<Item>|
            {
                &&& #[trigger] world(*idx, *by, *pac, targets@).is_walk(done)
                &&& world(*idx, *by, *pac, targets@).is_complete(done)
                &&& outcome_is(world(*idx, *by, *pac, targets@), done, r)
            },
{
    let ghost w = world(*idx, *by, *pac, targets@);
    let (typed, bare) = direct_names(targets);
    let (st, Ghost(done)) = walk::walk(idx, by, pac, targets, &bare, Ghost(w));
    let ghost popped = done.to_set();
    let ghost rep = w.chosen(done);
    let ghost owner = w.owned(done);
    proof {
        lemma_walk_is_choice(w, popped, rep, st);
        lemma_walk_owner(w, popped, rep, st);
        assert(owner_view(st.owner@) == owner);
        assert forall|x: Item| #[trigger] done.contains(x) <==> w.is_needed(rep, x) by {
            assert(popped.contains(x) <==> done.contains(x));
        }
        assert(w.is_complete(done));
    }
    if st.missing.len() > 0 {
        let names = sort_dedup(&st.missing);
        let m = join(&names, ", ");
        proof {
            assert(w.missing(rep) =~= views(st.missing@).to_set()) by {
                assert forall|n: Seq<char>|
                    w.missing(rep).contains(n) <==> views(st.missing@).to_set().contains(n) by {
                    lemma_lacks(w, popped, rep, n);
                    assert(views(st.missing@).contains(n) <==> walk::lack_seen(w, popped, n));
                }
            }
            assert(views(st.missing@)[0] == st.missing@[0]@);
            assert(views(st.missing@).contains(st.missing@[0]@));
            assert(w.missing(rep).contains(st.missing@[0]@));
            assert(sorted_list_of(views(names@), w.missing(rep)));
        }
        return Err(Error::UnknownTargets(m));
    }
    proof {
        assert(w.missing(rep) =~= Set::<Seq<char>>::empty()) by {
            assert forall|n: Seq<char>| !w.missing(rep).contains(n) by {
                lemma_lacks(w, popped, rep, n);
                assert(views(st.missing@).contains(n) <==> walk::lack_seen(w, popped, n));
            }
        }
        assert(graph(st.all_edges@) =~= w.need_graph(rep));
    }
    match topo::sort(&st.all_edges, &st.visited_aur) {
        Ok(_) => {},
        Err(e) => {
            return Err(e);
        },
    }
    let edges = resolve_make_edges(&st.make_edges, &st.owner);
    assert(graph(edges@) =~= w.make_graph(rep, owner));
    let strata = match topo::strata(&edges, &st.visited_aur) {
        Ok(strata) => strata,
        Err(e) => {
            return Err(e);
        },
    };
    let direct = set_of(&st.direct_repo);
    let mut plan = Plan::default();
    plan.transitive_repo =
    without(&st.transitive_repo, &direct, Ghost(views(st.direct_repo@)));
    plan.direct_repo = st.direct_repo;
    plan.aur_strata = to_strata(&strata);
    plan.aur_make_edges = to_edges(&edges);
    plan.direct_targets = typed;
    plan.direct_aur = st.direct_aur;
    proof {
        assert forall|n: Seq<char>, d: bool| #[trigger]
            w.needs_repo(rep, n, d) <==> walk::repo_seen(w, popped, n, d) by {
            lemma_needs_repo(w, popped, rep, n, d);
        }
        assert forall|b: Seq<char>| #[trigger]
            w.names_base(rep, b) <==> walk::base_named(w, popped, b) by {
            lemma_names_base(w, popped, rep, b);
        }
        assert(plan.pkgname_selections@.dom() =~= Set::<Seq<char>>::empty());
        assert(plan.counterpart_hints@.dom() =~= Set::<Seq<char>>::empty());
        assert(plan_is(w, rep, owner, plan));
        assert(lists_are(w, done, plan));
    }
    Ok(plan)
}

proof fn lemma_lacks(w: World, popped: Set<Item>, rep: Chosen, n: Seq<char>)
    requires
        forall|x: Item| #[trigger] popped.contains(x) <==> w.is_needed(rep, x),
    ensures
        w.lacks(rep, n) <==> walk::lack_seen(w, popped, n),
{
    if w.lacks(rep, n) {
        let x = choose|x: Item| #[trigger]
            w.is_needed(rep, x) && w.source(x) == SourceView::Missing && bare_spec(x.target) == n;
        assert(popped.contains(x));
    }
    if walk::lack_seen(w, popped, n) {
        let x = choose|x: Item| #[trigger]
            popped.contains(x) && w.source(x) == SourceView::Missing && bare_spec(x.target) == n;
        assert(w.is_needed(rep, x));
    }
}

proof fn lemma_needs_repo(w: World, popped: Set<Item>, rep: Chosen, n: Seq<char>, d: bool)
    requires
        forall|x: Item| #[trigger] popped.contains(x) <==> w.is_needed(rep, x),
    ensures
        w.needs_repo(rep, n, d) <==> walk::repo_seen(w, popped, n, d),
{
    if w.needs_repo(rep, n, d) {
        let x = choose|x: Item| #[trigger]
            w.is_needed(rep, x) && w.source(x) == SourceView::Repo(n) && w.is_direct(x) == d;
        assert(popped.contains(x));
    }
    if walk::repo_seen(w, popped, n, d) {
        let x = choose|x: Item| #[trigger]
            popped.contains(x) && w.source(x) == SourceView::Repo(n) && w.is_direct(x) == d;
        assert(w.is_needed(rep, x));
    }
}

proof fn lemma_names_base(w: World, popped: Set<Item>, rep: Chosen, b: Seq<char>)
    requires
        forall|x: Item| #[trigger] popped.contains(x) <==> w.is_needed(rep, x),
    ensures
        w.names_base(rep, b) <==> walk::base_named(w, popped, b),
{
    if w.names_base(rep, b) {
        let (x, i) = choose|x: Item, i: int| #[trigger]
            w.needs_entry(rep, x, i) && w.rows[i].pkgbase == b && w.is_direct(x);
        assert(walk::entry_seen(w, popped, x, i));
    }
    if walk::base_named(w, popped, b) {
        let (x, i) = choose|x: Item, i: int| #[trigger]
            walk::entry_seen(w, popped, x, i) && w.rows[i].pkgbase == b && w.is_direct(x);
        assert(w.needs_entry(rep, x, i));
    }
}

/// The entries that a finished walk met first stand for their pkgbases.
proof fn lemma_walk_is_choice(w: World, popped: Set<Item>, rep: Chosen, st: walk::Walk)
    requires
        forall|x: Item| #[trigger] popped.contains(x) <==> w.is_needed(rep, x),
        walk::front(w, popped, popped, rep, st.queue@, st.visited_repo@),
    ensures
        w.is_choice(rep),
{
    assert forall|x: Item, i: int| #[trigger]
        w.needs_entry(rep, x, i) implies rep.dom().contains(w.rows[i].pkgbase) by {
        assert(popped.contains(x));
        assert(walk::is_settled(w, rep, st.visited_repo@, x));
    }
    assert forall|b: Seq<char>| #[trigger] rep.dom().contains(b) implies {
        &&& 0 <= rep[b] < w.rows.len()
        &&& w.rows[rep[b]].pkgbase == b
        &&& exists|x: Item| #[trigger] w.needs_entry(rep, x, rep[b])
    } by {
        let x = choose|x: Item| #[trigger] walk::entry_seen(w, popped, x, rep[b]);
        assert(w.needs_entry(rep, x, rep[b]));
    }
}

/// The owners that a finished walk met last.
proof fn lemma_walk_owner(w: World, popped: Set<Item>, rep: Chosen, st: walk::Walk)
    requires
        forall|x: Item| #[trigger] popped.contains(x) <==> w.is_needed(rep, x),
        walk::tables_ok(w, popped, rep, st),
    ensures
        w.is_owner(rep, owner_view(st.owner@)),
{
    let owner = owner_view(st.owner@);
    assert forall|x: Item, i: int, n: Seq<char>| #[trigger]
        w.needs_entry(rep, x, i) && #[trigger] has_pkgname(
            w.rows[i],
            n,
        ) implies owner.dom().contains(n) by {
        assert(walk::entry_seen(w, popped, x, i));
    }
    assert forall|n: Seq<char>| #[trigger] owner.dom().contains(n) implies exists|
        x: Item,
        i: int,
    | #[trigger]
        w.needs_entry(rep, x, i) && has_pkgname(w.rows[i], n) && owner[n]
            == w.rows[i].pkgbase by {
        assert(st.owner@.dom().contains(n));
        let (x, i) = choose|x: Item, i: int| #[trigger]
            walk::entry_seen(w, popped, x, i) && has_pkgname(w.rows[i], n) && st.owner@[n]@
                == w.rows[i].pkgbase;
        assert(w.needs_entry(rep, x, i));
    }
}

/// There is only one walk, so that what resolving comes to is determined.
pub proof fn law_walk_is_unique(w: World, a: Seq<Item>, b: Seq<Item>)
    requires
        w.is_walk(a),
        w.is_walk(b),
    ensures
        a == b,
{
    if a.len() <= b.len() {
        lemma_same_start(w, a, b, a.len() as int);
    } else {
        lemma_same_start(w, b, a, b.len() as int);
    }
}

/// Two walks begin alike, and neither goes on where the other ends.
proof fn lemma_same_start(w: World, a: Seq<Item>, b: Seq<Item>, k: int)
    requires
        w.is_walk(a),
        w.is_walk(b),
        a.len() <= b.len(),
        0 <= k <= a.len(),
    ensures
        a.take(k) == b.take(k),
        k == a.len() ==> a == b,
    decreases k,
{
    if k == 0 {
        assert(a.take(0) =~= b.take(0));
    } else {
        lemma_same_start(w, a, b, k - 1);
        lemma_take_succ(a, k - 1);
        lemma_take_succ(b, k - 1);
        assert(a[k - 1] == b[k - 1]);
    }
    if k == a.len() {
        assert(a.take(k) =~= a);
        if a.len() < b.len() {
            assert(w.waiting(b.take(k)).len() > 0);
        }
        assert(b.take(b.len() as int) =~= b);
    }
}

/// No package is both named by the user and installed as a dependency.
pub proof fn law_buckets_are_disjoint(
    w: World,
    rep: Chosen,
    owner: Map<Seq<char>, Seq<char>>,
    plan: Plan,
    n: Seq<char>,
)
    requires
        plan_is(w, rep, owner, plan),
    ensures
        !(views(plan.direct_repo@).contains(n) && views(plan.transitive_repo@).contains(n)),
{
}

/// What a pkgbase needs for building is built in an earlier stratum.
pub proof fn law_build_needs_come_first(
    w: World,
    rep: Chosen,
    owner: Map<Seq<char>, Seq<char>>,
    plan: Plan,
    l: int,
    b: Seq<char>,
    k: int,
)
    requires
        w.is_choice(rep),
        w.is_owner(rep, owner),
        plan_is(w, rep, owner, plan),
        0 <= l < plan.aur_strata@.len(),
        strata_views(plan.aur_strata@)[l].contains(b),
        0 <= k < w.make_graph(rep, owner)[b].len(),
    ensures
        exists|m: int|
            0 <= m < l && (#[trigger] strata_views(plan.aur_strata@)[m]).contains(
                w.make_graph(rep, owner)[b][k],
            ),
{
    let g = w.make_graph(rep, owner);
    let strata = strata_views(plan.aur_strata@);
    assert(rep.dom().contains(b));
    let needs = build_needs(w.rows[rep[b]]);
    lemma_owners(needs, owner, b);
    let d = g[b][k];
    assert(g[b].contains(d));
    let n = choose|n: Seq<char>| #[trigger] owner.dom().contains(n) && owner[n] == d;
    let (x, i) = choose|x: Item, i: int| #[trigger]
        w.needs_entry(rep, x, i) && has_pkgname(w.rows[i], n) && owner[n] == w.rows[i].pkgbase;
    assert(rep.dom().contains(d));
    assert(topo::edge(g, rep.dom(), b, d));
}

proof fn lemma_owners(s: Seq<Seq<char>>, owner: Map<Seq<char>, Seq<char>>, b: Seq<char>)
    ensures
        forall|d: Seq<char>| #[trigger]
            owners(s, owner, b).contains(d) ==> d != b && exists|n: Seq<char>| #[trigger]
                owner.dom().contains(n) && owner[n] == d,
    decreases s.len(),
{
    if s.len() > 0 {
        let rest = owners(s.drop_last(), owner, b);
        lemma_owners(s.drop_last(), owner, b);
        let n = bare_spec(s.last());
        if owner.dom().contains(n) && owner[n] != b {
            topo::lemma_push_contains(rest, owner[n]);
        }
    }
}

/// Each needed pkgbase is built once, and nothing else is.
pub proof fn law_every_pkgbase_is_built(
    w: World,
    rep: Chosen,
    owner: Map<Seq<char>, Seq<char>>,
    plan: Plan,
    b: Seq<char>,
)
    requires
        w.is_choice(rep),
        plan_is(w, rep, owner, plan),
    ensures
        (exists|x: Item, i: int| #[trigger]
            w.needs_entry(rep, x, i) && w.rows[i].pkgbase == b) <==> exists|l: int|
            0 <= l < plan.aur_strata@.len() && (#[trigger] strata_views(
                plan.aur_strata@,
            )[l]).contains(b),
{
    let strata = strata_views(plan.aur_strata@);
    if exists|x: Item, i: int| #[trigger] w.needs_entry(rep, x, i) && w.rows[i].pkgbase == b {
        assert(rep.dom().contains(b));
    }
    if rep.dom().contains(b) {
        let x = choose|x: Item| #[trigger] w.needs_entry(rep, x, rep[b]);
        assert(w.needs_entry(rep, x, rep[b]) && w.rows[rep[b]].pkgbase == b);
    }
}

/// Where no two entries have the same pkgbase, what is needed is determined: there is
/// only one choice of entries.
pub proof fn law_choice_is_unique(w: World, a: Chosen, b: Chosen)
    requires
        forall|i: int, j: int|
            0 <= i < j < w.rows.len() ==> (#[trigger] w.rows[i]).pkgbase != (
            #[trigger] w.rows[j]).pkgbase,
        w.by.within(w.rows.len()),
        w.is_choice(a),
        w.is_choice(b),
    ensures
        a == b,
{
    assert forall|x: Item| w.is_needed(a, x) implies #[trigger] w.is_needed(b, x) by {
        lemma_needed_both(w, a, b, x);
    }
    assert forall|x: Item| w.is_needed(b, x) implies #[trigger] w.is_needed(a, x) by {
        lemma_needed_both(w, b, a, x);
    }
    assert forall|n: Seq<char>| #[trigger] a.dom().contains(n) implies b.dom().contains(n) && a[n]
        == b[n] by {
        lemma_choice_covers(w, a, b, n);
    }
    assert forall|n: Seq<char>| #[trigger] b.dom().contains(n) implies a.dom().contains(n) && a[n]
        == b[n] by {
        lemma_choice_covers(w, b, a, n);
    }
    assert(a =~= b);
}

proof fn lemma_choice_covers(w: World, a: Chosen, b: Chosen, n: Seq<char>)
    requires
        forall|i: int, j: int|
            0 <= i < j < w.rows.len() ==> (#[trigger] w.rows[i]).pkgbase != (
            #[trigger] w.rows[j]).pkgbase,
        w.is_choice(a),
        w.is_choice(b),
        forall|x: Item| w.is_needed(a, x) ==> #[trigger] w.is_needed(b, x),
        a.dom().contains(n),
    ensures
        b.dom().contains(n),
        a[n] == b[n],
{
    let x = choose|x: Item| #[trigger] w.needs_entry(a, x, a[n]);
    assert(w.is_needed(b, x));
    assert(w.needs_entry(b, x, a[n]));
    assert(b.dom().contains(n));
    if a[n] < b[n] {
        assert(w.rows[a[n]].pkgbase != w.rows[b[n]].pkgbase);
    } else if b[n] < a[n] {
        assert(w.rows[b[n]].pkgbase != w.rows[a[n]].pkgbase);
    }
}

/// What is needed under one choice is needed under the other.
proof fn lemma_needed_both(w: World, a: Chosen, b: Chosen, x: Item)
    requires
        forall|i: int, j: int|
            0 <= i < j < w.rows.len() ==> (#[trigger] w.rows[i]).pkgbase != (
            #[trigger] w.rows[j]).pkgbase,
        w.by.within(w.rows.len()),
        w.is_choice(a),
        w.is_choice(b),
        w.is_needed(a, x),
    ensures
        w.is_needed(b, x),
{
    let s = Set::new(|y: Item| w.is_needed(b, y));
    assert forall|i: int| 0 <= i < w.targets.len() implies s.contains(
        (Item { target: #[trigger] w.targets[i], direct: true }),
    ) by {
        let y = Item { target: w.targets[i], direct: true };
        assert forall|t: Set<Item>| #[trigger] w.is_closed(b, t) implies t.contains(y) by {}
    }
    assert forall|y: Item, k: int|
        s.contains(y) && 0 <= k < w.next(a, y).len() implies s.contains(
        (Item { target: #[trigger] w.next(a, y)[k], direct: false }),
    ) by {
        match w.source(y) {
            SourceView::Aur(i) => {
                walk::lemma_aur_within(w, y, i);
                assert(w.needs_entry(b, y, i));
                let n = w.rows[i].pkgbase;
                assert(a.dom().contains(n));
                assert(b.dom().contains(n));
                if a[n] < b[n] {
                    assert(w.rows[a[n]].pkgbase != w.rows[b[n]].pkgbase);
                } else if b[n] < a[n] {
                    assert(w.rows[b[n]].pkgbase != w.rows[a[n]].pkgbase);
                }
            },
            _ => {},
        }
        assert(w.next(a, y) == w.next(b, y));
        walk::lemma_next_needed(w, b, y, k);
    }
    assert(w.is_closed(a, s));
}

} // verus!
