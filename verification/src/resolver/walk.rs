//! The walk over everything that the targets need.

use vstd::prelude::*;

use crate::index::lookup::{has_pkgname, Lookup};
use crate::index::schema::{IndexEntry, IndexFile};
use crate::maps::{NameMap, NameSet};
use crate::names::{bare_spec, pkgtarget_views, PkgBase, PkgName, PkgTarget};
use crate::pacman::alpm_db::PacmanIndex;
use crate::resolver::classify::{classify, Source, SourceView};
use crate::resolver::{
    all_needs, as_needed, build_needs, dep_names, names_of, naming, others, owner_view, Chosen,
    Item, World,
};
use crate::seqs::lemma_take_succ;
use crate::text::{same, views};

verus! {

broadcast use {vstd::string::group_string_axioms, crate::seqs::lemma_map_push};

/// How a target came up: the user named it, or something else needs it.
#[derive(Debug, Clone, Copy, PartialEq, Eq, Structural)]
pub(crate) enum Origin {
    Direct,
    Dep,
}

/// What a walk has found so far.
pub(crate) struct Walk {
    /// What has come up and not been looked at.
    pub queue: Vec<(PkgTarget, Origin)>,
    /// The pkgbases whose needs have come up.
    pub visited_aur: NameSet<String>,
    /// The repository packages whose needs have come up.
    pub visited_repo: NameSet<String>,
    /// What nobody has.
    pub missing: Vec<String>,
    /// What each pkgbase needs, itself left out.
    pub all_edges: NameMap<String, Vec<String>>,
    /// What each pkgbase needs for building.
    pub make_edges: NameMap<String, Vec<String>>,
    /// From a pkgname to the pkgbase that was seen with it last.
    pub owner: NameMap<PkgName, PkgBase>,
    /// The repository packages that the user named.
    pub direct_repo: Vec<String>,
    /// The repository packages that something else needs.
    pub transitive_repo: Vec<String>,
    /// The pkgbases that the user named.
    pub direct_aur: NameSet<PkgBase>,
}

/// What an element of the queue says.
pub(crate) open spec fn item_of(p: (PkgTarget, Origin)) -> Item {
    Item { target: p.0@, direct: p.1 == Origin::Direct }
}

/// What a queue says.
pub(crate) open spec fn items(q: Seq<(PkgTarget, Origin)>) -> Seq<Item> {
    q.map_values(|p: (PkgTarget, Origin)| item_of(p))
}

/// `x` is in the queue.
pub(crate) open spec fn queued(q: Seq<(PkgTarget, Origin)>, x: Item) -> bool {
    exists|k: int| 0 <= k < q.len() && #[trigger] item_of(q[k]) == x
}

/// `x` has come up.
pub(crate) open spec fn live(popped: Set<Item>, q: Seq<(PkgTarget, Origin)>, x: Item) -> bool {
    popped.contains(x) || queued(q, x)
}

/// One of `popped` is the repository package `n`; the user named it, or did not, as
/// `direct` says.
pub(crate) open spec fn repo_seen(
    w: World,
    popped: Set<Item>,
    n: Seq<char>,
    direct: bool,
) -> bool {
    exists|x: Item| #[trigger]
        popped.contains(x) && w.source(x) == SourceView::Repo(n) && w.is_direct(x) == direct
}

/// One of `popped` is the entry at position `i`.
pub(crate) open spec fn entry_seen(w: World, popped: Set<Item>, x: Item, i: int) -> bool {
    popped.contains(x) && w.source(x) == SourceView::Aur(i)
}

/// One of `popped` is the pkgbase `b`, and the user named it.
pub(crate) open spec fn base_named(w: World, popped: Set<Item>, b: Seq<char>) -> bool {
    exists|x: Item, i: int| #[trigger]
        entry_seen(w, popped, x, i) && w.rows[i].pkgbase == b && w.is_direct(x)
}

/// One of `popped` is `n`, which nobody has.
pub(crate) open spec fn lack_seen(w: World, popped: Set<Item>, n: Seq<char>) -> bool {
    exists|x: Item| #[trigger]
        popped.contains(x) && w.source(x) == SourceView::Missing && bare_spec(x.target) == n
}

/// Everything in `seen` or in the queue is needed, and what is needed because of
/// `settled` has come up.
pub(crate) open spec fn front(
    w: World,
    seen: Set<Item>,
    settled: Set<Item>,
    rep: Chosen,
    q: Seq<(PkgTarget, Origin)>,
    repos: Set<Seq<char>>,
) -> bool {
    &&& forall|i: int|
        0 <= i < w.targets.len() ==> live(
            seen,
            q,
            (Item { target: #[trigger] w.targets[i], direct: true }),
        )
    &&& forall|x: Item| #[trigger] seen.contains(x) ==> w.is_needed(rep, x)
    &&& forall|k: int| 0 <= k < q.len() ==> w.is_needed(rep, #[trigger] item_of(q[k]))
    &&& forall|c: Seq<char>, k: int|
        repos.contains(c) && 0 <= k < naming(w.pac.needs(c)).len() ==> live(
            seen,
            q,
            (Item { target: #[trigger] naming(w.pac.needs(c))[k], direct: false }),
        )
    &&& forall|b: Seq<char>, k: int|
        rep.dom().contains(b) && 0 <= k < all_needs(w.rows[rep[b]]).len() ==> live(
            seen,
            q,
            (Item { target: #[trigger] all_needs(w.rows[rep[b]])[k], direct: false }),
        )
    &&& forall|x: Item| #[trigger] settled.contains(x) ==> is_settled(w, rep, repos, x)
    &&& forall|b: Seq<char>| #[trigger]
        rep.dom().contains(b) ==> {
            &&& 0 <= rep[b] < w.rows.len()
            &&& w.rows[rep[b]].pkgbase == b
            &&& exists|x: Item| #[trigger] entry_seen(w, seen, x, rep[b])
        }
}

/// What is needed because of `x` has come up with its package or its pkgbase.
pub(crate) open spec fn is_settled(
    w: World,
    rep: Chosen,
    repos: Set<Seq<char>>,
    x: Item,
) -> bool {
    match w.source(x) {
        SourceView::Repo(c) => repos.contains(c) || w.pac.needs(c).len() == 0,
        SourceView::Aur(i) => rep.dom().contains(w.rows[i].pkgbase),
        _ => true,
    }
}

/// Looking at the last element of the queue.
pub(crate) proof fn lemma_pop(
    w: World,
    popped: Set<Item>,
    rep: Chosen,
    q: Seq<(PkgTarget, Origin)>,
    repos: Set<Seq<char>>,
)
    requires
        front(w, popped, popped, rep, q, repos),
        q.len() > 0,
    ensures
        front(w, popped.insert(item_of(q.last())), popped, rep, q.drop_last(), repos),
{
    let x = item_of(q.last());
    let seen = popped.insert(x);
    let rest = q.drop_last();
    assert forall|y: Item| live(popped, q, y) implies #[trigger] live(seen, rest, y) by {
        if queued(q, y) {
            let k = choose|k: int| 0 <= k < q.len() && #[trigger] item_of(q[k]) == y;
            if k < rest.len() {
                assert(item_of(rest[k]) == y);
            } else {
                assert(y == x);
            }
        }
    }
    assert(item_of(q[q.len() - 1]) == x);
    assert forall|k: int| 0 <= k < rest.len() implies w.is_needed(
        rep,
        #[trigger] item_of(rest[k]),
    ) by {
        assert(item_of(q[k]) == item_of(rest[k]));
    }
    assert forall|b: Seq<char>| #[trigger] rep.dom().contains(b) implies {
        &&& 0 <= rep[b] < w.rows.len()
        &&& w.rows[rep[b]].pkgbase == b
        &&& exists|x: Item| #[trigger] entry_seen(w, seen, x, rep[b])
    } by {
        let y = choose|y: Item| #[trigger] entry_seen(w, popped, y, rep[b]);
        assert(entry_seen(w, seen, y, rep[b]));
    }
}

/// More in the queue takes nothing away.
pub(crate) proof fn lemma_live_grows(
    seen: Set<Item>,
    q: Seq<(PkgTarget, Origin)>,
    more: Seq<(PkgTarget, Origin)>,
)
    requires
        q.len() <= more.len(),
        forall|k: int| 0 <= k < q.len() ==> #[trigger] more[k] == q[k],
    ensures
        forall|y: Item| live(seen, q, y) ==> #[trigger] live(seen, more, y),
{
    assert forall|y: Item| live(seen, q, y) implies #[trigger] live(seen, more, y) by {
        if queued(q, y) {
            let k = choose|k: int| 0 <= k < q.len() && #[trigger] item_of(q[k]) == y;
            assert(item_of(more[k]) == y);
        }
    }
}

/// The tables of a walk say what `popped` and `rep` say.
pub(crate) open spec fn tables_ok(w: World, popped: Set<Item>, rep: Chosen, st: Walk) -> bool {
    &&& st.visited_aur@ == rep.dom()
    &&& forall|c: Seq<char>| #[trigger]
        st.visited_repo@.contains(c) ==> w.pac.sync_depends@.dom().contains(c)
    &&& views(st.direct_repo@).no_duplicates()
    &&& forall|n: Seq<char>| #[trigger]
        views(st.direct_repo@).contains(n) <==> repo_seen(w, popped, n, true)
    &&& views(st.transitive_repo@).no_duplicates()
    &&& forall|n: Seq<char>| #[trigger]
        views(st.transitive_repo@).contains(n) <==> repo_seen(w, popped, n, false)
    &&& forall|b: Seq<char>| #[trigger] st.direct_aur@.contains(b) <==> base_named(w, popped, b)
    &&& forall|n: Seq<char>| #[trigger]
        views(st.missing@).contains(n) <==> lack_seen(w, popped, n)
    &&& forall|b: Seq<char>| #[trigger] st.all_edges@.dom().contains(b) <==> rep.dom().contains(b)
    &&& forall|b: Seq<char>| #[trigger]
        st.all_edges@.dom().contains(b) ==> views(st.all_edges@[b]@) == others(
            all_needs(w.rows[rep[b]]),
            b,
        )
    &&& forall|b: Seq<char>| #[trigger] st.make_edges@.dom().contains(b) <==> rep.dom().contains(b)
    &&& forall|b: Seq<char>| #[trigger]
        st.make_edges@.dom().contains(b) ==> views(st.make_edges@[b]@) == build_needs(
            w.rows[rep[b]],
        )
    &&& forall|x: Item, i: int, n: Seq<char>| #[trigger]
        entry_seen(w, popped, x, i) && #[trigger] has_pkgname(w.rows[i], n)
            ==> st.owner@.dom().contains(n)
    &&& forall|n: Seq<char>| #[trigger]
        st.owner@.dom().contains(n) ==> exists|x: Item, i: int| #[trigger]
            entry_seen(w, popped, x, i) && has_pkgname(w.rows[i], n) && st.owner@[n]@
                == w.rows[i].pkgbase
}

/// A walk stands where the items of `done` have been looked at, in this order.
pub(crate) open spec fn stands(
    w: World,
    done: Seq<Item>,
    popped: Set<Item>,
    rep: Chosen,
    st: Walk,
) -> bool {
    &&& w.follows(done)
    &&& popped == done.to_set()
    &&& items(st.queue@) == w.waiting(done)
    &&& records(w, done, rep, st)
}

/// The lists and tables of a walk after the items of `done`.
pub(crate) open spec fn records(w: World, done: Seq<Item>, rep: Chosen, st: Walk) -> bool {
    &&& rep == w.chosen(done)
    &&& owner_view(st.owner@) == w.owned(done)
    &&& views(st.direct_repo@) == w.repos(done, true)
    &&& views(st.transitive_repo@) == w.repos(done, false)
    &&& forall|c: Seq<char>| #[trigger]
        st.visited_repo@.contains(c) <==> w.met(done).contains(c)
            && w.pac.sync_depends@.dom().contains(c)
}

/// Looking at one more item.
proof fn lemma_follows(w: World, done: Seq<Item>, x: Item)
    requires
        w.follows(done),
        w.waiting(done).len() > 0,
        x == w.waiting(done).last(),
    ensures
        w.follows(done.push(x)),
        w.waiting(done.push(x)) == w.waiting(done).drop_last() + w.brings(done, x),
        done.push(x).to_set() == done.to_set().insert(x),
        done.push(x).drop_last() == done,
        done.push(x).last() == x,
{
    let more = done.push(x);
    assert(more.drop_last() =~= done);
    assert forall|k: int| 0 <= k < more.len() implies {
        &&& w.waiting(#[trigger] more.take(k)).len() > 0
        &&& more[k] == w.waiting(more.take(k)).last()
    } by {
        if k < done.len() {
            assert(more.take(k) =~= done.take(k));
        } else {
            assert(more.take(k) =~= done);
        }
    }
    assert(more.to_set() =~= done.to_set().insert(x)) by {
        crate::resolver::topo::lemma_push_contains(done, x);
        assert forall|y: Item|
            more.to_set().contains(y) <==> done.to_set().insert(x).contains(y) by {
            assert(more.contains(y) <==> done.contains(y) || y == x);
        }
    }
}

/// With more entries chosen, no less is needed.
pub(crate) proof fn lemma_needed_grows(w: World, rep: Chosen, b: Seq<char>, i: int, x: Item)
    requires
        !rep.dom().contains(b),
        w.is_needed(rep, x),
    ensures
        w.is_needed(rep.insert(b, i), x),
{
    let more = rep.insert(b, i);
    assert forall|s: Set<Item>| #[trigger] w.is_closed(more, s) implies s.contains(x) by {
        assert forall|y: Item, k: int|
            s.contains(y) && 0 <= k < w.next(rep, y).len() implies s.contains(
            (Item { target: #[trigger] w.next(rep, y)[k], direct: false }),
        ) by {
            assert(w.next(more, y)[k] == w.next(rep, y)[k]);
        }
        assert(w.is_closed(rep, s));
    }
}

/// What a needed item needs is needed.
pub(crate) proof fn lemma_next_needed(w: World, rep: Chosen, x: Item, k: int)
    requires
        w.is_needed(rep, x),
        0 <= k < w.next(rep, x).len(),
    ensures
        w.is_needed(rep, (Item { target: w.next(rep, x)[k], direct: false })),
{
    let y = Item { target: w.next(rep, x)[k], direct: false };
    assert forall|s: Set<Item>| #[trigger] w.is_closed(rep, s) implies s.contains(y) by {
        assert(s.contains(x));
    }
}

/// A walk that has nothing more to look at has seen exactly what is needed.
pub(crate) proof fn lemma_walk_complete(
    w: World,
    popped: Set<Item>,
    rep: Chosen,
    q: Seq<(PkgTarget, Origin)>,
    repos: Set<Seq<char>>,
)
    requires
        front(w, popped, popped, rep, q, repos),
        q.len() == 0,
    ensures
        forall|x: Item| #[trigger] popped.contains(x) <==> w.is_needed(rep, x),
{
    assert forall|x: Item, k: int|
        popped.contains(x) && 0 <= k < w.next(rep, x).len() implies popped.contains(
        (Item { target: #[trigger] w.next(rep, x)[k], direct: false }),
    ) by {
        match w.source(x) {
            SourceView::Repo(c) => {
                assert(naming(w.pac.needs(c))[k] == w.next(rep, x)[k]);
                if !repos.contains(c) {
                    assert(w.pac.needs(c) =~= Seq::empty());
                    assert(naming(w.pac.needs(c)).len() == 0);
                }
            },
            SourceView::Aur(i) => {
                let b = w.rows[i].pkgbase;
                assert(all_needs(w.rows[rep[b]])[k] == w.next(rep, x)[k]);
            },
            _ => {},
        }
    }
    assert(w.is_closed(rep, popped));
}

/// Names the dependencies of a list, the constraints stripped.
fn widen(list: &mut Vec<PkgTarget>, deps: &Vec<PkgTarget>)
    ensures
        pkgtarget_views(final(list)@) == pkgtarget_views(old(list)@) + dep_names(
            pkgtarget_views(deps@),
        ),
{
    let ghost had = pkgtarget_views(list@);
    let ghost all = pkgtarget_views(deps@);
    let mut i: usize = 0;
    assert(all.take(0) =~= Seq::<Seq<char>>::empty());
    assert(had + Seq::<Seq<char>>::empty() =~= had);
    while i < deps.len()
        invariant
            all == pkgtarget_views(deps@),
            i <= deps.len(),
            pkgtarget_views(list@) == had + dep_names(all.take(i as int)),
        decreases deps.len() - i,
    {
        proof {
            lemma_take_succ(all, i as int);
        }
        assert(all[i as int] == deps@[i as int]@);
        let bare = deps[i].bare();
        let ghost before = pkgtarget_views(list@);
        if !bare.is_empty() {
            list.push(PkgTarget::new(bare));
            assert(pkgtarget_views(list@) =~= before.push(bare@));
        }
        i = i + 1;
        assert(pkgtarget_views(list@) =~= had + dep_names(all.take(i as int)));
    }
    assert(all.take(i as int) =~= all);
}

/// What an entry needs: for running or building, and for building alone.
fn entry_dep_exprs(e: &IndexEntry) -> (r: (Vec<PkgTarget>, Vec<PkgTarget>))
    ensures
        pkgtarget_views(r.0@) == all_needs(e@),
        pkgtarget_views(r.1@) == build_needs(e@),
{
    let mut build_time: Vec<PkgTarget> = Vec::new();
    assert(pkgtarget_views(build_time@) =~= Seq::<Seq<char>>::empty());
    widen(&mut build_time, &e.makedepends);
    widen(&mut build_time, &e.checkdepends);
    assert(pkgtarget_views(build_time@) =~= build_needs(e@));
    let mut all: Vec<PkgTarget> = Vec::new();
    assert(pkgtarget_views(all@) =~= Seq::<Seq<char>>::empty());
    widen(&mut all, &e.depends);
    widen(&mut all, &e.makedepends);
    widen(&mut all, &e.checkdepends);
    assert(pkgtarget_views(all@) =~= all_needs(e@));
    (all, build_time)
}

/// The texts of the dependencies that are not `b` itself.
fn other_texts(deps: &Vec<PkgTarget>, b: &PkgBase) -> (r: Vec<String>)
    ensures
        views(r@) == others(pkgtarget_views(deps@), b@),
{
    let ghost all = pkgtarget_views(deps@);
    let mut r: Vec<String> = Vec::new();
    let mut i: usize = 0;
    assert(all.take(0) =~= Seq::<Seq<char>>::empty());
    assert(views(r@) =~= Seq::<Seq<char>>::empty());
    while i < deps.len()
        invariant
            all == pkgtarget_views(deps@),
            i <= deps.len(),
            views(r@) == others(all.take(i as int), b@),
        decreases deps.len() - i,
    {
        proof {
            lemma_take_succ(all, i as int);
        }
        assert(all[i as int] == deps@[i as int]@);
        if !deps[i].refers_to(b) {
            r.push(deps[i].to_string());
        }
        i = i + 1;
    }
    assert(all.take(i as int) =~= all);
    r
}

/// The texts of dependencies.
fn texts(deps: &Vec<PkgTarget>) -> (r: Vec<String>)
    ensures
        views(r@) == pkgtarget_views(deps@),
{
    let ghost all = pkgtarget_views(deps@);
    let mut r: Vec<String> = Vec::new();
    let mut i: usize = 0;
    assert(views(r@) =~= all.take(0));
    while i < deps.len()
        invariant
            all == pkgtarget_views(deps@),
            i <= deps.len(),
            views(r@) == all.take(i as int),
        decreases deps.len() - i,
    {
        proof {
            lemma_take_succ(all, i as int);
        }
        r.push(deps[i].to_string());
        i = i + 1;
    }
    assert(all.take(i as int) =~= all);
    r
}

/// Adds dependencies to the queue.
fn enqueue(queue: &mut Vec<(PkgTarget, Origin)>, deps: &Vec<PkgTarget>)
    ensures
        final(queue)@.len() == old(queue)@.len() + deps.len(),
        forall|k: int| 0 <= k < old(queue)@.len() ==> #[trigger] final(queue)@[k] == old(queue)@[k],
        forall|k: int|
            0 <= k < deps.len() ==> item_of(#[trigger] final(queue)@[old(queue)@.len() + k]) == (
            Item { target: pkgtarget_views(deps@)[k], direct: false }),
        items(final(queue)@) == items(old(queue)@) + as_needed(pkgtarget_views(deps@)),
{
    let ghost before = queue@;
    let mut i: usize = 0;
    while i < deps.len()
        invariant
            i <= deps.len(),
            queue@.len() == before.len() + i,
            forall|k: int| 0 <= k < before.len() ==> #[trigger] queue@[k] == before[k],
            forall|k: int|
                0 <= k < i ==> item_of(#[trigger] queue@[before.len() + k]) == (Item {
                    target: pkgtarget_views(deps@)[k],
                    direct: false,
                }),
        decreases deps.len() - i,
    {
        queue.push((deps[i].clone(), Origin::Dep));
        i = i + 1;
    }
    assert(items(queue@) =~= items(before) + as_needed(pkgtarget_views(deps@))) by {
        assert forall|k: int| 0 <= k < queue@.len() implies #[trigger] items(queue@)[k] == (items(
            before,
        ) + as_needed(pkgtarget_views(deps@)))[k] by {
            if k >= before.len() {
                let j = k - before.len();
                assert(item_of(queue@[before.len() + j]) == (Item {
                    target: pkgtarget_views(deps@)[j],
                    direct: false,
                }));
            }
        }
    }
}

/// What a repository package needs, without what names nothing.
fn repo_deps(pac: &PacmanIndex, concrete: &PkgName) -> (r: Vec<PkgTarget>)
    ensures
        pkgtarget_views(r@) == naming(pac.needs(concrete@)),
{
    let mut r: Vec<PkgTarget> = Vec::new();
    assert(pkgtarget_views(r@) =~= Seq::<Seq<char>>::empty());
    match pac.sync_depends(concrete) {
        Some(deps) => {
            let ghost all = pkgtarget_views(deps@);
            let mut i: usize = 0;
            assert(all.take(0) =~= Seq::<Seq<char>>::empty());
            while i < deps.len()
                invariant
                    all == pkgtarget_views(deps@),
                    i <= deps.len(),
                    pkgtarget_views(r@) == naming(all.take(i as int)),
                decreases deps.len() - i,
            {
                proof {
                    lemma_take_succ(all, i as int);
                }
                assert(all[i as int] == deps@[i as int]@);
                if !deps[i].bare().is_empty() {
                    r.push(deps[i].clone());
                }
                i = i + 1;
            }
            assert(all.take(i as int) =~= all);
        },
        None => {
            assert(pac.needs(concrete@) =~= Seq::<Seq<char>>::empty());
        },
    }
    r
}

/// Where a target is to be had.
fn resolve_target_source(
    idx: &IndexFile,
    by: &Lookup,
    pac: &PacmanIndex,
    bare: &str,
    origin: Origin,
) -> (r: Source)
    ensures
        forall|w: World, x: Item|
            w.by == *by && w.rows == idx.rows() && w.pac == *pac && bare_spec(x.target) == bare@
                && x.direct == (origin == Origin::Direct) ==> r@ == #[trigger] w.source(x),
{
    let source = classify(idx, by, pac, bare);
    if origin == Origin::Dep {
        return source;
    }
    match source {
        Source::Installed(n) => match by.find_primary(bare) {
            Some(i) => Source::Aur(crate::index::EntryIdx::new(i as usize)),
            None => Source::Installed(n),
        },
        other => other,
    }
}

/// The number of pkgbases and repository packages whose needs have come up.
pub(crate) open spec fn visits(st: Walk) -> nat {
    st.visited_aur.order().len() + st.visited_repo.order().len()
}

/// The parts of a walk that looking at a repository package leaves alone.
spec fn same_aur(a: Walk, b: Walk) -> bool {
    &&& a.visited_aur == b.visited_aur
    &&& a.missing == b.missing
    &&& a.all_edges == b.all_edges
    &&& a.make_edges == b.make_edges
    &&& a.owner == b.owner
    &&& a.direct_aur == b.direct_aur
}

/// Adds `n` to a list unless it is there.
fn note(list: &mut Vec<String>, n: &str)
    requires
        views(old(list)@).no_duplicates(),
    ensures
        views(final(list)@).no_duplicates(),
        forall|x: Seq<char>| #[trigger]
            views(final(list)@).contains(x) <==> views(old(list)@).contains(x) || x == n@,
        views(final(list)@) == (if views(old(list)@).contains(n@) {
            views(old(list)@)
        } else {
            views(old(list)@).push(n@)
        }),
{
    let ghost before = views(list@);
    let mut i: usize = 0;
    while i < list.len()
        invariant
            before == views(list@),
            before.no_duplicates(),
            i <= list.len(),
            forall|k: int| 0 <= k < i ==> before[k] != n@,
        decreases list.len() - i,
    {
        assert(before[i as int] == list@[i as int]@);
        if same(list[i].as_str(), n) {
            assert(before.contains(n@));
            return;
        }
        i = i + 1;
    }
    list.push(n.to_owned());
    proof {
        assert(views(list@) == before.push(n@));
        crate::resolver::topo::lemma_push_contains(before, n@);
    }
}

/// Looks at a repository package.
fn take_repo(
    st: &mut Walk,
    pac: &PacmanIndex,
    concrete: &PkgName,
    direct: bool,
    Ghost(w): Ghost<World>,
    Ghost(popped): Ghost<Set<Item>>,
    Ghost(rep): Ghost<Chosen>,
    Ghost(x): Ghost<Item>,
    Ghost(done): Ghost<Seq<Item>>,
)
    requires
        w.pac == *pac,
        w.source(x) == SourceView::Repo(concrete@),
        direct == w.is_direct(x),
        front(w, popped.insert(x), popped, rep, old(st).queue@, old(st).visited_repo@),
        tables_ok(w, popped, rep, *old(st)),
        records(w, done, rep, *old(st)),
    ensures
        items(final(st).queue@) == items(old(st).queue@) + w.brings(done, x),
        records(w, done.push(x), rep, *final(st)),
        front(
            w,
            popped.insert(x),
            popped.insert(x),
            rep,
            final(st).queue@,
            final(st).visited_repo@,
        ),
        tables_ok(w, popped.insert(x), rep, *final(st)),
        visits(*final(st)) > visits(*old(st)) || (visits(*final(st)) == visits(*old(st))
            && final(st).queue.len() == old(st).queue.len()),
{
    let ghost before = *st;
    let ghost seen = popped.insert(x);
    let ghost c = concrete@;
    let ghost needs = naming(w.pac.needs(c));
    assert(w.next(rep, x) == needs);
    assert(seen.contains(x));
    if pac.sync_depends.contains_key(concrete.as_str()) {
        let fresh = st.visited_repo.insert(concrete.to_string());
        if fresh {
            let deps = repo_deps(pac, concrete);
            enqueue(&mut st.queue, &deps);
            proof {
                let q = before.queue@;
                let more = st.queue@;
                lemma_live_grows(seen, q, more);
                assert forall|k: int| 0 <= k < needs.len() implies live(
                    seen,
                    more,
                    (Item { target: #[trigger] needs[k], direct: false }),
                ) by {
                    assert(item_of(more[q.len() + k]) == (Item {
                        target: needs[k],
                        direct: false,
                    }));
                }
                assert forall|k: int| 0 <= k < more.len() implies w.is_needed(
                    rep,
                    #[trigger] item_of(more[k]),
                ) by {
                    if k < q.len() {
                        assert(more[k] == q[k]);
                        assert(w.is_needed(rep, item_of(q[k])));
                    } else {
                        let j = k - q.len();
                        assert(item_of(more[q.len() + j]) == (Item {
                            target: needs[j],
                            direct: false,
                        }));
                        lemma_next_needed(w, rep, x, j);
                    }
                }
            }
        } else {
            assert(st.visited_repo@ =~= before.visited_repo@);
        }
    }
    proof {
        if w.met(done).contains(c) || !w.pac.sync_depends@.dom().contains(c) {
            if !w.pac.sync_depends@.dom().contains(c) {
                assert(needs.len() == 0);
                assert(w.brings(done, x) =~= Seq::<Item>::empty());
            }
            assert(items(st.queue@) =~= items(before.queue@) + w.brings(done, x));
        }
    }
    assert(is_settled(w, rep, st.visited_repo@, x));
    assert(front(w, seen, seen, rep, st.queue@, st.visited_repo@));
    if direct {
        note(&mut st.direct_repo, concrete.as_str());
    } else {
        note(&mut st.transitive_repo, concrete.as_str());
    }
    proof {
        lemma_tables_after_repo(w, popped, rep, before, *st, x, c);
        assert(done.push(x).drop_last() =~= done);
        assert(done.push(x).last() == x);
    }
}

proof fn lemma_tables_after_repo(
    w: World,
    popped: Set<Item>,
    rep: Chosen,
    a: Walk,
    b: Walk,
    x: Item,
    c: Seq<char>,
)
    requires
        tables_ok(w, popped, rep, a),
        same_aur(a, b),
        w.source(x) == SourceView::Repo(c),
        forall|n: Seq<char>| #[trigger]
            b.visited_repo@.contains(n) ==> w.pac.sync_depends@.dom().contains(n),
        views(b.direct_repo@).no_duplicates(),
        views(b.transitive_repo@).no_duplicates(),
        forall|n: Seq<char>| #[trigger]
            views(b.direct_repo@).contains(n) <==> views(a.direct_repo@).contains(n) || (n == c
                && w.is_direct(x)),
        forall|n: Seq<char>| #[trigger]
            views(b.transitive_repo@).contains(n) <==> views(a.transitive_repo@).contains(n) || (n
                == c && !w.is_direct(x)),
    ensures
        tables_ok(w, popped.insert(x), rep, b),
{
    let seen = popped.insert(x);
    lemma_seen_other(w, popped, x);
    assert forall|n: Seq<char>, d: bool| #[trigger]
        repo_seen(w, seen, n, d) <==> repo_seen(w, popped, n, d) || (n == c && w.is_direct(x)
            == d) by {
        if repo_seen(w, popped, n, d) {
            let y = choose|y: Item| #[trigger]
                popped.contains(y) && w.source(y) == SourceView::Repo(n) && w.is_direct(y) == d;
            assert(seen.contains(y));
        }
        if n == c && w.is_direct(x) == d {
            assert(seen.contains(x));
        }
    }
    lemma_entries_same(w, popped, x);
}

/// Where one more item comes from anywhere but the AUR, no other entry is seen.
proof fn lemma_entries_same(w: World, popped: Set<Item>, x: Item)
    requires
        !(w.source(x) is Aur),
    ensures
        forall|y: Item, i: int|
            #![trigger entry_seen(w, popped.insert(x), y, i)]
            #![trigger entry_seen(w, popped, y, i)]
            entry_seen(w, popped.insert(x), y, i) <==> entry_seen(w, popped, y, i),
        forall|b: Seq<char>| #[trigger]
            base_named(w, popped.insert(x), b) <==> base_named(w, popped, b),
{
    let seen = popped.insert(x);
    assert forall|b: Seq<char>| #[trigger] base_named(w, seen, b) <==> base_named(w, popped, b) by {
        if base_named(w, popped, b) {
            let (y, i) = choose|y: Item, i: int| #[trigger]
                entry_seen(w, popped, y, i) && w.rows[i].pkgbase == b && w.is_direct(y);
            assert(entry_seen(w, seen, y, i));
        }
        if base_named(w, seen, b) {
            let (y, i) = choose|y: Item, i: int| #[trigger]
                entry_seen(w, seen, y, i) && w.rows[i].pkgbase == b && w.is_direct(y);
            assert(entry_seen(w, popped, y, i));
        }
    }
}

/// What one more item adds to what nobody has and to the repository packages.
proof fn lemma_seen_other(w: World, popped: Set<Item>, x: Item)
    ensures
        forall|n: Seq<char>| #[trigger]
            lack_seen(w, popped.insert(x), n) <==> lack_seen(w, popped, n) || (w.source(x)
                == SourceView::Missing && bare_spec(x.target) == n),
        !(w.source(x) is Repo) ==> forall|n: Seq<char>, d: bool| #[trigger]
            repo_seen(w, popped.insert(x), n, d) <==> repo_seen(w, popped, n, d),
{
    let seen = popped.insert(x);
    assert forall|n: Seq<char>| #[trigger]
        lack_seen(w, seen, n) <==> lack_seen(w, popped, n) || (w.source(x) == SourceView::Missing
            && bare_spec(x.target) == n) by {
        if lack_seen(w, popped, n) {
            let y = choose|y: Item| #[trigger]
                popped.contains(y) && w.source(y) == SourceView::Missing && bare_spec(y.target)
                    == n;
            assert(seen.contains(y));
        }
        assert(seen.contains(x));
    }
    if !(w.source(x) is Repo) {
        assert forall|n: Seq<char>, d: bool| #[trigger]
            repo_seen(w, seen, n, d) <==> repo_seen(w, popped, n, d) by {
            if repo_seen(w, popped, n, d) {
                let y = choose|y: Item| #[trigger]
                    popped.contains(y) && w.source(y) == SourceView::Repo(n) && w.is_direct(y) == d;
                assert(seen.contains(y));
            }
        }
    }
}

/// Leads every pkgname of `e` to its pkgbase.
fn own_pkgnames(owner: &mut NameMap<PkgName, PkgBase>, e: &IndexEntry)
    ensures
        forall|n: Seq<char>| #[trigger]
            final(owner)@.dom().contains(n) <==> old(owner)@.dom().contains(n) || has_pkgname(
                e@,
                n,
            ),
        forall|n: Seq<char>| #[trigger]
            final(owner)@.dom().contains(n) ==> (has_pkgname(e@, n) && final(owner)@[n]@
                == e@.pkgbase) || (!has_pkgname(e@, n) && final(owner)@[n] == old(owner)@[n]),
{
    let ghost before = owner@;
    let mut i: usize = 0;
    while i < e.pkgnames.len()
        invariant
            i <= e.pkgnames.len(),
            forall|n: Seq<char>| #[trigger]
                owner@.dom().contains(n) <==> before.dom().contains(n) || exists|j: int|
                    0 <= j < i && (#[trigger] e@.pkgnames[j]).name == n,
            forall|n: Seq<char>| #[trigger]
                owner@.dom().contains(n) ==> if exists|j: int|
                    0 <= j < i && (#[trigger] e@.pkgnames[j]).name == n {
                    owner@[n]@ == e@.pkgbase
                } else {
                    owner@[n] == before[n]
                },
        decreases e.pkgnames.len() - i,
    {
        let ghost now = owner@;
        assert(e@.pkgnames[i as int].name == e.pkgnames@[i as int].name@);
        owner.insert(e.pkgnames[i].name.clone(), e.pkgbase.clone());
        proof {
            let x = e@.pkgnames[i as int].name;
            assert forall|n: Seq<char>| #[trigger]
                owner@.dom().contains(n) <==> before.dom().contains(n) || exists|j: int|
                    0 <= j < i + 1 && (#[trigger] e@.pkgnames[j]).name == n by {
                if n != x {
                    assert(owner@.dom().contains(n) <==> now.dom().contains(n));
                }
            }
            assert forall|n: Seq<char>| #[trigger] owner@.dom().contains(n) implies if exists|j: int|
                0 <= j < i + 1 && (#[trigger] e@.pkgnames[j]).name == n {
                owner@[n]@ == e@.pkgbase
            } else {
                owner@[n] == before[n]
            } by {
                if n != x {
                    assert(now.dom().contains(n));
                }
            }
        }
        i = i + 1;
    }
    assert forall|n: Seq<char>| #[trigger] has_pkgname(e@, n) <==> exists|j: int|
        0 <= j < i && (#[trigger] e@.pkgnames[j]).name == n by {}
}

/// Looks at the AUR entry at position `at`; the answer is which entries stand for
/// their pkgbases from now on.
fn take_aur(
    st: &mut Walk,
    e: &IndexEntry,
    direct: bool,
    Ghost(w): Ghost<World>,
    Ghost(popped): Ghost<Set<Item>>,
    Ghost(rep): Ghost<Chosen>,
    Ghost(x): Ghost<Item>,
    Ghost(at): Ghost<int>,
    Ghost(done): Ghost<Seq<Item>>,
) -> (r: Ghost<Chosen>)
    requires
        records(w, done, rep, *old(st)),
        0 <= at < w.rows.len(),
        w.rows[at] == e@,
        w.source(x) == SourceView::Aur(at),
        direct == w.is_direct(x),
        front(w, popped.insert(x), popped, rep, old(st).queue@, old(st).visited_repo@),
        tables_ok(w, popped, rep, *old(st)),
    ensures
        items(final(st).queue@) == items(old(st).queue@) + w.brings(done, x),
        records(w, done.push(x), r@, *final(st)),
        front(
            w,
            popped.insert(x),
            popped.insert(x),
            r@,
            final(st).queue@,
            final(st).visited_repo@,
        ),
        tables_ok(w, popped.insert(x), r@, *final(st)),
        visits(*final(st)) > visits(*old(st)) || (visits(*final(st)) == visits(*old(st))
            && final(st).queue.len() == old(st).queue.len()),
{
    let ghost before = *st;
    let ghost seen = popped.insert(x);
    let ghost b = e@.pkgbase;
    assert(entry_seen(w, seen, x, at));
    if direct {
        let _ = st.direct_aur.insert(e.pkgbase.clone());
    }
    own_pkgnames(&mut st.owner, e);
    proof {
        lemma_seen_other(w, popped, x);
        lemma_tables_after_entry(w, popped, rep, before, *st, x, at);
        assert(done.push(x).drop_last() =~= done);
        assert(done.push(x).last() == x);
        assert(owner_view(st.owner@) =~= owner_view(before.owner@).union_prefer_right(
            names_of(e@),
        )) by {
            assert forall|n: Seq<char>|
                owner_view(st.owner@).dom().contains(n) <==> owner_view(
                    before.owner@,
                ).union_prefer_right(names_of(e@)).dom().contains(n) by {
                assert(st.owner@.dom().contains(n) <==> before.owner@.dom().contains(n)
                    || has_pkgname(e@, n));
            }
            assert forall|n: Seq<char>| owner_view(st.owner@).dom().contains(n) implies owner_view(
                st.owner@,
            )[n] == owner_view(before.owner@).union_prefer_right(names_of(e@))[n] by {
                assert(st.owner@.dom().contains(n));
            }
        }
    }
    let fresh = st.visited_aur.insert(e.pkgbase.to_string());
    if !fresh {
        assert(st.visited_aur@ =~= before.visited_aur@);
        assert(is_settled(w, rep, st.visited_repo@, x));
        assert(items(st.queue@) =~= items(before.queue@) + w.brings(done, x));
        return Ghost(rep);
    }
    let ghost more_rep = rep.insert(b, at);
    let (all, build_time) = entry_dep_exprs(e);
    st.all_edges.insert(e.pkgbase.to_string(), other_texts(&all, &e.pkgbase));
    st.make_edges.insert(e.pkgbase.to_string(), texts(&build_time));
    enqueue(&mut st.queue, &all);
    proof {
        assert(st.visited_aur@ =~= more_rep.dom());
        let q = before.queue@;
        let more = st.queue@;
        let needs = all_needs(e@);
        assert(pkgtarget_views(all@) == needs);
        assert forall|y: Item| w.is_needed(rep, y) implies #[trigger] w.is_needed(more_rep, y) by {
            lemma_needed_grows(w, rep, b, at, y);
        }
        assert(seen.contains(x));
        assert(w.is_needed(more_rep, x));
        assert(w.next(more_rep, x) == needs);
        lemma_live_grows(seen, q, more);
        assert forall|k: int| 0 <= k < more.len() implies w.is_needed(
            more_rep,
            #[trigger] item_of(more[k]),
        ) by {
            if k < q.len() {
                assert(more[k] == q[k]);
                assert(w.is_needed(rep, item_of(q[k])));
            } else {
                let j = k - q.len();
                assert(item_of(more[q.len() + j]) == (Item { target: needs[j], direct: false }));
                lemma_next_needed(w, more_rep, x, j);
            }
        }
        assert forall|c: Seq<char>, k: int|
            more_rep.dom().contains(c) && 0 <= k < all_needs(
                w.rows[more_rep[c]],
            ).len() implies live(
            seen,
            more,
            (Item { target: #[trigger] all_needs(w.rows[more_rep[c]])[k], direct: false }),
        ) by {
            if c == b {
                assert(item_of(more[q.len() + k]) == (Item { target: needs[k], direct: false }));
            } else {
                assert(rep.dom().contains(c));
                assert(all_needs(w.rows[rep[c]])[k] == all_needs(w.rows[more_rep[c]])[k]);
            }
        }
        assert forall|y: Item| #[trigger] seen.contains(y) implies is_settled(
            w,
            more_rep,
            st.visited_repo@,
            y,
        ) by {
            if y != x {
                assert(popped.contains(y));
                assert(is_settled(w, rep, st.visited_repo@, y));
            }
        }
        assert forall|c: Seq<char>| #[trigger] more_rep.dom().contains(c) implies {
            &&& 0 <= more_rep[c] < w.rows.len()
            &&& w.rows[more_rep[c]].pkgbase == c
            &&& exists|y: Item| #[trigger] entry_seen(w, seen, y, more_rep[c])
        } by {
            if c != b {
                assert(rep.dom().contains(c));
                let y = choose|y: Item| #[trigger] entry_seen(w, seen, y, rep[c]);
                assert(entry_seen(w, seen, y, more_rep[c]));
            }
        }
        assert(front(w, seen, seen, more_rep, more, st.visited_repo@));
        assert forall|c: Seq<char>| #[trigger] st.all_edges@.dom().contains(c) implies views(
            st.all_edges@[c]@,
        ) == others(all_needs(w.rows[more_rep[c]]), c) by {
            if c != b {
                assert(before.all_edges@.dom().contains(c));
            }
        }
        assert forall|c: Seq<char>| #[trigger] st.make_edges@.dom().contains(c) implies views(
            st.make_edges@[c]@,
        ) == build_needs(w.rows[more_rep[c]]) by {
            if c != b {
                assert(before.make_edges@.dom().contains(c));
            }
        }
        assert forall|c: Seq<char>| #[trigger]
            st.all_edges@.dom().contains(c) <==> more_rep.dom().contains(c) by {
            assert(before.all_edges@.dom().contains(c) <==> rep.dom().contains(c));
        }
        assert forall|c: Seq<char>| #[trigger]
            st.make_edges@.dom().contains(c) <==> more_rep.dom().contains(c) by {
            assert(before.make_edges@.dom().contains(c) <==> rep.dom().contains(c));
        }
        assert(tables_ok(w, seen, more_rep, *st));
    }
    Ghost(more_rep)
}

/// The tables after an entry has been looked at, before its needs come up.
proof fn lemma_tables_after_entry(
    w: World,
    popped: Set<Item>,
    rep: Chosen,
    a: Walk,
    b: Walk,
    x: Item,
    at: int,
)
    requires
        tables_ok(w, popped, rep, a),
        w.source(x) == SourceView::Aur(at),
        a.visited_aur == b.visited_aur,
        a.visited_repo == b.visited_repo,
        a.missing == b.missing,
        a.all_edges == b.all_edges,
        a.make_edges == b.make_edges,
        a.direct_repo == b.direct_repo,
        a.transitive_repo == b.transitive_repo,
        forall|n: Seq<char>| #[trigger]
            b.direct_aur@.contains(n) <==> a.direct_aur@.contains(n) || (n == w.rows[at].pkgbase
                && w.is_direct(x)),
        forall|n: Seq<char>| #[trigger]
            b.owner@.dom().contains(n) <==> a.owner@.dom().contains(n) || has_pkgname(
                w.rows[at],
                n,
            ),
        forall|n: Seq<char>| #[trigger]
            b.owner@.dom().contains(n) ==> (has_pkgname(w.rows[at], n) && b.owner@[n]@
                == w.rows[at].pkgbase) || (!has_pkgname(w.rows[at], n) && b.owner@[n]
                == a.owner@[n]),
    ensures
        tables_ok(w, popped.insert(x), rep, b),
{
    let seen = popped.insert(x);
    lemma_seen_other(w, popped, x);
    assert(entry_seen(w, seen, x, at));
    assert forall|y: Item, i: int|
        #![trigger entry_seen(w, seen, y, i)]
        entry_seen(w, seen, y, i) <==> entry_seen(w, popped, y, i) || (y == x && i == at) by {}
    assert forall|c: Seq<char>| #[trigger] b.direct_aur@.contains(c) <==> base_named(w, seen, c) by {
        assert(a.direct_aur@.contains(c) <==> base_named(w, popped, c));
        if base_named(w, popped, c) {
            let (y, i) = choose|y: Item, i: int| #[trigger]
                entry_seen(w, popped, y, i) && w.rows[i].pkgbase == c && w.is_direct(y);
            assert(entry_seen(w, seen, y, i));
        }
        if base_named(w, seen, c) {
            let (y, i) = choose|y: Item, i: int| #[trigger]
                entry_seen(w, seen, y, i) && w.rows[i].pkgbase == c && w.is_direct(y);
            if !(y == x && i == at) {
                assert(entry_seen(w, popped, y, i));
            }
        }
    }
    assert forall|n: Seq<char>| #[trigger] b.owner@.dom().contains(n) implies exists|
        y: Item,
        i: int,
    | #[trigger]
        entry_seen(w, seen, y, i) && has_pkgname(w.rows[i], n) && b.owner@[n]@
            == w.rows[i].pkgbase by {
        if has_pkgname(w.rows[at], n) {
            assert(entry_seen(w, seen, x, at));
        } else {
            assert(a.owner@.dom().contains(n));
            let (y, i) = choose|y: Item, i: int| #[trigger]
                entry_seen(w, popped, y, i) && has_pkgname(w.rows[i], n) && a.owner@[n]@
                    == w.rows[i].pkgbase;
            assert(entry_seen(w, seen, y, i));
        }
    }
    assert forall|y: Item, i: int, n: Seq<char>| #[trigger]
        entry_seen(w, seen, y, i) && #[trigger] has_pkgname(
            w.rows[i],
            n,
        ) implies b.owner@.dom().contains(n) by {
        if !(y == x && i == at) {
            assert(entry_seen(w, popped, y, i));
            assert(a.owner@.dom().contains(n));
        }
        assert(b.owner@.dom().contains(n) <==> a.owner@.dom().contains(n) || has_pkgname(
            w.rows[at],
            n,
        ));
    }
}

/// Looks at something that nobody has.
fn take_missing(
    st: &mut Walk,
    bare: &str,
    Ghost(w): Ghost<World>,
    Ghost(popped): Ghost<Set<Item>>,
    Ghost(rep): Ghost<Chosen>,
    Ghost(x): Ghost<Item>,
    Ghost(done): Ghost<Seq<Item>>,
)
    requires
        records(w, done, rep, *old(st)),
        w.source(x) == SourceView::Missing,
        bare@ == bare_spec(x.target),
        front(w, popped.insert(x), popped, rep, old(st).queue@, old(st).visited_repo@),
        tables_ok(w, popped, rep, *old(st)),
    ensures
        front(
            w,
            popped.insert(x),
            popped.insert(x),
            rep,
            final(st).queue@,
            final(st).visited_repo@,
        ),
        tables_ok(w, popped.insert(x), rep, *final(st)),
        visits(*final(st)) == visits(*old(st)),
        final(st).queue@ == old(st).queue@,
        records(w, done.push(x), rep, *final(st)),
{
    let ghost had = views(st.missing@);
    st.missing.push(bare.to_owned());
    proof {
        assert(views(st.missing@) == had.push(bare@));
        crate::resolver::topo::lemma_push_contains(had, bare@);
        lemma_seen_other(w, popped, x);
        lemma_entries_same(w, popped, x);
        assert(done.push(x).drop_last() =~= done);
        assert(done.push(x).last() == x);
    }
}

/// Looks at something that is installed.
proof fn lemma_take_installed(
    w: World,
    popped: Set<Item>,
    rep: Chosen,
    st: Walk,
    x: Item,
    done: Seq<Item>,
)
    requires
        records(w, done, rep, st),
        w.source(x) is Installed,
        front(w, popped.insert(x), popped, rep, st.queue@, st.visited_repo@),
        tables_ok(w, popped, rep, st),
    ensures
        front(w, popped.insert(x), popped.insert(x), rep, st.queue@, st.visited_repo@),
        tables_ok(w, popped.insert(x), rep, st),
        records(w, done.push(x), rep, st),
{
    lemma_seen_other(w, popped, x);
    lemma_entries_same(w, popped, x);
    assert(done.push(x).drop_last() =~= done);
    assert(done.push(x).last() == x);
}

/// Walks over everything that the targets need.
pub(crate) fn walk(
    idx: &IndexFile,
    by: &Lookup,
    pac: &PacmanIndex,
    targets: &Vec<String>,
    direct_set: &NameSet<String>,
    Ghost(w): Ghost<World>,
) -> (r: (Walk, Ghost<Seq<Item>>))
    requires
        by.within(idx.entries.len() as nat),
        w.by == *by,
        w.rows == idx.rows(),
        w.pac == *pac,
        w.targets == views(targets@),
        forall|n: Seq<char>| #[trigger]
            direct_set@.contains(n) <==> exists|i: int|
                0 <= i < w.targets.len() && bare_spec(#[trigger] w.targets[i]) == n,
    ensures
        w.is_walk(r.1@),
        records(w, r.1@, w.chosen(r.1@), r.0),
        forall|x: Item| #[trigger]
            r.1@.to_set().contains(x) <==> w.is_needed(w.chosen(r.1@), x),
        front(
            w,
            r.1@.to_set(),
            r.1@.to_set(),
            w.chosen(r.1@),
            r.0.queue@,
            r.0.visited_repo@,
        ),
        tables_ok(w, r.1@.to_set(), w.chosen(r.1@), r.0),
{
    let mut st = Walk {
        queue: Vec::new(),
        visited_aur: NameSet::new(),
        visited_repo: NameSet::new(),
        missing: Vec::new(),
        all_edges: NameMap::new(),
        make_edges: NameMap::new(),
        owner: NameMap::new(),
        direct_repo: Vec::new(),
        transitive_repo: Vec::new(),
        direct_aur: NameSet::new(),
    };
    let mut i: usize = 0;
    while i < targets.len()
        invariant
            i <= targets.len(),
            st.queue.len() == i,
            forall|k: int|
                0 <= k < i ==> item_of(#[trigger] st.queue@[k]) == (Item {
                    target: targets@[k]@,
                    direct: true,
                }),
            st.visited_aur@ == Set::<Seq<char>>::empty(),
            st.visited_repo@ == Set::<Seq<char>>::empty(),
            visits(st) == 0,
            st.missing.len() == 0,
            st.all_edges@ == Map::<Seq<char>, Vec<String>>::empty(),
            st.make_edges@ == Map::<Seq<char>, Vec<String>>::empty(),
            st.owner@ == Map::<Seq<char>, PkgBase>::empty(),
            st.direct_repo.len() == 0,
            st.transitive_repo.len() == 0,
            st.direct_aur@ == Set::<Seq<char>>::empty(),
        decreases targets.len() - i,
    {
        st.queue.push((PkgTarget::new(targets[i].as_str()), Origin::Direct));
        i = i + 1;
    }
    let ghost mut popped: Set<Item> = Set::empty();
    let ghost mut rep: Chosen = Map::empty();
    let ghost mut done: Seq<Item> = Seq::empty();
    proof {
        let q = st.queue@;
        assert(popped =~= done.to_set());
        assert(items(q) =~= w.start());
        assert(owner_view(st.owner@) =~= w.owned(done));
        assert(views(st.direct_repo@) =~= w.repos(done, true));
        assert(views(st.transitive_repo@) =~= w.repos(done, false));
        assert(stands(w, done, popped, rep, st));
        assert forall|k: int| 0 <= k < w.targets.len() implies live(
            popped,
            q,
            (Item { target: #[trigger] w.targets[k], direct: true }),
        ) by {
            assert(item_of(q[k]) == (Item { target: w.targets[k], direct: true }));
        }
        assert forall|k: int| 0 <= k < q.len() implies w.is_needed(
            rep,
            #[trigger] item_of(q[k]),
        ) by {
            assert(item_of(q[k]) == (Item { target: w.targets[k], direct: true }));
        }
        assert(st.visited_aur@ =~= rep.dom());
        assert(views(st.direct_repo@).len() == 0);
        assert(views(st.transitive_repo@).len() == 0);
        assert(views(st.missing@).len() == 0);
        assert(front(w, popped, popped, rep, q, st.visited_repo@));
        assert(tables_ok(w, popped, rep, st));
    }
    let ghost bases = idx.rows().map_values(|e: crate::index::schema::EntryView| e.pkgbase);
    let ghost limit = bases.len() + pac.sync_depends.order().len();
    let _ = pac.sync_depends.len();
    while st.queue.len() > 0
        invariant
            by.within(idx.entries.len() as nat),
            w.by == *by,
            w.rows == idx.rows(),
            w.pac == *pac,
            w.targets == views(targets@),
            forall|n: Seq<char>| #[trigger]
                direct_set@.contains(n) <==> exists|i: int|
                    0 <= i < w.targets.len() && bare_spec(#[trigger] w.targets[i]) == n,
            front(w, popped, popped, rep, st.queue@, st.visited_repo@),
            tables_ok(w, popped, rep, st),
            stands(w, done, popped, rep, st),
            bases == idx.rows().map_values(|e: crate::index::schema::EntryView| e.pkgbase),
            limit == bases.len() + pac.sync_depends.order().len(),
            forall|k: Seq<char>|
                pac.sync_depends.order().contains(k) <==> #[trigger] pac.sync_depends@.dom().contains(
                    k,
                ),
            visits(st) <= limit,
        decreases limit - visits(st), st.queue.len(),
    {
        let ghost before = st;
        let ghost q = st.queue@;
        proof {
            lemma_pop(w, popped, rep, q, st.visited_repo@);
        }
        let (target, origin) = st.queue.pop().unwrap();
        let ghost x = item_of((target, origin));
        assert(st.queue@ =~= q.drop_last());
        assert(x == item_of(q.last()));
        assert(items(st.queue@) =~= items(q).drop_last());
        assert(x == w.waiting(done).last());
        proof {
            lemma_follows(w, done, x);
        }
        let ghost rest = items(st.queue@);
        let bare = target.bare();
        let source = resolve_target_source(idx, by, pac, bare, origin);
        assert(source@ == w.source(x));
        let direct = origin == Origin::Direct || direct_set.contains(bare);
        assert(direct == w.is_direct(x));
        assert(tables_ok(w, popped, rep, st));
        let ghost visited = visits(st);
        match source {
            Source::Installed(_) => {
                proof {
                    lemma_take_installed(w, popped, rep, st, x, done);
                    assert(rest + w.brings(done, x) =~= rest);
                }
            },
            Source::Repo(concrete) => {
                take_repo(
                    &mut st,
                    pac,
                    &concrete,
                    direct,
                    Ghost(w),
                    Ghost(popped),
                    Ghost(rep),
                    Ghost(x),
                    Ghost(done),
                );
            },
            Source::Aur(at) => {
                proof {
                    lemma_aur_within(w, x, at.0 as int);
                }
                let e = &idx.entries[at.0];
                let Ghost(chosen) = take_aur(
                    &mut st,
                    e,
                    direct,
                    Ghost(w),
                    Ghost(popped),
                    Ghost(rep),
                    Ghost(x),
                    Ghost(at.0 as int),
                    Ghost(done),
                );
                proof {
                    rep = chosen;
                }
            },
            Source::Missing => {
                take_missing(
                    &mut st,
                    bare,
                    Ghost(w),
                    Ghost(popped),
                    Ghost(rep),
                    Ghost(x),
                    Ghost(done),
                );
                assert(rest + w.brings(done, x) =~= rest);
            },
        }
        proof {
            popped = popped.insert(x);
            done = done.push(x);
            assert(stands(w, done, popped, rep, st));
        }
        let _ = st.visited_aur.len();
        let _ = st.visited_repo.len();
        proof {
            assert forall|n: Seq<char>| #[trigger]
                st.visited_aur.order().contains(n) implies bases.contains(n) by {
                assert(rep.dom().contains(n));
                assert(bases[rep[n]] == n);
            }
            crate::resolver::topo::lemma_fits(st.visited_aur.order(), bases);
            assert forall|n: Seq<char>| #[trigger]
                st.visited_repo.order().contains(n) implies pac.sync_depends.order().contains(n) by {
                assert(st.visited_repo@.contains(n));
            }
            crate::resolver::topo::lemma_fits(
                st.visited_repo.order(),
                pac.sync_depends.order(),
            );
        }
    }
    proof {
        lemma_walk_complete(w, popped, rep, st.queue@, st.visited_repo@);
    }
    assert(items(st.queue@).len() == 0);
    (st, Ghost(done))
}

/// A name that leads to the AUR leads to an entry of the index.
pub(crate) proof fn lemma_aur_within(w: World, x: Item, at: int)
    requires
        w.by.within(w.rows.len()),
        w.source(x) == SourceView::Aur(at),
    ensures
        0 <= at < w.rows.len(),
{
    let bare = bare_spec(x.target);
    assert(w.by.name_hit(bare) matches Some(i) ==> i < w.rows.len());
    assert(w.by.provides_hit(bare) matches Some(i) ==> i < w.rows.len());
    assert(w.by.base_hit(bare) matches Some(i) ==> i < w.rows.len());
}

} // verus!
