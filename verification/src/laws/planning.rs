//! How a plan is put together.

use vstd::prelude::*;

use crate::error::Error;
use crate::index::lookup::{has_pkgname, Lookup};
use crate::index::schema::IndexFile;
use crate::laws::resolving::is_built_in;
use crate::names::{bare_spec, pkgbase_views};
use crate::order::sorted_list_of;
use crate::pacman::alpm_db::PacmanIndex;
use crate::resolver::classify::SourceView;
use crate::resolver::topo::{cycle_text, edge, is_build_order};
use crate::resolver::{
    flat, outcome_is, resolve, strata_views, unlisted, world, Item, Plan, World,
};
use crate::text::{join_spec, views};

verus! {

/// What the user named counts as named, even where it came up as a dependency and in
/// another version; nothing else does.
pub proof fn law_what_counts_as_named(w: World, x: Item)
    ensures
        w.is_direct(x) <==> x.direct || exists|t: Seq<char>| #[trigger]
            w.targets.contains(t) && bare_spec(t) == bare_spec(x.target),
{
    if exists|t: Seq<char>| #[trigger]
        w.targets.contains(t) && bare_spec(t) == bare_spec(x.target) {
        let t = choose|t: Seq<char>| #[trigger]
            w.targets.contains(t) && bare_spec(t) == bare_spec(x.target);
        let i = choose|i: int| 0 <= i < w.targets.len() && w.targets[i] == t;
        assert(bare_spec(w.targets[i]) == bare_spec(x.target));
    }
    if w.is_direct(x) && !x.direct {
        let i = choose|i: int|
            0 <= i < w.targets.len() && bare_spec(#[trigger] w.targets[i]) == bare_spec(x.target);
        assert(w.targets.contains(w.targets[i]));
    }
}

/// A package of a sync repository is installed explicitly exactly if something needs it
/// that the user named, and as a dependency exactly if something needs it and nothing
/// that the user named does. No package is listed twice.
pub proof fn law_which_packages_are_dependencies(
    w: World,
    done: Seq<Item>,
    plan: Plan,
    n: Seq<char>,
)
    requires
        w.is_complete(done),
        outcome_is(w, done, Ok::<Plan, Error>(plan)),
    ensures
        ({
            let named = exists|x: Item| #[trigger]
                done.contains(x) && w.source(x) == SourceView::Repo(n) && w.is_direct(x);
            let other = exists|x: Item| #[trigger]
                done.contains(x) && w.source(x) == SourceView::Repo(n) && !w.is_direct(x);
            &&& views(plan.direct_repo@).contains(n) <==> named
            &&& views(plan.transitive_repo@).contains(n) <==> other && !named
            &&& views(plan.direct_repo@).no_duplicates()
            &&& views(plan.transitive_repo@).no_duplicates()
        }),
{
    let rep = w.chosen(done);
    assert(views(plan.direct_repo@).contains(n) <==> w.needs_repo(rep, n, true));
    assert(views(plan.transitive_repo@).contains(n) <==> w.needs_repo(rep, n, false)
        && !w.needs_repo(rep, n, true));
    if w.needs_repo(rep, n, true) {
        let x = choose|x: Item| #[trigger]
            w.is_needed(rep, x) && w.source(x) == SourceView::Repo(n) && w.is_direct(x) == true;
        assert(done.contains(x));
    }
    if w.needs_repo(rep, n, false) {
        let x = choose|x: Item| #[trigger]
            w.is_needed(rep, x) && w.source(x) == SourceView::Repo(n) && w.is_direct(x) == false;
        assert(done.contains(x));
    }
    assert forall|x: Item| #[trigger]
        done.contains(x) && w.source(x) == SourceView::Repo(n) implies w.needs_repo(
        rep,
        n,
        w.is_direct(x),
    ) by {
        assert(w.is_needed(rep, x));
    }
}

/// `x` is had from the entry at position `i`.
pub open spec fn comes_from(w: World, x: Item, i: int) -> bool {
    w.source(x) == SourceView::Aur(i)
}

/// A pkgbase counts as named exactly if something needs one of its entries that the user
/// named. The targets are kept as they were typed.
pub proof fn law_which_pkgbases_are_named(w: World, done: Seq<Item>, plan: Plan, b: Seq<char>)
    requires
        w.is_complete(done),
        outcome_is(w, done, Ok::<Plan, Error>(plan)),
    ensures
        plan.direct_aur@.contains(b) <==> exists|x: Item, i: int|
            done.contains(x) && #[trigger] comes_from(w, x, i)
                && w.rows[i].pkgbase == b && w.is_direct(x),
        forall|t: Seq<char>| #[trigger] plan.direct_targets@.contains(t) <==> w.targets.contains(t),
{
    let rep = w.chosen(done);
    assert(plan.direct_aur@.contains(b) <==> w.names_base(rep, b));
    if w.names_base(rep, b) {
        let (x, i) = choose|x: Item, i: int| #[trigger]
            w.needs_entry(rep, x, i) && w.rows[i].pkgbase == b && w.is_direct(x);
        assert(w.needs_entry(rep, x, i));
        assert(done.contains(x));
        assert(comes_from(w, x, i));
    }
    if exists|x: Item, i: int|
        done.contains(x) && #[trigger] comes_from(w, x, i)
            && w.rows[i].pkgbase == b && w.is_direct(x) {
        let (x, i) = choose|x: Item, i: int|
            done.contains(x) && #[trigger] comes_from(w, x, i)
                && w.rows[i].pkgbase == b && w.is_direct(x);
        assert(w.is_needed(rep, x));
        assert(w.needs_entry(rep, x, i));
    }
}

/// There is a plan only where every needed name is had; else the names that nobody has
/// are told, sorted.
pub proof fn law_missing_names_are_told(
    idx: &IndexFile,
    by: &Lookup,
    pac: &PacmanIndex,
    targets: &Vec<String>,
    r: Result<Plan, Error>,
) -> (done: Seq<Item>)
    requires
        call_ensures(resolve, (idx, by, pac, targets), r),
    ensures
        ({
            let w = World { by: *by, rows: idx.rows(), pac: *pac, targets: views(targets@) };
            let gone = exists|x: Item| #[trigger]
                done.contains(x) && w.source(x) == SourceView::Missing;
            &&& w.is_walk(done)
            &&& gone <==> (r matches Err(Error::UnknownTargets(_)))
            &&& r matches Err(Error::UnknownTargets(m)) ==> exists|ns: Seq<Seq<char>>|
                m@ == #[trigger] join_spec(ns, ", "@) && crate::order::strictly_sorted(ns)
                    && forall|n: Seq<char>| #[trigger]
                    ns.contains(n) <==> exists|x: Item| #[trigger]
                        done.contains(x) && w.source(x) == SourceView::Missing && bare_spec(
                            x.target,
                        ) == n
        }),
{
    let w = world(*idx, *by, *pac, targets@);
    let done = choose|done: Seq<Item>| #[trigger]
        w.is_walk(done) && w.is_complete(done) && outcome_is(w, done, r);
    let rep = w.chosen(done);
    assert forall|n: Seq<char>| #[trigger] w.missing(rep).contains(n) <==> exists|x: Item| #[trigger]
        done.contains(x) && w.source(x) == SourceView::Missing && bare_spec(x.target) == n by {
        if w.missing(rep).contains(n) {
            assert(w.lacks(rep, n));
            let x = choose|x: Item| #[trigger]
                w.is_needed(rep, x) && w.source(x) == SourceView::Missing && bare_spec(x.target)
                    == n;
            assert(done.contains(x));
        }
        if exists|x: Item| #[trigger]
            done.contains(x) && w.source(x) == SourceView::Missing && bare_spec(x.target) == n {
            let x = choose|x: Item| #[trigger]
                done.contains(x) && w.source(x) == SourceView::Missing && bare_spec(x.target) == n;
            assert(w.is_needed(rep, x));
            assert(w.lacks(rep, n));
        }
    }
    if exists|x: Item| #[trigger] done.contains(x) && w.source(x) == SourceView::Missing {
        let x = choose|x: Item| #[trigger]
            done.contains(x) && w.source(x) == SourceView::Missing;
        assert(w.missing(rep).contains(bare_spec(x.target)));
    }
    if let Err(Error::UnknownTargets(m)) = r {
        let ns = choose|ns: Seq<Seq<char>>| #[trigger]
            sorted_list_of(ns, w.missing(rep)) && m@ == join_spec(ns, ", "@);
        assert(m@ == join_spec(ns, ", "@));
        if forall|x: Item| #[trigger]
            done.contains(x) ==> w.source(x) != SourceView::Missing {
            assert(w.missing(rep) =~= Set::<Seq<char>>::empty());
        }
        assert forall|n: Seq<char>| #[trigger] ns.contains(n) <==> exists|x: Item| #[trigger]
            done.contains(x) && w.source(x) == SourceView::Missing && bare_spec(x.target) == n by {
            assert(ns.contains(n) <==> w.missing(rep).contains(n));
        }
    }
    done
}

/// The walk begins with the last target; what came up last is looked at next.
pub proof fn law_the_walk_goes_on_with_the_last(w: World, done: Seq<Item>)
    requires
        w.is_walk(done),
    ensures
        w.targets.len() > 0 ==> done.len() > 0 && done[0] == (Item {
            target: w.targets.last(),
            direct: true,
        }),
        w.targets.len() == 0 ==> done.len() == 0,
        forall|k: int|
            0 <= k < done.len() - 1 && w.brings(#[trigger] done.take(k), done[k]).len() > 0
                ==> done[k + 1] == w.brings(done.take(k), done[k]).last(),
{
    let none = Seq::<Item>::empty();
    assert(done.take(0) =~= none);
    assert(w.waiting(none) == w.start());
    if w.targets.len() > 0 {
        if done.len() == 0 {
            assert(done =~= none);
        }
        assert(done[0] == w.waiting(done.take(0)).last());
    } else if done.len() > 0 {
        assert(w.waiting(done.take(0)).len() > 0);
    }
    assert forall|k: int|
        0 <= k < done.len() - 1 && w.brings(#[trigger] done.take(k), done[k]).len()
            > 0 implies done[k + 1] == w.brings(done.take(k), done[k]).last() by {
        let next = done.take(k + 1);
        assert(next.drop_last() =~= done.take(k));
        assert(next.last() == done[k]);
        assert(done[k + 1] == w.waiting(done.take(k + 1)).last());
    }
}

/// Of several entries of one pkgbase the one that came up first stands for it.
pub proof fn law_the_first_entry_stands_for_its_pkgbase(w: World, done: Seq<Item>, k: int, i: int)
    requires
        0 <= k < done.len(),
        w.source(done[k]) == SourceView::Aur(i),
        forall|j: int, q: int|
            0 <= j < k && #[trigger] comes_from(w, done[j], q)
                ==> w.rows[q].pkgbase != w.rows[i].pkgbase,
    ensures
        w.chosen(done).dom().contains(w.rows[i].pkgbase),
        w.chosen(done)[w.rows[i].pkgbase] == i,
    decreases done.len(),
{
    let r = done.drop_last();
    if k < r.len() {
        assert(r[k] == done[k]);
        assert forall|j: int, q: int|
            0 <= j < k && #[trigger] comes_from(w, r[j], q) implies w.rows[q].pkgbase != w.rows[i].pkgbase by {
            assert(r[j] == done[j]);
        }
        law_the_first_entry_stands_for_its_pkgbase(w, r, k, i);
    } else {
        lemma_not_chosen(w, r, w.rows[i].pkgbase);
        assert forall|j: int, q: int|
            0 <= j < r.len() && #[trigger] comes_from(w, r[j], q) implies w.rows[q].pkgbase != w.rows[i].pkgbase by {
            assert(r[j] == done[j]);
        }
    }
}

proof fn lemma_not_chosen(w: World, done: Seq<Item>, b: Seq<char>)
    ensures
        w.chosen(done).dom().contains(b) ==> exists|j: int, q: int|
            0 <= j < done.len() && #[trigger] comes_from(w, done[j], q)
                && w.rows[q].pkgbase == b,
    decreases done.len(),
{
    if done.len() > 0 {
        let r = done.drop_last();
        lemma_not_chosen(w, r, b);
        if w.chosen(r).dom().contains(b) {
            let (j, q) = choose|j: int, q: int|
                0 <= j < r.len() && #[trigger] comes_from(w, r[j], q)
                    && w.rows[q].pkgbase == b;
            assert(comes_from(w, done[j], q));
        } else if w.chosen(done).dom().contains(b) {
            let q = w.source(done.last())->Aur_0;
            assert(comes_from(w, done[done.len() - 1], q));
        }
    }
}

/// Of several entries with one pkgname the one that came up last owns it.
pub proof fn law_the_last_entry_owns_a_pkgname(
    w: World,
    done: Seq<Item>,
    n: Seq<char>,
    k: int,
    i: int,
)
    requires
        0 <= k < done.len(),
        w.source(done[k]) == SourceView::Aur(i),
        has_pkgname(w.rows[i], n),
        forall|j: int, q: int|
            k < j < done.len() && #[trigger] comes_from(w, done[j], q)
                ==> !has_pkgname(w.rows[q], n),
    ensures
        w.owned(done).dom().contains(n),
        w.owned(done)[n] == w.rows[i].pkgbase,
    decreases done.len(),
{
    let r = done.drop_last();
    if k < r.len() {
        assert(r[k] == done[k]);
        assert forall|j: int, q: int|
            k < j < r.len() && #[trigger] comes_from(w, r[j], q) implies !has_pkgname(w.rows[q], n) by {
            assert(r[j] == done[j]);
        }
        law_the_last_entry_owns_a_pkgname(w, r, n, k, i);
        if w.source(done.last()) is Aur {
            let q = w.source(done.last())->Aur_0;
            assert(comes_from(w, done[done.len() - 1], q));
        }
    }
}

/// Packages are listed in the order in which they came up first.
pub proof fn law_packages_are_listed_as_they_came_up(
    w: World,
    done: Seq<Item>,
    x: Item,
    c: Seq<char>,
    direct: bool,
)
    requires
        w.source(x) == SourceView::Repo(c),
    ensures
        w.is_direct(x) == direct && !w.repos(done, direct).contains(c) ==> w.repos(
            done.push(x),
            direct,
        ) == w.repos(done, direct).push(c),
        w.is_direct(x) != direct || w.repos(done, direct).contains(c) ==> w.repos(
            done.push(x),
            direct,
        ) == w.repos(done, direct),
{
    assert(done.push(x).drop_last() =~= done);
}

/// What is left after what is listed elsewhere keeps its order.
pub proof fn law_what_is_listed_elsewhere_is_left_out(
    a: Seq<Seq<char>>,
    b: Seq<Seq<char>>,
    drop: Seq<Seq<char>>,
    x: Seq<char>,
)
    ensures
        unlisted(seq![x], drop) == (if drop.contains(x) {
            Seq::<Seq<char>>::empty()
        } else {
            seq![x]
        }),
        unlisted(a + b, drop) == unlisted(a, drop) + unlisted(b, drop),
    decreases b.len(),
{
    let none = Seq::<Seq<char>>::empty();
    assert(seq![x].drop_last() =~= none);
    assert(unlisted(none, drop) =~= none);
    if b.len() == 0 {
        assert(a + b =~= a);
        assert(unlisted(a, drop) + unlisted(b, drop) =~= unlisted(a, drop));
    } else {
        law_what_is_listed_elsewhere_is_left_out(a, b.drop_last(), drop, x);
        assert((a + b).drop_last() =~= a + b.drop_last());
        assert((a + b).last() == b.last());
        assert(unlisted(a + b, drop) =~= unlisted(a, drop) + unlisted(b, drop));
    }
}

/// All pkgbases are built stratum by stratum.
pub proof fn law_strata_follow_each_other(a: Seq<Seq<Seq<char>>>, b: Seq<Seq<Seq<char>>>, s: Seq<
    Seq<char>,
>)
    ensures
        flat(seq![s]) == s,
        flat(a + b) == flat(a) + flat(b),
    decreases b.len(),
{
    let none = Seq::<Seq<Seq<char>>>::empty();
    assert(seq![s].drop_last() =~= none);
    assert(flat(none) =~= Seq::<Seq<char>>::empty());
    assert(flat(seq![s]) =~= s);
    if b.len() == 0 {
        assert(a + b =~= a);
        assert(flat(a) + flat(b) =~= flat(a));
    } else {
        law_strata_follow_each_other(a, b.drop_last(), s);
        assert((a + b).drop_last() =~= a + b.drop_last());
        assert((a + b).last() == b.last());
        assert(flat(a + b) =~= flat(a) + flat(b));
    }
}

/// There is nothing to confirm exactly if the plan installs nothing as a dependency and
/// builds only what the user named.
pub proof fn law_when_there_is_nothing_to_confirm(plan: &Plan, r: bool)
    requires
        call_ensures(Plan::only_requested, (plan,), r),
    ensures
        r <==> plan.transitive_repo@.len() == 0 && forall|b: Seq<char>, l: int| #[trigger]
            is_built_in(*plan, b, l) ==> plan.direct_aur@.contains(b),
{
    let strata = strata_views(plan.aur_strata@);
    assert forall|l: int, k: int|
        0 <= l < plan.aur_strata@.len() && 0 <= k < plan.aur_strata@[l]@.len() implies is_built_in(
        *plan,
        (#[trigger] plan.aur_strata@[l]@[k])@,
        l,
    ) by {
        assert(strata[l] == pkgbase_views(plan.aur_strata@[l]@));
        assert(strata[l][k] == plan.aur_strata@[l]@[k]@);
    }
    if r {
        assert forall|b: Seq<char>, l: int| #[trigger] is_built_in(
            *plan,
            b,
            l,
        ) implies plan.direct_aur@.contains(b) by {
            assert(strata[l] == pkgbase_views(plan.aur_strata@[l]@));
            let k = choose|k: int| 0 <= k < strata[l].len() && strata[l][k] == b;
            assert(plan.aur_strata@[l]@[k]@ == b);
        }
    }
}

/// A cycle is told with its members, in the order in which they need each other.
pub proof fn law_how_a_cycle_reads(path: Seq<Seq<char>>)
    ensures
        cycle_text(path) == "cycle: "@ + join_spec(path, " → "@),
{
}

/// In an order of building, what a node needs comes before it, and every node stands
/// there once.
pub proof fn law_needs_come_before(
    edges: &crate::maps::NameMap<String, Vec<String>>,
    nodes: &crate::maps::NameSet<String>,
    order: Vec<String>,
    a: Seq<char>,
    d: Seq<char>,
)
    requires
        call_ensures(
            crate::resolver::topo::sort,
            (edges, nodes),
            Ok::<Vec<String>, Error>(order),
        ),
        nodes@.contains(a),
        nodes@.contains(d),
        edges@.dom().contains(a),
        views(edges@[a]@).contains(d),
    ensures
        exists|i: int, j: int|
            0 <= j < i < order@.len() && (#[trigger] order@[i])@ == a && (#[trigger] order@[j])@
                == d,
        views(order@).no_duplicates(),
{
    let g = crate::resolver::topo::graph(edges@);
    let all = views(order@);
    assert(is_build_order(g, nodes@, all));
    assert(all.contains(a));
    let i = choose|i: int| 0 <= i < all.len() && all[i] == a;
    assert(edge(g, nodes@, all[i], d));
    let before = all.take(i);
    let j = choose|j: int| 0 <= j < before.len() && before[j] == d;
    assert(order@[i]@ == a && order@[j]@ == d);
}

} // verus!
