//! What the packages of a plan need is in the plan.

use vstd::prelude::*;

use crate::index::lookup::{has_pkgname, Lookup};
use crate::index::schema::EntryView;
use crate::names::{bare_spec, pkgbase_views};
use crate::pacman::alpm_db::PacmanIndex;
use crate::resolver::classify::{
    aur_claim, classify_spec, source_spec, AurViaView, SourceView,
};
use crate::resolver::topo::edge;
use crate::resolver::{
    all_needs, build_needs, dep_names, naming, others, outcome_is, owners, strata_views, Chosen,
    Item, Plan, World,
};
use crate::error::Error;
use crate::text::views;

verus! {

/// The names that dependencies ask for are exactly those of the expressions, their
/// version constraints cut off, except where nothing is left.
pub proof fn law_every_dependency_is_named(s: Seq<Seq<char>>, n: Seq<char>)
    ensures
        dep_names(s).contains(n) <==> n.len() > 0 && exists|k: int|
            0 <= k < s.len() && bare_spec(#[trigger] s[k]) == n,
    decreases s.len(),
{
    if s.len() > 0 {
        let r = s.drop_last();
        let rest = dep_names(r);
        let all = dep_names(s);
        law_every_dependency_is_named(r, n);
        if all.contains(n) {
            let k = choose|k: int| 0 <= k < all.len() && all[k] == n;
            if k < rest.len() {
                assert(rest[k] == n);
                let j = choose|j: int| 0 <= j < r.len() && bare_spec(#[trigger] r[j]) == n;
                assert(s[j] == r[j]);
            } else {
                assert(bare_spec(s[s.len() - 1]) == n);
            }
        }
        if n.len() > 0 && exists|k: int| 0 <= k < s.len() && bare_spec(#[trigger] s[k]) == n {
            let k = choose|k: int| 0 <= k < s.len() && bare_spec(#[trigger] s[k]) == n;
            if k < r.len() {
                assert(r[k] == s[k]);
                let j = choose|j: int| 0 <= j < rest.len() && rest[j] == n;
                assert(all[j] == n);
            } else {
                assert(all[rest.len() as int] == n);
            }
        }
    }
}

/// The expressions that name something stay, and no others.
pub proof fn law_every_naming_expression_counts(s: Seq<Seq<char>>, t: Seq<char>)
    ensures
        naming(s).contains(t) <==> s.contains(t) && bare_spec(t).len() > 0,
    decreases s.len(),
{
    if s.len() > 0 {
        let r = s.drop_last();
        let rest = naming(r);
        let all = naming(s);
        law_every_naming_expression_counts(r, t);
        if all.contains(t) {
            let k = choose|k: int| 0 <= k < all.len() && all[k] == t;
            if k < rest.len() {
                assert(rest[k] == t);
                let j = choose|j: int| 0 <= j < r.len() && r[j] == t;
                assert(s[j] == t);
            } else {
                assert(s[s.len() - 1] == t);
            }
        }
        if s.contains(t) && bare_spec(t).len() > 0 {
            let k = choose|k: int| 0 <= k < s.len() && s[k] == t;
            if k < r.len() {
                assert(r[k] == t);
                let j = choose|j: int| 0 <= j < rest.len() && rest[j] == t;
                assert(all[j] == t);
            } else {
                assert(all[rest.len() as int] == t);
            }
        }
    }
}

/// `n` is the name of one of the dependency expressions.
pub open spec fn asks_for(s: Seq<Seq<char>>, n: Seq<char>) -> bool {
    n.len() > 0 && exists|d: Seq<char>| #[trigger] s.contains(d) && bare_spec(d) == n
}

proof fn lemma_asks_for(s: Seq<Seq<char>>, n: Seq<char>)
    ensures
        asks_for(s, n) <==> dep_names(s).contains(n),
{
    law_every_dependency_is_named(s, n);
    if asks_for(s, n) {
        let d = choose|d: Seq<char>| #[trigger] s.contains(d) && bare_spec(d) == n;
        let k = choose|k: int| 0 <= k < s.len() && s[k] == d;
        assert(bare_spec(s[k]) == n);
    }
    if dep_names(s).contains(n) {
        let k = choose|k: int| 0 <= k < s.len() && bare_spec(#[trigger] s[k]) == n;
        assert(s.contains(s[k]));
    }
}

proof fn lemma_both(a: Seq<Seq<char>>, b: Seq<Seq<char>>, n: Seq<char>)
    ensures
        (a + b).contains(n) <==> a.contains(n) || b.contains(n),
{
    if (a + b).contains(n) {
        let k = choose|k: int| 0 <= k < (a + b).len() && (a + b)[k] == n;
        if k < a.len() {
            assert(a[k] == n);
        } else {
            assert(b[k - a.len()] == n);
        }
    }
    if a.contains(n) {
        let k = choose|k: int| 0 <= k < a.len() && a[k] == n;
        assert((a + b)[k] == n);
    }
    if b.contains(n) {
        let k = choose|k: int| 0 <= k < b.len() && b[k] == n;
        assert((a + b)[a.len() + k] == n);
    }
}

/// For building, an entry needs what its makedepends and its checkdepends name, and
/// nothing else; in all it needs what its depends name too.
pub proof fn law_what_an_entry_needs(e: EntryView, n: Seq<char>)
    ensures
        build_needs(e).contains(n) <==> asks_for(e.makedepends, n) || asks_for(e.checkdepends, n),
        all_needs(e).contains(n) <==> asks_for(e.depends, n) || asks_for(e.makedepends, n)
            || asks_for(e.checkdepends, n),
{
    lemma_asks_for(e.depends, n);
    lemma_asks_for(e.makedepends, n);
    lemma_asks_for(e.checkdepends, n);
    lemma_both(dep_names(e.makedepends), dep_names(e.checkdepends), n);
    lemma_both(dep_names(e.depends), build_needs(e), n);
}

/// What the user named is needed.
pub proof fn law_every_target_is_needed(w: World, rep: Chosen, t: Seq<char>)
    requires
        w.targets.contains(t),
    ensures
        w.is_needed(rep, (Item { target: t, direct: true })),
{
    let i = choose|i: int| 0 <= i < w.targets.len() && w.targets[i] == t;
    assert forall|s: Set<Item>| #[trigger] w.is_closed(rep, s) implies s.contains(
        (Item { target: t, direct: true }),
    ) by {
        assert(s.contains((Item { target: w.targets[i], direct: true })));
    }
}

proof fn lemma_next_is_needed(w: World, rep: Chosen, x: Item, t: Seq<char>)
    requires
        w.is_needed(rep, x),
        w.next(rep, x).contains(t),
    ensures
        w.is_needed(rep, (Item { target: t, direct: false })),
{
    let next = w.next(rep, x);
    let k = choose|k: int| 0 <= k < next.len() && next[k] == t;
    assert forall|s: Set<Item>| #[trigger] w.is_closed(rep, s) implies s.contains(
        (Item { target: t, direct: false }),
    ) by {
        assert(s.contains(x));
        assert(s.contains((Item { target: w.next(rep, x)[k], direct: false })));
    }
}

/// Whatever a needed pkgbase names in its depends, makedepends or checkdepends is
/// needed too, whatever version it asks for.
pub proof fn law_dependencies_of_an_entry_are_needed(
    w: World,
    rep: Chosen,
    b: Seq<char>,
    d: Seq<char>,
)
    requires
        w.is_choice(rep),
        rep.dom().contains(b),
        w.rows[rep[b]].depends.contains(d) || w.rows[rep[b]].makedepends.contains(d)
            || w.rows[rep[b]].checkdepends.contains(d),
        bare_spec(d).len() > 0,
    ensures
        w.is_needed(rep, (Item { target: bare_spec(d), direct: false })),
{
    let x = choose|x: Item| #[trigger] w.needs_entry(rep, x, rep[b]);
    let e = w.rows[rep[b]];
    let n = bare_spec(d);
    law_what_an_entry_needs(e, n);
    assert(asks_for(e.depends, n) || asks_for(e.makedepends, n) || asks_for(e.checkdepends, n));
    assert(w.next(rep, x) == all_needs(e));
    lemma_next_is_needed(w, rep, x, n);
}

/// Whatever a needed package of a sync repository names in its dependencies is needed
/// too.
pub proof fn law_dependencies_of_a_package_are_needed(
    w: World,
    rep: Chosen,
    x: Item,
    c: Seq<char>,
    d: Seq<char>,
)
    requires
        w.is_needed(rep, x),
        w.source(x) == SourceView::Repo(c),
        w.pac.sync_depends@.dom().contains(c),
        crate::names::pkgtarget_views(w.pac.sync_depends@[c]@).contains(d),
        bare_spec(d).len() > 0,
    ensures
        w.is_needed(rep, (Item { target: d, direct: false })),
{
    law_every_naming_expression_counts(w.pac.needs(c), d);
    lemma_next_is_needed(w, rep, x, d);
}

/// `x` is the name of a dependency of a needed pkgbase, or a dependency of a needed
/// package of a sync repository.
pub open spec fn is_asked_for(w: World, rep: Chosen, x: Item) -> bool {
    ||| exists|b: Seq<char>| #[trigger]
        rep.dom().contains(b) && (asks_for(w.rows[rep[b]].depends, x.target) || asks_for(
            w.rows[rep[b]].makedepends,
            x.target,
        ) || asks_for(w.rows[rep[b]].checkdepends, x.target))
    ||| exists|y: Item| #[trigger]
        w.is_needed(rep, y) && (w.source(y) matches SourceView::Repo(c)
            && w.pac.sync_depends@.dom().contains(c) && crate::names::pkgtarget_views(
            w.pac.sync_depends@[c]@,
        ).contains(x.target))
}

/// Nothing is needed but what the user named and what something needed asks for.
pub proof fn law_nothing_else_is_needed(w: World, rep: Chosen, x: Item)
    requires
        w.is_needed(rep, x),
    ensures
        if x.direct {
            w.targets.contains(x.target)
        } else {
            is_asked_for(w, rep, x)
        },
{
    let s = Set::new(
        |y: Item| w.is_needed(rep, y) && if y.direct {
            w.targets.contains(y.target)
        } else {
            is_asked_for(w, rep, y)
        },
    );
    assert(w.is_closed(rep, s)) by {
        assert forall|i: int| 0 <= i < w.targets.len() implies s.contains(
            (Item { target: #[trigger] w.targets[i], direct: true }),
        ) by {
            law_every_target_is_needed(w, rep, w.targets[i]);
        }
        assert forall|y: Item, k: int|
            s.contains(y) && 0 <= k < w.next(rep, y).len() implies s.contains(
            (Item { target: #[trigger] w.next(rep, y)[k], direct: false }),
        ) by {
            let t = w.next(rep, y)[k];
            assert(w.next(rep, y).contains(t));
            lemma_next_is_needed(w, rep, y, t);
            match w.source(y) {
                SourceView::Repo(c) => {
                    law_every_naming_expression_counts(w.pac.needs(c), t);
                    assert(w.is_needed(rep, y));
                },
                SourceView::Aur(i) => {
                    let b = w.rows[i].pkgbase;
                    assert(rep.dom().contains(b));
                    law_what_an_entry_needs(w.rows[rep[b]], t);
                },
                _ => {},
            }
        }
    }
    assert(s.contains(x));
}

/// The dependencies of a pkgbase in the graph of needs are all but those that name the
/// pkgbase itself.
pub proof fn law_a_pkgbase_does_not_wait_for_itself(s: Seq<Seq<char>>, b: Seq<char>, t: Seq<char>)
    ensures
        others(s, b).contains(t) <==> s.contains(t) && bare_spec(t) != b,
    decreases s.len(),
{
    if s.len() > 0 {
        let r = s.drop_last();
        let rest = others(r, b);
        let all = others(s, b);
        law_a_pkgbase_does_not_wait_for_itself(r, b, t);
        if all.contains(t) {
            let k = choose|k: int| 0 <= k < all.len() && all[k] == t;
            if k < rest.len() {
                assert(rest[k] == t);
                let j = choose|j: int| 0 <= j < r.len() && r[j] == t;
                assert(s[j] == t);
            } else {
                assert(s[s.len() - 1] == t);
            }
        }
        if s.contains(t) && bare_spec(t) != b {
            let k = choose|k: int| 0 <= k < s.len() && s[k] == t;
            if k < r.len() {
                assert(r[k] == t);
                let j = choose|j: int| 0 <= j < rest.len() && rest[j] == t;
                assert(all[j] == t);
            } else {
                assert(all[rest.len() as int] == t);
            }
        }
    }
}

/// A pkgbase waits for exactly the other pkgbases that own one of the names.
pub proof fn law_a_pkgbase_waits_for_the_owners(
    s: Seq<Seq<char>>,
    owner: Map<Seq<char>, Seq<char>>,
    b: Seq<char>,
    o: Seq<char>,
)
    ensures
        owners(s, owner, b).contains(o) <==> o != b && exists|k: int|
            0 <= k < s.len() && owner.dom().contains(bare_spec(#[trigger] s[k]))
                && owner[bare_spec(s[k])] == o,
    decreases s.len(),
{
    if s.len() > 0 {
        let r = s.drop_last();
        let rest = owners(r, owner, b);
        let all = owners(s, owner, b);
        law_a_pkgbase_waits_for_the_owners(r, owner, b, o);
        if all.contains(o) {
            let k = choose|k: int| 0 <= k < all.len() && all[k] == o;
            if k < rest.len() {
                assert(rest[k] == o);
                let j = choose|j: int|
                    0 <= j < r.len() && owner.dom().contains(bare_spec(#[trigger] r[j]))
                        && owner[bare_spec(r[j])] == o;
                assert(s[j] == r[j]);
            } else {
                assert(owner[bare_spec(s[s.len() - 1])] == o);
            }
        }
        if o != b && exists|k: int|
            0 <= k < s.len() && owner.dom().contains(bare_spec(#[trigger] s[k]))
                && owner[bare_spec(s[k])] == o {
            let k = choose|k: int|
                0 <= k < s.len() && owner.dom().contains(bare_spec(#[trigger] s[k]))
                    && owner[bare_spec(s[k])] == o;
            if k < r.len() {
                assert(r[k] == s[k]);
                let j = choose|j: int| 0 <= j < rest.len() && rest[j] == o;
                assert(all[j] == o);
            } else {
                assert(all[rest.len() as int] == o);
            }
        }
    }
}

/// `b` is built in stratum `l`.
pub open spec fn is_built_in(plan: Plan, b: Seq<char>, l: int) -> bool {
    0 <= l < plan.aur_strata@.len() && strata_views(plan.aur_strata@)[l].contains(b)
}

/// `n` is there once the plan is done: it is installed, or the plan installs the
/// package that has it, or builds the pkgbase that has it.
pub open spec fn is_provided_for(w: World, plan: Plan, x: Item) -> bool {
    match w.source(x) {
        SourceView::Installed(_) => true,
        SourceView::Repo(c) => views(plan.direct_repo@).contains(c) || views(
            plan.transitive_repo@,
        ).contains(c),
        SourceView::Aur(i) => exists|l: int| #[trigger] is_built_in(plan, w.rows[i].pkgbase, l),
        SourceView::Missing => false,
    }
}

proof fn lemma_provided_for(w: World, done: Seq<Item>, plan: Plan, x: Item)
    requires
        w.is_complete(done),
        outcome_is(w, done, Ok::<Plan, Error>(plan)),
        w.is_needed(w.chosen(done), x),
    ensures
        is_provided_for(w, plan, x),
{
    let rep = w.chosen(done);
    match w.source(x) {
        SourceView::Installed(_) => {},
        SourceView::Repo(c) => {
            assert(w.needs_repo(rep, c, w.is_direct(x)));
            assert(views(plan.direct_repo@).contains(c) <==> w.needs_repo(rep, c, true));
            assert(views(plan.transitive_repo@).contains(c) <==> w.needs_repo(rep, c, false)
                && !w.needs_repo(rep, c, true));
        },
        SourceView::Aur(i) => {
            assert(w.needs_entry(rep, x, i));
            assert(rep.dom().contains(w.rows[i].pkgbase));
            let strata = strata_views(plan.aur_strata@);
            let b = w.rows[i].pkgbase;
            let l = choose|l: int| 0 <= l < strata.len() && (#[trigger] strata[l]).contains(b);
            assert(is_built_in(plan, b, l));
        },
        SourceView::Missing => {
            assert(w.lacks(rep, bare_spec(x.target)));
            assert(w.missing(rep).contains(bare_spec(x.target)));
        },
    }
}

/// Where there is a plan, every target is provided for.
pub proof fn law_every_target_is_provided_for(
    w: World,
    done: Seq<Item>,
    plan: Plan,
    t: Seq<char>,
)
    requires
        w.is_complete(done),
        outcome_is(w, done, Ok::<Plan, Error>(plan)),
        w.targets.contains(t),
    ensures
        is_provided_for(w, plan, (Item { target: t, direct: true })),
        match w.source(Item { target: t, direct: true }) {
            SourceView::Repo(c) => views(plan.direct_repo@).contains(c),
            SourceView::Aur(i) => plan.direct_aur@.contains(w.rows[i].pkgbase),
            _ => true,
        },
{
    let rep = w.chosen(done);
    let x = Item { target: t, direct: true };
    law_every_target_is_needed(w, rep, t);
    lemma_provided_for(w, done, plan, x);
    match w.source(x) {
        SourceView::Repo(c) => {
            assert(w.is_direct(x));
            assert(w.needs_repo(rep, c, true));
            assert(views(plan.direct_repo@).contains(c) <==> w.needs_repo(rep, c, true));
        },
        SourceView::Aur(i) => {
            assert(w.needs_entry(rep, x, i));
            assert(w.names_base(rep, w.rows[i].pkgbase));
        },
        _ => {},
    }
}

/// Where there is a plan, every dependency of every pkgbase that it builds is provided
/// for, whatever version it asks for.
pub proof fn law_every_dependency_is_provided_for(
    w: World,
    done: Seq<Item>,
    plan: Plan,
    b: Seq<char>,
    l: int,
    d: Seq<char>,
) -> (i: int)
    requires
        w.is_complete(done),
        outcome_is(w, done, Ok::<Plan, Error>(plan)),
        is_built_in(plan, b, l),
    ensures
        0 <= i < w.rows.len(),
        w.rows[i].pkgbase == b,
        (w.rows[i].depends.contains(d) || w.rows[i].makedepends.contains(d)
            || w.rows[i].checkdepends.contains(d)) && bare_spec(d).len() > 0 ==> is_provided_for(
            w,
            plan,
            (Item { target: bare_spec(d), direct: false }),
        ),
{
    let rep = w.chosen(done);
    let strata = strata_views(plan.aur_strata@);
    assert(strata[l].contains(b));
    assert(rep.dom().contains(b));
    let i = rep[b];
    if (w.rows[i].depends.contains(d) || w.rows[i].makedepends.contains(d)
        || w.rows[i].checkdepends.contains(d)) && bare_spec(d).len() > 0 {
        law_dependencies_of_an_entry_are_needed(w, rep, b, d);
        lemma_provided_for(w, done, plan, (Item { target: bare_spec(d), direct: false }));
    }
    i
}

/// Where there is a plan, what a package of a sync repository that it installs depends
/// on is provided for.
pub proof fn law_every_package_dependency_is_provided_for(
    w: World,
    done: Seq<Item>,
    plan: Plan,
    c: Seq<char>,
    d: Seq<char>,
)
    requires
        w.is_complete(done),
        outcome_is(w, done, Ok::<Plan, Error>(plan)),
        views(plan.direct_repo@).contains(c) || views(plan.transitive_repo@).contains(c),
        w.pac.sync_depends@.dom().contains(c),
        crate::names::pkgtarget_views(w.pac.sync_depends@[c]@).contains(d),
        bare_spec(d).len() > 0,
    ensures
        is_provided_for(w, plan, (Item { target: d, direct: false })),
{
    let rep = w.chosen(done);
    assert(views(plan.direct_repo@).contains(c) <==> w.needs_repo(rep, c, true));
    assert(views(plan.transitive_repo@).contains(c) ==> w.needs_repo(rep, c, false));
    let direct = w.needs_repo(rep, c, true);
    let x = choose|x: Item| #[trigger]
        w.is_needed(rep, x) && w.source(x) == SourceView::Repo(c) && w.is_direct(x) == direct;
    law_dependencies_of_a_package_are_needed(w, rep, x, c, d);
    lemma_provided_for(w, done, plan, (Item { target: d, direct: false }));
}

/// `o` is a needed pkgbase that has the pkgname `n`.
pub open spec fn has_needed(w: World, rep: Chosen, o: Seq<char>, n: Seq<char>) -> bool {
    exists|x: Item, i: int| #[trigger]
        w.needs_entry(rep, x, i) && has_pkgname(w.rows[i], n) && w.rows[i].pkgbase == o
}

/// Where there is a plan and the pkgbase `b` names `d` in its makedepends or
/// checkdepends, a needed pkgbase that has the package of that name is among the edges
/// of `b` and is built in an earlier stratum, if there is one other than `b`.
pub proof fn law_what_a_build_needs_is_built_before(
    w: World,
    done: Seq<Item>,
    plan: Plan,
    b: Seq<char>,
    l: int,
    d: Seq<char>,
    other: Seq<char>,
) -> (i: int)
    requires
        w.is_complete(done),
        outcome_is(w, done, Ok::<Plan, Error>(plan)),
        is_built_in(plan, b, l),
        bare_spec(d).len() > 0,
        has_needed(w, w.chosen(done), other, bare_spec(bare_spec(d))),
        !has_needed(w, w.chosen(done), b, bare_spec(bare_spec(d))),
    ensures
        0 <= i < w.rows.len(),
        w.rows[i].pkgbase == b,
        w.rows[i].makedepends.contains(d) || w.rows[i].checkdepends.contains(d) ==> exists|
            o: Seq<char>,
            m: int,
        |
            0 <= m < l && #[trigger] is_built_in(plan, o, m) && has_needed(
                w,
                w.chosen(done),
                o,
                bare_spec(bare_spec(d)),
            ) && plan.aur_make_edges@.dom().contains(b) && pkgbase_views(
                plan.aur_make_edges@[b]@,
            ).contains(o),
{
    let rep = w.chosen(done);
    let owner = w.owned(done);
    let strata = strata_views(plan.aur_strata@);
    let name = bare_spec(d);
    let n = bare_spec(name);
    let g = w.make_graph(rep, owner);
    assert(strata[l].contains(b));
    assert(rep.dom().contains(b));
    let i = rep[b];
    let e = w.rows[i];
    if e.makedepends.contains(d) || e.checkdepends.contains(d) {
        law_what_an_entry_needs(e, name);
        assert(asks_for(e.makedepends, name) || asks_for(e.checkdepends, name));
        let needs = build_needs(e);
        let k = choose|k: int| 0 <= k < needs.len() && needs[k] == name;
        let (x, j) = choose|x: Item, j: int| #[trigger]
            w.needs_entry(rep, x, j) && has_pkgname(w.rows[j], n) && w.rows[j].pkgbase == other;
        assert(w.needs_entry(rep, x, j));
        assert(owner.dom().contains(n));
        let (y, q) = choose|y: Item, q: int| #[trigger]
            w.needs_entry(rep, y, q) && has_pkgname(w.rows[q], n) && owner[n] == w.rows[q].pkgbase;
        let o = owner[n];
        assert(w.needs_entry(rep, y, q));
        assert(has_needed(w, rep, o, n));
        assert(rep.dom().contains(o));
        assert(bare_spec(needs[k]) == n);
        law_a_pkgbase_waits_for_the_owners(needs, owner, b, o);
        assert(g[b] == owners(needs, owner, b));
        assert(edge(g, rep.dom(), b, o));
        assert(plan.aur_make_edges@.dom().contains(b) <==> g.dom().contains(b));
        let m = choose|m: int| 0 <= m < l && (#[trigger] strata[m]).contains(o);
        assert(is_built_in(plan, o, m));
    }
    i
}

/// Where there is a plan, each pkgbase is built once, and in a later stratum than the
/// first only where it waits for one of the stratum just before.
pub proof fn law_builds_are_as_early_as_they_can_be(
    w: World,
    done: Seq<Item>,
    plan: Plan,
    b: Seq<char>,
    l: int,
)
    requires
        outcome_is(w, done, Ok::<Plan, Error>(plan)),
        is_built_in(plan, b, l),
    ensures
        forall|m: int| #[trigger] is_built_in(plan, b, m) ==> m == l,
        l > 0 ==> exists|o: Seq<char>| #[trigger]
            is_built_in(plan, o, l - 1) && pkgbase_views(plan.aur_make_edges@[b]@).contains(o),
{
    let rep = w.chosen(done);
    let g = w.make_graph(rep, w.owned(done));
    let strata = strata_views(plan.aur_strata@);
    assert(strata[l].contains(b));
    assert forall|m: int| #[trigger] is_built_in(plan, b, m) implies m == l by {
        assert(strata[m].contains(b));
    }
    if l > 0 {
        let o = choose|o: Seq<char>| #[trigger]
            edge(g, rep.dom(), b, o) && strata[l - 1].contains(o);
        assert(is_built_in(plan, o, l - 1));
        assert(plan.aur_make_edges@.dom().contains(b) <==> g.dom().contains(b));
    }
}

/// A name is had from the first of these that has it: the installed package of that
/// name, the first installed package that provides it, the sync package of that name,
/// the first sync package that provides it, the AUR, nobody.
pub proof fn law_where_a_name_is_had(
    by: Lookup,
    rows: Seq<EntryView>,
    pac: PacmanIndex,
    n: Seq<char>,
)
    ensures
        ({
            let s = source_spec(classify_spec(by, rows, pac, n));
            let here = pac.installed@.dom().contains(n);
            let here_too = pac.installed_providers@.dom().contains(n)
                && pac.installed_providers@[n]@.len() > 0;
            let there = pac.sync_versions@.dom().contains(n);
            let there_too = pac.sync_providers@.dom().contains(n) && pac.sync_providers@[n]@.len()
                > 0;
            &&& here ==> s == SourceView::Installed(n)
            &&& !here && here_too ==> s == SourceView::Installed(
                pac.installed_providers@[n]@[0]@,
            )
            &&& !here && !here_too && there ==> s == SourceView::Repo(n)
            &&& !here && !here_too && !there && there_too ==> s == SourceView::Repo(
                pac.sync_providers@[n]@[0]@,
            )
            &&& !here && !here_too && !there && !there_too ==> match aur_claim(by, rows, n) {
                Some((i, _)) => s == SourceView::Aur(i),
                None => s == SourceView::Missing,
            }
        }),
{
}

/// In the AUR a name is had from the entry that has it as a pkgname, else from the one
/// that provides it, else from the one whose pkgbase it is.
pub proof fn law_where_the_aur_has_a_name(by: Lookup, rows: Seq<EntryView>, n: Seq<char>)
    ensures
        by.by_name@.dom().contains(n) ==> aur_claim(by, rows, n) == Some(
            (by.by_name@[n] as int, AurViaView::Pkgname),
        ),
        !by.by_name@.dom().contains(n) ==> (by.provider_hit(rows, bare_spec(n)) matches Some((i, p))
            ==> aur_claim(by, rows, n) == Some((i as int, AurViaView::Provides(p)))),
        !by.by_name@.dom().contains(n) && by.provider_hit(rows, bare_spec(n)) is None
            && by.by_pkgbase@.dom().contains(n) ==> aur_claim(by, rows, n) == Some(
            (by.by_pkgbase@[n] as int, AurViaView::Pkgbase),
        ),
        !by.by_name@.dom().contains(n) && by.provider_hit(rows, bare_spec(n)) is None
            && !by.by_pkgbase@.dom().contains(n) ==> aur_claim(by, rows, n) is None,
{
}

/// What the user named is built anew although it is installed, if the AUR has it. What
/// only came up as a dependency is left as it is.
pub proof fn law_what_is_named_is_built_anew(w: World, t: Seq<char>)
    requires
        w.pac.installed@.dom().contains(bare_spec(t)),
    ensures
        w.source(Item { target: t, direct: false }) == SourceView::Installed(bare_spec(t)),
        match w.by.primary(bare_spec(t)) {
            Some(i) => w.source(Item { target: t, direct: true }) == SourceView::Aur(i as int),
            None => w.source(Item { target: t, direct: true }) == SourceView::Installed(
                bare_spec(t),
            ),
        },
{
}

} // verus!
