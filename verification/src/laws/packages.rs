//! What pacman's databases say, and which installed package an entry displaces.

use vstd::prelude::*;

use crate::index::schema::EntryView;
use crate::names::{bare_spec, PkgName};
use crate::pacman::alpm_db::{
    bares, counterpart_spec, first_in, first_named, in_turn, last_named, own_names, provided_by,
    provided_names, record_views, times, MatchedVia, PkgRecord, RecordView,
};
use crate::resolver::conflict::{conflict_text, is_blocking, is_clear, Declarer};

verus! {

proof fn lemma_first_in(names: Seq<Seq<char>>, dom: Set<Seq<char>>)
    ensures
        match first_in(names, dom) {
            Some(n) => exists|i: int|
                0 <= i < names.len() && #[trigger] names[i] == n && dom.contains(n) && (forall|
                    j: int,
                |
                    0 <= j < i ==> !dom.contains(#[trigger] names[j])),
            None => forall|j: int| 0 <= j < names.len() ==> !dom.contains(#[trigger] names[j]),
        },
    decreases names.len(),
{
    if names.len() > 0 {
        let r = names.drop_last();
        lemma_first_in(r, dom);
        match first_in(r, dom) {
            Some(n) => {
                let i = choose|i: int|
                    0 <= i < r.len() && #[trigger] r[i] == n && dom.contains(n) && (forall|j: int|
                        0 <= j < i ==> !dom.contains(#[trigger] r[j]));
                assert(names[i] == n);
                assert forall|j: int| 0 <= j < i implies !dom.contains(#[trigger] names[j]) by {
                    assert(r[j] == names[j]);
                }
            },
            None => {
                assert forall|j: int| 0 <= j < names.len() - 1 implies !dom.contains(
                    #[trigger] names[j],
                ) by {
                    assert(r[j] == names[j]);
                }
                assert(names[names.len() - 1] == names.last());
            },
        }
    }
}

/// The entry has the pkgname `n`.
pub open spec fn has_it(e: EntryView, n: Seq<char>) -> bool {
    exists|i: int| 0 <= i < e.pkgnames.len() && (#[trigger] e.pkgnames[i]).name == n
}

/// One of the expressions has the name `n`.
pub open spec fn names_it(s: Seq<Seq<char>>, n: Seq<char>) -> bool {
    exists|i: int| 0 <= i < s.len() && bare_spec(#[trigger] s[i]) == n
}

/// The entry or one of its pkgnames provides `n`.
pub open spec fn provides_it(e: EntryView, n: Seq<char>) -> bool {
    names_it(e.provides, n) || exists|i: int|
        0 <= i < e.pkgnames.len() && names_it((#[trigger] e.pkgnames[i]).provides, n)
}

proof fn lemma_own(e: EntryView, n: Seq<char>)
    ensures
        own_names(e.pkgnames).contains(n) <==> has_it(e, n),
{
    let own = own_names(e.pkgnames);
    if own.contains(n) {
        let i = choose|i: int| 0 <= i < own.len() && own[i] == n;
        assert(e.pkgnames[i].name == n);
    }
    if has_it(e, n) {
        let i = choose|i: int| 0 <= i < e.pkgnames.len() && (#[trigger] e.pkgnames[i]).name == n;
        assert(own[i] == n);
    }
}

proof fn lemma_bares(s: Seq<Seq<char>>, n: Seq<char>)
    ensures
        bares(s).contains(n) <==> names_it(s, n),
{
    let b = bares(s);
    if b.contains(n) {
        let i = choose|i: int| 0 <= i < b.len() && b[i] == n;
        assert(bare_spec(s[i]) == n);
    }
    if names_it(s, n) {
        let i = choose|i: int| 0 <= i < s.len() && bare_spec(#[trigger] s[i]) == n;
        assert(b[i] == n);
    }
}

proof fn lemma_provided(e: EntryView, n: Seq<char>)
    ensures
        provided_names(e).contains(n) <==> provides_it(e, n),
{
    let scoped = crate::index::schema::scoped_provides_spec(e.pkgnames);
    let a = bares(scoped);
    let b = bares(e.provides);
    lemma_bares(e.provides, n);
    lemma_bares(scoped, n);
    assert((a + b).contains(n) <==> a.contains(n) || b.contains(n)) by {
        if (a + b).contains(n) {
            let k = choose|k: int| 0 <= k < (a + b).len() && (a + b)[k] == n;
            if k < a.len() {
                assert(a[k] == n);
            } else {
                assert(b[k - a.len()] == n);
            }
        }
        if a.contains(n) {
            let k = choose|k: int| 0 <= k < a.len() && a[k] == n;
            assert((a + b)[k] == n);
        }
        if b.contains(n) {
            let k = choose|k: int| 0 <= k < b.len() && b[k] == n;
            assert((a + b)[a.len() + k] == n);
        }
    }
    lemma_scoped(e.pkgnames, n);
}

proof fn lemma_scoped(p: Seq<crate::index::schema::PkgnameView>, n: Seq<char>)
    ensures
        names_it(crate::index::schema::scoped_provides_spec(p), n) <==> exists|i: int|
            0 <= i < p.len() && names_it((#[trigger] p[i]).provides, n),
    decreases p.len(),
{
    if p.len() > 0 {
        let r = p.drop_last();
        let last = p.len() - 1;
        let rest = crate::index::schema::scoped_provides_spec(r);
        let own = p.last().provides;
        let all = crate::index::schema::scoped_provides_spec(p);
        lemma_scoped(r, n);
        if names_it(all, n) {
            let k = choose|k: int| 0 <= k < all.len() && bare_spec(#[trigger] all[k]) == n;
            if k < rest.len() {
                assert(rest[k] == all[k]);
                let i = choose|i: int| 0 <= i < r.len() && names_it((#[trigger] r[i]).provides, n);
                assert(p[i] == r[i]);
            } else {
                assert(own[k - rest.len()] == all[k]);
                assert(names_it(p[last].provides, n));
            }
        }
        if exists|i: int| 0 <= i < p.len() && names_it((#[trigger] p[i]).provides, n) {
            let i = choose|i: int| 0 <= i < p.len() && names_it((#[trigger] p[i]).provides, n);
            if i < r.len() {
                assert(r[i] == p[i]);
                let k = choose|k: int| 0 <= k < rest.len() && bare_spec(#[trigger] rest[k]) == n;
                assert(all[k] == rest[k]);
            } else {
                let k = choose|k: int| 0 <= k < own.len() && bare_spec(#[trigger] own[k]) == n;
                assert(all[rest.len() + k] == own[k]);
            }
        }
    }
}

/// A hint that is installed and to which the entry refers decides which installed
/// package the entry displaces. How the entry refers to it is told: as one of its own
/// pkgnames, else as what it replaces, else as what it provides.
pub proof fn law_a_sound_hint_decides(e: EntryView, dom: Set<Seq<char>>, h: Seq<char>)
    requires
        dom.contains(h),
    ensures
        has_it(e, h) ==> counterpart_spec(e, dom, Some(h)) == Some((h, MatchedVia::Pkgname)),
        !has_it(e, h) && names_it(e.replaces, h) ==> counterpart_spec(e, dom, Some(h)) == Some(
            (h, MatchedVia::Replaces),
        ),
        !has_it(e, h) && !names_it(e.replaces, h) && provides_it(e, h) ==> counterpart_spec(
            e,
            dom,
            Some(h),
        ) == Some((h, MatchedVia::Provides)),
{
    lemma_own(e, h);
    lemma_bares(e.replaces, h);
    lemma_provided(e, h);
}

/// A hint that is not installed, or to which the entry does not refer, is as good as
/// none.
pub proof fn law_other_hints_do_not_count(e: EntryView, dom: Set<Seq<char>>, h: Seq<char>)
    requires
        !dom.contains(h) || (!has_it(e, h) && !names_it(e.replaces, h) && !provides_it(e, h)),
    ensures
        counterpart_spec(e, dom, Some(h)) == counterpart_spec(e, dom, None),
{
    lemma_own(e, h);
    lemma_bares(e.replaces, h);
    lemma_provided(e, h);
}

/// Without a hint an entry displaces the first of its pkgnames that is installed; where
/// none is, the first that it replaces; where none of those is either, one that it
/// provides; and nothing where none is installed.
pub proof fn law_what_an_entry_displaces(e: EntryView, dom: Set<Seq<char>>)
    ensures
        forall|i: int|
            0 <= i < e.pkgnames.len() && dom.contains((#[trigger] e.pkgnames[i]).name) && (forall|
                j: int,
            |
                0 <= j < i ==> !dom.contains((#[trigger] e.pkgnames[j]).name)) ==> counterpart_spec(
                e,
                dom,
                None,
            ) == Some((e.pkgnames[i].name, MatchedVia::Pkgname)),
        (forall|i: int| 0 <= i < e.pkgnames.len() ==> !dom.contains((#[trigger] e.pkgnames[i]).name))
            ==> {
            &&& forall|i: int|
                0 <= i < e.replaces.len() && dom.contains(bare_spec(#[trigger] e.replaces[i])) && (
                forall|j: int| 0 <= j < i ==> !dom.contains(bare_spec(#[trigger] e.replaces[j])))
                    ==> counterpart_spec(e, dom, None) == Some(
                    (bare_spec(e.replaces[i]), MatchedVia::Replaces),
                )
            &&& (forall|i: int|
                0 <= i < e.replaces.len() ==> !dom.contains(bare_spec(#[trigger] e.replaces[i])))
                ==> match counterpart_spec(e, dom, None) {
                Some((n, via)) => dom.contains(n) && provides_it(e, n) && via
                    == MatchedVia::Provides,
                None => forall|n: Seq<char>| dom.contains(n) ==> !#[trigger] provides_it(e, n),
            }
        },
{
    let own = own_names(e.pkgnames);
    let repl = bares(e.replaces);
    let prov = provided_names(e);
    lemma_first_in(own, dom);
    lemma_first_in(repl, dom);
    lemma_first_in(prov, dom);
    assert forall|i: int| 0 <= i < e.pkgnames.len() implies own[i] == (
    #[trigger] e.pkgnames[i]).name by {}
    assert forall|i: int| 0 <= i < e.replaces.len() implies repl[i] == bare_spec(
        #[trigger] e.replaces[i],
    ) by {}
    assert forall|i: int|
        0 <= i < e.pkgnames.len() && dom.contains((#[trigger] e.pkgnames[i]).name) && (forall|j: int|
            0 <= j < i ==> !dom.contains((#[trigger] e.pkgnames[j]).name)) implies first_in(own, dom)
        == Some(e.pkgnames[i].name) by {
        assert(dom.contains(own[i]));
        let n = first_in(own, dom)->0;
        let k = choose|k: int|
            0 <= k < own.len() && #[trigger] own[k] == n && dom.contains(n) && (forall|j: int|
                0 <= j < k ==> !dom.contains(#[trigger] own[j]));
        if k < i {
            assert(!dom.contains(e.pkgnames[k].name));
        }
        if i < k {
            assert(!dom.contains(own[i]));
        }
    }
    if forall|i: int| 0 <= i < e.pkgnames.len() ==> !dom.contains((#[trigger] e.pkgnames[i]).name) {
        if first_in(own, dom) is Some {
            let n = first_in(own, dom)->0;
            let k = choose|k: int| 0 <= k < own.len() && #[trigger] own[k] == n && dom.contains(n);
            assert(!dom.contains(e.pkgnames[k].name));
        }
        assert forall|i: int|
            0 <= i < e.replaces.len() && dom.contains(bare_spec(#[trigger] e.replaces[i])) && (
            forall|j: int|
                0 <= j < i ==> !dom.contains(bare_spec(#[trigger] e.replaces[j]))) implies first_in(
            repl,
            dom,
        ) == Some(bare_spec(e.replaces[i])) by {
            assert(dom.contains(repl[i]));
            let n = first_in(repl, dom)->0;
            let k = choose|k: int|
                0 <= k < repl.len() && #[trigger] repl[k] == n && dom.contains(n) && (forall|j: int|
                    0 <= j < k ==> !dom.contains(#[trigger] repl[j]));
            if k < i {
                assert(!dom.contains(bare_spec(e.replaces[k])));
            }
            if i < k {
                assert(!dom.contains(repl[i]));
            }
        }
        if forall|i: int|
            0 <= i < e.replaces.len() ==> !dom.contains(bare_spec(#[trigger] e.replaces[i])) {
            if first_in(repl, dom) is Some {
                let n = first_in(repl, dom)->0;
                let k = choose|k: int|
                    0 <= k < repl.len() && #[trigger] repl[k] == n && dom.contains(n);
                assert(!dom.contains(bare_spec(e.replaces[k])));
            }
            match first_in(prov, dom) {
                Some(n) => {
                    lemma_provided(e, n);
                },
                None => {
                    assert forall|n: Seq<char>| dom.contains(n) implies !#[trigger] provides_it(
                        e,
                        n,
                    ) by {
                        lemma_provided(e, n);
                        if prov.contains(n) {
                            let k = choose|k: int| 0 <= k < prov.len() && prov[k] == n;
                            assert(!dom.contains(prov[k]));
                        }
                    }
                },
            }
        }
    }
}

/// Where an entry displaces what it provides, the claims of its pkgnames go before those
/// of the pkgbase.
pub proof fn law_claims_of_pkgnames_go_first(e: EntryView, dom: Set<Seq<char>>, m: Seq<char>)
    requires
        dom.contains(m),
        exists|i: int| 0 <= i < e.pkgnames.len() && names_it((#[trigger] e.pkgnames[i]).provides, m),
        forall|i: int| 0 <= i < e.pkgnames.len() ==> !dom.contains((#[trigger] e.pkgnames[i]).name),
        forall|i: int| 0 <= i < e.replaces.len() ==> !dom.contains(bare_spec(#[trigger] e.replaces[i])),
    ensures
        counterpart_spec(e, dom, None) matches Some((n, MatchedVia::Provides)) && dom.contains(n)
            && exists|i: int|
            0 <= i < e.pkgnames.len() && names_it((#[trigger] e.pkgnames[i]).provides, n),
{
    law_what_an_entry_displaces(e, dom);
    assert(provides_it(e, m));
    let scoped = crate::index::schema::scoped_provides_spec(e.pkgnames);
    let a = bares(scoped);
    let prov = provided_names(e);
    lemma_scoped(e.pkgnames, m);
    lemma_bares(scoped, m);
    let k = choose|k: int| 0 <= k < a.len() && a[k] == m;
    assert(prov[k] == m);
    lemma_first_in(prov, dom);
    lemma_first_in(own_names(e.pkgnames), dom);
    lemma_first_in(bares(e.replaces), dom);
    if first_in(own_names(e.pkgnames), dom) is Some {
        let n = first_in(own_names(e.pkgnames), dom)->0;
        let i = choose|i: int|
            0 <= i < own_names(e.pkgnames).len() && #[trigger] own_names(e.pkgnames)[i] == n
                && dom.contains(n);
        assert(e.pkgnames[i].name == n);
    }
    if first_in(bares(e.replaces), dom) is Some {
        let n = first_in(bares(e.replaces), dom)->0;
        let i = choose|i: int|
            0 <= i < bares(e.replaces).len() && #[trigger] bares(e.replaces)[i] == n
                && dom.contains(n);
        assert(bare_spec(e.replaces[i]) == n);
    }
    assert(dom.contains(prov[k]));
    let n = first_in(prov, dom)->0;
    let i = choose|i: int|
        0 <= i < prov.len() && #[trigger] prov[i] == n && dom.contains(n) && (forall|j: int|
            0 <= j < i ==> !dom.contains(#[trigger] prov[j]));
    if k < i {
        assert(!dom.contains(prov[k]));
    }
    assert(a[i] == n);
    lemma_bares(scoped, n);
    lemma_scoped(e.pkgnames, n);
}

proof fn lemma_times(s: Seq<Seq<char>>, x: Seq<char>)
    ensures
        times(s, x) > 0 <==> s.contains(x),
    decreases s.len(),
{
    if s.len() > 0 {
        let r = s.drop_last();
        lemma_times(r, x);
        if s.contains(x) && s.last() != x {
            let i = choose|i: int| 0 <= i < s.len() && s[i] == x;
            assert(r[i] == x);
        }
        if r.contains(x) {
            let i = choose|i: int| 0 <= i < r.len() && r[i] == x;
            assert(s[i] == x);
        }
        if s.last() == x {
            assert(s[s.len() - 1] == x);
        }
    }
}

/// A package is listed as a provider of a name exactly if it provides that name.
pub proof fn law_who_provides_a_name(recs: Seq<RecordView>, p: Seq<char>, n: Seq<char>)
    ensures
        provided_by(recs, p).contains(n) <==> exists|i: int|
            0 <= i < recs.len() && (#[trigger] recs[i]).name == n && recs[i].provides.contains(p),
    decreases recs.len(),
{
    if recs.len() > 0 {
        let r = recs.drop_last();
        law_who_provides_a_name(r, p, n);
        lemma_times(recs.last().provides, p);
        let rest = provided_by(r, p);
        let all = provided_by(recs, p);
        if all.contains(n) {
            let k = choose|k: int| 0 <= k < all.len() && all[k] == n;
            if k < rest.len() {
                assert(rest[k] == n);
                let i = choose|i: int|
                    0 <= i < r.len() && (#[trigger] r[i]).name == n && r[i].provides.contains(p);
                assert(recs[i] == r[i]);
            } else {
                assert(recs[recs.len() - 1].name == n);
            }
        }
        if exists|i: int|
            0 <= i < recs.len() && (#[trigger] recs[i]).name == n && recs[i].provides.contains(p) {
            let i = choose|i: int|
                0 <= i < recs.len() && (#[trigger] recs[i]).name == n && recs[i].provides.contains(
                    p,
                );
            if i < r.len() {
                assert(r[i] == recs[i]);
                let k = choose|k: int| 0 <= k < rest.len() && rest[k] == n;
                assert(all[k] == n);
            } else {
                assert(all[rest.len() as int] == n);
            }
        }
    }
}

/// Of the packages that provide a name the first stands first.
pub proof fn law_the_first_provider_stands_first(recs: Seq<RecordView>, p: Seq<char>, i: int)
    requires
        0 <= i < recs.len(),
        recs[i].provides.contains(p),
        forall|j: int| 0 <= j < i ==> !(#[trigger] recs[j]).provides.contains(p),
    ensures
        provided_by(recs, p).len() > 0,
        provided_by(recs, p)[0] == recs[i].name,
    decreases recs.len(),
{
    let r = recs.drop_last();
    lemma_times(recs.last().provides, p);
    let rest = provided_by(r, p);
    let all = provided_by(recs, p);
    if i < r.len() {
        assert(r[i] == recs[i]);
        assert forall|j: int| 0 <= j < i implies !(#[trigger] r[j]).provides.contains(p) by {
            assert(r[j] == recs[j]);
        }
        law_the_first_provider_stands_first(r, p, i);
        assert(all[0] == rest[0]);
    } else {
        if rest.len() > 0 {
            law_who_provides_a_name(r, p, rest[0]);
            assert(rest.contains(rest[0]));
            let j = choose|j: int|
                0 <= j < r.len() && (#[trigger] r[j]).name == rest[0] && r[j].provides.contains(p);
            assert(!recs[j].provides.contains(p));
        }
        assert(all[0] == recs.last().name);
    }
}

/// Of several packages of one name the last installed one and the first of the sync
/// databases count.
pub proof fn law_which_package_of_a_name_counts(recs: Seq<RecordView>, n: Seq<char>)
    ensures
        match first_named(recs, n) {
            Some(p) => exists|i: int|
                0 <= i < recs.len() && #[trigger] recs[i] == p && p.name == n && (forall|j: int|
                    0 <= j < i ==> (#[trigger] recs[j]).name != n),
            None => forall|j: int| 0 <= j < recs.len() ==> (#[trigger] recs[j]).name != n,
        },
        match last_named(recs, n) {
            Some(p) => exists|i: int|
                0 <= i < recs.len() && #[trigger] recs[i] == p && p.name == n && (forall|j: int|
                    i < j < recs.len() ==> (#[trigger] recs[j]).name != n),
            None => forall|j: int| 0 <= j < recs.len() ==> (#[trigger] recs[j]).name != n,
        },
    decreases recs.len(),
{
    if recs.len() > 0 {
        let r = recs.drop_last();
        let end = recs.len() - 1;
        law_which_package_of_a_name_counts(r, n);
        assert forall|j: int| 0 <= j < r.len() implies r[j] == #[trigger] recs[j] by {}
        match first_named(r, n) {
            Some(p) => {
                let i = choose|i: int|
                    0 <= i < r.len() && #[trigger] r[i] == p && p.name == n && (forall|j: int|
                        0 <= j < i ==> (#[trigger] r[j]).name != n);
                assert(recs[i] == p);
            },
            None => {
                assert(recs[end] == recs.last());
            },
        }
        if recs.last().name == n {
            assert(recs[end] == recs.last());
        } else {
            match last_named(r, n) {
                Some(p) => {
                    let i = choose|i: int|
                        0 <= i < r.len() && #[trigger] r[i] == p && p.name == n && (forall|j: int|
                            i < j < r.len() ==> (#[trigger] r[j]).name != n);
                    assert(recs[i] == p);
                },
                None => {},
            }
        }
    }
}

/// The databases are read one after the other.
pub proof fn law_databases_are_read_in_turn(
    a: Seq<Vec<PkgRecord>>,
    b: Seq<Vec<PkgRecord>>,
    d: Vec<PkgRecord>,
)
    ensures
        in_turn(seq![d]) == record_views(d@),
        in_turn(a + b) == in_turn(a) + in_turn(b),
    decreases b.len(),
{
    assert(seq![d].drop_last() =~= Seq::<Vec<PkgRecord>>::empty());
    assert(in_turn(Seq::<Vec<PkgRecord>>::empty()) =~= Seq::<RecordView>::empty());
    assert(in_turn(seq![d]) =~= record_views(d@));
    if b.len() == 0 {
        assert(a + b =~= a);
        assert(in_turn(a) + in_turn(b) =~= in_turn(a));
    } else {
        law_databases_are_read_in_turn(a, b.drop_last(), d);
        assert((a + b).drop_last() =~= a + b.drop_last());
        assert((a + b).last() == b.last());
        assert(in_turn(a + b) =~= in_turn(a) + in_turn(b));
    }
}

/// A declared conflict stands in the way exactly if the package that it names would be
/// there afterwards, unless that is the package itself, or it is replaced or removed.
/// It does not if there is nothing of that kind.
pub proof fn law_when_a_conflict_counts<F: Fn(&PkgName) -> bool>(
    d: Declarer,
    j: int,
    staged: Set<Seq<char>>,
    probe: F,
    removing: Set<Seq<char>>,
)
    requires
        0 <= j < d.conflicts@.len(),
    ensures
        ({
            let other = bare_spec(d.conflicts@[j]@);
            let spared = other == d.name@ || removing.contains(other) || exists|k: int|
                0 <= k < d.replaces@.len() && bare_spec((#[trigger] d.replaces@[k])@) == other;
            let yes = exists|p: PkgName| p@ == other && #[trigger] call_ensures(probe, (&p,), true);
            let no = exists|p: PkgName| p@ == other && #[trigger] call_ensures(probe, (&p,), false);
            &&& is_blocking(d, j, staged, probe, removing) <==> !spared && (staged.contains(other)
                || yes)
            &&& is_clear(d, j, staged, probe, removing) <==> spared || (!staged.contains(other)
                && no)
        }),
{
    let other = bare_spec(d.conflicts@[j]@);
    let repl = crate::names::pkgtarget_views(d.replaces@);
    crate::laws::searching::law_a_claim_is_an_expression_of_that_name(repl, other);
    if exists|k: int|
        0 <= k < d.replaces@.len() && bare_spec((#[trigger] d.replaces@[k])@) == other {
        let k = choose|k: int|
            0 <= k < d.replaces@.len() && bare_spec((#[trigger] d.replaces@[k])@) == other;
        assert(repl[k] == d.replaces@[k]@);
    }
    if exists|k: int| 0 <= k < repl.len() && bare_spec(#[trigger] repl[k]) == other {
        let k = choose|k: int| 0 <= k < repl.len() && bare_spec(#[trigger] repl[k]) == other;
        assert(repl[k] == d.replaces@[k]@);
    }
}

/// A conflict names both packages and what can be done about it.
pub proof fn law_how_a_conflict_reads(d: Seq<char>, other: Seq<char>)
    ensures
        conflict_text(d, other) == d + " conflicts with "@ + other
            + ": both would be present after this transaction — drop one, or `remove "@ + other
            + "` first"@,
{
}

} // verus!
