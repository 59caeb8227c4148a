//! What becomes of the targets that a user typed.

use vstd::prelude::*;

use crate::error::Error;
use crate::index::lookup::{claims, Lookup};
use crate::index::schema::EntryView;
use crate::index::srcinfo::{dedup_spec, law_dedup};
use crate::laws::searching::{names, provides};
use crate::names::{bare_spec, PkgBase, PkgName};
use crate::pacman::alpm_db::{own_names, PacmanIndex};
use crate::resolver::pkgbase_expand::{
    choice_fault, chosen_spec, decides, direct_spec, first_stranger, hint_spec, hints_spec,
    selections_spec, sibling_deps, DecisionView, TargetView,
};

verus! {

proof fn lemma_siblings(
    depends: Seq<Seq<char>>,
    own: Seq<Seq<char>>,
    name: Seq<char>,
    m: Seq<char>,
)
    ensures
        sibling_deps(depends, own, name).contains(m) <==> own.contains(m) && m != name && exists|
            k: int,
        |
            0 <= k < depends.len() && bare_spec(#[trigger] depends[k]) == m,
    decreases depends.len(),
{
    if depends.len() > 0 {
        let r = depends.drop_last();
        let rest = sibling_deps(r, own, name);
        let all = sibling_deps(depends, own, name);
        lemma_siblings(r, own, name, m);
        if all.contains(m) {
            let k = choose|k: int| 0 <= k < all.len() && all[k] == m;
            if k < rest.len() {
                assert(rest[k] == m);
                let j = choose|j: int| 0 <= j < r.len() && bare_spec(#[trigger] r[j]) == m;
                assert(depends[j] == r[j]);
            } else {
                assert(bare_spec(depends[depends.len() - 1]) == m);
            }
        }
        if own.contains(m) && m != name && exists|k: int|
            0 <= k < depends.len() && bare_spec(#[trigger] depends[k]) == m {
            let k = choose|k: int|
                0 <= k < depends.len() && bare_spec(#[trigger] depends[k]) == m;
            if k < r.len() {
                assert(r[k] == depends[k]);
                let j = choose|j: int| 0 <= j < rest.len() && rest[j] == m;
                assert(all[j] == m);
            } else {
                assert(all[rest.len() as int] == m);
            }
        }
    }
}

/// With a pkgname go, once each, exactly those of its siblings that the dependencies of
/// the pkgbase name, whatever version they ask for. The pkgname itself comes first.
pub proof fn law_needed_siblings_come_along(e: EntryView, n: Seq<char>, m: Seq<char>)
    ensures
        chosen_spec(e, n).contains(m) <==> m == n || (exists|k: int|
            0 <= k < e.depends.len() && bare_spec(#[trigger] e.depends[k]) == m) && (exists|j: int|
            0 <= j < e.pkgnames.len() && (#[trigger] e.pkgnames[j]).name == m),
        chosen_spec(e, n).no_duplicates(),
        chosen_spec(e, n).len() > 0 && chosen_spec(e, n)[0] == n,
{
    let own = own_names(e.pkgnames);
    let s = sibling_deps(e.depends, own, n);
    let list = seq![n] + s;
    lemma_siblings(e.depends, own, n, m);
    law_dedup(list);
    if list.contains(m) {
        let k = choose|k: int| 0 <= k < list.len() && list[k] == m;
        if k > 0 {
            assert(s[k - 1] == m);
            let j = choose|j: int| 0 <= j < own.len() && own[j] == m;
            assert(e.pkgnames[j].name == m);
        }
    }
    assert(list[0] == n);
    if exists|j: int| 0 <= j < e.pkgnames.len() && (#[trigger] e.pkgnames[j]).name == m {
        let j = choose|j: int| 0 <= j < e.pkgnames.len() && (#[trigger] e.pkgnames[j]).name == m;
        assert(own[j] == m);
    }
    if s.contains(m) {
        let k = choose|k: int| 0 <= k < s.len() && s[k] == m;
        assert(list[k + 1] == m);
    }
    let at = crate::laws::lists::law_the_first_of_a_kind_stays(list);
    assert(list.contains(list[0]));
    assert(dedup_spec(list).contains(n));
    if at[0] > 0 {
        let k = choose|k: int| 0 <= k < dedup_spec(list).len() && dedup_spec(list)[k] == n;
        assert(list[at[k]] == n);
        if at[k] > 0 {
            assert(list[0] != list[at[k]]);
        }
        if k > 0 {
            assert(at[0] < at[k]);
        }
    }
}

proof fn lemma_stranger(chosen: Seq<Seq<char>>, own: Seq<Seq<char>>)
    ensures
        match first_stranger(chosen, own) {
            Some(c) => exists|i: int|
                0 <= i < chosen.len() && #[trigger] chosen[i] == c && !own.contains(c) && (forall|
                    j: int,
                |
                    0 <= j < i ==> own.contains(#[trigger] chosen[j])),
            None => forall|i: int| 0 <= i < chosen.len() ==> own.contains(#[trigger] chosen[i]),
        },
    decreases chosen.len(),
{
    if chosen.len() > 0 {
        let r = chosen.drop_last();
        lemma_stranger(r, own);
        match first_stranger(r, own) {
            Some(c) => {
                let i = choose|i: int|
                    0 <= i < r.len() && #[trigger] r[i] == c && !own.contains(c) && (forall|j: int|
                        0 <= j < i ==> own.contains(#[trigger] r[j]));
                assert(chosen[i] == c);
                assert forall|j: int| 0 <= j < i implies own.contains(#[trigger] chosen[j]) by {
                    assert(r[j] == chosen[j]);
                }
            },
            None => {
                assert forall|j: int| 0 <= j < chosen.len() - 1 implies own.contains(
                    #[trigger] chosen[j],
                ) by {
                    assert(r[j] == chosen[j]);
                }
                assert(chosen[chosen.len() - 1] == chosen.last());
            },
        }
    }
}

/// A choice of pkgnames is sound exactly if it is not empty and holds only pkgnames of
/// the pkgbase. Otherwise the message tells that nothing was chosen, or the first one
/// that does not belong.
pub proof fn law_which_choices_are_sound(e: EntryView, chosen: Seq<Seq<char>>)
    ensures
        choice_fault(e, chosen) is None <==> chosen.len() > 0 && forall|i: int|
            0 <= i < chosen.len() ==> own_names(e.pkgnames).contains(#[trigger] chosen[i]),
        chosen.len() == 0 ==> choice_fault(e, chosen) == Some(
            "no pkgnames selected for pkgbase `"@ + e.pkgbase + "`"@,
        ),
        forall|i: int|
            0 <= i < chosen.len() && !own_names(e.pkgnames).contains(#[trigger] chosen[i]) && (
            forall|j: int| 0 <= j < i ==> own_names(e.pkgnames).contains(#[trigger] chosen[j]))
                ==> choice_fault(e, chosen) == Some(
                "selector returned `"@ + chosen[i] + "` which is not a pkgname of `"@ + e.pkgbase
                    + "`"@,
            ),
{
    let own = own_names(e.pkgnames);
    lemma_stranger(chosen, own);
    assert forall|i: int|
        0 <= i < chosen.len() && !own.contains(#[trigger] chosen[i]) && (forall|j: int|
            0 <= j < i ==> own.contains(#[trigger] chosen[j])) implies choice_fault(e, chosen)
        == Some(
        "selector returned `"@ + chosen[i] + "` which is not a pkgname of `"@ + e.pkgbase + "`"@,
    ) by {
        let c = first_stranger(chosen, own)->0;
        let k = choose|k: int|
            0 <= k < chosen.len() && #[trigger] chosen[k] == c && !own.contains(c) && (forall|
                j: int,
            |
                0 <= j < k ==> own.contains(#[trigger] chosen[j]));
        if k < i {
            assert(own.contains(chosen[k]));
        }
        if i < k {
            assert(own.contains(chosen[i]));
        }
    }
}

/// pacman can satisfy the name: it is installed, or a sync repository has it or a
/// package that provides it.
pub open spec fn pacman_knows(pac: PacmanIndex, n: Seq<char>) -> bool {
    pac.installed@.dom().contains(n) || pac.sync_versions@.dom().contains(n)
        || pac.sync_providers@.dom().contains(n)
}

/// `i` is the last entry with the pkgname `n`.
pub open spec fn last_to_name(rows: Seq<EntryView>, i: int, n: Seq<char>) -> bool {
    &&& 0 <= i < rows.len()
    &&& names(rows, i, n)
    &&& forall|j: int| i < j < rows.len() ==> !#[trigger] names(rows, j, n)
}

proof fn lemma_last_to_name(by: Lookup, rows: Seq<EntryView>, i: int, n: Seq<char>)
    requires
        by.indexes(rows),
        rows.len() <= 0x1_0000_0000,
        last_to_name(rows, i, n),
    ensures
        by.by_name@.dom().contains(n),
        by.by_name@[n] == i,
{
    lemma_names(rows, i, n);
    assert(by.by_name@.dom().contains(n));
    let k = by.by_name@[n] as int;
    lemma_names(rows, k, n);
    if i < k {
        assert(!names(rows, k, n));
    }
}

proof fn lemma_names(rows: Seq<EntryView>, i: int, n: Seq<char>)
    ensures
        names(rows, i, n) <==> crate::index::lookup::has_pkgname(rows[i], n),
{
    let e = rows[i];
    if crate::index::lookup::has_pkgname(e, n) {
        let j = choose|j: int| 0 <= j < e.pkgnames.len() && (#[trigger] e.pkgnames[j]).name == n;
        assert(rows[i].pkgnames[j].name == n);
    }
    if names(rows, i, n) {
        let j = choose|j: int|
            0 <= j < rows[i].pkgnames.len() && (#[trigger] rows[i].pkgnames[j]).name == n;
        assert(e.pkgnames[j].name == n);
    }
}

proof fn lemma_not_named(by: Lookup, rows: Seq<EntryView>, n: Seq<char>)
    requires
        by.indexes(rows),
        forall|j: int| 0 <= j < rows.len() ==> !#[trigger] names(rows, j, n),
    ensures
        !by.by_name@.dom().contains(n),
{
    if by.by_name@.dom().contains(n) {
        lemma_names(rows, by.by_name@[n] as int, n);
        assert(names(rows, by.by_name@[n] as int, n));
    }
}

/// A target that pacman can satisfy goes on as it was typed. If it is also a pkgname of
/// a split package, only it and the siblings that it may need are wanted of that one.
pub proof fn law_what_pacman_knows_goes_on<
    F: Fn(&PkgBase, &Vec<PkgName>) -> Result<Vec<PkgName>, Error>,
>(by: Lookup, rows: Seq<EntryView>, pac: PacmanIndex, select: F, spec: Seq<char>, d: DecisionView)
    requires
        by.indexes(rows),
        rows.len() <= 0x1_0000_0000,
        decides(by, rows, pac, select, spec, d),
        pacman_knows(pac, bare_spec(spec)),
    ensures
        d.spec == spec,
        d.direct.len() == 0,
        forall|i: int| #[trigger]
            last_to_name(rows, i, bare_spec(spec)) ==> d.selection == (if rows[i].pkgnames.len()
                > 1 {
                Some((rows[i].pkgbase, chosen_spec(rows[i], bare_spec(spec))))
            } else {
                None
            }),
        (forall|i: int| 0 <= i < rows.len() ==> !#[trigger] names(rows, i, bare_spec(spec)))
            ==> d.selection is None,
{
    let n = bare_spec(spec);
    assert forall|i: int| #[trigger] last_to_name(rows, i, n) implies d.selection == (if rows[i].pkgnames.len()
        > 1 {
        Some((rows[i].pkgbase, chosen_spec(rows[i], n)))
    } else {
        None
    }) by {
        lemma_last_to_name(by, rows, i, n);
    }
    if forall|i: int| 0 <= i < rows.len() ==> !#[trigger] names(rows, i, n) {
        lemma_not_named(by, rows, n);
    }
}

/// A pkgname that pacman does not know goes on as it was typed if its pkgbase has no
/// other. Of a split package the pkgbase goes on in its place, only the pkgname and the
/// siblings that it may need are wanted, and the pkgname is what the user meant.
pub proof fn law_a_pkgname_leads_to_its_pkgbase<
    F: Fn(&PkgBase, &Vec<PkgName>) -> Result<Vec<PkgName>, Error>,
>(
    by: Lookup,
    rows: Seq<EntryView>,
    pac: PacmanIndex,
    select: F,
    spec: Seq<char>,
    d: DecisionView,
    i: int,
)
    requires
        by.indexes(rows),
        rows.len() <= 0x1_0000_0000,
        decides(by, rows, pac, select, spec, d),
        !pacman_knows(pac, bare_spec(spec)),
        last_to_name(rows, i, bare_spec(spec)),
    ensures
        rows[i].pkgnames.len() == 1 ==> d.spec == spec && d.selection is None && d.direct.len()
            == 0,
        rows[i].pkgnames.len() > 1 ==> {
            &&& d.spec == rows[i].pkgbase
            &&& d.selection == Some((rows[i].pkgbase, chosen_spec(rows[i], bare_spec(spec))))
            &&& d.direct == seq![bare_spec(spec)]
        },
{
    lemma_last_to_name(by, rows, i, bare_spec(spec));
}

/// A provided name leads to the first entry that provides it: its pkgbase goes on, and
/// the pkgname that stands for the name is what the user meant. Only where that pkgname
/// claims the name for itself do its siblings stay away.
pub proof fn law_a_provided_name_leads_to_its_provider<
    F: Fn(&PkgBase, &Vec<PkgName>) -> Result<Vec<PkgName>, Error>,
>(
    by: Lookup,
    rows: Seq<EntryView>,
    pac: PacmanIndex,
    select: F,
    spec: Seq<char>,
    d: DecisionView,
    i: int,
    k: int,
)
    requires
        by.indexes(rows),
        rows.len() <= 0x1_0000_0000,
        decides(by, rows, pac, select, spec, d),
        bare_spec(bare_spec(spec)) == bare_spec(spec),
        !pacman_knows(pac, bare_spec(spec)),
        forall|j: int| 0 <= j < rows.len() ==> !#[trigger] names(rows, j, bare_spec(spec)),
        0 <= i < rows.len(),
        provides(rows, i, bare_spec(spec)),
        forall|j: int| 0 <= j < i ==> !#[trigger] provides(rows, j, bare_spec(spec)),
        0 <= k < rows[i].pkgnames.len(),
        k > 0 ==> claims(rows[i].pkgnames[k].provides, bare_spec(spec)) > 0,
        k == 0 ==> claims(rows[i].pkgnames[0].provides, bare_spec(spec)) > 0 || forall|j: int|
            0 <= j < rows[i].pkgnames.len() ==> claims(
                (#[trigger] rows[i].pkgnames[j]).provides,
                bare_spec(spec),
            ) == 0,
        forall|j: int|
            0 <= j < k ==> claims((#[trigger] rows[i].pkgnames[j]).provides, bare_spec(spec)) == 0,
    ensures
        d.spec == rows[i].pkgbase,
        d.direct == seq![rows[i].pkgnames[k].name],
        rows[i].pkgnames.len() > 1 && claims(rows[i].pkgnames[k].provides, bare_spec(spec)) > 0
            ==> d.selection == Some(
            (rows[i].pkgbase, chosen_spec(rows[i], rows[i].pkgnames[k].name)),
        ),
        rows[i].pkgnames.len() == 1 ==> d.selection is None,
        (forall|j: int|
            0 <= j < rows[i].pkgnames.len() ==> claims(
                (#[trigger] rows[i].pkgnames[j]).provides,
                bare_spec(spec),
            ) == 0) ==> d.selection is None,
{
    let n = bare_spec(spec);
    let e = rows[i];
    lemma_not_named(by, rows, n);
    crate::laws::searching::law_to_which_entry_a_name_leads(by, rows, n);
    assert(by.primary(n) == Some(i as u32));
    assert(by.provides_hit(n) == Some(i as u32)) by {
        if by.provides_hit(n) is None {
            crate::laws::searching::law_providers_are_found(by, rows, n, i);
        }
    }
    assert forall|j: int| 0 <= j < k implies claims((#[trigger] e.pkgnames[j]).provides, n)
        == 0 by {
        assert(rows[i].pkgnames[j] == e.pkgnames[j]);
    }
    if claims(e.pkgnames[k].provides, n) == 0 {
        assert forall|j: int| 0 <= j < e.pkgnames.len() implies claims(
            (#[trigger] e.pkgnames[j]).provides,
            n,
        ) == 0 by {
            assert(rows[i].pkgnames[j] == e.pkgnames[j]);
        }
    }
    crate::laws::searching::law_which_pkgname_stands_for_a_name(e, n, k);
    assert(by.provider_hit(rows, n) == Some((i as u32, e.pkgnames[k].name)));
    assert(e.pkgnames[k].name == rows[i].pkgnames[k].name);
}

/// A pkgbase that is neither a pkgname nor provided goes on as the last entry of that
/// pkgbase. What was chosen of it is meant, is not empty and belongs to it; only where
/// it is less than all does the rest stay away.
pub proof fn law_of_a_pkgbase_the_choice_counts<
    F: Fn(&PkgBase, &Vec<PkgName>) -> Result<Vec<PkgName>, Error>,
>(
    by: Lookup,
    rows: Seq<EntryView>,
    pac: PacmanIndex,
    select: F,
    spec: Seq<char>,
    d: DecisionView,
    i: int,
)
    requires
        by.indexes(rows),
        rows.len() <= 0x1_0000_0000,
        decides(by, rows, pac, select, spec, d),
        !pacman_knows(pac, bare_spec(spec)),
        forall|j: int| 0 <= j < rows.len() ==> !#[trigger] names(rows, j, bare_spec(spec)),
        forall|j: int| 0 <= j < rows.len() ==> !#[trigger] provides(rows, j, bare_spec(spec)),
        0 <= i < rows.len(),
        rows[i].pkgbase == bare_spec(spec),
        forall|j: int| i < j < rows.len() ==> (#[trigger] rows[j]).pkgbase != bare_spec(spec),
    ensures
        d.spec == rows[i].pkgbase,
        d.direct.len() > 0,
        forall|k: int|
            0 <= k < d.direct.len() ==> own_names(rows[i].pkgnames).contains(
                #[trigger] d.direct[k],
            ),
        d.selection == (if d.direct.len() < rows[i].pkgnames.len() {
            Some((rows[i].pkgbase, d.direct))
        } else {
            None
        }),
{
    let n = bare_spec(spec);
    lemma_not_named(by, rows, n);
    crate::laws::searching::law_to_which_entry_a_name_leads(by, rows, n);
    crate::laws::searching::law_no_provider_is_found(by, rows, n);
    assert(by.primary(n) == Some(i as u32));
    assert(by.base_hit(n) == Some(i as u32));
    law_which_choices_are_sound(rows[i], d.direct);
}

/// A target that nobody knows goes on as it was typed.
pub proof fn law_what_nobody_knows_goes_on<
    F: Fn(&PkgBase, &Vec<PkgName>) -> Result<Vec<PkgName>, Error>,
>(by: Lookup, rows: Seq<EntryView>, pac: PacmanIndex, select: F, spec: Seq<char>, d: DecisionView)
    requires
        by.indexes(rows),
        rows.len() <= 0x1_0000_0000,
        decides(by, rows, pac, select, spec, d),
        !pacman_knows(pac, bare_spec(spec)),
        forall|j: int| 0 <= j < rows.len() ==> !#[trigger] names(rows, j, bare_spec(spec)),
        forall|j: int| 0 <= j < rows.len() ==> !#[trigger] provides(rows, j, bare_spec(spec)),
        forall|j: int| 0 <= j < rows.len() ==> (#[trigger] rows[j]).pkgbase != bare_spec(spec),
    ensures
        d.spec == spec,
        d.selection is None,
        d.direct.len() == 0,
{
    let n = bare_spec(spec);
    lemma_not_named(by, rows, n);
    crate::laws::searching::law_no_provider_is_found(by, rows, n);
    if by.by_pkgbase@.dom().contains(n) {
        assert(rows[by.by_pkgbase@[n] as int].pkgbase == n);
    }
}

/// A decision wants `m` of the pkgbase `b`.
pub open spec fn wants(d: DecisionView, b: Seq<char>, m: Seq<char>) -> bool {
    d.selection matches Some((base, chosen)) && base == b && chosen.contains(m)
}

/// Of a pkgbase of which not all is wanted, exactly that is wanted which some target
/// wants of it.
pub proof fn law_targets_add_up(ds: Seq<DecisionView>, b: Seq<char>, m: Seq<char>)
    ensures
        selections_spec(ds).dom().contains(b) <==> exists|i: int|
            0 <= i < ds.len() && ((#[trigger] ds[i]).selection matches Some((base, _)) && base == b),
        selections_spec(ds).dom().contains(b) ==> (selections_spec(ds)[b].contains(m)
            <==> exists|i: int| 0 <= i < ds.len() && wants(#[trigger] ds[i], b, m)),
        selections_spec(ds).dom().contains(b) ==> selections_spec(ds)[b].no_duplicates(),
    decreases ds.len(),
{
    if ds.len() > 0 {
        let r = ds.drop_last();
        law_targets_add_up(r, b, m);
        let last = ds.len() - 1;
        assert forall|i: int| 0 <= i < last implies r[i] == #[trigger] ds[i] by {}
        assert((exists|i: int| 0 <= i < ds.len() && wants(#[trigger] ds[i], b, m)) <==> (exists|
            i: int,
        | 0 <= i < r.len() && wants(#[trigger] r[i], b, m)) || wants(ds[last], b, m)) by {
            if exists|i: int| 0 <= i < r.len() && wants(#[trigger] r[i], b, m) {
                let i = choose|i: int| 0 <= i < r.len() && wants(#[trigger] r[i], b, m);
                assert(wants(ds[i], b, m));
            }
        }
        assert((exists|i: int|
            0 <= i < ds.len() && ((#[trigger] ds[i]).selection matches Some((base, _)) && base
                == b)) <==> (exists|i: int|
            0 <= i < r.len() && ((#[trigger] r[i]).selection matches Some((base, _)) && base == b))
            || (ds[last].selection matches Some((base, _)) && base == b)) by {
            if exists|i: int|
                0 <= i < r.len() && ((#[trigger] r[i]).selection matches Some((base, _)) && base
                    == b) {
                let i = choose|i: int|
                    0 <= i < r.len() && ((#[trigger] r[i]).selection matches Some((base, _))
                        && base == b);
                assert(ds[i] == r[i]);
            }
        }
        match ds.last().selection {
            Some((base, chosen)) => {
                if base == b {
                    let had = if selections_spec(r).dom().contains(b) {
                        selections_spec(r)[b]
                    } else {
                        Seq::empty()
                    };
                    crate::laws::lists::law_merging_adds_what_is_new(had, chosen);
                    assert(selections_spec(ds)[b] == crate::resolver::pkgbase_expand::merged(
                        had,
                        chosen,
                    ));
                    if !selections_spec(r).dom().contains(b) {
                        assert forall|i: int| 0 <= i < r.len() implies !wants(
                            #[trigger] r[i],
                            b,
                            m,
                        ) by {}
                    }
                }
            },
            None => {},
        }
    }
}

/// What the user meant is what the targets mean, one after the other.
pub proof fn law_what_is_meant_adds_up(a: Seq<DecisionView>, b: Seq<DecisionView>, d: DecisionView)
    ensures
        direct_spec(seq![d]) == d.direct,
        direct_spec(a + b) == direct_spec(a) + direct_spec(b),
    decreases b.len(),
{
    assert(seq![d].drop_last() =~= Seq::<DecisionView>::empty());
    assert(direct_spec(Seq::<DecisionView>::empty()) =~= Seq::<Seq<char>>::empty());
    assert(direct_spec(seq![d]) =~= d.direct);
    if b.len() == 0 {
        assert(a + b =~= a);
        assert(direct_spec(a) + direct_spec(b) =~= direct_spec(a));
    } else {
        law_what_is_meant_adds_up(a, b.drop_last(), d);
        assert((a + b).drop_last() =~= a + b.drop_last());
        assert((a + b).last() == b.last());
        assert(direct_spec(a + b) =~= direct_spec(a) + direct_spec(b));
    }
}

/// Of a target that is a pkgname, the user's own hint tells which installed package they
/// mean, and the pkgname itself where they gave none.
pub proof fn law_a_hint_goes_before_the_name(
    by: Lookup,
    rows: Seq<EntryView>,
    t: TargetView,
    i: int,
)
    requires
        by.indexes(rows),
        rows.len() <= 0x1_0000_0000,
        last_to_name(rows, i, bare_spec(t.spec)),
    ensures
        hint_spec(by, rows, t) == Some(
            (
                rows[i].pkgbase,
                match t.hint {
                    Some(h) => h,
                    None => bare_spec(t.spec),
                },
            ),
        ),
{
    lemma_last_to_name(by, rows, i, bare_spec(t.spec));
}

/// Of a target that is only a pkgbase, nothing but the user's own hint tells which
/// installed package they mean.
pub proof fn law_a_pkgbase_is_no_hint(by: Lookup, rows: Seq<EntryView>, t: TargetView, i: int)
    requires
        by.indexes(rows),
        rows.len() <= 0x1_0000_0000,
        forall|j: int| 0 <= j < rows.len() ==> !#[trigger] names(rows, j, bare_spec(t.spec)),
        forall|j: int| 0 <= j < rows.len() ==> !#[trigger] provides(rows, j, bare_spec(t.spec)),
        0 <= i < rows.len(),
        rows[i].pkgbase == bare_spec(t.spec),
    ensures
        hint_spec(by, rows, t) == match t.hint {
            Some(h) => Some((rows[i].pkgbase, h)),
            None => None,
        },
{
    let n = bare_spec(t.spec);
    lemma_not_named(by, rows, n);
    crate::laws::searching::law_no_provider_is_found(by, rows, n);
    assert(by.by_pkgbase@.dom().contains(rows[i].pkgbase));
}

/// Of several hints for one pkgbase the first counts.
pub proof fn law_the_first_hint_counts(
    by: Lookup,
    rows: Seq<EntryView>,
    ts: Seq<TargetView>,
    i: int,
    b: Seq<char>,
    h: Seq<char>,
)
    requires
        0 <= i < ts.len(),
        hint_spec(by, rows, ts[i]) == Some((b, h)),
        forall|j: int|
            0 <= j < i ==> !(hint_spec(by, rows, #[trigger] ts[j]) matches Some((c, _)) && c == b),
    ensures
        hints_spec(by, rows, ts).dom().contains(b),
        hints_spec(by, rows, ts)[b] == h,
    decreases ts.len(),
{
    let r = ts.drop_last();
    if i < ts.len() - 1 {
        assert forall|j: int| 0 <= j < i implies !(hint_spec(by, rows, #[trigger] r[j]) matches Some(
            (c, _),
        ) && c == b) by {
            assert(r[j] == ts[j]);
        }
        law_the_first_hint_counts(by, rows, r, i, b, h);
    } else {
        lemma_no_hint(by, rows, r, b);
    }
}

proof fn lemma_no_hint(by: Lookup, rows: Seq<EntryView>, ts: Seq<TargetView>, b: Seq<char>)
    ensures
        hints_spec(by, rows, ts).dom().contains(b) ==> exists|j: int|
            0 <= j < ts.len() && (hint_spec(by, rows, #[trigger] ts[j]) matches Some((c, _)) && c
                == b),
    decreases ts.len(),
{
    if ts.len() > 0 {
        let r = ts.drop_last();
        lemma_no_hint(by, rows, r, b);
        if hints_spec(by, rows, r).dom().contains(b) {
            let j = choose|j: int|
                0 <= j < r.len() && (hint_spec(by, rows, #[trigger] r[j]) matches Some((c, _)) && c
                    == b);
            assert(ts[j] == r[j]);
        } else if hints_spec(by, rows, ts).dom().contains(b) {
            assert(ts[ts.len() - 1] == ts.last());
        }
    }
}

/// There is a hint for a pkgbase only where some target gives one.
pub proof fn law_hints_come_from_targets(
    by: Lookup,
    rows: Seq<EntryView>,
    ts: Seq<TargetView>,
    b: Seq<char>,
)
    requires
        forall|j: int|
            0 <= j < ts.len() ==> !(hint_spec(by, rows, #[trigger] ts[j]) matches Some((c, _)) && c
                == b),
    ensures
        !hints_spec(by, rows, ts).dom().contains(b),
{
    lemma_no_hint(by, rows, ts, b);
}

} // verus!
