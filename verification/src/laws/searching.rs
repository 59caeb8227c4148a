//! What a search finds and to which entry a name leads.

use regex::Regex;
use vstd::prelude::*;

use crate::index::lookup::{
    claims, entry_matches_spec, first_claimant, opt_text, pkgname_texts, provider_in,
    provider_items, providers_of, searchable, Lookup,
};
use crate::index::schema::{all_provides_spec, scoped_provides_spec, EntryView, PkgnameView};
use crate::index::secondary::{name_texts, plain_match, plain_texts};
use crate::names::{bare_spec, regex_matches};

verus! {

proof fn lemma_pkgname_texts(p: Seq<PkgnameView>, t: Seq<char>)
    ensures
        pkgname_texts(p).contains(t) <==> exists|j: int|
            0 <= j < p.len() && ((#[trigger] p[j]).name == t || p[j].pkgdesc == Some(t)),
    decreases p.len(),
{
    if p.len() > 0 {
        let r = p.drop_last();
        lemma_pkgname_texts(r, t);
        let rest = pkgname_texts(r);
        let all = pkgname_texts(p);
        if all.contains(t) {
            let k = choose|k: int| 0 <= k < all.len() && all[k] == t;
            if k < rest.len() {
                assert(rest[k] == t);
                let j = choose|j: int|
                    0 <= j < r.len() && ((#[trigger] r[j]).name == t || r[j].pkgdesc == Some(t));
                assert(p[j] == r[j]);
            } else {
                assert(p[p.len() - 1].name == t || p[p.len() - 1].pkgdesc == Some(t));
            }
        }
        if exists|j: int|
            0 <= j < p.len() && ((#[trigger] p[j]).name == t || p[j].pkgdesc == Some(t)) {
            let j = choose|j: int|
                0 <= j < p.len() && ((#[trigger] p[j]).name == t || p[j].pkgdesc == Some(t));
            if j < r.len() {
                assert(r[j] == p[j]);
                let k = choose|k: int| 0 <= k < rest.len() && rest[k] == t;
                assert(all[k] == t);
            } else if p[j].name == t {
                assert(all[rest.len() as int] == t);
            } else {
                assert(all[rest.len() as int + 1] == t);
            }
        }
    }
}

proof fn lemma_scoped(p: Seq<PkgnameView>, t: Seq<char>)
    ensures
        scoped_provides_spec(p).contains(t) <==> exists|j: int|
            0 <= j < p.len() && (#[trigger] p[j]).provides.contains(t),
    decreases p.len(),
{
    if p.len() > 0 {
        let r = p.drop_last();
        lemma_scoped(r, t);
        let rest = scoped_provides_spec(r);
        let all = scoped_provides_spec(p);
        if all.contains(t) {
            let k = choose|k: int| 0 <= k < all.len() && all[k] == t;
            if k < rest.len() {
                assert(rest[k] == t);
                let j = choose|j: int| 0 <= j < r.len() && (#[trigger] r[j]).provides.contains(t);
                assert(p[j] == r[j]);
            } else {
                assert(p.last().provides[k - rest.len()] == t);
                assert(p[p.len() - 1].provides.contains(t));
            }
        }
        if exists|j: int| 0 <= j < p.len() && (#[trigger] p[j]).provides.contains(t) {
            let j = choose|j: int| 0 <= j < p.len() && (#[trigger] p[j]).provides.contains(t);
            if j < r.len() {
                assert(r[j] == p[j]);
                let k = choose|k: int| 0 <= k < rest.len() && rest[k] == t;
                assert(all[k] == t);
            } else {
                let own = p.last().provides;
                let k = choose|k: int| 0 <= k < own.len() && own[k] == t;
                assert(all[rest.len() + k] == t);
            }
        }
    }
}

/// An entry provides what its pkgbase provides and what each of its pkgnames provides,
/// and nothing else.
pub proof fn law_an_entry_provides_what_its_parts_provide(e: EntryView, t: Seq<char>)
    ensures
        all_provides_spec(e).contains(t) <==> {
            ||| e.provides.contains(t)
            ||| exists|j: int| 0 <= j < e.pkgnames.len() && (#[trigger] e.pkgnames[j]).provides.contains(
                t,
            )
        },
{
    lemma_scoped(e.pkgnames, t);
    let own = e.provides;
    let scoped = scoped_provides_spec(e.pkgnames);
    let all = all_provides_spec(e);
    if all.contains(t) {
        let k = choose|k: int| 0 <= k < all.len() && all[k] == t;
        if k < own.len() {
            assert(own[k] == t);
        } else {
            assert(scoped[k - own.len()] == t);
        }
    }
    if own.contains(t) {
        let k = choose|k: int| 0 <= k < own.len() && own[k] == t;
        assert(all[k] == t);
    }
    if scoped.contains(t) {
        let k = choose|k: int| 0 <= k < scoped.len() && scoped[k] == t;
        assert(all[own.len() + k] == t);
    }
}

/// `re` matches one of the texts.
pub open spec fn matches_one(re: Regex, texts: Seq<Seq<char>>) -> bool {
    exists|t: Seq<char>| #[trigger] texts.contains(t) && regex_matches(re, t)
}

/// A pattern finds an entry exactly if it matches the name or the description of one of
/// its pkgnames, the description of the pkgbase, or something that the pkgbase or one of
/// its pkgnames provides.
pub proof fn law_a_pattern_finds_what_it_matches(e: EntryView, re: Regex)
    ensures
        entry_matches_spec(e, re) <==> {
            ||| exists|j: int|
                0 <= j < e.pkgnames.len() && regex_matches(re, (#[trigger] e.pkgnames[j]).name)
            ||| exists|j: int|
                0 <= j < e.pkgnames.len() && ((#[trigger] e.pkgnames[j]).pkgdesc matches Some(d)
                    && regex_matches(re, d))
            ||| (e.pkgdesc matches Some(d) && regex_matches(re, d))
            ||| matches_one(re, e.provides)
            ||| exists|j: int|
                0 <= j < e.pkgnames.len() && matches_one(re, (#[trigger] e.pkgnames[j]).provides)
        },
{
    let all = searchable(e);
    let names = pkgname_texts(e.pkgnames);
    let desc = opt_text(e.pkgdesc);
    let provs = all_provides_spec(e);
    assert forall|t: Seq<char>| #[trigger] all.contains(t) <==> names.contains(t) || e.pkgdesc
        == Some(t) || provs.contains(t) by {
        if all.contains(t) {
            let k = choose|k: int| 0 <= k < all.len() && all[k] == t;
            if k < names.len() {
                assert(names[k] == t);
            } else if k >= names.len() + desc.len() {
                assert(provs[k - names.len() - desc.len()] == t);
            }
        }
        if names.contains(t) {
            let k = choose|k: int| 0 <= k < names.len() && names[k] == t;
            assert(all[k] == t);
        }
        if e.pkgdesc == Some(t) {
            assert(all[names.len() as int] == t);
        }
        if provs.contains(t) {
            let k = choose|k: int| 0 <= k < provs.len() && provs[k] == t;
            assert(all[names.len() + desc.len() + k] == t);
        }
    }
    if entry_matches_spec(e, re) {
        let i = choose|i: int| 0 <= i < all.len() && regex_matches(re, #[trigger] all[i]);
        let t = all[i];
        assert(all.contains(t));
        lemma_pkgname_texts(e.pkgnames, t);
        law_an_entry_provides_what_its_parts_provide(e, t);
        if provs.contains(t) && !e.provides.contains(t) {
            let j = choose|j: int|
                0 <= j < e.pkgnames.len() && (#[trigger] e.pkgnames[j]).provides.contains(t);
            assert(matches_one(re, e.pkgnames[j].provides));
        }
    }
    assert forall|t: Seq<char>| #[trigger] all.contains(t) && regex_matches(
        re,
        t,
    ) implies entry_matches_spec(e, re) by {
        let k = choose|k: int| 0 <= k < all.len() && all[k] == t;
        assert(regex_matches(re, all[k]));
    }
    assert forall|j: int|
        0 <= j < e.pkgnames.len() && regex_matches(
            re,
            (#[trigger] e.pkgnames[j]).name,
        ) implies entry_matches_spec(e, re) by {
        lemma_pkgname_texts(e.pkgnames, e.pkgnames[j].name);
        assert(all.contains(e.pkgnames[j].name));
    }
    assert forall|j: int|
        0 <= j < e.pkgnames.len() && ((#[trigger] e.pkgnames[j]).pkgdesc matches Some(d)
            && regex_matches(re, d)) implies entry_matches_spec(e, re) by {
        lemma_pkgname_texts(e.pkgnames, e.pkgnames[j].pkgdesc->0);
        assert(all.contains(e.pkgnames[j].pkgdesc->0));
    }
    if e.pkgdesc is Some {
        assert(all.contains(e.pkgdesc->0));
    }
    if matches_one(re, e.provides) {
        let t = choose|t: Seq<char>| #[trigger] e.provides.contains(t) && regex_matches(re, t);
        law_an_entry_provides_what_its_parts_provide(e, t);
        assert(all.contains(t));
    }
    assert forall|j: int|
        0 <= j < e.pkgnames.len() && matches_one(
            re,
            (#[trigger] e.pkgnames[j]).provides,
        ) implies entry_matches_spec(e, re) by {
        let own = e.pkgnames[j].provides;
        let t = choose|t: Seq<char>| #[trigger] own.contains(t) && regex_matches(re, t);
        law_an_entry_provides_what_its_parts_provide(e, t);
        assert(all.contains(t));
    }
}

/// Over plain strings a pattern finds an entry exactly if it matches one of its
/// pkgnames, the description of the pkgbase, or something that the entry provides. The
/// descriptions of single pkgnames do not count.
pub proof fn law_a_pattern_finds_what_it_plainly_matches(e: EntryView, re: Regex)
    ensures
        plain_match(e, re) <==> {
            ||| exists|j: int|
                0 <= j < e.pkgnames.len() && regex_matches(re, (#[trigger] e.pkgnames[j]).name)
            ||| (e.pkgdesc matches Some(d) && regex_matches(re, d))
            ||| matches_one(re, e.provides)
            ||| exists|j: int|
                0 <= j < e.pkgnames.len() && matches_one(re, (#[trigger] e.pkgnames[j]).provides)
        },
{
    let all = plain_texts(e);
    let names = name_texts(e.pkgnames);
    let desc = opt_text(e.pkgdesc);
    let provs = all_provides_spec(e);
    assert(names.len() == e.pkgnames.len());
    assert(all =~= names + desc + provs);
    if plain_match(e, re) {
        let i = choose|i: int| 0 <= i < all.len() && regex_matches(re, #[trigger] all[i]);
        let t = all[i];
        if i < names.len() {
            assert(e.pkgnames[i].name == t);
        } else if i >= names.len() + desc.len() {
            assert(provs[i - names.len() - desc.len()] == t);
            assert(provs.contains(t));
            law_an_entry_provides_what_its_parts_provide(e, t);
            if !e.provides.contains(t) {
                let j = choose|j: int|
                    0 <= j < e.pkgnames.len() && (#[trigger] e.pkgnames[j]).provides.contains(t);
                assert(matches_one(re, e.pkgnames[j].provides));
            }
        }
    }
    assert forall|j: int|
        0 <= j < e.pkgnames.len() && regex_matches(
            re,
            (#[trigger] e.pkgnames[j]).name,
        ) implies plain_match(e, re) by {
        assert(all[j] == e.pkgnames[j].name);
    }
    if e.pkgdesc is Some {
        assert(all[names.len() as int] == e.pkgdesc->0);
    }
    assert forall|t: Seq<char>| #[trigger] provs.contains(t) && regex_matches(
        re,
        t,
    ) implies plain_match(e, re) by {
        let k = choose|k: int| 0 <= k < provs.len() && provs[k] == t;
        assert(all[names.len() + desc.len() + k] == t);
    }
    if matches_one(re, e.provides) {
        let t = choose|t: Seq<char>| #[trigger] e.provides.contains(t) && regex_matches(re, t);
        law_an_entry_provides_what_its_parts_provide(e, t);
        assert(provs.contains(t));
    }
    assert forall|j: int|
        0 <= j < e.pkgnames.len() && matches_one(
            re,
            (#[trigger] e.pkgnames[j]).provides,
        ) implies plain_match(e, re) by {
        let own = e.pkgnames[j].provides;
        let t = choose|t: Seq<char>| #[trigger] own.contains(t) && regex_matches(re, t);
        law_an_entry_provides_what_its_parts_provide(e, t);
        assert(provs.contains(t));
    }
}

/// A name is claimed exactly if one of the expressions, its version constraint cut off,
/// reads like it.
pub proof fn law_a_claim_is_an_expression_of_that_name(provs: Seq<Seq<char>>, n: Seq<char>)
    ensures
        claims(provs, n) > 0 <==> exists|k: int|
            0 <= k < provs.len() && bare_spec(#[trigger] provs[k]) == n,
    decreases provs.len(),
{
    if provs.len() > 0 {
        let r = provs.drop_last();
        law_a_claim_is_an_expression_of_that_name(r, n);
        if claims(provs, n) > 0 && bare_spec(provs.last()) != n {
            let k = choose|k: int| 0 <= k < r.len() && bare_spec(#[trigger] r[k]) == n;
            assert(provs[k] == r[k]);
        }
        if claims(provs, n) > 0 && bare_spec(provs.last()) == n {
            assert(bare_spec(provs[provs.len() - 1]) == n);
        }
        if exists|k: int| 0 <= k < provs.len() && bare_spec(#[trigger] provs[k]) == n {
            let k = choose|k: int| 0 <= k < provs.len() && bare_spec(#[trigger] provs[k]) == n;
            if k < r.len() {
                assert(r[k] == provs[k]);
            }
        }
    }
}

/// The entry at `i` has a pkgname that reads `n`.
pub open spec fn names(rows: Seq<EntryView>, i: int, n: Seq<char>) -> bool {
    exists|j: int| 0 <= j < rows[i].pkgnames.len() && (#[trigger] rows[i].pkgnames[j]).name == n
}

/// The entry at `i` provides `n` in some version.
pub open spec fn provides(rows: Seq<EntryView>, i: int, n: Seq<char>) -> bool {
    exists|t: Seq<char>| #[trigger] all_provides_spec(rows[i]).contains(t) && bare_spec(t) == n
}

proof fn lemma_provides(rows: Seq<EntryView>, i: int, n: Seq<char>)
    ensures
        provides(rows, i, n) <==> claims(all_provides_spec(rows[i]), n) > 0,
{
    let all = all_provides_spec(rows[i]);
    law_a_claim_is_an_expression_of_that_name(all, n);
    if provides(rows, i, n) {
        let t = choose|t: Seq<char>| #[trigger] all.contains(t) && bare_spec(t) == n;
        let k = choose|k: int| 0 <= k < all.len() && all[k] == t;
        assert(bare_spec(all[k]) == n);
    }
    if claims(all, n) > 0 {
        let k = choose|k: int| 0 <= k < all.len() && bare_spec(#[trigger] all[k]) == n;
        assert(all.contains(all[k]));
    }
}

proof fn lemma_first_provider(rows: Seq<EntryView>, n: Seq<char>)
    requires
        rows.len() <= 0x1_0000_0000,
    ensures
        providers_of(rows, n).len() == 0 ==> forall|i: int|
            0 <= i < rows.len() ==> !#[trigger] provides(rows, i, n),
        providers_of(rows, n).len() > 0 ==> {
            let f = providers_of(rows, n)[0] as int;
            &&& f < rows.len()
            &&& provides(rows, f, n)
            &&& forall|i: int| 0 <= i < f ==> !#[trigger] provides(rows, i, n)
        },
    decreases rows.len(),
{
    if rows.len() > 0 {
        let r = rows.drop_last();
        let last = rows.len() - 1;
        lemma_first_provider(r, n);
        lemma_provides(rows, last, n);
        assert forall|i: int| 0 <= i < last implies provides(rows, i, n) == #[trigger] provides(
            r,
            i,
            n,
        ) by {
            assert(r[i] == rows[i]);
        }
        assert forall|i: int| 0 <= i < last && !provides(r, i, n) implies !#[trigger] provides(
            rows,
            i,
            n,
        ) by {
            assert(r[i] == rows[i]);
        }
        if providers_of(r, n).len() > 0 {
            assert(providers_of(rows, n)[0] == providers_of(r, n)[0]);
            assert(provides(r, providers_of(r, n)[0] as int, n));
        }
    }
}

/// A name leads to the last entry that has it as a pkgname; where there is none, to the
/// first entry that provides it; where there is none either, to the last entry that has
/// it as its pkgbase; and nowhere if no entry knows it.
pub proof fn law_to_which_entry_a_name_leads(by: Lookup, rows: Seq<EntryView>, n: Seq<char>)
    requires
        by.indexes(rows),
        rows.len() <= 0x1_0000_0000,
    ensures
        forall|i: int|
            0 <= i < rows.len() && #[trigger] names(rows, i, n) && (forall|j: int|
                i < j < rows.len() ==> !#[trigger] names(rows, j, n)) ==> by.primary(n) == Some(
                i as u32,
            ),
        (forall|i: int| 0 <= i < rows.len() ==> !#[trigger] names(rows, i, n)) ==> {
            &&& forall|i: int|
                0 <= i < rows.len() && #[trigger] provides(rows, i, n) && (forall|j: int|
                    0 <= j < i ==> !#[trigger] provides(rows, j, n)) ==> by.primary(n) == Some(
                    i as u32,
                )
            &&& (forall|i: int| 0 <= i < rows.len() ==> !#[trigger] provides(rows, i, n)) ==> {
                &&& forall|i: int|
                    0 <= i < rows.len() && (#[trigger] rows[i]).pkgbase == n && (forall|j: int|
                        i < j < rows.len() ==> (#[trigger] rows[j]).pkgbase != n) ==> by.primary(n)
                        == Some(i as u32)
                &&& (forall|i: int| 0 <= i < rows.len() ==> (#[trigger] rows[i]).pkgbase != n)
                    ==> by.primary(n) is None
            }
        },
{
    use_names(rows, n);
    lemma_first_provider(rows, n);
    if by.name_hit(n) is Some {
        assert(names(rows, by.name_hit(n)->0 as int, n));
    } else {
        assert forall|i: int|
            0 <= i < rows.len() && #[trigger] provides(rows, i, n) && (forall|j: int|
                0 <= j < i ==> !#[trigger] provides(rows, j, n)) implies by.primary(n) == Some(
            i as u32,
        ) by {
            let items = providers_of(rows, n);
            assert(by.by_provides@.dom().contains(n));
            assert(provider_items(by.by_provides@[n]) == items);
            assert(provides(rows, items[0] as int, n));
            assert(items[0] == i);
        }
        if forall|i: int| 0 <= i < rows.len() ==> !#[trigger] provides(rows, i, n) {
            if providers_of(rows, n).len() > 0 {
                assert(provides(rows, providers_of(rows, n)[0] as int, n));
            }
            assert(!by.by_provides@.dom().contains(n));
            if by.base_hit(n) is Some {
                assert(rows[by.base_hit(n)->0 as int].pkgbase == n);
            }
            assert forall|i: int|
                0 <= i < rows.len() && (#[trigger] rows[i]).pkgbase == n && (forall|j: int|
                    i < j < rows.len() ==> (#[trigger] rows[j]).pkgbase != n) implies by.primary(n)
                == Some(i as u32) by {
                assert(by.by_pkgbase@.dom().contains(rows[i].pkgbase));
            }
        }
    }
}

proof fn use_names(rows: Seq<EntryView>, n: Seq<char>)
    ensures
        forall|i: int| #[trigger]
            names(rows, i, n) <==> crate::index::lookup::has_pkgname(rows[i], n),
{
    assert forall|i: int| #[trigger] names(rows, i, n) <==> crate::index::lookup::has_pkgname(
        rows[i],
        n,
    ) by {
        if crate::index::lookup::has_pkgname(rows[i], n) {
            let e = rows[i];
            let j = choose|j: int| 0 <= j < e.pkgnames.len() && (#[trigger] e.pkgnames[j]).name == n;
            assert(rows[i].pkgnames[j].name == n);
        }
        if names(rows, i, n) {
            let e = rows[i];
            let j = choose|j: int|
                0 <= j < rows[i].pkgnames.len() && (#[trigger] rows[i].pkgnames[j]).name == n;
            assert(e.pkgnames[j].name == n);
        }
    }
}

/// Where an entry has a pkgname, the tables lead from it to the last one that does.
pub proof fn law_pkgnames_are_found(by: Lookup, rows: Seq<EntryView>, n: Seq<char>, i: int)
    requires
        by.indexes(rows),
        0 <= i < rows.len(),
        names(rows, i, n),
    ensures
        by.by_name@.dom().contains(n),
        by.name_hit(n) matches Some(k) && i <= k < rows.len() && names(rows, k as int, n),
{
    use_names(rows, n);
    assert(crate::index::lookup::has_pkgname(rows[i], n));
    assert(names(rows, by.by_name@[n] as int, n));
}

/// Where no entry has a pkgname, the tables lead nowhere from it.
pub proof fn law_no_pkgname_is_found(by: Lookup, rows: Seq<EntryView>, n: Seq<char>)
    requires
        by.indexes(rows),
        forall|j: int| 0 <= j < rows.len() ==> !#[trigger] names(rows, j, n),
    ensures
        !by.by_name@.dom().contains(n),
        by.name_hit(n) is None,
{
    use_names(rows, n);
    if by.by_name@.dom().contains(n) {
        assert(names(rows, by.by_name@[n] as int, n));
    }
}

/// Where an entry provides a name, the tables lead from that name to the first one that
/// does.
pub proof fn law_providers_are_found(by: Lookup, rows: Seq<EntryView>, n: Seq<char>, i: int)
    requires
        by.indexes(rows),
        rows.len() <= 0x1_0000_0000,
        0 <= i < rows.len(),
        provides(rows, i, n),
    ensures
        by.by_provides@.dom().contains(n),
        by.provides_hit(n) matches Some(k) && k <= i && provides(rows, k as int, n),
{
    lemma_first_provider(rows, n);
    let items = providers_of(rows, n);
    if items.len() == 0 {
        assert(!provides(rows, i, n));
    }
    assert(by.by_provides@.dom().contains(n));
    if i < items[0] {
        assert(!provides(rows, i, n));
    }
}

/// Where no entry provides a name, the tables lead from that name to no provider.
pub proof fn law_no_provider_is_found(by: Lookup, rows: Seq<EntryView>, n: Seq<char>)
    requires
        by.indexes(rows),
        rows.len() <= 0x1_0000_0000,
        forall|j: int| 0 <= j < rows.len() ==> !#[trigger] provides(rows, j, n),
    ensures
        !by.by_provides@.dom().contains(n),
        by.provides_hit(n) is None,
{
    lemma_first_provider(rows, n);
    let items = providers_of(rows, n);
    if items.len() > 0 {
        assert(provides(rows, items[0] as int, n));
    }
    assert(!by.by_provides@.dom().contains(n));
}

/// For a provided name stands the first pkgname that claims it for itself, and else the
/// first of all.
pub proof fn law_which_pkgname_stands_for_a_name(e: EntryView, n: Seq<char>, i: int)
    ensures
        0 <= i < e.pkgnames.len() && claims(e.pkgnames[i].provides, n) > 0 && (forall|j: int|
            0 <= j < i ==> claims((#[trigger] e.pkgnames[j]).provides, n) == 0) ==> provider_in(e, n)
            == Some(i),
        e.pkgnames.len() > 0 && (forall|j: int|
            0 <= j < e.pkgnames.len() ==> claims((#[trigger] e.pkgnames[j]).provides, n) == 0)
            ==> provider_in(e, n) == Some(0int),
        provider_in(e, n) is None <==> e.pkgnames.len() == 0,
{
    lemma_first_claimant(e.pkgnames, n);
}

proof fn lemma_first_claimant(p: Seq<PkgnameView>, n: Seq<char>)
    ensures
        match first_claimant(p, n) {
            Some(i) => 0 <= i < p.len() && claims(p[i].provides, n) > 0 && (forall|j: int|
                0 <= j < i ==> claims((#[trigger] p[j]).provides, n) == 0),
            None => forall|j: int| 0 <= j < p.len() ==> claims((#[trigger] p[j]).provides, n) == 0,
        },
    decreases p.len(),
{
    if p.len() > 0 {
        let r = p.drop_last();
        lemma_first_claimant(r, n);
        assert forall|j: int| 0 <= j < r.len() implies r[j] == #[trigger] p[j] by {}
    }
}

} // verus!
