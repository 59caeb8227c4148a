//! What the operations answer, by what they are given.

use regex::Regex;
use vstd::prelude::*;

use crate::error::Error;
use crate::index::lookup::Lookup;
use crate::index::schema::{EntryView, IndexEntry, IndexFile};
use crate::index::srcinfo::{dedup_spec, parse};
use crate::laws::resolving::{is_built_in, is_provided_for};
use crate::laws::searching::{matches_one, names, provides};
use crate::laws::srcinfo::{first_of, last_of, or_empty, said, Place};
use crate::names::{
    bare_spec, pkgtarget_views, regex_matches, PkgName,
};
use crate::pacman::alpm_db::{InstalledCounterpart, MatchedVia, PacmanIndex};
use crate::resolver::{resolve, world, Item, Plan, World};
use crate::text::{lines_spec, opt_view, views};

verus! {

/// What a `.SRCINFO` says of its pkgbase outside the sections of its pkgnames is in the
/// entry: the last epoch, version, release and description, the first address and all
/// that it provides.
pub proof fn law_parsing_reads_the_header(text: &str, e: IndexEntry)
    requires
        call_ensures(parse, (text,), Ok::<IndexEntry, Error>(e)),
    ensures
        ({
            let ls = lines_spec(text@);
            let n = ls.len() as int;
            let head = Place::Header;
            &&& opt_view(e.epoch) == last_of(said(ls, "epoch"@, false, head, n))
            &&& e.pkgver@ == or_empty(last_of(said(ls, "pkgver"@, false, head, n)))
            &&& e.pkgrel@ == or_empty(last_of(said(ls, "pkgrel"@, false, head, n)))
            &&& opt_view(e.pkgdesc) == last_of(said(ls, "pkgdesc"@, false, head, n))
            &&& crate::index::schema::url_view(e.url) == first_of(
                said(ls, "url"@, false, Place::Anywhere, n),
            )
            &&& Some(e.pkgbase@) == last_of(said(ls, "pkgbase"@, false, Place::Anywhere, n))
            &&& pkgtarget_views(e.provides@) == dedup_spec(said(ls, "provides"@, true, head, n))
        }),
{
    crate::laws::srcinfo::law_what_the_header_says(text@, e@);
}

/// What the lines of a `.SRCINFO` list is in the lists of the entry, once.
pub proof fn law_parsing_fills_the_lists(text: &str, e: IndexEntry)
    requires
        call_ensures(parse, (text,), Ok::<IndexEntry, Error>(e)),
    ensures
        ({
            let ls = lines_spec(text@);
            let n = ls.len() as int;
            let all = Place::Anywhere;
            &&& pkgtarget_views(e.depends@) == dedup_spec(said(ls, "depends"@, true, all, n))
            &&& pkgtarget_views(e.makedepends@) == dedup_spec(
                said(ls, "makedepends"@, true, all, n),
            )
            &&& pkgtarget_views(e.checkdepends@) == dedup_spec(
                said(ls, "checkdepends"@, true, all, n),
            )
            &&& pkgtarget_views(e.conflicts@) == dedup_spec(said(ls, "conflicts"@, true, all, n))
            &&& pkgtarget_views(e.replaces@) == dedup_spec(said(ls, "replaces"@, true, all, n))
            &&& crate::index::schema::arch_list(e.arch@) == dedup_spec(
                said(ls, "arch"@, false, all, n),
            )
        }),
{
    crate::laws::srcinfo::law_what_the_lists_hold(text@, e@);
}

/// `re` finds an entry: it matches the name or the description of a pkgname, the
/// description of the pkgbase, or something that the entry provides.
pub open spec fn finds(re: Regex, e: EntryView) -> bool {
    ||| exists|j: int|
        0 <= j < e.pkgnames.len() && regex_matches(re, (#[trigger] e.pkgnames[j]).name)
    ||| exists|j: int|
        0 <= j < e.pkgnames.len() && ((#[trigger] e.pkgnames[j]).pkgdesc matches Some(d)
            && regex_matches(re, d))
    ||| (e.pkgdesc matches Some(d) && regex_matches(re, d))
    ||| matches_one(re, e.provides)
    ||| exists|j: int|
        0 <= j < e.pkgnames.len() && matches_one(re, (#[trigger] e.pkgnames[j]).provides)
}

/// A search answers with exactly the entries that every pattern finds.
pub proof fn law_searching_finds_every_entry(
    by: &Lookup,
    idx: &IndexFile,
    regexes: &Vec<Regex>,
    r: Vec<&IndexEntry>,
    i: int,
)
    requires
        call_ensures(Lookup::search, (by, idx, regexes), r),
        0 <= i < idx.entries@.len(),
    ensures
        (forall|k: int| 0 <= k < regexes@.len() ==> finds(#[trigger] regexes@[k], idx.entries@[i]@))
            ==> exists|q: int| 0 <= q < r@.len() && *(#[trigger] r@[q]) == idx.entries@[i],
        forall|q: int, k: int|
            0 <= q < r@.len() && 0 <= k < regexes@.len() ==> finds(
                #[trigger] regexes@[k],
                (*#[trigger] r@[q])@,
            ),
{
    let all = idx.entries@;
    let keep = all.map_values(
        |e: IndexEntry| crate::index::lookup::all_match(e@, regexes@),
    );
    let got = r@.map_values(|e: &IndexEntry| *e);
    assert(got == crate::index::lookup::kept(all, keep));
    if forall|k: int| 0 <= k < regexes@.len() ==> finds(#[trigger] regexes@[k], all[i]@) {
        assert forall|k: int| 0 <= k < regexes@.len() implies crate::index::lookup::entry_matches_spec(
            all[i]@,
            #[trigger] regexes@[k],
        ) by {
            crate::laws::searching::law_a_pattern_finds_what_it_matches(all[i]@, regexes@[k]);
        }
        assert(keep[i]);
        crate::laws::lists::law_all_is_kept(all, keep, i);
        let q = choose|q: int| 0 <= q < got.len() && got[q] == all[i];
        assert(*r@[q] == all[i]);
    }
    let at = crate::laws::lists::law_what_is_kept_stays_in_order(all, keep);
    assert forall|q: int, k: int| 0 <= q < r@.len() && 0 <= k < regexes@.len() implies finds(
        #[trigger] regexes@[k],
        (*#[trigger] r@[q])@,
    ) by {
        assert(got[q] == *r@[q]);
        assert(keep[at[q]]);
        assert(crate::index::lookup::entry_matches_spec(all[at[q]]@, regexes@[k]));
        crate::laws::searching::law_a_pattern_finds_what_it_matches(all[at[q]]@, regexes@[k]);
    }
}

/// A target leads to the last entry with that pkgname, else to the first that provides
/// it, else to the last with that pkgbase, whatever version it asks for.
pub proof fn law_looking_up_a_target(
    by: &Lookup,
    idx: &IndexFile,
    target: &str,
    r: Option<&IndexEntry>,
    i: int,
)
    requires
        by.indexes(idx.rows()),
        idx.entries@.len() <= 0x1_0000_0000,
        call_ensures(Lookup::lookup, (by, idx, target), r),
        0 <= i < idx.entries@.len(),
    ensures
        ({
            let rows = idx.rows();
            let n = bare_spec(target@);
            let named = exists|j: int| 0 <= j < rows.len() && #[trigger] names(rows, j, n);
            let provided = exists|j: int| 0 <= j < rows.len() && #[trigger] provides(rows, j, n);
            let based = exists|j: int| 0 <= j < rows.len() && (#[trigger] rows[j]).pkgbase == n;
            &&& names(rows, i, n) && (forall|j: int|
                i < j < rows.len() ==> !#[trigger] names(rows, j, n)) ==> r == Some(
                &idx.entries@[i],
            )
            &&& !named && provides(rows, i, n) && (forall|j: int|
                0 <= j < i ==> !#[trigger] provides(rows, j, n)) ==> r == Some(&idx.entries@[i])
            &&& !named && !provided && rows[i].pkgbase == n && (forall|j: int|
                i < j < rows.len() ==> (#[trigger] rows[j]).pkgbase != n) ==> r == Some(
                &idx.entries@[i],
            )
            &&& !named && !provided && !based ==> r is None
        }),
{
    crate::laws::searching::law_to_which_entry_a_name_leads(*by, idx.rows(), bare_spec(target@));
}

/// Where resolving succeeds, every target and every dependency of every pkgbase that is
/// built is installed, or the plan installs it, or builds it.
pub proof fn law_resolving_provides_for_everything(
    idx: &IndexFile,
    by: &Lookup,
    pac: &PacmanIndex,
    targets: &Vec<String>,
    plan: Plan,
    t: Seq<char>,
    b: Seq<char>,
    l: int,
    d: Seq<char>,
)
    requires
        call_ensures(resolve, (idx, by, pac, targets), Ok::<Plan, Error>(plan)),
    ensures
        ({
            let w = World { by: *by, rows: idx.rows(), pac: *pac, targets: views(targets@) };
            &&& views(targets@).contains(t) ==> is_provided_for(
                w,
                plan,
                (Item { target: t, direct: true }),
            )
            &&& is_built_in(plan, b, l) ==> exists|i: int|
                0 <= i < idx.rows().len() && (#[trigger] idx.rows()[i]).pkgbase == b && ((
                idx.rows()[i].depends.contains(d) || idx.rows()[i].makedepends.contains(d)
                    || idx.rows()[i].checkdepends.contains(d)) && bare_spec(d).len() > 0
                    ==> is_provided_for(w, plan, (Item { target: bare_spec(d), direct: false })))
        }),
{
    let w = world(*idx, *by, *pac, targets@);
    let r = Ok::<Plan, Error>(plan);
    let done = choose|done: Seq<Item>| #[trigger]
        w.is_walk(done) && w.is_complete(done) && crate::resolver::outcome_is(w, done, r);
    if views(targets@).contains(t) {
        crate::laws::resolving::law_every_target_is_provided_for(w, done, plan, t);
    }
    if is_built_in(plan, b, l) {
        let i = crate::laws::resolving::law_every_dependency_is_provided_for(
            w,
            done,
            plan,
            b,
            l,
            d,
        );
        assert(idx.rows()[i].pkgbase == b);
    }
}

/// A counterpart that was asked for with a sound hint is the hint itself, with the
/// version that is installed.
pub proof fn law_a_sound_hint_is_answered(
    pac: &PacmanIndex,
    e: &IndexEntry,
    h: &PkgName,
    r: Option<InstalledCounterpart>,
)
    requires
        call_ensures(PacmanIndex::counterpart_with_hint, (pac, e, Some(h)), r),
        pac.installed@.dom().contains(h@),
        crate::laws::packages::has_it(e@, h@),
    ensures
        r matches Some(c) && c.pkgname@ == h@ && c.via == MatchedVia::Pkgname && *c.version
            == pac.installed@[h@],
{
    crate::laws::packages::law_a_sound_hint_decides(e@, pac.installed@.dom(), h@);
}

} // verus!
