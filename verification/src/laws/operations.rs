//! What the larger operations answer, by what they are given.

use regex::Regex;
use vstd::prelude::*;

use crate::error::Error;
use crate::index::lookup::{AurClass, Lookup};
use crate::index::schema::{EntryView, IndexEntry, IndexFile};
use crate::index::secondary::Secondary;
use crate::index::srcinfo::parse;
use crate::laws::removing::{is_group, is_known_word, plain_words, times_in, uses};
use crate::laws::searching::{matches_one, names, provides};
use crate::laws::srcinfo::{last_of, or_empty, said, says_nothing, Place};
use crate::mirror::consent::{
    plan, AurAction, BootstrapKind, MirrorState, Plan, RefreshReason, SkipCause,
};
use crate::mirror::fetch::{change_of, extract_branch_updates, RefEdit, RefReport, RefUpdate};
use crate::mirror::worktree::{add_or_reset, TreeStep};
use crate::mirror::{refresh_aur_mirror, RefreshAction, RefreshEvent, RefreshState};
use crate::names::{
    bare_spec, pkgname_views, pkgtarget_views, regex_matches, PkgBase, PkgName, PkgTarget,
};
use crate::pacman::alpm_db::{
    record_views, PacmanIndex, PkgRecord,
};
use crate::pacman::invoke::{
    dash_u_paths, offer, query_repo_upgrades_in, told, upgrade_list, PkgUpgrade, SyncDb,
};
use crate::pacman::preflight::{
    stage, staged, Group, Issue, IssueView, RemoveRequest, StageResult, Staged,
};
use crate::pacman::verdiff::{classify_bump, version_parts, BumpKind};
use crate::resolver::classify::{classify, Source};
use crate::resolver::pkgbase_expand::{
    chosen_spec, expand_pkgbase_targets, DecisionView, ExpandedTargets,
};
use crate::targets::Target;
use crate::text::{lines_spec, opt_view, str_views, trim_spec, views};
use crate::version::Version;

verus! {

/// A `.SRCINFO` is read exactly if some line says something, every such line has a `=`,
/// and the pkgbase is named.
pub proof fn law_when_parsing_succeeds(text: &str, r: Result<IndexEntry, Error>)
    requires
        call_ensures(parse, (text,), r),
    ensures
        ({
            let ls = lines_spec(text@);
            r is Ok <==> {
                &&& forall|i: int|
                    0 <= i < ls.len() ==> says_nothing(#[trigger] ls[i]) || trim_spec(
                        ls[i],
                    ).contains('=')
                &&& exists|i: int| 0 <= i < ls.len() && !says_nothing(#[trigger] ls[i])
                &&& or_empty(
                    last_of(said(ls, "pkgbase"@, false, Place::Anywhere, ls.len() as int)),
                ).len() > 0
            }
        }),
        r matches Err(e) ==> e is SrcInfo,
{
    crate::laws::srcinfo::law_when_a_text_is_read(text@);
}

/// Over plain strings a search shows an entry exactly if every pattern matches one of its
/// pkgnames, the description of the pkgbase or something that it provides.
pub open spec fn finds_plainly(re: Regex, e: EntryView) -> bool {
    ||| exists|j: int|
        0 <= j < e.pkgnames.len() && regex_matches(re, (#[trigger] e.pkgnames[j]).name)
    ||| (e.pkgdesc matches Some(d) && regex_matches(re, d))
    ||| matches_one(re, e.provides)
    ||| exists|j: int|
        0 <= j < e.pkgnames.len() && matches_one(re, (#[trigger] e.pkgnames[j]).provides)
}

/// A search over plain strings answers with exactly the entries that every pattern finds.
pub proof fn law_searching_plainly_finds_every_entry(
    by: &Secondary,
    idx: &IndexFile,
    regexes: &Vec<Regex>,
    r: Vec<&IndexEntry>,
    i: int,
)
    requires
        call_ensures(Secondary::search, (by, idx, regexes), r),
        0 <= i < idx.entries@.len(),
    ensures
        (forall|k: int|
            0 <= k < regexes@.len() ==> finds_plainly(#[trigger] regexes@[k], idx.entries@[i]@))
            ==> exists|q: int| 0 <= q < r@.len() && *(#[trigger] r@[q]) == idx.entries@[i],
        forall|q: int, k: int|
            0 <= q < r@.len() && 0 <= k < regexes@.len() ==> finds_plainly(
                #[trigger] regexes@[k],
                (*#[trigger] r@[q])@,
            ),
{
    let all = idx.entries@;
    let keep = all.map_values(
        |e: IndexEntry| crate::index::secondary::all_plain_match(e@, regexes@),
    );
    let got = r@.map_values(|e: &IndexEntry| *e);
    assert(got == crate::index::lookup::kept(all, keep));
    if forall|k: int| 0 <= k < regexes@.len() ==> finds_plainly(#[trigger] regexes@[k], all[i]@) {
        assert forall|k: int| 0 <= k < regexes@.len() implies crate::index::secondary::plain_match(
            all[i]@,
            #[trigger] regexes@[k],
        ) by {
            crate::laws::searching::law_a_pattern_finds_what_it_plainly_matches(
                all[i]@,
                regexes@[k],
            );
        }
        assert(keep[i]);
        crate::laws::lists::law_all_is_kept(all, keep, i);
        let q = choose|q: int| 0 <= q < got.len() && got[q] == all[i];
        assert(*r@[q] == all[i]);
    }
    let at = crate::laws::lists::law_what_is_kept_stays_in_order(all, keep);
    assert forall|q: int, k: int| 0 <= q < r@.len() && 0 <= k < regexes@.len() implies finds_plainly(
        #[trigger] regexes@[k],
        (*#[trigger] r@[q])@,
    ) by {
        assert(got[q] == *r@[q]);
        assert(keep[at[q]]);
        assert(crate::index::secondary::plain_match(all[at[q]]@, regexes@[k]));
        crate::laws::searching::law_a_pattern_finds_what_it_plainly_matches(
            all[at[q]]@,
            regexes@[k],
        );
    }
}

/// What the AUR calls an installed package: a pkgname goes before a provided name, and
/// that before a pkgbase.
pub proof fn law_what_the_aur_calls_a_package<'a>(
    by: &Lookup,
    idx: &'a IndexFile,
    n: &PkgName,
    r: AurClass<'a>,
)
    requires
        by.indexes(idx.rows()),
        idx.entries@.len() <= 0x1_0000_0000,
        call_ensures(Lookup::classify_foreign, (by, idx, n), r),
    ensures
        ({
            let rows = idx.rows();
            let named = exists|j: int| 0 <= j < rows.len() && #[trigger] names(rows, j, n@);
            let provided = exists|j: int| 0 <= j < rows.len() && #[trigger] provides(rows, j, n@);
            let based = exists|j: int| 0 <= j < rows.len() && (#[trigger] rows[j]).pkgbase == n@;
            &&& r is AsPkgname <==> named
            &&& r is AsProvides <==> !named && provided
            &&& r is AsPkgbase <==> !named && !provided && based
            &&& r is NotInAur <==> !named && !provided && !based
        }),
{
    let rows = idx.rows();
    if exists|j: int| 0 <= j < rows.len() && #[trigger] names(rows, j, n@) {
        let j = choose|j: int| 0 <= j < rows.len() && #[trigger] names(rows, j, n@);
        crate::laws::searching::law_pkgnames_are_found(*by, rows, n@, j);
    } else {
        crate::laws::searching::law_no_pkgname_is_found(*by, rows, n@);
    }
    if exists|j: int| 0 <= j < rows.len() && #[trigger] provides(rows, j, n@) {
        let j = choose|j: int| 0 <= j < rows.len() && #[trigger] provides(rows, j, n@);
        crate::laws::searching::law_providers_are_found(*by, rows, n@, j);
    } else {
        crate::laws::searching::law_no_provider_is_found(*by, rows, n@);
    }
    if exists|j: int| 0 <= j < rows.len() && (#[trigger] rows[j]).pkgbase == n@ {
        let j = choose|j: int| 0 <= j < rows.len() && (#[trigger] rows[j]).pkgbase == n@;
        assert(by.by_pkgbase@.dom().contains(rows[j].pkgbase));
    }
    if by.base_hit(n@) is Some {
        assert(rows[by.base_hit(n@)->0 as int].pkgbase == n@);
    }
}

/// A removal is understood exactly as it is written: what is removed are the words that
/// are no options, and each flag has its letter and its word.
pub proof fn law_reading_a_removal(argv: &Vec<String>, r: Option<RemoveRequest>)
    requires
        call_ensures(RemoveRequest::from_argv, (argv,), r),
        forall|i: int|
            0 <= i < argv@.len() ==> (#[trigger] argv@[i])@ != "--"@ && argv@[i]@ != "--color"@,
    ensures
        ({
            let ws = views(argv@);
            &&& r is Some <==> {
                &&& forall|i: int| 0 <= i < ws.len() ==> is_known_word(#[trigger] ws[i])
                &&& exists|i: int|
                    0 <= i < ws.len() && is_group(#[trigger] ws[i]) && times_in(ws[i].skip(1), 'R')
                        > 0
                &&& plain_words(ws).len() > 0
            }
            &&& r matches Some(q) ==> {
                &&& pkgtarget_views(q.targets@) == plain_words(ws)
                &&& q.flags.cascade <==> uses(ws, 'c', "--cascade"@) > 0
                &&& q.flags.unneeded <==> uses(ws, 'u', "--unneeded"@) > 0
                &&& q.flags.no_save <==> uses(ws, 'n', "--nosave"@) > 0
                &&& q.flags.db_only <==> ws.contains("--dbonly"@)
                &&& q.flags.no_scriptlet <==> ws.contains("--noscriptlet"@)
                &&& q.flags.recurse <==> uses(ws, 's', "--recursive"@) > 0
                &&& q.flags.recurse_all <==> uses(ws, 's', "--recursive"@) > 1
                &&& q.flags.no_dep_version <==> uses(ws, 'd', "--nodeps"@) > 0
                &&& q.flags.no_deps <==> uses(ws, 'd', "--nodeps"@) > 1
            }
        }),
{
    let ws = views(argv@);
    assert forall|i: int| 0 <= i < ws.len() implies #[trigger] ws[i] != "--"@ && ws[i]
        != "--color"@ by {
        assert(ws[i] == argv@[i]@);
    }
    crate::laws::removing::law_what_a_removal_asks_for(ws);
}

/// An installed target is removed by itself; another one is the group of that name or is
/// missing.
pub proof fn law_staging_a_target(
    t: &PkgTarget,
    installed: &Vec<PkgName>,
    groups: &Vec<Group>,
    r: Staged,
)
    requires
        call_ensures(stage, (t, installed, groups), r),
        !("local/"@).is_prefix_of(t@),
    ensures
        pkgname_views(installed@).contains(t@) ==> (r matches Staged::Remove(v) && pkgname_views(v@)
            == seq![t@]),
        r is Missing <==> !pkgname_views(installed@).contains(t@) && forall|i: int|
            0 <= i < groups@.len() ==> (#[trigger] groups@[i]).name@ != t@,
        r matches Staged::Missing(i) ==> i@ == (IssueView::TargetNotFound { target: t@ }),
{
    crate::laws::removing::law_the_local_database_is_understood(t@);
    crate::laws::removing::law_what_a_target_removes(t@, pkgname_views(installed@), groups@);
    if !pkgname_views(installed@).contains(t@) && exists|i: int|
        0 <= i < groups@.len() && (#[trigger] groups@[i]).name@ == t@ {
        let i = choose|i: int| 0 <= i < groups@.len() && (#[trigger] groups@[i]).name@ == t@;
        let f = lemma_first_group(groups@, t@, i);
    }
}

proof fn lemma_first_group(groups: Seq<Group>, n: Seq<char>, i: int) -> (f: int)
    requires
        0 <= i < groups.len(),
        groups[i].name@ == n,
    ensures
        0 <= f <= i,
        groups[f].name@ == n,
        forall|j: int| 0 <= j < f ==> (#[trigger] groups[j]).name@ != n,
    decreases i,
{
    if exists|j: int| 0 <= j < i && (#[trigger] groups[j]).name@ == n {
        let j = choose|j: int| 0 <= j < i && (#[trigger] groups[j]).name@ == n;
        lemma_first_group(groups, n, j)
    } else {
        i
    }
}

/// A refusal ends a removal with the target and the reason; else every missing target is
/// named.
pub proof fn law_what_staging_comes_to(
    targets: &Vec<PkgTarget>,
    results: &Vec<StageResult>,
    r: Result<Vec<Issue>, Error>,
)
    requires
        call_ensures(staged, (targets, results), r),
        results@.len() <= targets@.len(),
    ensures
        r is Err <==> exists|i: int| 0 <= i < results@.len() && (#[trigger] results@[i]) is Refused,
        r matches Ok(v) ==> forall|i: int|
            0 <= i < results@.len() && (#[trigger] results@[i]) is Missing
                ==> crate::pacman::preflight::issue_list(v@).contains(
                IssueView::TargetNotFound { target: targets@[i]@ },
            ),
{
    crate::laws::removing::law_the_first_refusal_counts(results@);
    let ts = pkgtarget_views(targets@);
    if r is Ok {
        assert forall|i: int| 0 <= i < results@.len() && (#[trigger] results@[i]) is Missing implies crate::pacman::preflight::issue_list(
            r->Ok_0@,
        ).contains(IssueView::TargetNotFound { target: targets@[i]@ }) by {
            crate::laws::removing::law_every_missing_target_is_named(ts, results@, targets@[i]@);
            assert(ts[i] == targets@[i]@);
        }
    }
}

/// The files of an installation are looked for only behind `-U`.
pub proof fn law_which_files_are_installed<'a>(
    argv: &'a Vec<String>,
    r: Option<Vec<&'a str>>,
    f: Seq<char>,
)
    requires
        call_ensures(dash_u_paths, (argv,), r),
    ensures
        r is Some <==> views(argv@).contains("-U"@),
        r matches Some(v) ==> (str_views(v@).contains(f) <==> exists|i: int, j: int|
            0 <= i < j < argv@.len() && (#[trigger] argv@[i])@ == "-U"@ && (#[trigger] argv@[j])@
                == f && (f.len() == 0 || f[0] != '-')),
{
    let ws = views(argv@);
    crate::laws::forwarding::law_files_follow_their_flag(ws, f);
    if r is Some {
        if str_views(r->0@).contains(f) {
            let (i, j) = choose|i: int, j: int|
                0 <= i < j < ws.len() && #[trigger] ws[i] == "-U"@ && #[trigger] ws[j] == f && (
                f.len() == 0 || f[0] != '-');
            assert(argv@[i]@ == "-U"@ && argv@[j]@ == f);
        }
        if exists|i: int, j: int|
            0 <= i < j < argv@.len() && (#[trigger] argv@[i])@ == "-U"@ && (#[trigger] argv@[j])@
                == f && (f.len() == 0 || f[0] != '-') {
            let (i, j) = choose|i: int, j: int|
                0 <= i < j < argv@.len() && (#[trigger] argv@[i])@ == "-U"@
                    && (#[trigger] argv@[j])@ == f && (f.len() == 0 || f[0] != '-');
            assert(ws[i] == "-U"@ && ws[j] == f);
        }
    }
}

/// A change of the epoch goes before everything else, and a change of the release alone
/// comes last.
pub proof fn law_classifying_a_change(old: &Version, new: &Version, r: BumpKind)
    requires
        call_ensures(classify_bump, (old, new), r),
    ensures
        r == BumpKind::Epoch <==> version_parts(old@).epoch != version_parts(new@).epoch,
        r == BumpKind::PkgRel <==> version_parts(old@).epoch == version_parts(new@).epoch
            && version_parts(old@).pkgver == version_parts(new@).pkgver && version_parts(
            old@,
        ).pkgrel != version_parts(new@).pkgrel,
        r == BumpKind::Other <==> version_parts(old@) == version_parts(new@),
{
    crate::laws::versions::law_the_epoch_counts_first(old@, new@);
    crate::pacman::verdiff::law_no_bump_means_same_parts(old@, new@);
}

/// A name comes from the installed package of that name, whatever else has it; a name
/// that only a sync repository has comes from there; and what nobody has is missing.
pub proof fn law_classifying_a_name(
    idx: &IndexFile,
    by: &Lookup,
    pac: &PacmanIndex,
    n: &str,
    r: Source,
)
    requires
        by.indexes(idx.rows()),
        idx.entries@.len() <= 0x1_0000_0000,
        call_ensures(classify, (idx, by, pac, n), r),
    ensures
        pac.installed@.dom().contains(n@) ==> (r matches Source::Installed(p) && p@ == n@),
        !pac.installed@.dom().contains(n@) && !pac.installed_providers@.dom().contains(n@)
            && pac.sync_versions@.dom().contains(n@) ==> (r matches Source::Repo(p) && p@ == n@),
        !pac.installed@.dom().contains(n@) && !pac.installed_providers@.dom().contains(n@)
            && !pac.sync_versions@.dom().contains(n@) && !pac.sync_providers@.dom().contains(n@)
            ==> forall|i: int|
            0 <= i < idx.rows().len() && #[trigger] names(idx.rows(), i, n@) && (forall|j: int|
                i < j < idx.rows().len() ==> !#[trigger] names(idx.rows(), j, n@)) ==> (r matches
                Source::Aur(x) && x.0 == i),
{
    crate::laws::resolving::law_where_a_name_is_had(*by, idx.rows(), *pac, n@);
    crate::laws::resolving::law_where_the_aur_has_a_name(*by, idx.rows(), n@);
    let rows = idx.rows();
    assert forall|i: int|
        0 <= i < rows.len() && #[trigger] names(rows, i, n@) && (forall|j: int|
            i < j < rows.len() ==> !#[trigger] names(rows, j, n@)) implies by.by_name@.dom().contains(
        n@,
    ) && by.by_name@[n@] == i by {
        crate::laws::searching::law_pkgnames_are_found(*by, rows, n@, i);
        let k = by.by_name@[n@] as int;
        if i < k {
            assert(!names(rows, k, n@));
        }
    }
}

/// A clone is started, asked about or left out as the trigger and the user say.
pub proof fn law_planning_a_refresh(
    aur: bool,
    state: MirrorState,
    reason: RefreshReason,
    noconfirm: bool,
    tty: bool,
    config: &str,
    r: Plan,
)
    requires
        call_ensures(plan, (aur, state, reason, noconfirm, tty, config), r),
    ensures
        !aur ==> (r matches Plan::Settled(_, a) && a == AurAction::Skip(SkipCause::Disabled)),
        aur && state == MirrorState::Ready && reason != RefreshReason::ForceReclone ==> (r matches
            Plan::Settled(said, a) && a == AurAction::Fetch && said@.len() == 0),
        aur && state == MirrorState::Absent && reason == RefreshReason::ExplicitSync && !noconfirm
            ==> (r matches Plan::Ask(_, k) && k == BootstrapKind::FirstRun),
        aur && state == MirrorState::Interrupted && reason == RefreshReason::ExplicitSync
            && !noconfirm ==> (r matches Plan::Ask(_, k) && k == BootstrapKind::InterruptedRedo),
        aur && state == MirrorState::Ready && reason == RefreshReason::ForceReclone && !noconfirm
            ==> (r matches Plan::Ask(_, k) && k == BootstrapKind::ForcedReclone),
        aur && reason == RefreshReason::ForceReclone && noconfirm ==> (r matches Plan::Settled(
            _,
            a,
        ) && a is Bootstrap),
        aur && state != MirrorState::Ready && reason == RefreshReason::InstallOffer && (noconfirm
            || !tty) ==> (r matches Plan::Settled(_, a) && a is Skip),
{
    if aur && (state != MirrorState::Ready || reason == RefreshReason::ForceReclone) {
        crate::laws::mirroring::law_who_gets_a_clone(state, reason, noconfirm, tty, config@);
    } else if !aur {
        crate::mirror::consent::law_disabled_touches_nothing(state, reason, noconfirm, tty, config@);
    } else {
        crate::mirror::consent::law_fetch_never_asks(reason, noconfirm, tty, config@);
        if r is Settled {
            let said = r->Settled_0;
            assert(crate::mirror::consent::notices(said@).len() == said@.len());
        }
    }
}

/// A mirror with a branch is fetched; one without is cloned.
pub proof fn law_refreshing_the_mirror(
    force: bool,
    there: bool,
    bootstrapped: bool,
    r: Option<(RefreshState, Vec<RefreshAction>)>,
)
    requires
        call_ensures(
            refresh_aur_mirror,
            (
                force,
                RefreshState::Cleared,
                RefreshEvent::Inspected { exists: there, bootstrapped },
            ),
            r,
        ),
    ensures
        r matches Some((_, actions)) && (actions@.contains(RefreshAction::FetchAndLoad)
            <==> bootstrapped) && (actions@.contains(RefreshAction::Clone) <==> !bootstrapped) && (
        actions@.contains(RefreshAction::RemoveMirror) <==> !bootstrapped && there),
{
    crate::laws::mirroring::law_a_mirror_is_fetched_or_cloned(force, there, bootstrapped);
}

/// Every branch that a fetch changed is among the updates, by its own name.
pub proof fn law_every_changed_branch_is_updated(
    reports: &Vec<RefReport>,
    edits: &Vec<RefEdit>,
    r: Vec<RefUpdate>,
    i: int,
    k: int,
    b: Seq<char>,
)
    requires
        call_ensures(extract_branch_updates, (reports, edits), r),
        0 <= i < reports@.len(),
        0 <= k < edits@.len(),
        reports@[i].edit matches Some(e) && e == k,
        reports@[i].remote matches Some(n) && n@ == "refs/heads/"@ + b,
        reports@[i].mode != crate::mirror::fetch::Mode::Unchanged,
    ensures
        exists|q: int|
            0 <= q < r@.len() && (#[trigger] r@[q]).refname@ == b && opt_view(r@[q].new_oid)
                == opt_view(edits@[k].new),
{
    crate::laws::mirroring::law_which_reports_count(reports@[i], edits@, b, k);
    crate::laws::mirroring::law_every_change_counts(reports@, edits@, i);
    let all = crate::mirror::fetch::update_list(r@);
    let c = change_of(reports@[i], edits@)->0;
    let q = choose|q: int| 0 <= q < all.len() && all[q] == c;
    assert(r@[q]@ == c);
    assert(r@[q].refname@ == b);
}

/// A working tree in order is only reset, whatever else stands there.
pub proof fn law_trees_in_order_are_reset(dest: bool, r: Vec<TreeStep>)
    requires
        call_ensures(add_or_reset, (true, dest), r),
    ensures
        r@ == seq![TreeStep::Reset],
{
}

/// The upgrades are those of installed packages that the first database with the package
/// offers, in the order of the installed packages.
pub proof fn law_upgrades_are_offers<F: Fn(&Version, &Version) -> bool>(
    local: &Vec<PkgRecord>,
    dbs: &Vec<SyncDb>,
    older: F,
    r: Vec<PkgUpgrade>,
    k: int,
)
    requires
        call_ensures(query_repo_upgrades_in::<F>, (local, dbs, older), r),
        0 <= k < r@.len(),
    ensures
        exists|i: int|
            0 <= i < local@.len() && (#[trigger] local@[i]).name@ == r@[k].name@
                && local@[i].version@ == r@[k].old_ver@ && offer(
                dbs@,
                local@[i].name@,
                local@[i].version@,
            ) == Some(r@[k]@) && told(older, r@[k].old_ver@, r@[k].new_ver@, true),
{
    let outdated = choose|outdated: Seq<bool>|
        #[trigger] crate::pacman::invoke::marks(local@, dbs@, older, outdated) && upgrade_list(r@)
            == crate::pacman::invoke::marked(local@, dbs@, outdated);
    let at = crate::laws::forwarding::law_outdated_packages_are_listed(local@, dbs@, outdated);
    let all = upgrade_list(r@);
    assert(all[k] == r@[k]@);
    let i = at[k];
    lemma_offer_names(dbs@, local@[i].name@, local@[i].version@);
    assert(outdated[i]);
    assert(local@[i].name@ == r@[k].name@);
}

proof fn lemma_offer_names(dbs: Seq<SyncDb>, n: Seq<char>, old: Seq<char>)
    ensures
        offer(dbs, n, old) matches Some(u) ==> u.name == n && u.old_ver == old,
    decreases dbs.len(),
{
    if dbs.len() > 0 {
        lemma_offer_names(dbs.skip(1), n, old);
    }
}

/// An installed package is known with the version of its last record, and a package of
/// the sync databases with that of the first.
pub proof fn law_building_the_package_index(
    local: &Vec<PkgRecord>,
    sync: &Vec<Vec<PkgRecord>>,
    r: PacmanIndex,
    i: int,
)
    requires
        call_ensures(PacmanIndex::build, (local, sync), r),
        0 <= i < local@.len(),
        forall|j: int| i < j < local@.len() ==> (#[trigger] local@[j]).name@ != local@[i].name@,
    ensures
        r.installed@.dom().contains(local@[i].name@),
        r.installed@[local@[i].name@]@ == local@[i].version@,
{
    let recs = record_views(local@);
    let n = local@[i].name@;
    crate::laws::packages::law_which_package_of_a_name_counts(recs, n);
    assert(recs[i] == local@[i]@);
    assert forall|j: int| i < j < recs.len() implies (#[trigger] recs[j]).name != n by {
        assert(recs[j] == local@[j]@);
    }
    let p = crate::pacman::alpm_db::last_named(recs, n)->0;
    let k = choose|k: int|
        0 <= k < recs.len() && #[trigger] recs[k] == p && p.name == n && (forall|j: int|
            k < j < recs.len() ==> (#[trigger] recs[j]).name != n);
    if k < i {
        assert(recs[i].name != n);
    }
    if i < k {
        assert(recs[k].name != n);
    }
    assert(r.installed@.dom().contains(n));
}

/// A pkgname of a split package that pacman does not know goes on as its pkgbase. It is
/// meant, and it is wanted together with the siblings that it may need.
pub proof fn law_expanding_targets<
    F: Fn(&PkgBase, &Vec<PkgName>) -> Result<Vec<PkgName>, Error>,
>(
    idx: &IndexFile,
    by: &Lookup,
    pac: &PacmanIndex,
    targets: &Vec<Target>,
    select: F,
    out: ExpandedTargets,
    k: int,
    i: int,
    m: Seq<char>,
)
    requires
        by.indexes(idx.rows()),
        idx.entries@.len() <= 0x1_0000_0000,
        call_ensures(
            expand_pkgbase_targets::<F>,
            (idx, Some(by), pac, targets, select),
            Ok::<ExpandedTargets, Error>(out),
        ),
        0 <= k < targets@.len(),
        !crate::laws::expanding::pacman_knows(*pac, bare_spec(targets@[k].spec@)),
        crate::laws::expanding::last_to_name(idx.rows(), i, bare_spec(targets@[k].spec@)),
        idx.rows()[i].pkgnames.len() > 1,
    ensures
        out.targets@.len() == targets@.len(),
        out.targets@[k]@ == idx.rows()[i].pkgbase,
        out.selections@.dom().contains(idx.rows()[i].pkgbase),
        m == bare_spec(targets@[k].spec@) || ((exists|q: int|
            0 <= q < idx.rows()[i].depends.len() && bare_spec(#[trigger] idx.rows()[i].depends[q])
                == m) && (exists|q: int|
            0 <= q < idx.rows()[i].pkgnames.len() && (#[trigger] idx.rows()[i].pkgnames[q]).name
                == m)) ==> pkgname_views(out.selections@[idx.rows()[i].pkgbase]@).contains(m),
        pkgname_views(out.direct_pkgnames@).contains(bare_spec(targets@[k].spec@)),
{
    let rows = idx.rows();
    let ts = crate::resolver::pkgbase_expand::target_views(targets@);
    let ds = choose|ds: Seq<DecisionView>|
        ds.len() == targets.len() && #[trigger] crate::resolver::pkgbase_expand::decided(
            *by,
            rows,
            *pac,
            select,
            ts,
            ds,
        ) && crate::resolver::pkgbase_expand::expansion_is(out, *by, rows, ts, ds);
    let spec = targets@[k].spec@;
    let n = bare_spec(spec);
    let b = rows[i].pkgbase;
    assert(ts[k].spec == spec);
    assert(crate::resolver::pkgbase_expand::decides(*by, rows, *pac, select, ts[k].spec, ds[k]));
    crate::laws::expanding::law_a_pkgname_leads_to_its_pkgbase(
        *by,
        rows,
        *pac,
        select,
        spec,
        ds[k],
        i,
    );
    let specs = ds.map_values(|d: DecisionView| d.spec);
    assert(views(out.targets@) == specs);
    assert(views(out.targets@).len() == out.targets@.len());
    assert(views(out.targets@)[k] == out.targets@[k]@);
    assert(views(out.targets@)[k] == specs[k]);
    crate::laws::expanding::law_targets_add_up(ds, b, m);
    assert(ds[k].selection == Some((b, chosen_spec(rows[i], n))));
    assert(out.selections@.dom().contains(b));
    crate::laws::expanding::law_needed_siblings_come_along(rows[i], n, m);
    if chosen_spec(rows[i], n).contains(m) {
        assert(crate::laws::expanding::wants(ds[k], b, m));
    }
    assert(ds[k].direct == seq![n]);
    let a = ds.take(k);
    let c = ds.skip(k + 1);
    assert(ds =~= a + (seq![ds[k]] + c));
    crate::laws::expanding::law_what_is_meant_adds_up(a, seq![ds[k]] + c, ds[k]);
    crate::laws::expanding::law_what_is_meant_adds_up(seq![ds[k]], c, ds[k]);
    let whole = crate::resolver::pkgbase_expand::direct_spec(ds);
    let before = crate::resolver::pkgbase_expand::direct_spec(a);
    assert(whole[before.len() as int] == n);
}

/// Without tables every target goes on as it was typed, and nothing is meant in
/// particular.
pub proof fn law_without_tables_targets_go_on<
    F: Fn(&PkgBase, &Vec<PkgName>) -> Result<Vec<PkgName>, Error>,
>(
    idx: &IndexFile,
    pac: &PacmanIndex,
    targets: &Vec<Target>,
    select: F,
    r: Result<ExpandedTargets, Error>,
)
    requires
        call_ensures(
            expand_pkgbase_targets::<F>,
            (idx, None::<&Lookup>, pac, targets, select),
            r,
        ),
    ensures
        r matches Ok(out) && out.targets@.len() == targets@.len() && (forall|k: int|
            0 <= k < targets@.len() ==> (#[trigger] out.targets@[k])@ == targets@[k].spec@)
            && out.direct_pkgnames@.len() == 0,
{
    if r is Ok {
        let out = r->Ok_0;
        let specs = targets@.map_values(|t: Target| t.spec@);
        assert(views(out.targets@).len() == specs.len());
        assert forall|k: int| 0 <= k < targets@.len() implies (#[trigger] out.targets@[k])@
            == targets@[k].spec@ by {
            assert(views(out.targets@)[k] == specs[k]);
        }
    }
}

} // verus!
