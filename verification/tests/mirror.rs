//! The refresh of the mirror and of the repository databases.

use aurox::error::Error;
use aurox::mirror::fetch::{extract_branch_updates, tips, Mode, RefEdit, RefReport};
use aurox::mirror::worktree::{
    add_or_reset, branch_ref, git_args, gitdir, may_fail, prune, TreeStep,
};
use aurox::mirror::{
    fetch_stamp, last_fetch_age, loose_branch_ref_count, low_speed, refresh_aur_mirror, report_repo_sync, RefreshAction,
    RefreshEvent, RefreshState, LOOSE_REF_PACK_THRESHOLD,
};
use aurox::names::PkgBase;
use aurox::pacman::dload::{
    beat, stamp, url_basename, DownloadProgress, Existing, FetchEvent, FetchOutcome, FetchSpec,
    FetchStep, Transfer, Verdict,
};
use aurox::pacman::sync::{
    acquire, after_pause, after_probe, fetch_reply, link_plan, progress_row, synced,
    update_outcome, FetchReply, LinkState, LockProbe, Pause, RefreshLock, SyncOutcome, Wait,
};
use aurox::system::Found;
use aurox::ui::Tone;
use aurox::units::{ByteSize, UnixTime};

fn step(force: bool, state: RefreshState, event: RefreshEvent) -> (RefreshState, Vec<RefreshAction>) {
    refresh_aur_mirror(force, state, event).expect("the event belongs to the state")
}

#[test]
fn the_first_refresh_clones_and_builds() {
    let (state, actions) = step(false, RefreshState::Start, RefreshEvent::Found { exists: false });
    assert_eq!(state, RefreshState::Cleared);
    assert!(actions.is_empty());
    let (state, actions) =
        step(false, state, RefreshEvent::Inspected { exists: false, bootstrapped: false });
    assert_eq!(state, RefreshState::Finished);
    assert_eq!(
        actions,
        [
            RefreshAction::SayFirstRun,
            RefreshAction::Clone,
            RefreshAction::SayBuilding,
            RefreshAction::BuildIndex,
            RefreshAction::SaveIndex,
            RefreshAction::SayBuilt,
            RefreshAction::GraphAll,
        ]
    );
}

#[test]
fn a_good_mirror_is_fetched_and_never_removed() {
    let (state, actions) = step(false, RefreshState::Start, RefreshEvent::Found { exists: true });
    assert!(actions.is_empty());
    let (state, actions) =
        step(false, state, RefreshEvent::Inspected { exists: true, bootstrapped: true });
    assert_eq!(actions, [RefreshAction::SayRefreshing, RefreshAction::FetchAndLoad]);
    let (state, actions) =
        step(false, state, RefreshEvent::Fetched { updates: 3, index_loaded: true });
    assert_eq!(state, RefreshState::Counting);
    assert!(actions.contains(&RefreshAction::SaveIndex));
    assert!(!actions.contains(&RefreshAction::RemoveMirror));
    let (state, actions) =
        step(false, state, RefreshEvent::Counted { loose: LOOSE_REF_PACK_THRESHOLD });
    assert_eq!(state, RefreshState::Finished);
    assert_eq!(actions, [RefreshAction::PackRefs]);
    let (_, actions) = step(
        false,
        RefreshState::Counting,
        RefreshEvent::Counted { loose: LOOSE_REF_PACK_THRESHOLD - 1 },
    );
    assert!(actions.is_empty());
}

#[test]
fn a_forced_refresh_removes_the_mirror() {
    let (_, actions) = step(true, RefreshState::Start, RefreshEvent::Found { exists: true });
    assert_eq!(actions, [RefreshAction::WarnForced, RefreshAction::RemoveMirror]);
    let (_, actions) = step(
        false,
        RefreshState::Cleared,
        RefreshEvent::Inspected { exists: true, bootstrapped: false },
    );
    assert_eq!(actions[0], RefreshAction::WarnInterrupted);
    assert_eq!(actions[1], RefreshAction::RemoveMirror);
    assert!(refresh_aur_mirror(
        false,
        RefreshState::Finished,
        RefreshEvent::Found { exists: true }
    )
    .is_none());
}

#[test]
fn an_unreadable_index_is_built_anew() {
    let (state, actions) = step(
        false,
        RefreshState::Fetching,
        RefreshEvent::Fetched { updates: 0, index_loaded: false },
    );
    assert_eq!(state, RefreshState::Finished);
    assert!(actions.contains(&RefreshAction::BuildIndex));
    let (_, actions) = step(
        false,
        RefreshState::Fetching,
        RefreshEvent::Fetched { updates: 0, index_loaded: true },
    );
    assert_eq!(actions, [RefreshAction::SayUnchanged]);
}

#[test]
fn actions_speak_to_the_user() {
    let said = RefreshAction::SayUpdated(12).message().unwrap();
    assert_eq!(said.tone, Tone::Note);
    assert_eq!(said.text, "12 ref(s) updated");
    assert_eq!(
        RefreshAction::WarnForced.message().unwrap().text,
        "re-clone forced (-Syy); removing existing mirror"
    );
    assert!(RefreshAction::Clone.message().is_none());
}

#[test]
fn a_stamp_tells_the_age_of_a_fetch() {
    let stamp = fetch_stamp(1_700_000_000);
    assert_eq!(stamp, "1700000000");
    let now: u128 = 1_700_000_060_000_000_500;
    assert_eq!(last_fetch_age(&stamp, now), Some(60_000_000_500));
    assert_eq!(last_fetch_age(" 1700000000\n", now), Some(60_000_000_500));
    // A stamp of the future is of now.
    assert_eq!(last_fetch_age("1800000000", now), Some(0));
    assert_eq!(last_fetch_age("yesterday", now), None);
    assert_eq!(last_fetch_age("", now), None);
}

#[test]
fn the_databases_are_reported_on() {
    let r = report_repo_sync(&Some(Ok(SyncOutcome::Refreshed)));
    assert_eq!((r.tone, r.text.as_str()), (Tone::Note, "official package databases refreshed"));
    let r = report_repo_sync(&Some(Ok(SyncOutcome::AlreadyCurrent)));
    assert_eq!((r.tone, r.text.as_str()), (Tone::Note, "official package databases up to date"));
    let r = report_repo_sync(&Some(Err(Error::other("x"))));
    assert_eq!((r.tone, r.text.as_str()), (Tone::Warn, "official-repo refresh failed: x"));
    let r = report_repo_sync(&None);
    assert_eq!((r.tone, r.text.as_str()), (Tone::Warn, "official-repo refresh thread panicked"));
    assert_eq!(low_speed(0), None);
    assert_eq!(low_speed(30), Some((1, 30)));
}

#[test]
fn loose_branches_are_counted_at_any_depth() {
    let heads = Found::Dir(vec![
        Found::File(41),
        Found::Dir(vec![Found::File(41), Found::Nothing, Found::Dir(vec![])]),
        Found::File(41),
    ]);
    assert_eq!(loose_branch_ref_count(&heads), 3);
    assert_eq!(loose_branch_ref_count(&Found::Nothing), 0);
    assert_eq!(loose_branch_ref_count(&Found::File(41)), 0);
}

#[test]
fn only_branches_that_changed_are_updates() {
    let report = |mode, remote: &str, edit| RefReport {
        mode,
        remote: Some(remote.to_owned()),
        edit: Some(edit),
    };
    let edits = vec![
        RefEdit { previous: Some("old".into()), new: Some("new".into()) },
        RefEdit { previous: Some("zero".into()), new: Some("first".into()) },
        RefEdit { previous: Some("gone".into()), new: None },
    ];
    let reports = vec![
        report(Mode::FastForward, "refs/heads/a", 0),
        report(Mode::New, "refs/heads/b", 1),
        report(Mode::Unchanged, "refs/heads/c", 0),
        report(Mode::Forced, "refs/tags/v1", 0),
        RefReport { mode: Mode::New, remote: None, edit: Some(0) },
        report(Mode::Forced, "refs/heads/d", 2),
        report(Mode::Forced, "refs/heads/e", 9),
    ];
    let got = extract_branch_updates(&reports, &edits);
    let shown: Vec<(&str, Option<&str>, Option<&str>)> = got
        .iter()
        .map(|u| (u.refname.as_str(), u.old_oid.as_deref(), u.new_oid.as_deref()))
        .collect();
    assert_eq!(
        shown,
        [
            ("a", Some("old"), Some("new")),
            ("b", None, Some("first")),
            ("d", Some("gone"), None),
        ]
    );
    assert_eq!(tips(&got), ["new", "first"]);
}

#[test]
fn only_a_preparing_prune_may_fail() {
    assert!(may_fail(TreeStep::Prune, true));
    assert!(!may_fail(TreeStep::Prune, false));
    for step in [TreeStep::Reset, TreeStep::Remove, TreeStep::Add] {
        assert!(!may_fail(step, true));
        assert!(!may_fail(step, false));
    }
}

#[test]
fn working_trees_are_kept_where_they_are_linked() {
    assert_eq!(add_or_reset(true, true), [TreeStep::Reset]);
    assert_eq!(add_or_reset(false, true), [TreeStep::Prune, TreeStep::Remove, TreeStep::Add]);
    assert_eq!(add_or_reset(false, false), [TreeStep::Prune, TreeStep::Add]);
    assert_eq!(prune(true), [TreeStep::Remove, TreeStep::Prune]);
    assert_eq!(prune(false), [TreeStep::Prune]);
    let paru = PkgBase::new("paru");
    assert_eq!(branch_ref(&paru), "refs/heads/paru");
    assert_eq!(
        git_args(TreeStep::Reset, "/m", "/d", &paru).unwrap(),
        ["-C", "/d", "reset", "--hard", "refs/heads/paru"]
    );
    assert_eq!(git_args(TreeStep::Prune, "/m", "/d", &paru).unwrap(), ["-C", "/m", "worktree", "prune"]);
    assert_eq!(
        git_args(TreeStep::Add, "/m", "/d", &paru).unwrap(),
        ["-C", "/m", "worktree", "add", "--detach", "/d", "refs/heads/paru"]
    );
    assert!(git_args(TreeStep::Remove, "/m", "/d", &paru).is_none());
    assert_eq!(gitdir("gitdir: /m/worktrees/paru\n"), Some("/m/worktrees/paru"));
    assert_eq!(gitdir("something else"), None);
}

fn spec(force: bool) -> FetchSpec {
    FetchSpec { url: "https://m.example/core/core.db".to_owned(), force }
}

#[test]
fn a_download_is_staged_under_another_name() {
    let s = spec(false).staging().unwrap();
    assert_eq!(s.dest, "core.db");
    assert_eq!(s.part, "core.db.part");
    let bad = FetchSpec { url: "https://m.example/core/".to_owned(), force: false };
    assert_eq!(
        bad.staging().err().unwrap().to_string(),
        "download https://m.example/core/: no filename in URL"
    );
    assert_eq!(url_basename("plain"), "plain");
}

#[test]
fn only_a_full_copy_is_compared() {
    let copy = Some(Existing { len: 10, modified: Some(1_577_836_800) });
    assert_eq!(spec(false).if_modified_since(copy), Some(UnixTime::new(1_577_836_800)));
    assert_eq!(spec(true).if_modified_since(copy), None);
    assert_eq!(spec(false).if_modified_since(Some(Existing { len: 0, modified: Some(1) })), None);
    assert_eq!(spec(false).if_modified_since(Some(Existing { len: 1, modified: None })), None);
    assert_eq!(spec(false).if_modified_since(None), None);
    let o = spec(false).options(copy, "1.2.3");
    assert_eq!(o.url, "https://m.example/core/core.db");
    assert_eq!(o.useragent, "aurox/1.2.3");
    assert_eq!(o.if_modified_since, Some(1_577_836_800));
    assert!(o.follow_location && o.fail_on_error && o.fetch_filetime);
}

fn ended(v: Verdict) -> (bool, Result<FetchOutcome, Error>) {
    match v {
        Verdict::End { remove_part, result } => (remove_part, result),
        Verdict::Go(step) => panic!("goes on with {step:?}"),
    }
}

fn failed(interrupted: bool, aborted: bool, write_error: Option<&str>) -> FetchEvent {
    FetchEvent::Transferred(Transfer {
        error: Some("timeout".to_owned()),
        aborted,
        interrupted,
        write_error: write_error.map(str::to_owned),
    })
}

#[test]
fn a_download_goes_step_by_step() {
    let s = spec(false);
    let next = |e| match s.after("p", "d", e) {
        Verdict::Go(step) => step,
        Verdict::End { .. } => panic!("ended"),
    };
    assert_eq!(next(FetchEvent::Created(None)), FetchStep::Transfer);
    let good = Transfer { error: None, aborted: false, interrupted: true, write_error: None };
    assert_eq!(next(FetchEvent::Transferred(good)), FetchStep::Check);
    assert_eq!(next(FetchEvent::Checked(Ok(false))), FetchStep::Flush);
    assert_eq!(next(FetchEvent::Flushed(None)), FetchStep::Rename);
    assert_eq!(
        ended(s.after("p", "d", FetchEvent::Renamed(None))),
        (false, Ok(FetchOutcome::Downloaded))
    );
    assert_eq!(
        ended(s.after("p", "d", FetchEvent::Checked(Ok(true)))),
        (true, Ok(FetchOutcome::Unchanged))
    );
}

#[test]
fn a_failed_download_leaves_no_debris() {
    let s = spec(false);
    let (gone, r) = ended(s.after("p", "d", failed(false, false, None)));
    assert!(gone);
    assert_eq!(r, Err(Error::other("download https://m.example/core/core.db: timeout")));
    let (gone, r) = ended(s.after("p", "d", failed(false, false, Some("disk full"))));
    assert!(gone);
    assert_eq!(r, Err(Error::other("download https://m.example/core/core.db: write p: disk full")));
    for (interrupted, aborted) in [(true, false), (false, true), (true, true)] {
        let (gone, r) = ended(s.after("p", "d", failed(interrupted, aborted, Some("x"))));
        assert!(gone);
        assert_eq!(r, Err(Error::Interrupted));
    }
    let (gone, r) = ended(s.after("p", "d", FetchEvent::Created(Some("no".into()))));
    assert!(!gone);
    assert_eq!(r, Err(Error::other("create p: no")));
}

#[test]
fn whatever_fails_after_the_transfer_leaves_no_staging_file() {
    let s = spec(false);
    let (gone, r) = ended(s.after("p", "d", FetchEvent::Checked(Err("no".into()))));
    assert!(gone);
    assert_eq!(r, Err(Error::other("no")));
    let (gone, r) = ended(s.after("p", "d", FetchEvent::Flushed(Some("no".into()))));
    assert!(gone);
    assert_eq!(r, Err(Error::other("flush p: no")));
    let (gone, r) = ended(s.after("p", "d", FetchEvent::Renamed(Some("no".into()))));
    assert!(gone);
    assert_eq!(r, Err(Error::other("rename p -> d: no")));
}

#[test]
fn progress_ends_with_an_interrupt() {
    assert_eq!(beat(true, 10, 5), None);
    assert_eq!(
        beat(false, 0, 5),
        Some(DownloadProgress { downloaded: ByteSize::new(5), total: None })
    );
    assert_eq!(
        beat(false, 10, 5),
        Some(DownloadProgress { downloaded: ByteSize::new(5), total: Some(ByteSize::new(10)) })
    );
    assert_eq!(stamp(Some(7)), Some(7));
    assert_eq!(stamp(Some(0)), None);
    assert_eq!(stamp(Some(-1)), None);
    assert_eq!(stamp(None), None);
}

#[test]
fn a_lock_that_is_held_is_waited_for() {
    assert_eq!(acquire(LockProbe::Acquired), Some(RefreshLock::Owned));
    assert_eq!(acquire(LockProbe::Held), None);
    assert_eq!(acquire(LockProbe::Unsupported), Some(RefreshLock::Degraded));
    assert!(matches!(after_probe(LockProbe::Acquired, ""), Wait::Owned));
    assert!(matches!(after_probe(LockProbe::Held, ""), Wait::Pause));
    assert!(matches!(after_probe(LockProbe::Unsupported, "e"), Wait::Fail(Error::Io(m)) if m == "e"));
    assert!(matches!(after_pause(Pause::Cancelled), Wait::Fail(Error::Interrupted)));
    assert!(matches!(after_pause(Pause::TimedOut), Wait::Probe));
    assert!(matches!(after_pause(Pause::Disconnected), Wait::Block));
}

#[test]
fn only_an_owned_lock_clears_a_stale_one() {
    assert!(RefreshLock::Owned.may_clear_stale_lock());
    assert!(!RefreshLock::Degraded.may_clear_stale_lock());
    assert!(RefreshLock::Degraded.is_degraded());
    assert_eq!(
        RefreshLock::Owned.update_error("x", true, "/l"),
        Error::other("sync db update: x")
    );
    let e = RefreshLock::Degraded.update_error("x", true, "/l").to_string();
    assert!(e.starts_with("sync db update: x; advisory locking is unavailable"), "{e}");
    assert!(e.ends_with("remove /l manually"), "{e}");
    assert_eq!(
        RefreshLock::Degraded.update_error("x", false, "/l"),
        Error::other("sync db update: x")
    );
    assert_eq!(update_outcome(true), SyncOutcome::AlreadyCurrent);
    assert_eq!(update_outcome(false), SyncOutcome::Refreshed);
}

#[test]
fn a_database_directory_needs_a_link_and_a_database() {
    let names = |v: &[&str]| Some(v.iter().map(|s| (*s).to_owned()).collect::<Vec<String>>());
    assert!(synced(true, &names(&["core.db.sig", "core.db"])));
    assert!(!synced(true, &names(&["core.db.sig", "db"])));
    assert!(!synced(false, &names(&["core.db"])));
    assert!(!synced(true, &None));
    assert_eq!(link_plan(LinkState::Right), (false, false));
    assert_eq!(link_plan(LinkState::Elsewhere), (true, true));
    assert_eq!(link_plan(LinkState::Squatter), (true, true));
    assert_eq!(link_plan(LinkState::Free), (false, true));
}

#[test]
fn signatures_have_no_row() {
    assert_eq!(progress_row("https://m/core.DB"), Some("core.DB"));
    assert_eq!(progress_row("https://m/core.db.sig"), None);
    assert_eq!(fetch_reply(&Ok(FetchOutcome::Downloaded)), FetchReply::Fetched);
    assert_eq!(fetch_reply(&Ok(FetchOutcome::Unchanged)), FetchReply::FileExists);
    assert_eq!(fetch_reply(&Err(Error::Interrupted)), FetchReply::Failed);
}
