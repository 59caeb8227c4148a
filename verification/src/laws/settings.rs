//! What is fixed: places, limits, words for git and for the user, and how the parts of a
//! refresh answer one another.

use vstd::prelude::*;

use crate::error::Error;
use crate::index::archive::{after_load, after_refresh, open_file, seal, Loading};
use crate::index::info::{cmd_info, report_missing, InfoReport};
use crate::index::schema::IndexFile;
use crate::index::secondary::Secondary;
use crate::index::AurState;
use crate::logging::{logs, traces};
use crate::mirror::consent::{
    answered, AurAction, BootstrapKind, MirrorState, Notice, RefreshOutcome, SkipCause,
};
use crate::mirror::worktree::branch_ref;
use crate::mirror::{fetch_stamp, low_speed, report_repo_sync};
use crate::names::{pkgtarget_views, PkgBase, PkgName, PkgTarget};
use crate::pacman::dload::{
    beat, stamp, DownloadProgress, Existing, FetchEvent, FetchOutcome, FetchSpec, FetchStep,
    Staging, TransferOptions, Verdict,
};
use crate::pacman::invoke::{escalation_answer, escalation_notice, pacman_result};
use crate::pacman::sync::{
    acquire, after_pause, after_probe, fetch_reply, link_plan, progress_row, synced,
    update_outcome, FetchReply, LinkState, LockProbe, Pause, RefreshLock, SyncOutcome, Wait,
};
use crate::paths::{config_dir, config_path, join_spec, pkg_worktree, state_dir, StatePath};
use crate::rotate::{run_basename, RotationPolicy};
use crate::runopts::{argv_has_noconfirm, argv_has_noresync};
use crate::system::StateKind;
use crate::text::{dec, join_spec as joined, opt_view, same_ascii_caseless, views};
use crate::ui::{color_on, ColorMode, Tone};

verus! {

/// The state lies where it was told to, else below the user's state, else below their
/// home; the configuration likewise.
pub proof fn law_where_things_lie(
    told: &str,
    user: &str,
    home: &str,
    base: &PkgBase,
    a: String,
    b: String,
    c: String,
)
    ensures
        call_ensures(state_dir, (Some(told), Some(user), home), a) ==> a@ == told@,
        call_ensures(state_dir, (Some(told), None, home), a) ==> a@ == told@,
        call_ensures(state_dir, (None, Some(user), home), b) ==> b@ == join_spec(user@, "aurox"@),
        call_ensures(state_dir, (None, None, home), c) ==> c@ == join_spec(
            join_spec(home@, ".local/state"@),
            "aurox"@,
        ),
        call_ensures(config_dir, (Some(user), home), a) ==> a@ == join_spec(user@, "aurox"@),
        call_ensures(config_dir, (None, home), b) ==> b@ == join_spec(
            join_spec(home@, ".config"@),
            "aurox"@,
        ),
        call_ensures(config_path, (user,), c) ==> c@ == join_spec(user@, "config.toml"@),
        call_ensures(pkg_worktree, (home, base), a) ==> a@ == join_spec(
            join_spec(home@, "pkgs"@),
            base@,
        ),
{
}

/// Ten logs and ten traces are kept, each in its own place and with its own extension.
pub proof fn law_what_is_rotated(a: RotationPolicy, b: RotationPolicy, t: &str, pid: u32, n: String)
    ensures
        call_ensures(logs, (), a) ==> a.dir == StatePath::Logs && a.ext@ == "log"@ && a.keep == 10,
        call_ensures(traces, (), b) ==> b.dir == StatePath::Traces && b.ext@ == "json"@ && b.keep
            == 10,
        call_ensures(run_basename, (t, pid), n) ==> n@ == "aurox-"@ + t@ + "-"@ + dec(pid as nat),
        call_ensures(RotationPolicy::file_name, (&a, t), n) ==> n@ == t@ + "."@ + a.ext@,
{
}

/// A download follows redirections ten times, takes an error page as an error, gives up
/// after ten seconds without a connection or in silence, and asks for the file only if
/// it is newer.
pub proof fn law_how_a_download_is_asked_for(
    spec: &FetchSpec,
    existing: Option<Existing>,
    version: &str,
    o: TransferOptions,
)
    requires
        call_ensures(FetchSpec::options, (spec, existing, version), o),
    ensures
        o.url@ == spec.url@,
        o.useragent@ == "aurox/"@ + version@,
        o.follow_location && o.max_redirections == 10,
        o.fail_on_error,
        o.connect_timeout_secs == 10,
        o.low_speed_limit == 1 && o.low_speed_secs == 10,
        o.fetch_filetime,
        spec.force || existing is None ==> o.if_modified_since is None,
        existing matches Some(e) ==> (!spec.force && e.len > 0 && e.modified is Some
            && e.modified->0 <= i64::MAX ==> o.if_modified_since == Some(e.modified->0 as i64)),
{
}

/// A file is downloaded under its name with `.part` behind it, and not at all where the
/// address ends with a slash.
pub proof fn law_where_a_download_goes(spec: &FetchSpec, dir: Seq<char>, name: Seq<char>, r: Result<
    Staging,
    Error,
>)
    requires
        call_ensures(FetchSpec::staging, (spec,), r),
        spec.url@ == dir + "/"@ + name,
        crate::laws::texts::is_without(name, '/'),
    ensures
        name.len() > 0 ==> (r matches Ok(s) && s.dest@ == name && s.part@ == name + ".part"@),
        name.len() == 0 ==> (r matches Err(Error::Other(m)) && m@ == "download "@ + spec.url@
            + ": no filename in URL"@),
{
    crate::laws::tracing::law_how_a_download_is_named(dir, name);
}

/// A download goes from the staging file through the transfer, the check and the flush to
/// the final name. Whatever goes wrong on the way ends it.
pub proof fn law_how_a_download_goes_on(
    spec: &FetchSpec,
    part: &str,
    dest: &str,
    event: FetchEvent,
    v: Verdict,
)
    requires
        call_ensures(FetchSpec::after, (spec, part, dest, event), v),
    ensures
        event matches FetchEvent::Created(None) ==> v matches Verdict::Go(FetchStep::Transfer),
        event matches FetchEvent::Transferred(t) ==> (t.error is None ==> v matches Verdict::Go(
            FetchStep::Check,
        )),
        event matches FetchEvent::Checked(Ok(false)) ==> v matches Verdict::Go(FetchStep::Flush),
        event matches FetchEvent::Checked(Ok(true)) ==> (v matches Verdict::End {
            remove_part: true,
            result: Ok(FetchOutcome::Unchanged),
        }),
        event matches FetchEvent::Flushed(None) ==> v matches Verdict::Go(FetchStep::Rename),
        event matches FetchEvent::Renamed(None) ==> (v matches Verdict::End {
            remove_part: false,
            result: Ok(FetchOutcome::Downloaded),
        }),
        event matches FetchEvent::Created(Some(_)) ==> (v matches Verdict::End {
            remove_part: false,
            result: Err(_),
        }),
        event matches FetchEvent::Transferred(t) ==> (t.error is Some && (t.interrupted
            || t.aborted) ==> (v matches Verdict::End {
            remove_part: true,
            result: Err(Error::Interrupted),
        })),
        event matches FetchEvent::Transferred(t) ==> (t.error is Some && !t.interrupted
            && !t.aborted ==> (v matches Verdict::End {
            remove_part: true,
            result: Err(Error::Other(_)),
        })),
        event matches FetchEvent::Checked(Err(_)) ==> (v matches Verdict::End {
            remove_part: true,
            result: Err(Error::Other(_)),
        }),
        event matches FetchEvent::Flushed(Some(_)) ==> (v matches Verdict::End {
            remove_part: true,
            result: Err(Error::Other(_)),
        }),
        event matches FetchEvent::Renamed(Some(_)) ==> (v matches Verdict::End {
            remove_part: true,
            result: Err(Error::Other(_)),
        }),
{
}

/// Progress ends a transfer exactly if the user interrupted; a size that is not known is
/// not shown, and neither is a time before the epoch.
pub proof fn law_what_progress_shows(
    interrupted: bool,
    total: u64,
    now: u64,
    r: Option<DownloadProgress>,
    remote: Option<i64>,
    t: Option<u64>,
)
    ensures
        call_ensures(beat, (interrupted, total, now), r) ==> {
            &&& r is None <==> interrupted
            &&& r matches Some(p) ==> p.downloaded.0 == now && (p.total is Some <==> total > 0) && (
            p.total matches Some(n) ==> n.0 == total)
        },
        call_ensures(stamp, (remote,), t) ==> {
            &&& t is Some <==> remote is Some && remote->0 > 0
            &&& t matches Some(s) ==> s == remote->0
        },
{
}

/// A lock that another refresh holds is waited for; without locks a refresh goes on
/// without knowing. Only an own lock lets a stale one be cleared.
pub proof fn law_how_the_lock_is_taken(
    r: Option<RefreshLock>,
    lock: &RefreshLock,
    b: bool,
    error: &str,
    w: Wait,
    p: Wait,
)
    ensures
        call_ensures(acquire, (LockProbe::Acquired,), r) ==> r == Some(RefreshLock::Owned),
        call_ensures(acquire, (LockProbe::Held,), r) ==> r is None,
        call_ensures(acquire, (LockProbe::Unsupported,), r) ==> r == Some(RefreshLock::Degraded),
        call_ensures(RefreshLock::may_clear_stale_lock, (lock,), b) ==> (b <==> *lock
            == RefreshLock::Owned),
        call_ensures(RefreshLock::is_degraded, (lock,), b) ==> (b <==> *lock
            == RefreshLock::Degraded),
        call_ensures(after_probe, (LockProbe::Acquired, error), w) ==> w is Owned,
        call_ensures(after_probe, (LockProbe::Held, error), w) ==> w is Pause,
        call_ensures(after_probe, (LockProbe::Unsupported, error), w) ==> (w matches Wait::Fail(
            Error::Io(m),
        ) && m@ == error@),
        call_ensures(after_pause, (Pause::Cancelled,), p) ==> p matches Wait::Fail(
            Error::Interrupted,
        ),
        call_ensures(after_pause, (Pause::TimedOut,), p) ==> p is Probe,
        call_ensures(after_pause, (Pause::Disconnected,), p) ==> p is Block,
{
}

/// A link that is right is left alone; anything else that stands in its place is removed
/// before it is made.
pub proof fn law_how_a_link_is_mended(s: LinkState, r: (bool, bool))
    requires
        call_ensures(link_plan, (s,), r),
    ensures
        s == LinkState::Right ==> r == (false, false),
        s == LinkState::Free ==> r == (false, true),
        s == LinkState::Elsewhere || s == LinkState::Squatter ==> r == (true, true),
{
}

/// libalpm is told of a new copy, of a current one, or of a failure.
pub proof fn law_what_libalpm_is_told(o: &Result<FetchOutcome, Error>, r: FetchReply)
    requires
        call_ensures(fetch_reply, (o,), r),
    ensures
        *o is Err ==> r == FetchReply::Failed,
        *o matches Ok(FetchOutcome::Downloaded) ==> r == FetchReply::Fetched,
        *o matches Ok(FetchOutcome::Unchanged) ==> r == FetchReply::FileExists,
{
}

/// Only databases have a row of their own, by their name. The databases are there once
/// the local one is and one of the others is.
pub proof fn law_which_downloads_have_a_row(
    url: &str,
    r: Option<&str>,
    local: bool,
    sync: &Option<Vec<String>>,
    b: bool,
    dir: Seq<char>,
    stem: Seq<char>,
    ext: Seq<char>,
)
    requires
        crate::laws::texts::is_without(stem + "."@ + ext, '/'),
        crate::laws::texts::is_without(ext, '.'),
        stem.len() > 0,
        ext.len() > 0,
        url@ == dir + "/"@ + (stem + "."@ + ext),
    ensures
        call_ensures(progress_row, (url,), r) ==> {
            &&& r is Some <==> same_ascii_caseless(ext, "db"@)
            &&& r matches Some(n) ==> n@ == stem + "."@ + ext
        },
        call_ensures(synced, (local, sync), b) ==> (b <==> local && (*sync matches Some(v) && exists|
            i: int,
        |
            0 <= i < v@.len() && crate::pacman::sync::is_db((#[trigger] v@[i])@))),
{
    reveal_strlit(".");
    reveal_strlit("..");
    crate::laws::tracing::law_how_a_download_is_named(dir, stem + "."@ + ext);
    crate::laws::keeping::law_what_an_extension_is(stem, ext);
    let name = stem + "."@ + ext;
    assert(name[name.len() - 1] == ext[ext.len() - 1]);
    if call_ensures(synced, (local, sync), b) && *sync is Some {
        let v = sync->0;
        let all = views(v@);
        if b {
            let i = choose|i: int|
                0 <= i < all.len() && crate::pacman::sync::is_db(#[trigger] all[i]);
            assert(crate::pacman::sync::is_db(v@[i]@));
        }
        if exists|i: int| 0 <= i < v@.len() && crate::pacman::sync::is_db((#[trigger] v@[i])@) {
            let i = choose|i: int|
                0 <= i < v@.len() && crate::pacman::sync::is_db((#[trigger] v@[i])@);
            assert(crate::pacman::sync::is_db(all[i]));
        }
    }
}

/// Databases of which none was newer are current.
pub proof fn law_when_databases_are_current(all: bool, r: SyncOutcome)
    requires
        call_ensures(update_outcome, (all,), r),
    ensures
        r == SyncOutcome::AlreadyCurrent <==> all,
        r == SyncOutcome::Refreshed <==> !all,
{
}

/// An index that this build cannot read is built again, unless that was ruled out. Any
/// other outcome of reading it stands.
pub proof fn law_when_an_index_is_built_again(
    loaded: Result<IndexFile, Error>,
    noresync: bool,
    r: Loading,
)
    requires
        call_ensures(after_load, (loaded, noresync), r),
    ensures
        loaded matches Err(Error::IndexIncompatible(why)) ==> {
            &&& !noresync ==> (r matches Loading::Resync { notice, reason } && reason@ == why@
                && notice@ == "AUR index "@ + why@ + "; resyncing database"@)
            &&& noresync ==> (r matches Loading::Done(Err(Error::IndexIncompatible(m))) && m@
                == why@ + "; --noresync set, run `aurox -Sy` to rebuild"@)
        },
        !(loaded matches Err(Error::IndexIncompatible(_))) ==> r == Loading::Done(loaded),
{
}

/// After a refresh the index is read again, unless the refresh failed or left the AUR
/// out.
pub proof fn law_what_a_refresh_leads_to(
    why: &str,
    refreshed: Result<RefreshOutcome, Error>,
    r: Option<Error>,
)
    requires
        call_ensures(after_refresh, (why, refreshed), r),
    ensures
        refreshed matches Ok(RefreshOutcome::Refreshed) ==> r is None,
        refreshed matches Ok(RefreshOutcome::AurSkipped(c)) ==> (r matches Some(
            Error::IndexIncompatible(m),
        ) && m@ == why@ + "; AUR refresh skipped ("@ + c.text()
            + ") — run `aurox -Sy` to rebuild"@),
        refreshed matches Err(e) ==> r == Some(e),
{
}

/// What is sealed into a file is what the file opens to.
pub proof fn law_sealing_and_opening(
    archive: &Vec<u8>,
    sealed: Vec<u8>,
    bytes: &[u8],
    r: Result<&[u8], Error>,
)
    requires
        call_ensures(seal, (archive,), sealed),
        bytes@ == sealed@,
        call_ensures(open_file, (bytes,), r),
    ensures
        r matches Ok(a) && a@ == archive@,
{
    crate::index::archive::law_sealed_archives_open(archive@);
}

/// The reasons why the AUR was left out are told in these words.
pub proof fn law_why_the_aur_was_left_out()
    ensures
        SkipCause::Disabled.text() == "aur = false in config"@,
        SkipCause::Declined.text() == "declined"@,
        SkipCause::NotSetUp.text() == "AUR not set up"@,
        SkipCause::NonInteractive.text() == "non-interactive run"@,
        SkipCause::NotRequested.text() == "not requested"@,
{
}

/// A yes starts the clone that was asked about, a no leaves the AUR out.
pub proof fn law_what_an_answer_leads_to(kind: BootstrapKind, yes: bool, a: AurAction, e: Result<
    (),
    Error,
>)
    ensures
        call_ensures(answered, (kind, yes), a) ==> a == (if yes {
            AurAction::Bootstrap(kind)
        } else {
            AurAction::Skip(SkipCause::Declined)
        }),
        call_ensures(escalation_answer, (yes,), e) ==> (yes <==> e is Ok) && (!yes ==> e matches Err(
            Error::UserAbort,
        )),
{
}

/// The mirror is there once it has a branch; a directory without one is a clone that did
/// not finish. The index is ready once there is one, unless the AUR is turned off.
pub proof fn law_what_is_there(
    dir: bool,
    branch: bool,
    aur: bool,
    m: MirrorState,
    s: AurState,
)
    ensures
        call_ensures(MirrorState::probe, (dir, branch), m) ==> {
            &&& !dir ==> m == MirrorState::Absent
            &&& dir && branch ==> m == MirrorState::Ready
            &&& dir && !branch ==> m == MirrorState::Interrupted
        },
        call_ensures(AurState::probe, (aur, dir), s) ==> {
            &&& !aur ==> s == AurState::Disabled
            &&& aur && dir ==> s == AurState::Ready
            &&& aur && !dir ==> s == AurState::NotSetUp
        },
{
}

/// What became of the official databases is told as a note where it went well and as a
/// warning where it did not.
pub proof fn law_what_is_said_of_the_databases(j: &Option<Result<SyncOutcome, Error>>, n: Notice)
    requires
        call_ensures(report_repo_sync, (j,), n),
    ensures
        *j matches Some(Ok(o)) ==> n.tone == Tone::Note && (o == SyncOutcome::Refreshed ==> n.text@
            == "official package databases refreshed"@) && (o == SyncOutcome::AlreadyCurrent
            ==> n.text@ == "official package databases up to date"@),
        *j matches Some(Err(e)) ==> n.tone == Tone::Warn && n.text@
            == "official-repo refresh failed: "@ + e.text(),
        *j is None ==> n.tone == Tone::Warn && n.text@
            == "official-repo refresh thread panicked"@,
{
}

/// A transfer may be silent as long as the configuration says, and for ever where that is
/// nothing. A stamp is the time in seconds.
pub proof fn law_how_long_silence_lasts(secs: u64, r: Option<(u32, u64)>, s: String)
    ensures
        call_ensures(low_speed, (secs,), r) ==> {
            &&& r is Some <==> secs > 0
            &&& r matches Some(p) ==> p == (1u32, secs)
        },
        call_ensures(fetch_stamp, (secs,), s) ==> s@ == dec(secs as nat),
{
}

/// Git is asked for a branch by its full name.
pub proof fn law_how_a_branch_is_asked_for(b: &PkgBase, r: String)
    requires
        call_ensures(branch_ref, (b,), r),
    ensures
        r@ == "refs/heads/"@ + b@,
{
}

/// What is run as root is shown to the user before.
pub proof fn law_what_is_shown_before(program: &str, args: &Vec<String>, r: String)
    requires
        call_ensures(escalation_notice, (program, args), r),
    ensures
        r@ == "about to elevate via "@ + program@ + ":\n   "@ + program@ + " "@ + joined(
            views(args@),
            " "@,
        ),
{
}

/// Only the exit code zero is success.
pub proof fn law_only_zero_is_success(
    code: Option<i32>,
    signal: Option<i32>,
    r: Result<u8, Error>,
)
    requires
        call_ensures(pacman_result, (code, signal), r),
    ensures
        r is Ok <==> code == Some(0i32),
        r matches Ok(n) ==> n == 0,
        code matches Some(c) ==> (c != 0 ==> (r matches Err(Error::PacmanExit(n)) && n == c)),
        code is None ==> (r matches Err(Error::PacmanExit(n)) && n == 128 + (match signal {
            Some(s) => s as int,
            None => 0,
        })),
{
}

/// Targets that are not in the AUR are named, and make the command fail.
pub proof fn law_missing_targets_are_reported(missing: &Vec<String>, r: (Option<String>, u8))
    requires
        call_ensures(report_missing, (missing,), r),
    ensures
        missing@.len() == 0 ==> r.0 is None && r.1 == 0,
        missing@.len() > 0 ==> r.1 == 1 && opt_view(r.0) == Some(
            "not in AUR: "@ + joined(views(missing@), ", "@),
        ),
{
}

/// The command that describes packages fails exactly if a target means none.
pub proof fn law_describing_packages<'a>(
    idx: &'a IndexFile,
    by: &Secondary,
    targets: &Vec<PkgTarget>,
    r: InfoReport<'a>,
)
    requires
        call_ensures(cmd_info, (idx, by, targets), r),
    ensures
        r.code == 0 || r.code == 1,
        r.code == 1 <==> exists|i: int|
            0 <= i < targets@.len() && crate::index::info::meant(*idx, *by, (#[trigger] targets@[i])@) is None,
        r.warning is Some <==> r.code == 1,
{
    let ts = pkgtarget_views(targets@);
    let missing = crate::index::info::all_missing(*idx, *by, ts);
    if missing.len() > 0 {
        let t = missing[0];
        assert(missing.contains(t));
        crate::laws::showing::law_targets_are_shown_or_missing(*idx, *by, ts, t);
        let i = choose|i: int| 0 <= i < ts.len() && ts[i] == t;
        assert(targets@[i]@ == t);
    }
    if exists|i: int|
        0 <= i < targets@.len() && crate::index::info::meant(*idx, *by, (#[trigger] targets@[i])@) is None {
        let i = choose|i: int|
            0 <= i < targets@.len() && crate::index::info::meant(*idx, *by, (#[trigger] targets@[i])@) is None;
        let t = targets@[i]@;
        assert(ts[i] == t);
        assert(ts.contains(t));
        crate::laws::showing::law_targets_are_shown_or_missing(*idx, *by, ts, t);
        assert(missing.contains(t));
    }
}

/// The two options of a run are looked for by their words.
pub proof fn law_which_words_set_options(argv: &Vec<String>, a: bool, b: bool)
    ensures
        call_ensures(argv_has_noconfirm, (argv,), a) ==> (a <==> views(argv@).contains(
            "--noconfirm"@,
        )),
        call_ensures(argv_has_noresync, (argv,), b) ==> (b <==> views(argv@).contains(
            "--noresync"@,
        )),
{
}

/// Colour is on where it is wanted in any case, or where the terminal takes it and nothing
/// was said.
pub proof fn law_when_colour_is_on(supported: bool, b: bool)
    ensures
        call_ensures(color_on, (ColorMode::Always, supported), b) ==> b,
        call_ensures(color_on, (ColorMode::Never, supported), b) ==> !b,
        call_ensures(color_on, (ColorMode::Auto, supported), b) ==> b == supported,
{
}

/// The kinds of state are called and described so.
pub proof fn law_what_kinds_of_state_are_called(k: StateKind, a: &'static str, b: &'static str)
    requires
        call_ensures(StateKind::label, (k,), a),
        call_ensures(StateKind::description, (k,), b),
    ensures
        k == StateKind::Mirror ==> a@ == "mirror"@ && b@ == "AUR git mirror"@,
        k == StateKind::Index ==> a@ == "index"@ && b@ == "package search index"@,
        k == StateKind::SyncDb ==> a@ == "syncdb"@ && b@ == "repo db snapshot"@,
        k == StateKind::Builds ==> a@ == "builds"@ && b@ == "build worktrees + built packages"@,
        k == StateKind::Logs ==> a@ == "logs"@ && b@ == "run logs (rotated)"@,
        k == StateKind::Traces ==> a@ == "traces"@ && b@ == "run traces (rotated)"@,
        k == StateKind::Metrics ==> a@ == "metrics"@ && b@ == "build-time history"@,
        k == StateKind::History ==> a@ == "history"@ && b@ == "shell command history"@,
{
}

/// Debug packages are told by their ending.
pub proof fn law_which_packages_are_for_debugging(n: &PkgName, b: bool)
    requires
        call_ensures(PkgName::is_makepkg_debug_split, (n,), b),
    ensures
        b <==> exists|stem: Seq<char>| n@ == #[trigger] (stem + "-debug"@),
{
    reveal_strlit("-debug");
    if b {
        let stem = n@.take(n@.len() - 6);
        assert(stem + "-debug"@ =~= n@);
    }
    if exists|stem: Seq<char>| n@ == #[trigger] (stem + "-debug"@) {
        let stem = choose|stem: Seq<char>| n@ == #[trigger] (stem + "-debug"@);
        assert("-debug"@ =~= n@.subrange(stem.len() as int, n@.len() as int));
    }
}

} // verus!
