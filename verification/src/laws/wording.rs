//! What is said and counted along the way.

use std::cmp::Ordering;

use vstd::prelude::*;

use crate::error::Error;
use crate::git::{outcome, pack_refs, write_commit_graph};
use crate::index::AurIndexData;
use crate::interrupt::cancel_on_sigint;
use crate::logging::{byte_len, width};
use crate::mirror::consent::{
    announcement, plan_spec, AurAction, BootstrapKind, MirrorState, RefreshReason,
};
use crate::mirror::RefreshAction;
use crate::names::RepoName;
use crate::pacman::sync::RefreshLock;
use crate::pacman::vercmp::is_outdated;
use crate::text::{dec, lossy_text, views};
use crate::ui::{hash_style, name_hash, Tone};

verus! {

/// Before a clone the user is told what it costs and, the first time, where the AUR can
/// be turned off.
pub proof fn law_what_is_said_before_a_clone(config: Seq<char>)
    ensures
        announcement(BootstrapKind::FirstRun, config) == seq![
            (Tone::Info, "first-time AUR setup — aurox mirrors the whole AUR as one git repo"@),
            (
                Tone::Note,
                "~2 GiB download, ~2.5 GiB on disk, ~10 min — one-time; refreshes afterwards are small incremental fetches"@,
            ),
            (Tone::Note, "enables AUR search, info, install, and upgrades"@),
            (Tone::Note, "pacman-only instead? set `aur = false` in "@ + config),
        ],
        announcement(BootstrapKind::InterruptedRedo, config) == seq![
            (
                Tone::Warn,
                "previous bootstrap was interrupted; the clone must restart from scratch"@,
            ),
            (Tone::Note, "~2 GiB download, ~10 min"@),
        ],
        announcement(BootstrapKind::ForcedReclone, config) == seq![
            (
                Tone::Info,
                "-Syy re-clones the AUR mirror from scratch: ~2 GiB download, ~10 min"@,
            ),
        ],
{
}

/// A first clone that the shell was asked for is told in one line; any other is announced
/// in full, whether it is asked about or not. One that is refused is not.
pub proof fn law_which_clones_are_announced(
    state: MirrorState,
    reason: RefreshReason,
    noconfirm: bool,
    tty: bool,
    config: Seq<char>,
)
    requires
        crate::laws::mirroring::wants_clone(state, reason),
    ensures
        ({
            let (said, action) = plan_spec(true, state, reason, noconfirm, tty, config);
            &&& action matches Err(k) ==> said == announcement(k, config)
            &&& action matches Ok(AurAction::Bootstrap(k)) ==> said == (if reason
                == RefreshReason::ShellAurSync && k == BootstrapKind::FirstRun {
                seq![(Tone::Info, "syncing the AUR — one-time ~2 GiB clone (~10 min)"@)]
            } else {
                announcement(k, config)
            })
            &&& action matches Ok(AurAction::Skip(_)) ==> said.len() == 0
        }),
{
}

/// Where the AUR is turned off, whoever asked for it is told so, and nobody else.
pub proof fn law_who_is_told_that_the_aur_is_off(
    state: MirrorState,
    reason: RefreshReason,
    noconfirm: bool,
    tty: bool,
    config: Seq<char>,
)
    ensures
        plan_spec(false, state, reason, noconfirm, tty, config).0 == (if reason
            == RefreshReason::ExplicitSync || reason == RefreshReason::ForceReclone {
            seq![
                (
                    Tone::Note,
                    "AUR disabled (aur = false in config.toml); refreshing official package databases only"@,
                ),
            ]
        } else {
            Seq::empty()
        }),
{
}

/// What is said on the way through a refresh.
pub proof fn law_what_is_said_in_a_refresh(n: u64)
    ensures
        RefreshAction::WarnForced.said() == Some(
            (Tone::Warn, "re-clone forced (-Syy); removing existing mirror"@),
        ),
        RefreshAction::WarnInterrupted.said() == Some(
            (Tone::Warn, "previous bootstrap was interrupted; redoing clone"@),
        ),
        RefreshAction::SayFirstRun.said() == Some(
            (Tone::Info, "first run: cloning AUR mirror (this takes a few minutes)"@),
        ),
        RefreshAction::SayBuilding.said() == Some((Tone::Info, "building index"@)),
        RefreshAction::SayBuilt.said() == Some((Tone::Info, "index built"@)),
        RefreshAction::SayRefreshing.said() == Some((Tone::Info, "refreshing AUR mirror"@)),
        RefreshAction::SayUpdated(n).said() == Some(
            (Tone::Note, dec(n as nat) + " ref(s) updated"@),
        ),
        RefreshAction::SayUnchanged.said() == Some((Tone::Note, "no ref updates"@)),
        RefreshAction::Clone.said() is None,
        RefreshAction::RemoveMirror.said() is None,
{
}

/// A run of git that failed is told with its arguments and with what it said; one that
/// succeeded gives its output as it is.
pub proof fn law_what_a_run_of_git_gives(
    args: &Vec<String>,
    ok: bool,
    out: Vec<u8>,
    err: &Vec<u8>,
    r: Result<Vec<u8>, Error>,
    packed: Vec<String>,
)
    ensures
        call_ensures(outcome, (args, ok, out, err), r) ==> {
            &&& ok <==> r is Ok
            &&& r matches Ok(v) ==> v == out
            &&& r matches Err(e) ==> (e matches Error::Gix(m) && m@ == "git "@
                + crate::text::join_spec(views(args@), " "@) + " failed: "@
                + crate::text::trim_spec(lossy_text(err@)))
        },
        call_ensures(pack_refs, (), packed) ==> views(packed@) == seq!["pack-refs"@, "--all"@],
{
}

/// The graph of commits is written for the commits that are named, or for all.
pub proof fn law_which_commits_are_graphed(
    oids: &Vec<String>,
    a: (Vec<String>, Option<String>),
    b: (Vec<String>, Option<String>),
)
    ensures
        call_ensures(write_commit_graph, (Some(oids),), a) ==> views(a.0@).contains(
            "--stdin-commits"@,
        ) && (a.1 matches Some(s) && s@ == crate::git::tip_lines(views(oids@))),
        call_ensures(write_commit_graph, (None,), b) ==> views(b.0@).contains("--reachable"@)
            && b.1 is None,
{
    assert(crate::git::graph_args(true)[4] == "--stdin-commits"@);
    assert(crate::git::graph_args(false)[4] == "--reachable"@);
}

/// An interrupt goes before whatever else came of the work.
pub proof fn law_an_interrupt_goes_first<T>(
    interrupted: bool,
    o: Result<T, Error>,
    r: Result<T, Error>,
)
    requires
        call_ensures(cancel_on_sigint::<T>, (interrupted, o), r),
    ensures
        interrupted ==> (r matches Err(Error::Interrupted)),
        !interrupted ==> r == o,
{
}

/// The index of the AUR goes by one name.
pub proof fn law_what_the_index_is_called(x: &AurIndexData, r: &RepoName)
    requires
        call_ensures(AurIndexData::label, (x,), r),
    ensures
        r@ == "aur"@,
{
}

/// Where locks do not work, a lock that stands in the way is told with how to remove it.
pub proof fn law_how_a_failed_update_reads(
    lock: &RefreshLock,
    error: &str,
    handle_lock: bool,
    file: &str,
    r: Error,
)
    requires
        call_ensures(RefreshLock::update_error, (lock, error, handle_lock, file), r),
    ensures
        *lock == RefreshLock::Owned || !handle_lock ==> (r matches Error::Other(m) && m@
            == "sync db update: "@ + error@),
        *lock == RefreshLock::Degraded && handle_lock ==> (r matches Error::Other(m) && m@
            == "sync db update: "@ + error@
            + "; advisory locking is unavailable on this filesystem so a stale lock can't be cleared automatically — if no other aurox is refreshing, remove "@
            + file@ + " manually"@),
{
}

/// A version is outdated exactly if it is older than the other one.
pub proof fn law_when_a_version_is_outdated(o: Ordering, b: bool)
    requires
        call_ensures(is_outdated, (o,), b),
    ensures
        b <==> o == Ordering::Less,
{
}

/// The colour of a name comes from its bytes: each counts, in its place.
pub proof fn law_how_names_are_coloured(bytes: Seq<u8>, x: u8, hash: u64)
    ensures
        name_hash(Seq::empty()) == 5381,
        name_hash(bytes.push(x)) == (33 * name_hash(bytes) + x) % 0x1_0000_0000_0000_0000,
        hash % 6 == 0 ==> hash_style(hash) == "bold.red"@,
        hash % 6 == 1 ==> hash_style(hash) == "bold.green"@,
        hash % 6 == 2 ==> hash_style(hash) == "bold.yellow"@,
        hash % 6 == 3 ==> hash_style(hash) == "bold.blue"@,
        hash % 6 == 4 ==> hash_style(hash) == "bold.magenta"@,
        hash % 6 == 5 ==> hash_style(hash) == "bold.cyan"@,
{
    assert(bytes.push(x).drop_last() =~= bytes);
}

/// A text has as many bytes as its characters have.
pub proof fn law_how_many_bytes_a_text_has(s: Seq<char>, c: char)
    ensures
        byte_len(Seq::empty()) == 0,
        byte_len(s.push(c)) == byte_len(s) + width(c),
        c <= '\u{7f}' ==> width(c) == 1,
        '\u{80}' <= c <= '\u{7ff}' ==> width(c) == 2,
        '\u{800}' <= c <= '\u{ffff}' ==> width(c) == 3,
        '\u{10000}' <= c ==> width(c) == 4,
{
    assert(s.push(c).drop_last() =~= s);
}

} // verus!
