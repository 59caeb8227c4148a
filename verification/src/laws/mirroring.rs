//! When the mirror is cloned, fetched, asked about or left alone.

use vstd::prelude::*;

use crate::index::archive::{open_spec, seal_spec};
use crate::laws::texts::is_without;
use crate::mirror::consent::{
    plan_spec, question_spec, AurAction, BootstrapKind, MirrorState, RefreshReason, SkipCause,
};
use crate::mirror::fetch::{change_of, changes_of, tips_of, Mode, RefEdit, RefReport, RefUpdateView};
use crate::mirror::sideband::{last_line_spec, last_start};
use crate::mirror::worktree::{
    gitdir_spec, removal_steps, run_of, step_args, tree_steps, TreeStep,
};
use crate::mirror::{
    age_spec, refresh_step, RefreshAction, RefreshEvent, RefreshState,
};
use crate::text::{occurs_at, opt_view, trim_spec};

verus! {

/// A clone is wanted where the mirror is not complete, or where it is to be cloned
/// again.
pub open spec fn wants_clone(state: MirrorState, reason: RefreshReason) -> bool {
    state != MirrorState::Ready || reason == RefreshReason::ForceReclone
}

/// Who is asked before a clone, who gets one without a question, and who gets none.
pub proof fn law_who_gets_a_clone(
    state: MirrorState,
    reason: RefreshReason,
    noconfirm: bool,
    stdin_is_tty: bool,
    config_path: Seq<char>,
)
    requires
        wants_clone(state, reason),
    ensures
        ({
            let action = plan_spec(true, state, reason, noconfirm, stdin_is_tty, config_path).1;
            let kind = match state {
                MirrorState::Absent => BootstrapKind::FirstRun,
                MirrorState::Interrupted => BootstrapKind::InterruptedRedo,
                MirrorState::Ready => BootstrapKind::ForcedReclone,
            };
            let explicit = reason == RefreshReason::ExplicitSync || reason
                == RefreshReason::ForceReclone;
            let offered = reason == RefreshReason::InstallOffer;
            let resync = reason == RefreshReason::IndexResync;
            let bare = reason == RefreshReason::ShellRefresh || reason
                == RefreshReason::ShellUpgrade;
            &&& reason == RefreshReason::ShellAurSync ==> action == Ok::<AurAction, BootstrapKind>(
                AurAction::Bootstrap(kind),
            )
            &&& noconfirm && !offered ==> action == Ok::<AurAction, BootstrapKind>(
                AurAction::Bootstrap(kind),
            )
            &&& !noconfirm && explicit ==> action == Err::<AurAction, BootstrapKind>(kind)
            &&& !noconfirm && stdin_is_tty && (offered || resync) ==> action == Err::<
                AurAction,
                BootstrapKind,
            >(kind)
            &&& offered && (noconfirm || !stdin_is_tty) ==> action == Ok::<
                AurAction,
                BootstrapKind,
            >(AurAction::Skip(SkipCause::NonInteractive))
            &&& resync && !noconfirm && !stdin_is_tty ==> action == Ok::<AurAction, BootstrapKind>(
                AurAction::Skip(SkipCause::NonInteractive),
            )
            &&& bare && !noconfirm ==> action == Ok::<AurAction, BootstrapKind>(
                AurAction::Skip(SkipCause::NotSetUp),
            )
        }),
{
}

/// What would be deleted is asked about as such.
pub proof fn law_what_is_asked(kind: BootstrapKind)
    ensures
        question_spec(kind) == (if kind == BootstrapKind::ForcedReclone {
            "delete the existing mirror and re-clone?"@
        } else {
            "clone the AUR mirror now?"@
        }),
{
}

/// An action comes in the list before another one.
pub open spec fn comes_before(s: Seq<RefreshAction>, a: RefreshAction, b: RefreshAction) -> bool {
    exists|i: int, j: int| 0 <= i < j < s.len() && #[trigger] s[i] == a && #[trigger] s[j] == b
}

/// What is there is removed at first exactly if a new clone is forced, and the user is
/// told before.
pub proof fn law_a_forced_clone_begins_with_a_removal(force: bool, there: bool)
    ensures
        refresh_step(force, RefreshState::Start, RefreshEvent::Found { exists: there }) matches Some(
            (next, actions),
        ) && next == RefreshState::Cleared && (actions.len() > 0 <==> force && there) && (force
            && there ==> actions.len() == 2 && actions[0] == RefreshAction::WarnForced
            && actions[1] == RefreshAction::RemoveMirror),
{
}

/// A mirror with a branch is fetched and never cloned. Without one it is cloned, and what
/// was left of it is removed before; then the index is built, saved and told about.
pub proof fn law_a_mirror_is_fetched_or_cloned(force: bool, there: bool, bootstrapped: bool)
    ensures
        refresh_step(
            force,
            RefreshState::Cleared,
            RefreshEvent::Inspected { exists: there, bootstrapped },
        ) matches Some((next, actions)) && {
            &&& bootstrapped ==> next == RefreshState::Fetching
            &&& !bootstrapped ==> next == RefreshState::Finished
            &&& actions.contains(RefreshAction::FetchAndLoad) <==> bootstrapped
            &&& actions.contains(RefreshAction::SayRefreshing) <==> bootstrapped
            &&& actions.contains(RefreshAction::Clone) <==> !bootstrapped
            &&& actions.contains(RefreshAction::RemoveMirror) <==> !bootstrapped && there
            &&& actions.contains(RefreshAction::WarnInterrupted) <==> !bootstrapped && there
            &&& actions.contains(RefreshAction::SayFirstRun) <==> !bootstrapped && !there && !force
            &&& !bootstrapped && there ==> comes_before(
                actions,
                RefreshAction::RemoveMirror,
                RefreshAction::Clone,
            )
            &&& !bootstrapped ==> comes_before(
                actions,
                RefreshAction::Clone,
                RefreshAction::BuildIndex,
            ) && comes_before(actions, RefreshAction::BuildIndex, RefreshAction::SaveIndex)
                && comes_before(actions, RefreshAction::SayBuilding, RefreshAction::BuildIndex)
                && comes_before(actions, RefreshAction::SaveIndex, RefreshAction::SayBuilt)
                && actions.contains(RefreshAction::GraphAll)
        },
{
    let step = refresh_step(
        force,
        RefreshState::Cleared,
        RefreshEvent::Inspected { exists: there, bootstrapped },
    );
    let s = step->Some_0.1;
    if bootstrapped {
        assert(s[0] == RefreshAction::SayRefreshing);
        assert(s[1] == RefreshAction::FetchAndLoad);
    } else {
        let k = if there {
            2int
        } else if !force {
            1int
        } else {
            0int
        };
        assert(s.len() == k + 6);
        assert(there ==> s[0] == RefreshAction::WarnInterrupted && s[1]
            == RefreshAction::RemoveMirror);
        assert(!there && !force ==> s[0] == RefreshAction::SayFirstRun);
        assert(s[k] == RefreshAction::Clone);
        assert(s[k + 1] == RefreshAction::SayBuilding);
        assert(s[k + 2] == RefreshAction::BuildIndex);
        assert(s[k + 3] == RefreshAction::SaveIndex);
        assert(s[k + 4] == RefreshAction::SayBuilt);
        assert(s[k + 5] == RefreshAction::GraphAll);
    }
}

/// After a fetch the index is built anew if it could not be read, brought up to date and
/// saved if anything changed, and left alone otherwise.
pub proof fn law_what_a_fetch_leads_to(force: bool, updates: u64, index_loaded: bool)
    ensures
        refresh_step(
            force,
            RefreshState::Fetching,
            RefreshEvent::Fetched { updates, index_loaded },
        ) matches Some((next, actions)) && {
            &&& next == RefreshState::Counting <==> index_loaded && updates > 0
            &&& next != RefreshState::Counting ==> next == RefreshState::Finished
            &&& actions.contains(RefreshAction::BuildIndex) <==> !index_loaded
            &&& actions.contains(RefreshAction::UpdateIndex) <==> index_loaded && updates > 0
            &&& actions.contains(RefreshAction::SayUpdated(updates)) <==> index_loaded && updates > 0
            &&& actions.contains(RefreshAction::GraphTips) <==> index_loaded && updates > 0
            &&& actions.contains(RefreshAction::GraphAll) <==> !index_loaded
            &&& actions.contains(RefreshAction::CountLoose) <==> index_loaded && updates > 0
            &&& actions.contains(RefreshAction::SayUnchanged) <==> index_loaded && updates == 0
            &&& index_loaded && updates == 0 ==> actions.len() == 1
            &&& index_loaded && updates > 0 ==> comes_before(
                actions,
                RefreshAction::UpdateIndex,
                RefreshAction::SaveIndex,
            )
            &&& !index_loaded ==> comes_before(
                actions,
                RefreshAction::BuildIndex,
                RefreshAction::SaveIndex,
            )
            &&& !actions.contains(RefreshAction::Clone) && !actions.contains(
                RefreshAction::RemoveMirror,
            )
        },
{
    let step = refresh_step(
        force,
        RefreshState::Fetching,
        RefreshEvent::Fetched { updates, index_loaded },
    );
    let s = step->Some_0.1;
    if !index_loaded {
        assert(s[0] == RefreshAction::SayBuilding);
        assert(s[1] == RefreshAction::BuildIndex);
        assert(s[2] == RefreshAction::SaveIndex);
        assert(s[3] == RefreshAction::SayBuilt);
        assert(s[4] == RefreshAction::GraphAll);
    } else if updates == 0 {
        assert(s[0] == RefreshAction::SayUnchanged);
    } else {
        assert(s[0] == RefreshAction::UpdateIndex);
        assert(s[1] == RefreshAction::SaveIndex);
        assert(s[2] == RefreshAction::SayUpdated(updates));
        assert(s[3] == RefreshAction::GraphTips);
        assert(s[4] == RefreshAction::CountLoose);
    }
}

/// References are packed from two thousand loose ones on, and nothing else is done then.
pub proof fn law_when_references_are_packed(force: bool, loose: usize)
    ensures
        refresh_step(force, RefreshState::Counting, RefreshEvent::Counted { loose }) matches Some(
            (next, actions),
        ) && next == RefreshState::Finished && (if loose >= 2000 {
            actions.len() == 1 && actions[0] == RefreshAction::PackRefs
        } else {
            actions.len() == 0
        }),
{
}

/// Only the event that a state waits for takes a refresh on.
pub proof fn law_other_events_do_not_count(force: bool, state: RefreshState, event: RefreshEvent)
    ensures
        refresh_step(force, state, event) is Some <==> {
            ||| state == RefreshState::Start && event is Found
            ||| state == RefreshState::Cleared && event is Inspected
            ||| state == RefreshState::Fetching && event is Fetched
            ||| state == RefreshState::Counting && event is Counted
        },
{
}

/// A stamp in the future is no age; one that is no number says nothing.
pub proof fn law_how_old_a_stamp_is(stamp: Seq<char>, now: u128)
    ensures
        match crate::text::parse_u64_spec(trim_spec(stamp)) {
            Some(s) => age_spec(stamp, now) == Some(
                (if s * 1_000_000_000 <= now {
                    now - s * 1_000_000_000
                } else {
                    0
                }) as u128,
            ),
            None => age_spec(stamp, now) is None,
        },
{
}

/// A report counts exactly if it is of a branch of the remote that did change. It goes
/// by the name of the branch, with what the branch points to now, and with what it
/// pointed to before unless it is new.
pub proof fn law_which_reports_count(report: RefReport, edits: Seq<RefEdit>, b: Seq<char>, i: int)
    requires
        0 <= i < edits.len(),
        report.edit matches Some(k) && k == i,
        report.remote matches Some(n) && n@ == "refs/heads/"@ + b,
    ensures
        report.mode == Mode::Unchanged ==> change_of(report, edits) is None,
        report.mode != Mode::Unchanged ==> (change_of(report, edits) matches Some(u) && {
            &&& u.refname == b
            &&& u.new_oid == opt_view(edits[i].new)
            &&& report.mode == Mode::New ==> u.old_oid is None
            &&& report.mode != Mode::New ==> u.old_oid == opt_view(edits[i].previous)
        }),
{
    reveal_strlit("refs/heads/");
    let n = "refs/heads/"@ + b;
    assert(n.subrange(0, 11) =~= "refs/heads/"@);
    assert(n.skip(11) =~= b);
}

/// A report without a name, without an edit, or of anything but a branch does not count.
pub proof fn law_which_reports_do_not_count(report: RefReport, edits: Seq<RefEdit>)
    requires
        report.remote is None || report.edit is None || report.edit->0 >= edits.len() || !(
        "refs/heads/"@).is_prefix_of(report.remote->0@),
    ensures
        change_of(report, edits) is None,
{
    reveal_strlit("refs/heads/");
    if report.remote is Some {
        let n = report.remote->0@;
        if occurs_at(n, "refs/heads/"@, 0) {
            assert("refs/heads/"@ =~= n.subrange(0, 11));
        }
    }
}

/// The changes are those of the reports that count, in their order: `at` says which.
pub proof fn law_changes_keep_their_order(reports: Seq<RefReport>, edits: Seq<RefEdit>) -> (at: Seq<
    int,
>)
    ensures
        at.len() == changes_of(reports, edits).len(),
        forall|k: int|
            0 <= k < at.len() ==> 0 <= #[trigger] at[k] < reports.len() && change_of(
                reports[at[k]],
                edits,
            ) == Some(changes_of(reports, edits)[k]),
        forall|k: int, l: int| 0 <= k < l < at.len() ==> at[k] < at[l],
    decreases reports.len(),
{
    if reports.len() == 0 {
        Seq::empty()
    } else {
        let a = law_changes_keep_their_order(reports.drop_last(), edits);
        if change_of(reports.last(), edits) is Some {
            let at = a.push(reports.len() - 1);
            assert forall|k: int| 0 <= k < at.len() implies 0 <= #[trigger] at[k] < reports.len()
                && change_of(reports[at[k]], edits) == Some(changes_of(reports, edits)[k]) by {
                if k < a.len() {
                    assert(at[k] == a[k]);
                }
            }
            assert forall|k: int, l: int| 0 <= k < l < at.len() implies at[k] < at[l] by {
                assert(at[k] == a[k]);
                if l < a.len() {
                    assert(at[l] == a[l]);
                }
            }
            at
        } else {
            a
        }
    }
}

/// No change is left out.
pub proof fn law_every_change_counts(reports: Seq<RefReport>, edits: Seq<RefEdit>, i: int)
    requires
        0 <= i < reports.len(),
        change_of(reports[i], edits) is Some,
    ensures
        changes_of(reports, edits).contains(change_of(reports[i], edits)->0),
    decreases reports.len(),
{
    let c = change_of(reports[i], edits)->0;
    let rest = changes_of(reports.drop_last(), edits);
    let all = changes_of(reports, edits);
    if i < reports.len() - 1 {
        law_every_change_counts(reports.drop_last(), edits, i);
        let k = choose|k: int| 0 <= k < rest.len() && rest[k] == c;
        assert(all[k] == c);
    } else {
        assert(all[rest.len() as int] == c);
    }
}

/// The tips are what the updated branches point to now; branches that are gone have
/// none.
pub proof fn law_which_tips_are_left(updates: Seq<RefUpdateView>, t: Seq<char>)
    ensures
        tips_of(updates).contains(t) <==> exists|i: int|
            0 <= i < updates.len() && (#[trigger] updates[i]).new_oid == Some(t),
    decreases updates.len(),
{
    if updates.len() > 0 {
        let r = updates.drop_last();
        let rest = tips_of(r);
        let all = tips_of(updates);
        law_which_tips_are_left(r, t);
        if all.contains(t) {
            let k = choose|k: int| 0 <= k < all.len() && all[k] == t;
            if k < rest.len() {
                assert(rest[k] == t);
                let i = choose|i: int| 0 <= i < r.len() && (#[trigger] r[i]).new_oid == Some(t);
                assert(updates[i] == r[i]);
            } else {
                assert(updates[updates.len() - 1].new_oid == Some(t));
            }
        }
        if exists|i: int| 0 <= i < updates.len() && (#[trigger] updates[i]).new_oid == Some(t) {
            let i = choose|i: int|
                0 <= i < updates.len() && (#[trigger] updates[i]).new_oid == Some(t);
            if i < r.len() {
                assert(r[i] == updates[i]);
                let k = choose|k: int| 0 <= k < rest.len() && rest[k] == t;
                assert(all[k] == t);
            } else {
                assert(all[rest.len() as int] == t);
            }
        }
    }
}

/// The link of a working tree is what stands behind `gitdir:`, trimmed.
pub proof fn law_where_a_link_leads(dir: Seq<char>, other: Seq<char>)
    ensures
        gitdir_spec("gitdir:"@ + dir) == Some(trim_spec(dir)),
        !("gitdir:"@).is_prefix_of(other) ==> gitdir_spec(other) is None,
{
    reveal_strlit("gitdir:");
    let s = "gitdir:"@ + dir;
    assert(s.subrange(0, 7) =~= "gitdir:"@);
    assert(s.skip(7) =~= dir);
    if occurs_at(other, "gitdir:"@, 0) {
        assert("gitdir:"@ =~= other.subrange(0, 7));
    }
}

/// A tree in order is only reset. Any other is added anew as the last step, after what
/// git knows of trees that are gone is forgotten and what stands in its place is
/// removed.
pub proof fn law_how_a_tree_is_made(linked: bool, dest_exists: bool)
    ensures
        tree_steps(linked, dest_exists).contains(TreeStep::Reset) <==> linked,
        tree_steps(linked, dest_exists).contains(TreeStep::Remove) <==> !linked && dest_exists,
        linked ==> tree_steps(linked, dest_exists).len() == 1,
        !linked ==> {
            let s = tree_steps(linked, dest_exists);
            s.last() == TreeStep::Add && s[0] == TreeStep::Prune && s.len() == (if dest_exists {
                3nat
            } else {
                2nat
            })
        },
        removal_steps(dest_exists).contains(TreeStep::Remove) <==> dest_exists,
        removal_steps(dest_exists).last() == TreeStep::Prune,
{
    let s = tree_steps(linked, dest_exists);
    let r = removal_steps(dest_exists);
    if linked {
        assert(s[0] == TreeStep::Reset);
    } else if dest_exists {
        assert(s[1] == TreeStep::Remove);
    }
    if dest_exists {
        assert(r[0] == TreeStep::Remove);
    }
}

/// Steps are tried up to the first whose failure counts, and the work succeeds exactly
/// if there is none. Only the failure to forget trees that are gone can be passed over,
/// and only in preparation.
pub proof fn law_work_ends_with_the_first_failure(
    steps: Seq<TreeStep>,
    preparing: bool,
    failed: Seq<bool>,
)
    requires
        failed.len() == steps.len(),
    ensures
        run_of(steps, preparing, failed).1 <==> forall|i: int|
            0 <= i < steps.len() && #[trigger] failed[i] ==> preparing && steps[i]
                == TreeStep::Prune,
        run_of(steps, preparing, failed).1 ==> run_of(steps, preparing, failed).0 == steps.len(),
        !run_of(steps, preparing, failed).1 ==> {
            let n = run_of(steps, preparing, failed).0;
            &&& 0 < n <= steps.len()
            &&& failed[n - 1] && !(preparing && steps[n - 1] == TreeStep::Prune)
            &&& forall|i: int|
                0 <= i < n - 1 && #[trigger] failed[i] ==> preparing && steps[i] == TreeStep::Prune
        },
    decreases steps.len(),
{
    if steps.len() > 0 {
        if failed[0] && !(preparing && steps[0] == TreeStep::Prune) {
        } else {
            let s = steps.skip(1);
            let f = failed.skip(1);
            law_work_ends_with_the_first_failure(s, preparing, f);
            let whole = run_of(steps, preparing, failed);
            let rest = run_of(s, preparing, f);
            assert(whole == (1 + rest.0, rest.1));
            if rest.1 {
                assert forall|i: int| 0 <= i < steps.len() && #[trigger] failed[i] implies preparing
                    && steps[i] == TreeStep::Prune by {
                    if i > 0 {
                        assert(f[i - 1] == failed[i]);
                        assert(s[i - 1] == steps[i]);
                    }
                }
            } else {
                let n = whole.0;
                assert(f[n - 2] == failed[n - 1]);
                assert(s[n - 2] == steps[n - 1]);
                assert forall|i: int| 0 <= i < n - 1 && #[trigger] failed[i] implies preparing
                    && steps[i] == TreeStep::Prune by {
                    if i > 0 {
                        assert(f[i - 1] == failed[i]);
                        assert(s[i - 1] == steps[i]);
                    }
                }
            }
        }
    }
}

/// What git is run with: a reset works on the tree, everything else on the mirror, and a
/// branch is always named in full.
pub proof fn law_what_git_is_run_with(mirror: Seq<char>, dest: Seq<char>, branch: Seq<char>)
    ensures
        step_args(TreeStep::Reset, mirror, dest, branch) == Some(
            seq!["-C"@, dest, "reset"@, "--hard"@, "refs/heads/"@ + branch],
        ),
        step_args(TreeStep::Prune, mirror, dest, branch) == Some(
            seq!["-C"@, mirror, "worktree"@, "prune"@],
        ),
        step_args(TreeStep::Add, mirror, dest, branch) == Some(
            seq![
                "-C"@,
                mirror,
                "worktree"@,
                "add"@,
                "--detach"@,
                dest,
                "refs/heads/"@ + branch,
            ],
        ),
        step_args(TreeStep::Remove, mirror, dest, branch) is None,
{
}

proof fn lemma_last_start(s: Seq<char>, c: char, line: Seq<char>)
    requires
        c == '\r' || c == '\n',
        is_without(line, '\r'),
        is_without(line, '\n'),
    ensures
        last_start(s + seq![c] + line) == s.len() + 1,
        last_start(line) == 0,
    decreases line.len(),
{
    let all = s + seq![c] + line;
    if line.len() > 0 {
        let q = line.drop_last();
        assert forall|i: int| 0 <= i < q.len() implies #[trigger] q[i] != '\r' && q[i] != '\n' by {
            assert(q[i] == line[i]);
        }
        assert(is_without(q, '\r') && is_without(q, '\n'));
        lemma_last_start(s, c, q);
        assert(all.drop_last() =~= s + seq![c] + q);
        assert(all.last() == line[line.len() - 1]);
        assert(line.last() == line[line.len() - 1]);
    } else {
        assert(all.last() == c);
    }
}

/// Of progress, the last line that says something is shown, trimmed. A line ends with a
/// carriage return or a line feed; one that is blank is passed over.
pub proof fn law_the_last_progress_counts(s: Seq<char>, c: char, line: Seq<char>)
    requires
        c == '\r' || c == '\n',
        is_without(line, '\r'),
        is_without(line, '\n'),
    ensures
        last_line_spec(s + seq![c] + line) == (if trim_spec(line).len() > 0 {
            Some(trim_spec(line))
        } else {
            last_line_spec(s)
        }),
        last_line_spec(line) == (if trim_spec(line).len() > 0 {
            Some(trim_spec(line))
        } else {
            None
        }),
{
    lemma_last_start(s, c, line);
    let all = s + seq![c] + line;
    assert(all.skip(s.len() as int + 1) =~= line);
    assert(all.take(s.len() as int) =~= s);
    assert(line.skip(0) =~= line);
}

/// A file of an index begins with the letters `AUROXIDX`, the version of the format and
/// four empty bytes, and then holds the archive. Anything that begins otherwise is not
/// read.
pub proof fn law_how_an_index_file_begins(archive: Seq<u8>, bytes: Seq<u8>)
    ensures
        seal_spec(archive) == seq![
            0x41u8,
            0x55,
            0x52,
            0x4f,
            0x58,
            0x49,
            0x44,
            0x58,
            6,
            0,
            0,
            0,
            0,
            0,
            0,
            0,
        ] + archive,
        bytes.len() < 16 || bytes.take(8) != seq![
            0x41u8,
            0x55,
            0x52,
            0x4f,
            0x58,
            0x49,
            0x44,
            0x58,
        ] ==> open_spec(bytes) is Err,
{
}

} // verus!
