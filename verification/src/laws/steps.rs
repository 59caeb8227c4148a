//! Single steps on which larger answers rest.

use vstd::prelude::*;

use crate::error::Error;
use crate::index::archive::corrupted;
use crate::index::info::first_submitted;
use crate::logging::chrome::{thread_names, track_name, SpanRecord, ThreadName};
use crate::mirror::consent::{
    consent_mode, decide, refusal_cause, AurAction, BootstrapKind, ConsentMode, MirrorState,
    RefreshReason, SkipCause,
};
use crate::mirror::worktree::{may_fail, TreeStep};
use crate::names::{PkgBase, PkgTarget};
use crate::pacman::invoke::{keep_capture, CleanedPacmanCapture};
use crate::pacman::preflight::staging_error;
use crate::resolver::{PkgbasePlan, Plan};
use crate::units::UnixTime;

verus! {

/// A pkgbase first came when the earliest of its root commits was made; one without
/// root commits has no such time.
pub proof fn law_when_a_pkgbase_first_came(roots: &Vec<i64>, r: Option<UnixTime>)
    requires
        call_ensures(first_submitted, (roots,), r),
    ensures
        r is None <==> roots@.len() == 0,
        r matches Some(t) ==> roots@.contains(t.0) && forall|i: int|
            0 <= i < roots@.len() ==> t.0 <= #[trigger] roots@[i],
{
    if roots@.len() > 0 {
        assert(r is Some);
    }
}

/// A track is listed exactly if a span names it, once, and the tracks go up.
pub proof fn law_which_tracks_are_listed(spans: &Vec<SpanRecord>, r: Vec<ThreadName>, tid: i64)
    requires
        call_ensures(thread_names, (spans,), r),
    ensures
        match track_name(spans@, tid) {
            Some(name) => exists|i: int|
                0 <= i < r@.len() && (#[trigger] r@[i]).tid == tid && r@[i].name@ == name,
            None => forall|i: int| 0 <= i < r@.len() ==> (#[trigger] r@[i]).tid != tid,
        },
        forall|i: int, j: int|
            0 <= i < j < r@.len() ==> (#[trigger] r@[i]).tid < (#[trigger] r@[j]).tid,
{
    if track_name(spans@, tid) is Some {
        let i = choose|i: int| 0 <= i < r@.len() && (#[trigger] r@[i]).tid == tid;
        assert(r@[i].name@ == track_name(spans@, tid)->0);
    }
}

/// What pacman wrote is kept as it is, unless it wrote nothing at all.
pub proof fn law_when_a_capture_is_kept(
    stdout: String,
    stderr: String,
    r: Option<CleanedPacmanCapture>,
)
    requires
        call_ensures(keep_capture, (stdout, stderr), r),
    ensures
        stdout@.len() > 0 || stderr@.len() > 0 ==> r is Some && r->0.stdout@ == stdout@
            && r->0.stderr@ == stderr@,
        stdout@.len() == 0 && stderr@.len() == 0 ==> r is None,
{
}

/// A target that cannot be staged is named together with the reason.
pub proof fn law_how_a_failed_staging_reads(target: &PkgTarget, error: &str, r: Error)
    requires
        call_ensures(staging_error, (target, error), r),
    ensures
        r matches Error::Other(m) && m@ == "alpm trans_remove_pkg "@ + target@ + ": "@ + error@,
{
}

/// A damaged archive is told apart from one of another version.
pub proof fn law_how_a_damaged_archive_reads(r: Error)
    requires
        call_ensures(corrupted, (), r),
    ensures
        r matches Error::IndexIncompatible(m) && m@ == "on-disk archive corrupted"@,
{
}

/// Nobody is asked where a clone was called for by name in the shell; everybody else is
/// asked unless the answer was given beforehand, and an offer, a resync or a bare
/// refresh never leads to a clone that nobody could be asked about.
pub proof fn law_who_is_asked(
    reason: RefreshReason,
    noconfirm: bool,
    stdin_is_tty: bool,
    r: ConsentMode,
)
    requires
        call_ensures(consent_mode, (reason, noconfirm, stdin_is_tty), r),
    ensures
        r is AutoYes <==> reason is ShellAurSync || (noconfirm && !(reason is InstallOffer)),
        r is Prompt <==> !noconfirm && (reason is ExplicitSync || reason is ForceReclone || (
        stdin_is_tty && (reason is InstallOffer || reason is IndexResync))),
{
}

/// A bare refresh finds nothing set up; anything else could not ask.
pub proof fn law_why_a_clone_was_refused(reason: RefreshReason, r: SkipCause)
    requires
        call_ensures(refusal_cause, (reason,), r),
    ensures
        reason is ShellRefresh || reason is ShellUpgrade ==> r is NotSetUp,
        !(reason is ShellRefresh || reason is ShellUpgrade) ==> r is NonInteractive,
{
}

/// Where the AUR is turned off nothing is done; otherwise a complete mirror is fetched,
/// unless it is to be cloned again, and any other one is cloned.
pub proof fn law_what_is_done_with_the_mirror(
    enabled: bool,
    state: MirrorState,
    reason: RefreshReason,
    r: AurAction,
)
    requires
        call_ensures(decide, (enabled, state, reason), r),
    ensures
        !enabled ==> r == AurAction::Skip(SkipCause::Disabled),
        enabled && state is Absent ==> r == AurAction::Bootstrap(BootstrapKind::FirstRun),
        enabled && state is Interrupted ==> r == AurAction::Bootstrap(
            BootstrapKind::InterruptedRedo,
        ),
        enabled && state is Ready && reason is ForceReclone ==> r == AurAction::Bootstrap(
            BootstrapKind::ForcedReclone,
        ),
        enabled && state is Ready && !(reason is ForceReclone) ==> r is Fetch,
{
}

/// Only the tidying before a tree is made may fail.
pub proof fn law_which_step_may_fail(step: TreeStep, preparing: bool, r: bool)
    requires
        call_ensures(may_fail, (step, preparing), r),
    ensures
        r <==> preparing && step is Prune,
{
}

/// What a plan holds for a pkgbase is what was chosen and hinted for it.
pub proof fn law_what_is_planned_for_a_pkgbase<'a>(
    plan: &'a Plan,
    base: &'a PkgBase,
    r: PkgbasePlan<'a>,
)
    requires
        call_ensures(Plan::pkgbase_plan, (plan, base), r),
    ensures
        r.pkgbase == base,
        r.selection is Some <==> plan.pkgname_selections@.dom().contains(base@),
        r.selection matches Some(v) ==> *v == plan.pkgname_selections@[base@],
        r.hint is Some <==> plan.counterpart_hints@.dom().contains(base@),
        r.hint matches Some(n) ==> *n == plan.counterpart_hints@[base@],
{
}

} // verus!
