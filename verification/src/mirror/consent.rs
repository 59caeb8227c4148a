//! Consent for the clone of the whole AUR, which is a large download.
//!
//! Two decisions stand here. [`decide`] says what the AUR half of a refresh wants
//! to do; [`consent_mode`] says how a wanted clone is agreed to. [`plan`] puts them
//! together, for every answer that the user can give.

use vstd::prelude::*;

use crate::ui::Tone;

verus! {

broadcast use vstd::string::group_string_axioms;

/// Who asked for a refresh.
#[derive(Debug, Clone, Copy, PartialEq, Eq, Structural)]
pub enum RefreshReason {
    /// `-Sy`.
    ExplicitSync,
    /// `-Syy`, which clones again what is there.
    ForceReclone,
    /// The shell's `refresh aur`, or a "yes" to its question at the start.
    ShellAurSync,
    /// The shell's `refresh`.
    ShellRefresh,
    /// The shell's `upgrade`.
    ShellUpgrade,
    /// The index on disk cannot be read and is built again.
    IndexResync,
    /// An install met unknown targets while the AUR was not synced yet.
    InstallOffer,
}

/// What a refresh did.
#[derive(Debug, Clone, Copy, PartialEq, Eq, Structural)]
pub enum RefreshOutcome {
    /// The mirror and the index are current.
    Refreshed,
    /// The AUR half was left out.
    AurSkipped(SkipCause),
}

/// Why the AUR half of a refresh was left out.
#[derive(Debug, Clone, Copy, PartialEq, Eq, Structural)]
pub enum SkipCause {
    /// The configuration turns the AUR off.
    Disabled,
    /// The user said no.
    Declined,
    /// The AUR was never synced, and this trigger does not ask.
    NotSetUp,
    /// There was no terminal to ask on.
    NonInteractive,
    /// The command did not ask for the AUR.
    NotRequested,
}

impl SkipCause {
    /// The cause in words.
    pub open spec fn text(self) -> Seq<char> {
        match self {
            SkipCause::Disabled => "aur = false in config"@,
            SkipCause::Declined => "declined"@,
            SkipCause::NotSetUp => "AUR not set up"@,
            SkipCause::NonInteractive => "non-interactive run"@,
            SkipCause::NotRequested => "not requested"@,
        }
    }

    /// The cause in words.
    pub fn as_str(&self) -> (r: &'static str)
        ensures
            r@ == self.text(),
    {
        match self {
            SkipCause::Disabled => "aur = false in config",
            SkipCause::Declined => "declined",
            SkipCause::NotSetUp => "AUR not set up",
            SkipCause::NonInteractive => "non-interactive run",
            SkipCause::NotRequested => "not requested",
        }
    }

    /// The cause in words.
    pub fn to_string(&self) -> (r: String)
        ensures
            r@ == self.text(),
    {
        self.as_str().to_owned()
    }
}

/// What happens to the AUR half of a refresh.
#[derive(Debug, Clone, Copy, PartialEq, Eq, Structural)]
pub enum AurAction {
    /// Fetch what is new.
    Fetch,
    /// Clone everything and build the index.
    Bootstrap(BootstrapKind),
    /// Leave the mirror alone.
    Skip(SkipCause),
}

/// Why everything is cloned.
#[derive(Debug, Clone, Copy, PartialEq, Eq, Structural)]
pub enum BootstrapKind {
    /// There is no mirror yet.
    FirstRun,
    /// An earlier clone did not finish.
    InterruptedRedo,
    /// A good mirror is to be cloned again.
    ForcedReclone,
}

/// The mirror on disk.
#[derive(Debug, Clone, Copy, PartialEq, Eq, Structural)]
pub enum MirrorState {
    /// It is complete.
    Ready,
    /// There is a directory without a branch: a clone that did not finish.
    Interrupted,
    /// There is nothing.
    Absent,
}

impl MirrorState {
    /// The state of a mirror whose directory exists or not and which has a branch
    /// or not.
    pub fn probe(exists: bool, bootstrapped: bool) -> (r: Self)
        ensures
            r == (if !exists {
                MirrorState::Absent
            } else if bootstrapped {
                MirrorState::Ready
            } else {
                MirrorState::Interrupted
            }),
    {
        if !exists {
            MirrorState::Absent
        } else if bootstrapped {
            MirrorState::Ready
        } else {
            MirrorState::Interrupted
        }
    }
}

/// How a wanted clone is agreed to.
#[derive(Debug, Clone, Copy, PartialEq, Eq, Structural)]
pub enum ConsentMode {
    /// It is agreed to already.
    AutoYes,
    /// The user is asked.
    Prompt,
    /// This trigger never clones.
    Refuse,
}

/// How a clone that `reason` wants is agreed to. An offer is never taken up
/// unasked; `--noconfirm` is a yes to everything else.
pub open spec fn consent_mode_spec(
    reason: RefreshReason,
    noconfirm: bool,
    stdin_is_tty: bool,
) -> ConsentMode {
    match reason {
        RefreshReason::InstallOffer => if stdin_is_tty && !noconfirm {
            ConsentMode::Prompt
        } else {
            ConsentMode::Refuse
        },
        RefreshReason::ExplicitSync | RefreshReason::ForceReclone => if noconfirm {
            ConsentMode::AutoYes
        } else {
            ConsentMode::Prompt
        },
        RefreshReason::ShellAurSync => ConsentMode::AutoYes,
        RefreshReason::ShellRefresh | RefreshReason::ShellUpgrade => if noconfirm {
            ConsentMode::AutoYes
        } else {
            ConsentMode::Refuse
        },
        RefreshReason::IndexResync => if noconfirm {
            ConsentMode::AutoYes
        } else if stdin_is_tty {
            ConsentMode::Prompt
        } else {
            ConsentMode::Refuse
        },
    }
}

/// How a clone that `reason` wants is agreed to.
pub fn consent_mode(reason: RefreshReason, noconfirm: bool, stdin_is_tty: bool) -> (r: ConsentMode)
    ensures
        r == consent_mode_spec(reason, noconfirm, stdin_is_tty),
{
    match reason {
        RefreshReason::InstallOffer => {
            if stdin_is_tty && !noconfirm {
                ConsentMode::Prompt
            } else {
                ConsentMode::Refuse
            }
        },
        _ if noconfirm => ConsentMode::AutoYes,
        RefreshReason::ExplicitSync | RefreshReason::ForceReclone => ConsentMode::Prompt,
        RefreshReason::ShellAurSync => ConsentMode::AutoYes,
        RefreshReason::ShellRefresh | RefreshReason::ShellUpgrade => ConsentMode::Refuse,
        RefreshReason::IndexResync => {
            if stdin_is_tty {
                ConsentMode::Prompt
            } else {
                ConsentMode::Refuse
            }
        },
    }
}

/// Why a refused clone was refused.
pub open spec fn refusal_cause_spec(reason: RefreshReason) -> SkipCause {
    match reason {
        RefreshReason::ShellRefresh | RefreshReason::ShellUpgrade => SkipCause::NotSetUp,
        _ => SkipCause::NonInteractive,
    }
}

/// Why a refused clone was refused.
pub fn refusal_cause(reason: RefreshReason) -> (r: SkipCause)
    ensures
        r == refusal_cause_spec(reason),
{
    match reason {
        RefreshReason::ShellRefresh | RefreshReason::ShellUpgrade => SkipCause::NotSetUp,
        _ => SkipCause::NonInteractive,
    }
}

/// What the AUR half wants to do, before anyone is asked.
pub open spec fn decide_spec(aur_enabled: bool, state: MirrorState, reason: RefreshReason) -> AurAction {
    if !aur_enabled {
        AurAction::Skip(SkipCause::Disabled)
    } else {
        match state {
            MirrorState::Absent => AurAction::Bootstrap(BootstrapKind::FirstRun),
            MirrorState::Interrupted => AurAction::Bootstrap(BootstrapKind::InterruptedRedo),
            MirrorState::Ready => if reason == RefreshReason::ForceReclone {
                AurAction::Bootstrap(BootstrapKind::ForcedReclone)
            } else {
                AurAction::Fetch
            },
        }
    }
}

/// What the AUR half wants to do, before anyone is asked.
pub fn decide(aur_enabled: bool, state: MirrorState, reason: RefreshReason) -> (r: AurAction)
    ensures
        r == decide_spec(aur_enabled, state, reason),
{
    if !aur_enabled {
        return AurAction::Skip(SkipCause::Disabled);
    }
    match (reason, state) {
        (RefreshReason::ForceReclone, MirrorState::Ready) => AurAction::Bootstrap(
            BootstrapKind::ForcedReclone,
        ),
        (_, MirrorState::Ready) => AurAction::Fetch,
        (_, MirrorState::Interrupted) => AurAction::Bootstrap(BootstrapKind::InterruptedRedo),
        (_, MirrorState::Absent) => AurAction::Bootstrap(BootstrapKind::FirstRun),
    }
}

/// A message for the user.
#[derive(Debug)]
pub struct Notice {
    /// What kind of line it is.
    pub tone: Tone,
    /// What it says.
    pub text: String,
}

/// The messages as their tones and texts.
pub open spec fn notices(v: Seq<Notice>) -> Seq<(Tone, Seq<char>)> {
    v.map_values(|n: Notice| (n.tone, n.text@))
}

/// What the user is told about the cost of a clone; `config_path` is where the
/// AUR can be turned off.
pub open spec fn announcement(kind: BootstrapKind, config_path: Seq<char>) -> Seq<(Tone, Seq<char>)> {
    match kind {
        BootstrapKind::FirstRun => seq![
            (Tone::Info, "first-time AUR setup — aurox mirrors the whole AUR as one git repo"@),
            (
                Tone::Note,
                "~2 GiB download, ~2.5 GiB on disk, ~10 min — one-time; refreshes afterwards are small incremental fetches"@,
            ),
            (Tone::Note, "enables AUR search, info, install, and upgrades"@),
            (Tone::Note, "pacman-only instead? set `aur = false` in "@ + config_path),
        ],
        BootstrapKind::InterruptedRedo => seq![
            (
                Tone::Warn,
                "previous bootstrap was interrupted; the clone must restart from scratch"@,
            ),
            (Tone::Note, "~2 GiB download, ~10 min"@),
        ],
        BootstrapKind::ForcedReclone => seq![
            (
                Tone::Info,
                "-Syy re-clones the AUR mirror from scratch: ~2 GiB download, ~10 min"@,
            ),
        ],
    }
}

fn notice(tone: Tone, text: &str) -> (r: Notice)
    ensures
        r.tone == tone,
        r.text@ == text@,
{
    Notice { tone, text: text.to_owned() }
}

/// What the user is told about the cost of a clone.
pub fn announce(kind: BootstrapKind, config_path: &str) -> (r: Vec<Notice>)
    ensures
        notices(r@) == announcement(kind, config_path@),
{
    let mut r: Vec<Notice> = Vec::new();
    match kind {
        BootstrapKind::FirstRun => {
            r.push(
                notice(
                    Tone::Info,
                    "first-time AUR setup — aurox mirrors the whole AUR as one git repo",
                ),
            );
            r.push(
                notice(
                    Tone::Note,
                    "~2 GiB download, ~2.5 GiB on disk, ~10 min — one-time; refreshes afterwards are small incremental fetches",
                ),
            );
            r.push(notice(Tone::Note, "enables AUR search, info, install, and upgrades"));
            let mut text = "pacman-only instead? set `aur = false` in ".to_owned();
            text.append(config_path);
            r.push(Notice { tone: Tone::Note, text });
        },
        BootstrapKind::InterruptedRedo => {
            r.push(
                notice(
                    Tone::Warn,
                    "previous bootstrap was interrupted; the clone must restart from scratch",
                ),
            );
            r.push(notice(Tone::Note, "~2 GiB download, ~10 min"));
        },
        BootstrapKind::ForcedReclone => {
            r.push(
                notice(
                    Tone::Info,
                    "-Syy re-clones the AUR mirror from scratch: ~2 GiB download, ~10 min",
                ),
            );
        },
    }
    assert(notices(r@) =~= announcement(kind, config_path@));
    r
}

/// The question about a clone.
pub open spec fn question_spec(kind: BootstrapKind) -> Seq<char> {
    match kind {
        BootstrapKind::ForcedReclone => "delete the existing mirror and re-clone?"@,
        _ => "clone the AUR mirror now?"@,
    }
}

/// The question about a clone.
pub fn question(kind: BootstrapKind) -> (r: &'static str)
    ensures
        r@ == question_spec(kind),
{
    match kind {
        BootstrapKind::FirstRun | BootstrapKind::InterruptedRedo => "clone the AUR mirror now?",
        BootstrapKind::ForcedReclone => "delete the existing mirror and re-clone?",
    }
}

/// What [`plan`] resolved.
#[derive(Debug)]
pub enum Plan {
    /// Say these things, then do this.
    Settled(Vec<Notice>, AurAction),
    /// Say these things, then ask about a clone of this kind; [`answered`] takes
    /// the answer.
    Ask(Vec<Notice>, BootstrapKind),
}

/// What a refresh does to the mirror once consent is looked at.
pub open spec fn plan_spec(
    aur_enabled: bool,
    state: MirrorState,
    reason: RefreshReason,
    noconfirm: bool,
    stdin_is_tty: bool,
    config_path: Seq<char>,
) -> (Seq<(Tone, Seq<char>)>, Result<AurAction, BootstrapKind>) {
    match decide_spec(aur_enabled, state, reason) {
        AurAction::Bootstrap(kind) => match consent_mode_spec(reason, noconfirm, stdin_is_tty) {
            ConsentMode::AutoYes => (
                if reason == RefreshReason::ShellAurSync && kind == BootstrapKind::FirstRun {
                    seq![(Tone::Info, "syncing the AUR — one-time ~2 GiB clone (~10 min)"@)]
                } else {
                    announcement(kind, config_path)
                },
                Ok(AurAction::Bootstrap(kind)),
            ),
            ConsentMode::Prompt => (announcement(kind, config_path), Err(kind)),
            ConsentMode::Refuse => (seq![], Ok(AurAction::Skip(refusal_cause_spec(reason)))),
        },
        action => (
            if action == AurAction::Skip(SkipCause::Disabled) && (reason
                == RefreshReason::ExplicitSync || reason == RefreshReason::ForceReclone) {
                seq![
                    (
                        Tone::Note,
                        "AUR disabled (aur = false in config.toml); refreshing official package databases only"@,
                    ),
                ]
            } else {
                seq![]
            },
            Ok(action),
        ),
    }
}

/// Whether `p` says and does what `want` says; an `Err` stands for the question.
pub open spec fn plan_is(
    p: Plan,
    want: (Seq<(Tone, Seq<char>)>, Result<AurAction, BootstrapKind>),
) -> bool {
    match p {
        Plan::Settled(said, action) => notices(said@) == want.0 && want.1 == Ok::<
            AurAction,
            BootstrapKind,
        >(action),
        Plan::Ask(said, kind) => notices(said@) == want.0 && want.1 == Err::<
            AurAction,
            BootstrapKind,
        >(kind),
    }
}

/// Resolves what a refresh does to the mirror.
pub fn plan(
    aur_enabled: bool,
    state: MirrorState,
    reason: RefreshReason,
    noconfirm: bool,
    stdin_is_tty: bool,
    config_path: &str,
) -> (r: Plan)
    ensures
        plan_is(r, plan_spec(aur_enabled, state, reason, noconfirm, stdin_is_tty, config_path@)),
{
    let action = decide(aur_enabled, state, reason);
    let mut said: Vec<Notice> = Vec::new();
    match action {
        AurAction::Bootstrap(kind) => match consent_mode(reason, noconfirm, stdin_is_tty) {
            ConsentMode::AutoYes => {
                if reason == RefreshReason::ShellAurSync && kind == BootstrapKind::FirstRun {
                    said.push(
                        notice(
                            Tone::Info,
                            "syncing the AUR — one-time ~2 GiB clone (~10 min)",
                        ),
                    );
                    assert(notices(said@) =~= seq![
                        (Tone::Info, "syncing the AUR — one-time ~2 GiB clone (~10 min)"@),
                    ]);
                    Plan::Settled(said, action)
                } else {
                    Plan::Settled(announce(kind, config_path), action)
                }
            },
            ConsentMode::Prompt => Plan::Ask(announce(kind, config_path), kind),
            ConsentMode::Refuse => {
                assert(notices(said@) =~= seq![]);
                Plan::Settled(said, AurAction::Skip(refusal_cause(reason)))
            },
        },
        AurAction::Skip(SkipCause::Disabled) => {
            if reason == RefreshReason::ExplicitSync || reason == RefreshReason::ForceReclone {
                said.push(
                    notice(
                        Tone::Note,
                        "AUR disabled (aur = false in config.toml); refreshing official package databases only",
                    ),
                );
                assert(notices(said@) =~= seq![
                    (
                        Tone::Note,
                        "AUR disabled (aur = false in config.toml); refreshing official package databases only"@,
                    ),
                ]);
            } else {
                assert(notices(said@) =~= seq![]);
            }
            Plan::Settled(said, action)
        },
        _ => {
            assert(notices(said@) =~= seq![]);
            Plan::Settled(said, action)
        },
    }
}

/// What the answer to the question comes to.
pub fn answered(kind: BootstrapKind, yes: bool) -> (r: AurAction)
    ensures
        r == (if yes {
            AurAction::Bootstrap(kind)
        } else {
            AurAction::Skip(SkipCause::Declined)
        }),
{
    if yes {
        AurAction::Bootstrap(kind)
    } else {
        AurAction::Skip(SkipCause::Declined)
    }
}

/// No clone starts in silence: whatever starts one, or asks about one, says
/// something first.
pub proof fn law_no_silent_clone(
    aur_enabled: bool,
    state: MirrorState,
    reason: RefreshReason,
    noconfirm: bool,
    stdin_is_tty: bool,
    config_path: Seq<char>,
)
    ensures
        ({
            let (said, action) = plan_spec(
                aur_enabled,
                state,
                reason,
                noconfirm,
                stdin_is_tty,
                config_path,
            );
            (action matches Ok(a) ==> a is Bootstrap) ==> said.len() > 0
        }),
{
}

/// With the AUR turned off a refresh neither clones nor fetches nor asks.
pub proof fn law_disabled_touches_nothing(
    state: MirrorState,
    reason: RefreshReason,
    noconfirm: bool,
    stdin_is_tty: bool,
    config_path: Seq<char>,
)
    ensures
        plan_spec(false, state, reason, noconfirm, stdin_is_tty, config_path).1 == Ok::<
            AurAction,
            BootstrapKind,
        >(AurAction::Skip(SkipCause::Disabled)),
{
}

/// A complete mirror is fetched without a word and without a question, whoever
/// asks, except that a forced clone is a clone.
pub proof fn law_fetch_never_asks(
    reason: RefreshReason,
    noconfirm: bool,
    stdin_is_tty: bool,
    config_path: Seq<char>,
)
    requires
        reason != RefreshReason::ForceReclone,
    ensures
        plan_spec(true, MirrorState::Ready, reason, noconfirm, stdin_is_tty, config_path) == (
            Seq::<(Tone, Seq<char>)>::empty(),
            Ok::<AurAction, BootstrapKind>(AurAction::Fetch),
        ),
{
}

/// An offer is never taken up unasked: it leads to a clone only through the
/// question, and the question is put only at a terminal and without
/// `--noconfirm`.
pub proof fn law_offer_is_never_taken_up_unasked(
    aur_enabled: bool,
    state: MirrorState,
    noconfirm: bool,
    stdin_is_tty: bool,
    config_path: Seq<char>,
)
    ensures
        ({
            let action = plan_spec(
                aur_enabled,
                state,
                RefreshReason::InstallOffer,
                noconfirm,
                stdin_is_tty,
                config_path,
            ).1;
            &&& action matches Ok(a) ==> !(a is Bootstrap)
            &&& action is Err ==> stdin_is_tty && !noconfirm
        }),
{
}

/// The shell's bare `refresh` and `upgrade` never clone, and never ask to, unless
/// `--noconfirm` was given.
pub proof fn law_bare_refresh_never_clones(
    aur_enabled: bool,
    state: MirrorState,
    reason: RefreshReason,
    stdin_is_tty: bool,
    config_path: Seq<char>,
)
    requires
        reason == RefreshReason::ShellRefresh || reason == RefreshReason::ShellUpgrade,
    ensures
        plan_spec(aur_enabled, state, reason, false, stdin_is_tty, config_path).1 matches Ok(a)
            && !(a is Bootstrap),
{
}

/// An index that is built again behind a pipe never clones and never asks, unless
/// `--noconfirm` was given.
pub proof fn law_resync_behind_a_pipe_never_clones(
    aur_enabled: bool,
    state: MirrorState,
    config_path: Seq<char>,
)
    ensures
        plan_spec(aur_enabled, state, RefreshReason::IndexResync, false, false, config_path).1 matches Ok(
            a,
        ) && !(a is Bootstrap),
{
}

} // verus!
