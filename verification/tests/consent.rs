//! Who may start a clone of the mirror.

use aurox::mirror::consent::{
    announce, answered, consent_mode, decide, plan, question, refusal_cause, AurAction,
    BootstrapKind, ConsentMode, MirrorState, Plan, RefreshReason, SkipCause,
};
use aurox::ui::Tone;

const ALL_REASONS: [RefreshReason; 7] = [
    RefreshReason::ExplicitSync,
    RefreshReason::ForceReclone,
    RefreshReason::ShellAurSync,
    RefreshReason::ShellRefresh,
    RefreshReason::ShellUpgrade,
    RefreshReason::IndexResync,
    RefreshReason::InstallOffer,
];

/// `--noconfirm` is the automation opt-in: it approves a bootstrap for any
/// trigger the user actually issued, terminal or not. The install offer is
/// the exception — aurox volunteered it, so `--noconfirm` refuses.
#[test]
fn noconfirm_auto_approves_every_reason_except_the_offer() {
    for reason in ALL_REASONS {
        let expected = if reason == RefreshReason::InstallOffer {
            ConsentMode::Refuse
        } else {
            ConsentMode::AutoYes
        };
        for tty in [true, false] {
            assert_eq!(
                consent_mode(reason, true, tty),
                expected,
                "{reason:?} tty={tty}"
            );
        }
    }
}

/// The install offer prompts only where a human can answer: a TTY without
/// `--noconfirm`. Everywhere else it refuses — never a surprise clone.
#[test]
fn install_offer_prompts_only_on_an_interactive_tty() {
    assert_eq!(
        consent_mode(RefreshReason::InstallOffer, false, true),
        ConsentMode::Prompt
    );
    assert_eq!(
        consent_mode(RefreshReason::InstallOffer, false, false),
        ConsentMode::Refuse
    );
    assert_eq!(
        consent_mode(RefreshReason::InstallOffer, true, true),
        ConsentMode::Refuse
    );
}

/// An explicit CLI sync carries the intent even on a pipe — the prompt's
/// read-line fallback (EOF ⇒ yes, piped `n` ⇒ decline) still applies, so
/// scripts keep both levers.
#[test]
fn explicit_cli_syncs_prompt_on_and_off_tty() {
    for reason in [RefreshReason::ExplicitSync, RefreshReason::ForceReclone] {
        for tty in [true, false] {
            assert_eq!(
                consent_mode(reason, false, tty),
                ConsentMode::Prompt,
                "{reason:?} tty={tty}"
            );
        }
    }
}

/// The shell asked its own three-way question at launch: `refresh aur`
/// after that is pre-consented (no second Y/n), while the bare `refresh`
/// and `upgrade` must never spring the clone on a user who answered
/// "later".
#[test]
fn shell_aur_sync_preconsented_and_bare_refresh_and_upgrade_refuse() {
    assert_eq!(
        consent_mode(RefreshReason::ShellAurSync, false, true),
        ConsentMode::AutoYes
    );
    for reason in [RefreshReason::ShellRefresh, RefreshReason::ShellUpgrade] {
        assert_eq!(consent_mode(reason, false, true), ConsentMode::Refuse);
        assert_eq!(
            refusal_cause(reason),
            SkipCause::NotSetUp,
            "{reason:?}'s skip must read as \"not set up\", not \"non-interactive\""
        );
    }
    assert_eq!(
        refusal_cause(RefreshReason::IndexResync),
        SkipCause::NonInteractive
    );
}

/// The implicit schema-bump resync may ask a present human but must never
/// bootstrap behind a pipe.
#[test]
fn implicit_resync_prompts_only_on_a_tty() {
    assert_eq!(
        consent_mode(RefreshReason::IndexResync, false, true),
        ConsentMode::Prompt
    );
    assert_eq!(
        consent_mode(RefreshReason::IndexResync, false, false),
        ConsentMode::Refuse
    );
}

/// `aur = false` beats every trigger and every mirror state.
#[test]
fn disabled_config_skips_everything() {
    for state in [
        MirrorState::Ready,
        MirrorState::Interrupted,
        MirrorState::Absent,
    ] {
        for reason in ALL_REASONS {
            assert_eq!(
                decide(false, state, reason),
                AurAction::Skip(SkipCause::Disabled),
                "{state:?} {reason:?}"
            );
        }
    }
}

/// A healthy mirror fetches incrementally — no consent involved — except
/// under `-Syy`, which deliberately re-clones.
#[test]
fn ready_mirror_fetches_unless_force_recloned() {
    for reason in [
        RefreshReason::ExplicitSync,
        RefreshReason::ShellAurSync,
        RefreshReason::ShellRefresh,
        RefreshReason::ShellUpgrade,
        RefreshReason::IndexResync,
        RefreshReason::InstallOffer,
    ] {
        assert_eq!(
            decide(true, MirrorState::Ready, reason),
            AurAction::Fetch,
            "{reason:?}"
        );
    }
    assert_eq!(
        decide(true, MirrorState::Ready, RefreshReason::ForceReclone),
        AurAction::Bootstrap(BootstrapKind::ForcedReclone)
    );
}

/// Missing or interrupted mirrors want a bootstrap whatever the trigger;
/// the kind picks the announcement copy.
#[test]
fn missing_and_interrupted_mirrors_want_bootstrap() {
    for reason in ALL_REASONS {
        assert_eq!(
            decide(true, MirrorState::Absent, reason),
            AurAction::Bootstrap(BootstrapKind::FirstRun),
            "{reason:?}"
        );
        assert_eq!(
            decide(true, MirrorState::Interrupted, reason),
            AurAction::Bootstrap(BootstrapKind::InterruptedRedo),
            "{reason:?}"
        );
    }
}

/// The cause reads sensibly inside "AUR refresh skipped ({cause})".
#[test]
fn skip_cause_wording() {
    assert_eq!(SkipCause::Disabled.to_string(), "aur = false in config");
    assert_eq!(SkipCause::Declined.to_string(), "declined");
    assert_eq!(SkipCause::NotSetUp.to_string(), "AUR not set up");
    assert_eq!(SkipCause::NonInteractive.to_string(), "non-interactive run");
    assert_eq!(SkipCause::NotRequested.to_string(), "not requested");
}

#[test]
fn a_mirror_without_its_mark_was_interrupted() {
    assert_eq!(MirrorState::probe(false, false), MirrorState::Absent);
    assert_eq!(MirrorState::probe(true, false), MirrorState::Interrupted);
    assert_eq!(MirrorState::probe(true, true), MirrorState::Ready);
}

#[test]
fn an_explicit_sync_asks_before_the_first_clone() {
    let p = plan(true, MirrorState::Absent, RefreshReason::ExplicitSync, false, true, "/c.toml");
    match p {
        Plan::Ask(said, kind) => {
            assert!(!said.is_empty());
            assert_eq!(kind, BootstrapKind::FirstRun);
            assert_eq!(question(kind), "clone the AUR mirror now?");
        }
        Plan::Settled(..) => panic!("asked nothing"),
    }
    assert_eq!(
        answered(BootstrapKind::FirstRun, true),
        AurAction::Bootstrap(BootstrapKind::FirstRun)
    );
    assert_eq!(
        answered(BootstrapKind::FirstRun, false),
        AurAction::Skip(SkipCause::Declined)
    );
}

#[test]
fn a_disabled_aur_is_only_mentioned_to_who_asked() {
    let p = plan(false, MirrorState::Ready, RefreshReason::ExplicitSync, false, true, "/c.toml");
    match p {
        Plan::Settled(said, action) => {
            assert_eq!(action, AurAction::Skip(SkipCause::Disabled));
            assert_eq!(said.len(), 1);
            assert_eq!(said[0].tone, Tone::Note);
            assert_eq!(
                said[0].text,
                "AUR disabled (aur = false in config.toml); refreshing official package databases only"
            );
        }
        Plan::Ask(..) => panic!("asked"),
    }
    let p = plan(false, MirrorState::Ready, RefreshReason::ShellRefresh, false, true, "/c.toml");
    match p {
        Plan::Settled(said, action) => {
            assert_eq!(action, AurAction::Skip(SkipCause::Disabled));
            assert!(said.is_empty());
        }
        Plan::Ask(..) => panic!("asked"),
    }
}

#[test]
fn no_resync_clones_behind_a_pipe() {
    for noconfirm in [false] {
        let p = plan(true, MirrorState::Absent, RefreshReason::IndexResync, noconfirm, false, "/c");
        match p {
            Plan::Settled(said, action) => {
                assert!(said.is_empty());
                assert_eq!(action, AurAction::Skip(SkipCause::NonInteractive));
            }
            Plan::Ask(..) => panic!("asked"),
        }
    }
    let p = plan(true, MirrorState::Ready, RefreshReason::IndexResync, false, false, "/c");
    assert!(matches!(p, Plan::Settled(_, AurAction::Fetch)));
}

#[test]
fn the_shell_is_told_of_the_clone_in_one_line() {
    let p = plan(true, MirrorState::Absent, RefreshReason::ShellAurSync, false, true, "/c.toml");
    match p {
        Plan::Settled(said, action) => {
            assert_eq!(action, AurAction::Bootstrap(BootstrapKind::FirstRun));
            assert_eq!(said.len(), 1);
            assert_eq!(said[0].tone, Tone::Info);
            assert_eq!(said[0].text, "syncing the AUR \u{2014} one-time ~2 GiB clone (~10 min)");
        }
        Plan::Ask(..) => panic!("asked"),
    }
}

#[test]
fn the_announcement_names_the_configuration() {
    let said = announce(BootstrapKind::FirstRun, "/etc/aurox.toml");
    assert!(said.iter().any(|n| n.text.contains("/etc/aurox.toml")));
    assert_eq!(
        question(BootstrapKind::ForcedReclone),
        "delete the existing mirror and re-clone?"
    );
    assert!(!announce(BootstrapKind::ForcedReclone, "/c").is_empty());
    assert!(!announce(BootstrapKind::InterruptedRedo, "/c").is_empty());
}
