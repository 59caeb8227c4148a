//! Options, interrupts, paths and files of a run.

use aurox::error::Error;
use aurox::git::{failure, outcome, pack_refs, write_commit_graph};
use aurox::interrupt::cancel_on_sigint;
use aurox::logging::{choose_filter, logs, parse_console_filter, traces, FilterVar};
use aurox::names::PkgBase;
use aurox::paths;
use aurox::paths::StatePath;
use aurox::rotate::{prune_keeping_newest, run_basename, RotationPolicy, Seen};
use aurox::runopts::{
    argv_has_noconfirm, argv_has_noresync, get, noconfirm, noresync, RunOpts,
};
use aurox::system::{all_kinds, checked_size, path_size, prune, sizes_fit, usage, Found, PruneStep, StateKind};
use aurox::units::ByteSize;

#[test]
fn argv_detection() {
    assert!(argv_has_noconfirm(&vec![
        "-S".into(),
        "--noconfirm".into(),
        "foo".into()
    ]));
    assert!(argv_has_noconfirm(&vec!["--noconfirm".into()]));
    assert!(!argv_has_noconfirm(&vec!["-S".into(), "foo".into()]));
    // Substring matches don't count — must be the exact token.
    assert!(!argv_has_noconfirm(&vec!["--noconfirm=true".into()]));
}

#[test]
fn noresync_argv_detection() {
    assert!(argv_has_noresync(&vec!["-S".into(), "--noresync".into()]));
    assert!(!argv_has_noresync(&vec!["-S".into(), "foo".into()]));
    // Exact-token only, same as --noconfirm.
    assert!(!argv_has_noresync(&vec!["--noresync=1".into()]));
}

/// Happy path: `run` finishes without an interrupt, so its value passes
/// through untouched and the guard tears down cleanly.
#[test]
fn returns_the_run_value_when_uninterrupted() {
    let out = cancel_on_sigint(false, Ok(42u32));
    assert!(matches!(out, Ok(42)));
}

/// A non-interrupt error propagates verbatim — the guard rewrites the
/// outcome only when its flag was actually flipped.
#[test]
fn passes_through_a_non_interrupt_error() {
    let out: Result<(), Error> = cancel_on_sigint(false, Err(Error::other("boom")));
    assert!(matches!(out, Err(Error::Other(msg)) if msg == "boom"));
}

/// Once the cooperative flag is flipped — as the watcher does on Ctrl+C —
/// the outcome is normalized to `Error::Interrupted`, replacing whatever
/// error the aborted operation surfaced when it noticed the flag and
/// unwound.
#[test]
fn maps_a_flipped_flag_to_interrupted() {
    let out: Result<(), Error> =
        cancel_on_sigint(true, Err(Error::Gix("receive: cancelled".to_owned())));
    assert!(matches!(out, Err(Error::Interrupted)));
}

/// The flag is authoritative even if `run` happened to finish `Ok` in the
/// same instant the interrupt landed — mirrors the build path, which treats
/// a set flag as interrupted regardless of makepkg's exit status.
#[test]
fn prefers_interrupted_over_a_racing_ok() {
    let out = cancel_on_sigint(true, Ok(7u32));
    assert!(matches!(out, Err(Error::Interrupted)));
}

#[test]
fn options_default_to_off() {
    let opts = RunOpts::default();
    assert!(!noconfirm(&opts));
    assert!(!noresync(&opts));
    let opts = RunOpts { noconfirm: true, noresync: true };
    assert!(noconfirm(&opts));
    assert!(noresync(&opts));
}

#[test]
fn owns_matches_stem_and_extension() {
    let p = RotationPolicy { dir: StatePath::Logs, ext: "log", keep: 10 };
    assert!(p.owns("aurox-x.log"));
    assert!(!p.owns("aurox-x.json")); // wrong extension
    assert!(!p.owns("other.log")); // missing stem
}

#[test]
fn file_names_carry_the_extension() {
    let p = RotationPolicy { dir: StatePath::Logs, ext: "log", keep: 10 };
    let name = p.file_name("aurox-20260526-120000-42");
    assert_eq!(name, "aurox-20260526-120000-42.log");
    assert_eq!(paths::extension(&name), Some("log"));
}

#[test]
fn the_two_families_differ_in_extension() {
    assert_eq!(logs().ext, "log");
    assert_eq!(traces().ext, "json");
    assert!(logs().owns("aurox-x.log"));
    assert!(!logs().owns("aurox-x.json"));
    assert!(traces().owns("aurox-x.json"));
    assert_eq!(run_basename("20260526-120000", 42), "aurox-20260526-120000-42");
}

fn seen(name: &str, modified: i64) -> Seen {
    Seen { name: Some(name.to_owned()), modified: Some(modified) }
}

#[test]
fn keeps_n_newest_owned_files() {
    let p = RotationPolicy { dir: StatePath::Logs, ext: "log", keep: 10 };
    // Older files come first: the first is the oldest.
    let mut files: Vec<Seen> =
        (0..15).map(|i| seen(&format!("aurox-{i:02}.log"), -60 * (15 - i))).collect();
    // Files of another stem or extension, or without a name or a time, must survive.
    files.push(seen("not-a-log.txt", 0));
    files.push(seen("other-1.log", 0));
    files.push(seen("aurox-99.json", -10_000));
    files.push(Seen { name: None, modified: Some(-10_000) });
    files.push(Seen { name: Some("aurox-98.log".to_owned()), modified: None });
    let mut gone = p.prune(&files);
    gone.sort();
    assert_eq!(gone, [0, 1, 2, 3, 4]);
    assert!(p.prune(&vec![seen("aurox-1.log", 1), seen("aurox-2.log", 2)]).is_empty());
}

#[test]
fn of_two_files_the_older_goes() {
    assert!(prune_keeping_newest(&vec![1, 2], 2).is_empty());
    assert_eq!(prune_keeping_newest(&vec![3, 1], 1), [1]);
}

#[test]
fn parse_filter_falls_back_silently_when_unset() {
    let f = parse_console_filter(FilterVar::Unset);
    assert_eq!(f.directives, "warn");
    assert!(f.diagnostic.is_none(), "unset RUST_LOG must not produce diagnostics");
}

#[test]
fn parse_filter_warns_on_non_utf8() {
    let f = parse_console_filter(FilterVar::NotUnicode);
    assert_eq!(f.directives, "warn");
    let msg = f.diagnostic.unwrap();
    assert!(msg.contains("not valid UTF-8"), "got: {msg}");
}

#[test]
fn parse_filter_warns_on_malformed_directive() {
    let f = parse_console_filter(FilterVar::Given("mycrate=brbug".into()));
    assert_eq!(f.directives, "warn");
    let msg = f.diagnostic.unwrap();
    assert!(msg.contains("malformed RUST_LOG"), "got: {msg}");
    assert!(msg.contains("mycrate=brbug"), "diag should echo the bad value: {msg}");
}

#[test]
fn parse_filter_accepts_valid_directives() {
    let f = parse_console_filter(FilterVar::Given("info,h2=warn".into()));
    assert!(f.diagnostic.is_none(), "valid directives must not produce diagnostics");
    assert_eq!(f.directives, "info,h2=warn");
}

#[test]
fn white_space_before_a_directive_is_no_fault_by_itself() {
    for text in [" info", "\u{a0}info", "info, \u{e9}", "\u{e9}=info", "a=info,\u{e9}=debug"] {
        let f = parse_console_filter(FilterVar::Given(text.into()));
        assert_eq!(f.directives, text);
        assert!(f.diagnostic.is_none());
    }
    for text in [" \u{e9}=info", "info, a\u{e9}=debug", " [\u{e9}]"] {
        let f = parse_console_filter(FilterVar::Given(text.into()));
        assert_eq!(f.directives, "warn");
        let told = f.diagnostic.unwrap();
        assert!(told.contains("(invalid filter directive)"), "got: {told}");
        assert!(told.contains(text));
    }
}

#[test]
fn a_fault_is_told_with_the_value() {
    let f = choose_filter(FilterVar::Given("x".into()), Some("why".into()));
    assert_eq!(f.directives, "warn");
    assert_eq!(
        f.diagnostic.as_deref(),
        Some("gitaur: ignoring malformed RUST_LOG='x' (why); falling back to RUST_LOG=warn")
    );
}

#[test]
fn everything_lies_below_the_state_directory() {
    let dir = paths::state_dir(None, Some("/home/u/.local/state"), "/home/u");
    assert_eq!(dir, "/home/u/.local/state/aurox");
    assert_eq!(paths::state_dir(Some("/tmp/s"), None, "/home/u"), "/tmp/s");
    assert_eq!(paths::state_dir(None, None, "/home/u"), "/home/u/.local/state/aurox");
    assert_eq!(paths::aur_repo_path(&dir), "/home/u/.local/state/aurox/aur");
    assert_eq!(paths::fetch_stamp_path(&dir), "/home/u/.local/state/aurox/last-fetch");
    assert_eq!(paths::index_path(&dir), "/home/u/.local/state/aurox/index.bin");
    assert_eq!(paths::sync_db_path(&dir), "/home/u/.local/state/aurox/syncdb");
    assert_eq!(paths::logs_dir(&dir), "/home/u/.local/state/aurox/logs");
    assert_eq!(paths::traces_dir(&dir), "/home/u/.local/state/aurox/traces");
    assert_eq!(paths::metrics_db_path(&dir), "/home/u/.local/state/aurox/metrics.db");
    assert_eq!(paths::shell_history_path(&dir), "/home/u/.local/state/aurox/shell_history");
    assert_eq!(
        paths::pkg_worktree(&dir, &PkgBase::new("paru")),
        "/home/u/.local/state/aurox/pkgs/paru"
    );
    assert_eq!(paths::config_dir(Some("/c"), "/home/u"), "/c/aurox");
    assert_eq!(paths::config_dir(None, "/home/u"), "/home/u/.config/aurox");
    assert_eq!(paths::config_path("/c/aurox"), "/c/aurox/config.toml");
    assert_eq!(paths::join("/a/", "b"), "/a/b");
    assert_eq!(paths::join("/a", "/b"), "/b");
}

#[test]
fn extensions_follow_the_last_dot() {
    assert_eq!(paths::extension("a.tar.zst"), Some("zst"));
    assert_eq!(paths::extension("a"), None);
    assert_eq!(paths::extension(".hidden"), None);
    assert_eq!(paths::extension("a."), Some(""));
}

#[test]
fn set_and_get_roundtrip() {
    let mut slot = RunOpts::default();
    aurox::runopts::set(&mut slot, RunOpts { noconfirm: true, noresync: true });
    assert!(noconfirm(&get(&slot)));
    assert!(noresync(&get(&slot)));
    aurox::runopts::set(&mut slot, RunOpts::default());
    assert!(!noconfirm(&get(&slot)));
    assert!(!noresync(&get(&slot)));
}

#[test]
fn sizes_add_up() {
    let found = Found::Dir(vec![
        Found::File(10),
        Found::Dir(vec![Found::File(5), Found::Nothing]),
        Found::Nothing,
    ]);
    assert_eq!(path_size(&found), 15);
    let mut places: Vec<Vec<Found>> = all_kinds().iter().map(|_| Vec::new()).collect();
    places[0] = vec![Found::File(7), Found::File(1)];
    places[7] = vec![Found::File(100)];
    assert!(sizes_fit(&places));
    let report = usage("/s", &places);
    assert_eq!(report.root, "/s");
    assert_eq!(report.rows[0].size, ByteSize::new(8));
    assert_eq!(report.total(), ByteSize::new(108));
    assert_eq!(report.prunable_total(), ByteSize::new(8));
    let huge = Found::Dir(vec![Found::File(u64::MAX), Found::File(1)]);
    assert_eq!(checked_size(&huge), None);
    places[1] = vec![Found::File(u64::MAX)];
    assert!(!sizes_fit(&places));
}

#[test]
fn pruning_spares_what_cannot_be_made_again() {
    let steps = prune();
    let doomed: Vec<StatePath> = steps
        .iter()
        .filter_map(|s| match s {
            PruneStep::Remove(place) => Some(*place),
            PruneStep::Create(_) => None,
        })
        .collect();
    assert_eq!(steps.len(), doomed.len() + 1);
    assert_eq!(steps.last(), Some(&PruneStep::Create(StatePath::Pkgs)));
    assert!(doomed.contains(&StatePath::AurRepo));
    assert!(doomed.contains(&StatePath::Index));
    assert!(!doomed.contains(&StatePath::Metrics));
    assert!(!doomed.contains(&StatePath::ShellHistory));
    for kind in all_kinds() {
        assert!(!kind.label().is_empty());
        assert!(!kind.description().is_empty());
        for place in kind.roots() {
            assert_eq!(doomed.contains(&place), kind.prunable(), "{kind:?}");
        }
    }
    assert!(!StateKind::History.prunable());
}

#[test]
fn a_failed_run_of_git_shows_its_complaint() {
    let args = vec!["rev-parse".to_owned(), "nope".to_owned()];
    assert_eq!(
        outcome(&args, false, Vec::new(), &b"fatal: bad\xff revision\n".to_vec()),
        Err(Error::Gix("git rev-parse nope failed: fatal: bad\u{fffd} revision".to_owned()))
    );
    assert_eq!(failure(&args, " why \n"), "git rev-parse nope failed: why");
}

#[test]
fn a_good_run_of_git_hands_its_output_on() {
    let args = vec!["version".to_owned()];
    assert_eq!(
        outcome(&args, true, b"git version 2".to_vec(), &b"noise".to_vec()),
        Ok(b"git version 2".to_vec())
    );
}

#[test]
fn the_graph_takes_tips_or_everything() {
    let (args, input) = write_commit_graph(None);
    assert_eq!(args, ["commit-graph", "write", "--split", "--no-progress", "--reachable"]);
    assert_eq!(input, None);
    let (args, input) = write_commit_graph(Some(&vec!["aa".to_owned(), "bb".to_owned()]));
    assert_eq!(args[4], "--stdin-commits");
    assert_eq!(input.as_deref(), Some("aa\nbb\n"));
    assert_eq!(pack_refs()[0], "pack-refs");
}

#[test]
fn errors_read_as_the_user_sees_them() {
    assert_eq!(Error::other("boom").to_string(), "boom");
    assert_eq!(Error::Io("x".into()).to_string(), "io: x");
    assert_eq!(Error::Alpm("x".into()).to_string(), "alpm: x");
    assert_eq!(Error::Toml("x".into()).to_string(), "toml: x");
    assert_eq!(Error::Rkyv("x".into()).to_string(), "rkyv: x");
    assert_eq!(Error::Resolve("x".into()).to_string(), "resolve: x");
    assert_eq!(Error::Build("x".into()).to_string(), "build: x");
    assert_eq!(Error::SrcInfo("x".into()).to_string(), "srcinfo parse: x");
    assert_eq!(Error::IndexIncompatible("x".into()).to_string(), "index incompatible: x");
    assert_eq!(Error::PacmanExit(-1).to_string(), "pacman exited with status -1");
}
