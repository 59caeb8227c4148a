//! How pacman is called.

use aurox::error::Error;
use aurox::names::{PkgName, RepoName};
use aurox::pacman::alpm_db::PkgRecord;
use aurox::pacman::invoke::{
    clean_pacman_capture, dash_u_paths, escalation_answer, escalation_notice, has_flag,
    keep_capture, needs_sudo, pacman_result, query_repo_upgrades_in, spawn_plan,
    status_to_exit_code, tee_pipe, with_pacman, SyncDb, REPO_AUR,
};
use aurox::version::Version;

#[test]
fn sudo_for_mutating_ops() {
    assert!(needs_sudo(&vec!["-Syu".into()]));
    assert!(needs_sudo(&vec!["-Rns".into(), "foo".into()]));
    assert!(needs_sudo(&vec!["-U".into(), "x.pkg.tar.zst".into()]));
}

#[test]
fn no_sudo_for_queries() {
    assert!(!needs_sudo(&vec!["-Qi".into(), "vim".into()]));
    assert!(!needs_sudo(&vec!["-Ss".into(), "vim".into()]));
}

#[test]
fn print_flag_disables_sudo() {
    assert!(!needs_sudo(&vec!["-Syu".into(), "--print".into()]));
    assert!(!needs_sudo(&vec!["-Syu".into(), "-p".into()]));
}

#[test]
fn exit_code_zero_propagates() {
    assert_eq!(status_to_exit_code(Some(0), None), 0);
}

#[test]
fn exit_code_nonzero_propagates() {
    assert_eq!(status_to_exit_code(Some(1), None), 1);
}

#[test]
fn sigkill_maps_to_137() {
    assert_eq!(status_to_exit_code(None, Some(9)), 137);
}

#[test]
fn sigterm_maps_to_143() {
    assert_eq!(status_to_exit_code(None, Some(15)), 143);
}

#[test]
fn tee_pipe_forwards_and_captures() {
    let input = b"error: target not found\nerror: dep 'foo' was not found\n";
    let mut sink = Vec::new();
    let captured = tee_pipe(&vec![input.to_vec()], &mut sink);
    assert_eq!(sink, input);
    assert_eq!(captured, std::str::from_utf8(input).unwrap());
}

#[test]
fn tee_pipe_handles_empty_stream() {
    let mut sink = Vec::new();
    let captured = tee_pipe(&vec![], &mut sink);
    assert!(sink.is_empty());
    assert!(captured.is_empty());
}

#[test]
fn dash_u_paths_extracts_files_only() {
    let argv: Vec<String> = [
        "-U",
        "--needed",
        "--noconfirm",
        "/p/a.pkg.tar.zst",
        "/p/b.pkg.tar.zst",
    ]
    .iter()
    .map(|s| (*s).to_owned())
    .collect();
    let paths = dash_u_paths(&argv).expect("argv has -U");
    assert_eq!(paths, vec!["/p/a.pkg.tar.zst", "/p/b.pkg.tar.zst"]);
}

#[test]
fn dash_u_paths_returns_none_without_dash_u() {
    let argv: Vec<String> = ["-Syu", "--noconfirm"]
        .iter()
        .map(|s| (*s).to_owned())
        .collect();
    assert!(dash_u_paths(&argv).is_none());
}

#[test]
fn dash_u_paths_empty_when_no_files() {
    let argv: Vec<String> = ["-U", "--needed"].iter().map(|s| (*s).to_owned()).collect();
    let paths = dash_u_paths(&argv).expect("argv has -U");
    assert!(paths.is_empty());
}

#[test]
fn clean_capture_strips_ansi_and_trims_newlines() {
    // pacman colors errors red; the SGR sequences must not leak into the log.
    let stdout = "loading packages...\nresolving dependencies...\n";
    let stderr = "\x1b[1;31merror: \x1b[0munresolvable package conflicts detected\n";
    let cleaned = clean_pacman_capture(stdout, stderr).expect("non-empty input");
    assert_eq!(
        cleaned.stdout,
        "loading packages...\nresolving dependencies..."
    );
    assert_eq!(
        cleaned.stderr,
        "error: unresolvable package conflicts detected"
    );
    assert!(
        !cleaned.stderr.contains('\x1b'),
        "raw escape leaked: {:?}",
        cleaned.stderr,
    );
}

#[test]
fn clean_capture_returns_none_when_both_empty() {
    assert!(clean_pacman_capture("", "").is_none());
    // Newline-only is still empty after trim — don't emit a noise event.
    assert!(clean_pacman_capture("\n", "\n\n").is_none());
}

#[test]
fn clean_capture_keeps_one_channel_when_other_empty() {
    let cleaned = clean_pacman_capture("", "error: something\n").expect("non-empty stderr");
    assert!(cleaned.stdout.is_empty());
    assert_eq!(cleaned.stderr, "error: something");
}

#[test]
fn tee_pipe_handles_non_utf8_bytes() {
    let input = b"warning: \xff\xfe bad bytes\n";
    let mut sink = Vec::new();
    let captured = tee_pipe(&vec![input.to_vec()], &mut sink);
    assert_eq!(sink, input);
    assert!(captured.contains("warning:"));
    assert!(captured.contains("bad bytes"));
}

fn args(parts: &[&str]) -> Vec<String> {
    parts.iter().map(|s| (*s).to_owned()).collect()
}

fn record(name: &str, version: &str) -> PkgRecord {
    PkgRecord {
        name: PkgName::new(name),
        version: Version::new(version),
        provides: Vec::new(),
        depends: Vec::new(),
    }
}

#[test]
fn printing_never_needs_root() {
    assert!(!needs_sudo(&args(&["-R", "--print", "foo"])));
    assert!(needs_sudo(&args(&["-D", "--asdeps", "foo"])));
    assert!(!needs_sudo(&args(&[])));
}

#[test]
fn pacman_goes_through_the_escalator_where_it_must() {
    let plan = spawn_plan("doas", &args(&["-Syu"]));
    assert_eq!(plan.program, "doas");
    assert_eq!(plan.args, ["pacman", "-Syu"]);
    assert!(plan.escalate);
    let plan = spawn_plan("doas", &args(&["-Qi", "vim"]));
    assert_eq!(plan.program, "pacman");
    assert_eq!(plan.args, ["-Qi", "vim"]);
    assert!(!plan.escalate);
    assert_eq!(with_pacman(&args(&["-U"])), ["pacman", "-U"]);
    assert_eq!(
        escalation_notice("sudo", &args(&["pacman", "-Syu"])),
        "about to elevate via sudo:\n   sudo pacman -Syu"
    );
    assert!(escalation_answer(true).is_ok());
    assert_eq!(escalation_answer(false), Err(Error::UserAbort));
}

#[test]
fn only_code_zero_is_success() {
    assert_eq!(pacman_result(Some(0), None), Ok(0));
    assert_eq!(pacman_result(Some(3), None), Err(Error::PacmanExit(3)));
    assert_eq!(pacman_result(None, Some(15)), Err(Error::PacmanExit(143)));
    assert_eq!(pacman_result(None, None), Err(Error::PacmanExit(128)));
}

#[test]
fn the_first_database_decides_about_an_upgrade() {
    let local = vec![record("a", "1"), record("b", "2"), record("c", "1"), record("d", "1")];
    let dbs = vec![
        SyncDb { name: RepoName::new("core"), pkgs: vec![record("a", "2"), record("b", "2")] },
        SyncDb { name: RepoName::new("extra"), pkgs: vec![record("b", "9"), record("c", "3")] },
    ];
    let ups = query_repo_upgrades_in(&local, &dbs, |old: &Version, new: &Version| {
        old.as_str() < new.as_str()
    });
    let shown: Vec<String> = ups
        .iter()
        .map(|u| {
            format!(
                "{}/{} {} {}",
                u.repo.as_str(),
                u.name.as_str(),
                u.old_ver.as_str(),
                u.new_ver.as_str()
            )
        })
        .collect();
    assert_eq!(shown, ["core/a 1 2", "extra/c 1 3"]);
    assert_eq!(REPO_AUR, "aur");
}

#[test]
fn flags_are_whole_words() {
    assert!(has_flag(&args(&["-S", "--needed"]), "--needed"));
    assert!(!has_flag(&args(&["-S", "--needed=x"]), "--needed"));
}

#[test]
fn a_capture_with_text_is_kept() {
    assert!(keep_capture(String::new(), String::new()).is_none());
    let c = keep_capture("x".to_owned(), String::new()).unwrap();
    assert_eq!((c.stdout.as_str(), c.stderr.as_str()), ("x", ""));
}

#[test]
fn bytes_that_are_no_text_are_replaced() {
    let mut sink = Vec::new();
    let text = tee_pipe(&vec![b"a\xff".to_vec(), b"b".to_vec()], &mut sink);
    assert_eq!(sink, b"a\xffb");
    assert_eq!(text, "a\u{fffd}b");
}
