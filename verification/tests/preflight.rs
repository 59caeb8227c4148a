//! What a transaction would be refused for.

use aurox::error::Error;
use aurox::names::{Arch, PkgName, PkgTarget};
use aurox::pacman::alpm_db::PacmanIndex;
use aurox::pacman::preflight::{
    log_issues, name_version, name_versions, removal_issues, stage, staged, staging_error, Group,
    Issue, RemoveRequest, StageResult, Staged, TransFlag,
};
use aurox::version::Version;

fn breaks(causing_ver: Option<&str>) -> Issue {
    Issue::UnsatisfiedDep {
        target: PkgName::new("ioquake3-git"),
        depend: PkgTarget::new("libjpeg"),
        causing: Some(PkgName::new("libjpeg-turbo")),
        causing_ver: causing_ver.map(Version::new),
    }
}

/// The headline case renders exactly like pacman's own error, so the early
/// warning is recognizable as "the thing pacman would have said".
#[test]
fn breaks_dependency_phrasing_matches_pacman() {
    assert_eq!(
        breaks(Some("3.2.0-2")).to_string(),
        "installing libjpeg-turbo (3.2.0-2) breaks dependency 'libjpeg' \
         required by ioquake3-git"
    );
    assert_eq!(
        breaks(None).to_string(),
        "installing libjpeg-turbo breaks dependency 'libjpeg' required by ioquake3-git"
    );
}

#[test]
fn unsatisfied_without_causing_pkg() {
    let i = Issue::UnsatisfiedDep {
        target: PkgName::new("foo"),
        depend: PkgTarget::new("libbar>=2"),
        causing: None,
        causing_ver: None,
    };
    assert_eq!(
        i.to_string(),
        "unable to satisfy dependency 'libbar>=2' required by foo"
    );
}

/// The reason is shown only when it names a third party (a virtual /
/// provides), matching pacman's conflict message shapes. A versioned
/// `conflicts=foo>=2` spec still counts as restating the pair.
#[test]
fn conflict_reason_shown_only_when_it_adds_information() {
    let conflict = |reason: &str| Issue::Conflict {
        pkg1: PkgName::new("foo"),
        pkg2: PkgName::new("bar"),
        reason: PkgTarget::new(reason),
    };
    assert_eq!(conflict("bar").to_string(), "foo and bar are in conflict");
    assert_eq!(
        conflict("bar>=2").to_string(),
        "foo and bar are in conflict"
    );
    assert_eq!(
        conflict("libbaz").to_string(),
        "foo and bar are in conflict (libbaz)"
    );
}

#[test]
fn invalid_arch_with_and_without_arch() {
    let with = Issue::InvalidArch {
        pkg: PkgName::new("foo"),
        arch: Some(Arch::new("armv7h")),
    };
    assert_eq!(
        with.to_string(),
        "package foo does not have a valid architecture (armv7h)"
    );
    let without = Issue::InvalidArch {
        pkg: PkgName::new("foo"),
        arch: None,
    };
    assert_eq!(
        without.to_string(),
        "package foo does not have a valid architecture"
    );
}

/// The unstructured fallback carries libalpm's message verbatim — no
/// rephrasing that could hide what alpm actually said.
#[test]
fn other_passes_the_message_through() {
    let other = Issue::Other {
        message: "transaction not prepared".to_owned(),
    };
    assert_eq!(other.to_string(), "transaction not prepared");
}

/// The removal twin renders with pacman's remove-mode verb (and, unlike
/// the install shape, no version — pacman's message carries none).
#[test]
fn removal_breaks_phrasing_matches_pacman() {
    let i = Issue::RemovalBreaks {
        removed: PkgName::new("python-pathvalidate"),
        depend: PkgTarget::new("python-pathvalidate>=3.0.0"),
        target: PkgName::new("electron-cash"),
    };
    assert_eq!(
        i.to_string(),
        "removing python-pathvalidate breaks dependency \
         'python-pathvalidate>=3.0.0' required by electron-cash"
    );
}

/// Not-found keeps the target verbatim — pacman echoes `core/bash` back
/// with the prefix, so the preflight must too.
#[test]
fn target_not_found_phrasing_matches_pacman() {
    let i = Issue::TargetNotFound {
        target: PkgTarget::new("core/bash"),
    };
    assert_eq!(i.to_string(), "target not found: core/bash");
}

fn argv(parts: &[&str]) -> Vec<String> {
    parts.iter().map(|s| (*s).to_owned()).collect()
}

fn req(parts: &[&str]) -> Option<RemoveRequest> {
    RemoveRequest::from_argv(&argv(parts))
}

#[test]
fn remove_request_parses_bare_remove() {
    let r = req(&["-R", "foo", "bar"]).expect("plain -R parses");
    assert_eq!(
        r.targets,
        vec![PkgTarget::new("foo"), PkgTarget::new("bar")]
    );
    assert_eq!(r.flags, TransFlag::none());
}

/// Every modeled modifier, in the clustered spelling users actually type.
#[test]
fn remove_request_maps_cluster_modifiers() {
    assert_eq!(
        req(&["-Rns", "foo"]).unwrap().flags,
        TransFlag { no_save: true, recurse: true, ..TransFlag::none() }
    );
    assert_eq!(req(&["-Rc", "foo"]).unwrap().flags, TransFlag { cascade: true, ..TransFlag::none() });
    assert_eq!(req(&["-Ru", "foo"]).unwrap().flags, TransFlag { unneeded: true, ..TransFlag::none() });
    // Repetition escalates the way pacman's own parser does.
    assert_eq!(
        req(&["-Rss", "foo"]).unwrap().flags,
        TransFlag { recurse: true, recurse_all: true, ..TransFlag::none() }
    );
    assert_eq!(
        req(&["-Rd", "foo"]).unwrap().flags,
        TransFlag { no_dep_version: true, ..TransFlag::none() }
    );
    assert_eq!(
        req(&["-Rdd", "foo"]).unwrap().flags,
        TransFlag { no_dep_version: true, no_deps: true, ..TransFlag::none() }
    );
}

/// Long spellings and split clusters accumulate like pacman's getopt —
/// `-R -s --recursive` counts two recursions.
#[test]
fn remove_request_merges_long_and_split_flags() {
    let r = req(&["-R", "--nosave", "-s", "--recursive", "foo"]).unwrap();
    assert_eq!(
        r.flags,
        TransFlag { no_save: true, recurse: true, recurse_all: true, ..TransFlag::none() }
    );
    // Flags that don't change what prepare would refuse parse but map to
    // nothing.
    assert_eq!(
        req(&["-R", "--noconfirm", "foo"]).unwrap().flags,
        TransFlag::none()
    );
}

/// `--` ends option parsing; `--color`'s value must not be read as a
/// target in either spelling.
#[test]
fn remove_request_handles_terminator_and_color_values() {
    assert_eq!(
        req(&["-R", "--", "--weird-name"]).unwrap().targets,
        vec![PkgTarget::new("--weird-name")]
    );
    assert_eq!(
        req(&["-R", "--color", "never", "foo"]).unwrap().targets,
        vec![PkgTarget::new("foo")]
    );
    assert_eq!(
        req(&["-R", "--color=never", "foo"]).unwrap().targets,
        vec![PkgTarget::new("foo")]
    );
}

/// Anything the simulation can't faithfully model refuses to parse:
/// non-remove ops, no targets, db-redirecting or unknown flags. A wrong
/// refusal is worse than no preflight.
#[test]
fn remove_request_stands_aside_when_not_modelable() {
    assert!(req(&["-Syu"]).is_none());
    assert!(req(&["-R"]).is_none());
    assert!(req(&["-Rx", "foo"]).is_none());
    assert!(req(&["-R", "--root", "/mnt", "foo"]).is_none());
    assert!(req(&["-R", "--dbpath", "/tmp/db", "foo"]).is_none());
    assert!(req(&["-R", "--assume-installed", "x", "foo"]).is_none());
    assert!(req(&["-Rp", "foo"]).is_none());
}

#[test]
fn the_other_long_flags_are_read() {
    let r = req(&["--remove", "--dbonly", "--noscriptlet", "--cascade", "--unneeded", "--nodeps", "foo"])
        .unwrap();
    assert_eq!(
        r.flags,
        TransFlag {
            db_only: true,
            no_scriptlet: true,
            cascade: true,
            unneeded: true,
            no_dep_version: true,
            ..TransFlag::none()
        }
    );
}

#[test]
fn targets_are_staged_as_packages_before_groups() {
    let installed = vec![PkgName::new("bash"), PkgName::new("gnome")];
    let groups = vec![
        Group { name: "gnome".to_owned(), members: vec![PkgName::new("gdm")] },
        Group { name: "kde".to_owned(), members: vec![PkgName::new("kwin"), PkgName::new("sddm")] },
    ];
    match stage(&PkgTarget::new("local/bash"), &installed, &groups) {
        Staged::Remove(names) => assert_eq!(names, vec![PkgName::new("bash")]),
        Staged::Missing(_) => panic!("bash is installed"),
    }
    match stage(&PkgTarget::new("gnome"), &installed, &groups) {
        Staged::Remove(names) => assert_eq!(names, vec![PkgName::new("gnome")]),
        Staged::Missing(_) => panic!("gnome is installed"),
    }
    match stage(&PkgTarget::new("kde"), &installed, &groups) {
        Staged::Remove(names) => assert_eq!(names, vec![PkgName::new("kwin"), PkgName::new("sddm")]),
        Staged::Missing(_) => panic!("kde is a group"),
    }
    match stage(&PkgTarget::new("core/bash"), &installed, &groups) {
        Staged::Remove(_) => panic!("no such package"),
        Staged::Missing(i) => assert_eq!(i.to_string(), "target not found: core/bash"),
    }
}

#[test]
fn removals_are_said_to_break_dependencies() {
    let issues = removal_issues(vec![
        breaks(None),
        Issue::Other { message: "x".to_owned() },
        Issue::UnsatisfiedDep {
            target: PkgName::new("a"),
            depend: PkgTarget::new("b"),
            causing: None,
            causing_ver: None,
        },
    ]);
    assert_eq!(
        issues[0].to_string(),
        "removing libjpeg-turbo breaks dependency 'libjpeg' required by ioquake3-git"
    );
    assert_eq!(issues[1].to_string(), "x");
    assert_eq!(issues[2].to_string(), "unable to satisfy dependency 'b' required by a");
}

#[test]
fn the_version_comes_from_the_sync_databases() {
    let mut pac = PacmanIndex::default();
    assert_eq!(name_version(breaks(None), &pac), breaks(None));
    pac.sync_versions.insert("libjpeg-turbo".into(), Version::new("3.2.0-2"));
    assert_eq!(name_version(breaks(None), &pac), breaks(Some("3.2.0-2")));
    assert_eq!(name_version(breaks(Some("1")), &pac), breaks(Some("1")));
}

#[test]
fn missing_targets_stand_alone() {
    let targets = vec![PkgTarget::new("a"), PkgTarget::new("b"), PkgTarget::new("c")];
    let all_there = staged(&targets, &vec![StageResult::Done, StageResult::Done, StageResult::Done]);
    assert!(all_there.unwrap().is_empty());
    let missing =
        staged(&targets, &vec![StageResult::Missing, StageResult::Done, StageResult::Missing]).unwrap();
    let said: Vec<String> = missing.iter().map(|i| i.to_string()).collect();
    assert_eq!(said, ["target not found: a", "target not found: c"]);
    // What cannot be staged outweighs what is missing.
    let refused = staged(&targets, &vec![StageResult::Missing, StageResult::Refused("twice".into())]);
    assert_eq!(refused, Err(Error::other("alpm trans_remove_pkg b: twice")));
}

#[test]
fn every_problem_of_an_upgrade_gets_its_version() {
    let mut pac = PacmanIndex::default();
    pac.sync_versions.insert("libjpeg-turbo".into(), Version::new("3.2.0-2"));
    let named = name_versions(vec![breaks(None), Issue::Other { message: "x".into() }], &pac);
    assert_eq!(named, vec![breaks(Some("3.2.0-2")), Issue::Other { message: "x".into() }]);
}

#[test]
fn staging_errors_name_the_target() {
    assert_eq!(
        staging_error(&PkgTarget::new("foo"), "not found"),
        Error::Other("alpm trans_remove_pkg foo: not found".to_owned())
    );
}

#[test]
fn every_issue_is_logged() {
    let records = log_issues(&vec![
        breaks(Some("3.2.0-2")),
        Issue::TargetNotFound { target: PkgTarget::new("x") },
    ]);
    assert_eq!(records.len(), 2);
    assert!(records[0].fields.iter().any(|(k, v)| *k == "target" && v == "ioquake3-git"));
    assert!(records[1].fields.iter().any(|(k, v)| *k == "target" && v == "x"));
}
