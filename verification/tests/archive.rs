//! The index on disk and its updates.

use aurox::error::Error;
use aurox::index::archive::{
    after_load, after_refresh, corrupted, file_header, load_or_resync, open_file, seal, Loading,
    HEADER_LEN,
};
use aurox::index::fresh;
use aurox::index::fresh::full_build;
use aurox::index::schema::{IndexEntry, IndexFile, Pkgname};
use aurox::index::update::{incremental_update, parse_branch, BranchChange};
use aurox::index::AurState;
use aurox::mirror::consent::{RefreshOutcome, SkipCause};
use aurox::units::UnixTime;
use std::cell::Cell;

fn mk(pkgbase: &str) -> IndexEntry {
    IndexEntry {
        pkgbase: pkgbase.into(),
        pkgnames: vec![Pkgname {
            name: pkgbase.into(),
            provides: Vec::new(),
            pkgdesc: None,
        }],
        pkgver: "1.0".into(),
        pkgrel: "1".into(),
        ..Default::default()
    }
}

fn incompatible_reason(bytes: &[u8]) -> String {
    match open_file(bytes).err().expect("the file must not open") {
        Error::IndexIncompatible(reason) => reason,
        other => panic!("expected IndexIncompatible, got: {other:?}"),
    }
}

#[test]
fn headerless_file_reports_a_pre_header_format() {
    assert_eq!(
        incompatible_reason(b"this is not a valid rkyv archive at all"),
        format!("format predates v{}", IndexFile::FORMAT_VERSION),
    );
}

#[test]
fn version_skew_reports_the_format_change_not_corruption() {
    let old = IndexFile::FORMAT_VERSION - 1;
    let mut bytes = file_header(old).to_vec();
    bytes.extend_from_slice(b"payload irrelevant");
    assert_eq!(
        incompatible_reason(&bytes),
        format!("format changed (v{old} \u{2192} v{})", IndexFile::FORMAT_VERSION),
    );
}

#[test]
fn corrupt_payload_reports_corruption_with_a_clean_message() {
    let mut bytes = file_header(IndexFile::FORMAT_VERSION).to_vec();
    bytes.extend_from_slice(b"this is not a valid rkyv archive at all");
    // The header is in order; what follows is handed on to be read.
    assert_eq!(open_file(&bytes).unwrap(), b"this is not a valid rkyv archive at all");
    match corrupted() {
        Error::IndexIncompatible(reason) => {
            assert_eq!(reason, "on-disk archive corrupted");
            assert!(
                !reason.contains("debug assertions") && !reason.contains("rancor"),
                "rancor placeholder leaked: {reason}",
            );
        }
        other => panic!("expected IndexIncompatible, got: {other:?}"),
    }
}

#[test]
fn sealed_archives_open() {
    let archive = b"some archive".to_vec();
    let file = seal(&archive);
    assert_eq!(file.len(), HEADER_LEN + archive.len());
    assert_eq!(open_file(&file).unwrap(), b"some archive");
    assert_eq!(open_file(&seal(&Vec::new())).unwrap(), b"");
}

#[test]
fn a_short_file_predates_the_header() {
    assert!(incompatible_reason(b"").starts_with("format predates"));
    assert!(incompatible_reason(&file_header(6)[..15]).starts_with("format predates"));
}

#[test]
fn only_an_unreadable_file_leads_to_a_resync() {
    match after_load(Err(Error::IndexIncompatible("x".into())), false) {
        Loading::Resync { notice, reason } => {
            assert_eq!(notice, "AUR index x; resyncing database");
            assert_eq!(reason, "x");
        }
        Loading::Done(_) => panic!("no resync"),
    }
    match after_load(Err(Error::IndexIncompatible("x".into())), true) {
        Loading::Done(Err(e)) => assert_eq!(
            e.to_string(),
            "index incompatible: x; --noresync set, run `aurox -Sy` to rebuild"
        ),
        _ => panic!("resync"),
    }
    assert!(matches!(
        after_load(Err(Error::UserAbort), false),
        Loading::Done(Err(Error::UserAbort))
    ));
    assert_eq!(after_refresh("x", Ok(RefreshOutcome::Refreshed)), None);
    assert_eq!(
        after_refresh("x", Ok(RefreshOutcome::AurSkipped(SkipCause::Declined))),
        Some(Error::IndexIncompatible(
            "x; AUR refresh skipped (declined) \u{2014} run `aurox -Sy` to rebuild".into()
        ))
    );
    assert_eq!(after_refresh("x", Err(Error::Interrupted)), Some(Error::Interrupted));
}

#[test]
fn a_resync_loads_once_more() {
    let loads = Cell::new(0);
    let load = || {
        loads.set(loads.get() + 1);
        if loads.get() == 1 {
            Err(Error::IndexIncompatible("old".into()))
        } else {
            Ok(IndexFile::empty())
        }
    };
    let said = std::cell::RefCell::new(String::new());
    let refresh = |text: &str| {
        said.borrow_mut().push_str(text);
        Ok(RefreshOutcome::Refreshed)
    };
    let idx = load_or_resync(false, load, refresh).unwrap();
    assert!(idx.entries.is_empty());
    assert_eq!(loads.get(), 2);
    assert_eq!(said.borrow().as_str(), "AUR index old; resyncing database");
}

#[test]
fn updates_go_by_pkgbase() {
    let (mut idx, skipped) = full_build(
        vec![Ok(mk("c")), Err(Error::SrcInfo("x".into())), Ok(mk("a")), Ok(mk("b"))],
        Some([7u8; 20]),
        42,
    );
    assert_eq!(skipped, 1);
    let names = |idx: &IndexFile| -> Vec<String> {
        idx.entries.iter().map(|e| e.pkgbase.to_string()).collect()
    };
    assert_eq!(names(&idx), ["a", "b", "c"]);
    assert_eq!(idx.mirror_head_oid, [7u8; 20]);
    assert_eq!(idx.built_at_unix, 42);
    assert_eq!(idx.format_version, IndexFile::FORMAT_VERSION);

    let mut newer = mk("c");
    newer.pkgver = "2.0".into();
    let counts = incremental_update(
        vec![
            BranchChange::Deleted("refs/heads/a".into()),
            BranchChange::Updated(newer),
            BranchChange::Unreadable,
            BranchChange::Updated(mk("aa")),
            BranchChange::Deleted("refs/heads/nope".into()),
        ],
        &mut idx,
    );
    assert_eq!(names(&idx), ["aa", "b", "c"]);
    assert_eq!(idx.entries[2].pkgver, "2.0");
    assert_eq!(counts.upserted, 2);
    assert_eq!(counts.deleted, 1);
}

#[test]
fn an_update_leaves_what_a_build_would_make() {
    let (mut idx, _) = full_build(vec![Ok(mk("a")), Ok(mk("b")), Ok(mk("c"))], None, 0);
    assert_eq!(idx.mirror_head_oid, [0u8; 20]);
    incremental_update(
        vec![
            BranchChange::Updated(mk("d")),
            BranchChange::Deleted("refs/heads/b".into()),
            BranchChange::Updated(mk("aa")),
        ],
        &mut idx,
    );
    let (anew, _) = full_build(vec![Ok(mk("d")), Ok(mk("c")), Ok(mk("aa")), Ok(mk("a"))], None, 0);
    let names = |idx: &IndexFile| -> Vec<String> {
        idx.entries.iter().map(|e| e.pkgbase.to_string()).collect()
    };
    assert_eq!(names(&idx), names(&anew));
}

#[test]
fn branches_are_stamped() {
    let text = b"pkgbase = foo\npkgver = 1\npkgrel = 1\npkgname = foo\n";
    let e = parse_branch("foo", Some(text), [1u8; 20], [2u8; 20], 1_700_000_000).unwrap();
    assert_eq!(e.pkgbase.as_str(), "foo");
    assert_eq!(e.commit_oid, [1u8; 20]);
    assert_eq!(e.srcinfo_blob_oid, [2u8; 20]);
    assert_eq!(e.commit_time, UnixTime::new(1_700_000_000));
}

#[test]
fn branches_that_cannot_be_read_say_why() {
    let zero = [0u8; 20];
    assert_eq!(
        parse_branch("foo", None, zero, zero, 0).err().unwrap().to_string(),
        "srcinfo parse: foo: no .SRCINFO"
    );
    let e = parse_branch("foo", Some(b"\xff"), zero, zero, 0).err().unwrap();
    assert!(e.to_string().starts_with("srcinfo parse: foo: utf8: "), "{}", e.to_string());
    assert!(e.to_string().contains("invalid utf-8"), "{}", e.to_string());
    assert!(parse_branch("foo", Some(b"pkgver = 1\n"), zero, zero, 0).is_err());
    assert_eq!(
        fresh::parse_branch("foo", None, zero, zero, 0).err().unwrap().to_string(),
        "srcinfo parse: no .SRCINFO on foo"
    );
    let e = fresh::parse_branch("foo", Some(b"\xff"), zero, zero, 0).err().unwrap();
    assert!(e.to_string().starts_with("srcinfo parse: foo: invalid utf8: "), "{}", e.to_string());
    let text = b"pkgbase = foo\npkgver = 1\npkgrel = 1\npkgname = foo\n";
    let e = fresh::parse_branch("foo", Some(text), [3u8; 20], zero, 5).unwrap();
    assert_eq!(e.commit_oid, [3u8; 20]);
    assert_eq!(e.commit_time, UnixTime::new(5));
}

#[test]
fn the_aur_is_probed() {
    assert_eq!(AurState::probe(false, true), AurState::Disabled);
    assert_eq!(AurState::probe(true, false), AurState::NotSetUp);
    assert_eq!(AurState::probe(true, true), AurState::Ready);
}
