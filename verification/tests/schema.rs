//! What an index entry says of itself.

use aurox::index::schema::{IndexEntry, IndexFile, Pkgname};
use aurox::names::PkgTarget;

fn pkg(name: &str, desc: Option<&str>) -> Pkgname {
    Pkgname {
        name: name.into(),
        provides: Vec::new(),
        pkgdesc: desc.map(str::to_owned),
    }
}

#[test]
fn version_with_epoch() {
    let e = IndexEntry {
        pkgver: "1.0".into(),
        pkgrel: "2".into(),
        epoch: Some("3".into()),
        ..Default::default()
    };
    assert_eq!(e.version().as_str(), "3:1.0-2");
}

#[test]
fn version_without_epoch() {
    let e = IndexEntry {
        pkgver: "1.0".into(),
        pkgrel: "2".into(),
        ..Default::default()
    };
    assert_eq!(e.version().as_str(), "1.0-2");
}

#[test]
fn version_treats_empty_epoch_as_none() {
    let e = IndexEntry {
        pkgver: "1.0".into(),
        pkgrel: "2".into(),
        epoch: Some(String::new()),
        ..Default::default()
    };
    assert_eq!(e.version().as_str(), "1.0-2");
}

#[test]
fn display_desc_prefers_pkgbase_level() {
    let e = IndexEntry {
        pkgbase: "foo".into(),
        pkgdesc: Some("base desc".into()),
        pkgnames: vec![pkg("foo", Some("member desc"))],
        ..Default::default()
    };
    assert_eq!(e.display_desc(), Some("base desc"));
}

#[test]
fn display_desc_falls_back_to_canonical_pkgname() {
    let e = IndexEntry {
        pkgbase: "systemd-selinux".into(),
        pkgdesc: None,
        pkgnames: vec![
            pkg("systemd-libs-selinux", Some("client libraries")),
            pkg("systemd-selinux", Some("service manager")),
        ],
        ..Default::default()
    };
    assert_eq!(e.display_desc(), Some("service manager"));
}

#[test]
fn display_desc_falls_back_to_first_member_when_no_canonical_match() {
    let e = IndexEntry {
        pkgbase: "foo".into(),
        pkgdesc: None,
        pkgnames: vec![pkg("foo-bin", None), pkg("foo-extras", Some("extras"))],
        ..Default::default()
    };
    assert_eq!(e.display_desc(), Some("extras"));
}

#[test]
fn display_desc_skips_empty_strings() {
    let e = IndexEntry {
        pkgbase: "foo".into(),
        pkgdesc: Some(String::new()),
        pkgnames: vec![pkg("foo", Some("real desc"))],
        ..Default::default()
    };
    assert_eq!(e.display_desc(), Some("real desc"));
}

#[test]
fn display_desc_none_when_nothing_anywhere() {
    let e = IndexEntry {
        pkgbase: "foo".into(),
        pkgdesc: None,
        pkgnames: vec![pkg("foo", None)],
        ..Default::default()
    };
    assert_eq!(e.display_desc(), None);
}

#[test]
fn all_provides_lists_the_pkgbase_first() {
    let mut member = pkg("foo", None);
    member.provides = vec![PkgTarget::new("b"), PkgTarget::new("c=1")];
    let e = IndexEntry {
        pkgbase: "foo".into(),
        provides: vec![PkgTarget::new("a")],
        pkgnames: vec![pkg("bar", None), member],
        ..Default::default()
    };
    let all: Vec<&str> = e.all_provides().iter().map(|t| t.as_str()).collect();
    assert_eq!(all, ["a", "b", "c=1"]);
}

#[test]
fn an_empty_index_has_the_format_of_this_build() {
    let idx = IndexFile::empty();
    assert_eq!(idx.format_version, IndexFile::FORMAT_VERSION);
    assert_eq!(IndexFile::FORMAT_VERSION, 6);
    assert_eq!(idx.mirror_head_oid, [0u8; 20]);
    assert_eq!(idx.built_at_unix, 0);
    assert!(idx.entries.is_empty());
}

#[test]
fn a_cloned_entry_says_the_same() {
    let e = IndexEntry {
        pkgbase: "foo".into(),
        pkgdesc: Some("text".into()),
        pkgnames: vec![pkg("foo", Some("member"))],
        depends: vec![PkgTarget::new("glibc")],
        ..Default::default()
    };
    let c = e.clone();
    assert_eq!(c.pkgbase, e.pkgbase);
    assert_eq!(c.pkgnames, e.pkgnames);
    assert_eq!(c.pkgdesc, e.pkgdesc);
    assert_eq!(c.depends, e.depends);
}
