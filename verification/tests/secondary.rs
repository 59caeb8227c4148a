//! The tables behind `-Si` and `-Ss`.

use aurox::index::lookup::strip_version_constraint;
use aurox::index::schema::{IndexEntry, IndexFile, Pkgname};
use aurox::index::secondary::Secondary;

/// Construct a pkgbase entry whose `provides` live at the pkgbase level
/// (apply to every pkgname implicitly — matches the common AUR shape).
fn mk(pkgbase: &str, names: &[&str], provides: &[&str]) -> IndexEntry {
    IndexEntry {
        pkgbase: pkgbase.into(),
        pkgnames: names
            .iter()
            .map(|s| Pkgname {
                name: (*s).into(),
                provides: Vec::new(),
                pkgdesc: None,
            })
            .collect(),
        provides: provides.iter().map(|s| (*s).into()).collect(),
        pkgver: "1".into(),
        pkgrel: "1".into(),
        ..Default::default()
    }
}

/// Construct a split pkgbase where exactly one pkgname declares the
/// given provides — the bisq shape (`bisq-desktop` provides `bisq`).
fn mk_scoped(pkgbase: &str, owner: &str, owner_provides: &[&str], others: &[&str]) -> IndexEntry {
    let mut pkgnames = vec![Pkgname {
        name: owner.into(),
        provides: owner_provides.iter().map(|s| (*s).into()).collect(),
        pkgdesc: None,
    }];
    for o in others {
        pkgnames.push(Pkgname {
            name: (*o).into(),
            provides: Vec::new(),
            pkgdesc: None,
        });
    }
    IndexEntry {
        pkgbase: pkgbase.into(),
        pkgnames,
        pkgver: "1".into(),
        pkgrel: "1".into(),
        ..Default::default()
    }
}

fn fixture() -> IndexFile {
    IndexFile {
        entries: vec![
            mk("cower", &["cower"], &["cower"]),
            mk(
                "mingw-w64-gcc",
                &["mingw-w64-gcc", "mingw-w64-gcc-libs"],
                &[],
            ),
            mk("paru-bin", &["paru-bin"], &["paru=2.0.0"]),
        ],
        ..IndexFile::empty()
    }
}

#[test]
fn secondary_strip_constraints() {
    assert_eq!(strip_version_constraint("foo>=1.2"), "foo");
    assert_eq!(strip_version_constraint("foo<=2"), "foo");
    assert_eq!(strip_version_constraint("foo=3"), "foo");
    assert_eq!(strip_version_constraint("foo"), "foo");
}

#[test]
fn secondary_split_pkg_maps_all_names() {
    let idx = fixture();
    let s = Secondary::build(&idx);
    assert!(s.tables.by_name.contains_key("mingw-w64-gcc"));
    assert!(s.tables.by_name.contains_key("mingw-w64-gcc-libs"));
    assert_eq!(
        s.tables.by_name.get("mingw-w64-gcc"), s.tables.by_name.get("mingw-w64-gcc-libs"),
        "both pkgnames must point to the same pkgbase entry"
    );
}

#[test]
fn secondary_lookup_falls_back_to_provides() {
    let idx = fixture();
    let s = Secondary::build(&idx);
    let e = s.lookup(&idx, "paru").expect("provides lookup");
    assert_eq!(e.pkgbase.as_str(), "paru-bin");
}

#[test]
fn secondary_lookup_strips_constraint() {
    let idx = fixture();
    let s = Secondary::build(&idx);
    assert_eq!(s.lookup(&idx, "cower>=10").unwrap().pkgbase.as_str(), "cower");
}

#[test]
fn secondary_by_pkgbase_populated_even_when_no_pkgname_matches() {
    // pkgbase `bisq`, pkgname `bisq-desktop` — the real-world case the
    // by_pkgbase fallback was added for.
    let idx = IndexFile {
        entries: vec![mk("bisq", &["bisq-desktop"], &[])],
        ..IndexFile::empty()
    };
    let s = Secondary::build(&idx);
    assert!(
        !s.tables.by_name.contains_key("bisq"),
        "pkgbase must not leak into by_name"
    );
    assert_eq!(s.tables.by_pkgbase.get("bisq").copied(), Some(0));
    assert_eq!(s.tables.by_name.get("bisq-desktop").copied(), Some(0));
}

#[test]
fn secondary_by_pkgbase_covers_all_entries() {
    let idx = fixture();
    let s = Secondary::build(&idx);
    for (i, e) in idx.entries.iter().enumerate() {
        let i = u32::try_from(i).unwrap();
        assert_eq!(s.tables.by_pkgbase.get(e.pkgbase.as_str()).copied(), Some(i));
    }
}

#[test]
fn secondary_provider_of_picks_the_pkgname_that_declares_the_provides() {
    // bisq shape: one of three pkgnames declares `provides = bisq`.
    // The resolver depends on this exact attribution so `-S bisq`
    // rewrites to `bisq-desktop`, not the whole pkgbase.
    let idx = IndexFile {
        entries: vec![mk_scoped(
            "bisq",
            "bisq-desktop",
            &["bisq"],
            &["bisq-cli", "bisq-daemon"],
        )],
        ..IndexFile::empty()
    };
    let s = Secondary::build(&idx);
    let (entry_idx, pkgname) = s.provider_of(&idx, "bisq").expect("provider lookup");
    assert_eq!(entry_idx, 0);
    assert_eq!(pkgname, "bisq-desktop");
}

#[test]
fn secondary_provider_of_handles_pkgbase_level_provides_deterministically() {
    // `pkgbase = mypkg`, pkgbase-level `provides = virtual` — every
    // pkgname provides it implicitly, so we return the first pkgname
    // for a stable answer.
    let idx = IndexFile {
        entries: vec![mk("mypkg", &["mypkg", "mypkg-extras"], &["virtual"])],
        ..IndexFile::empty()
    };
    let s = Secondary::build(&idx);
    assert_eq!(
        s.provider_of(&idx, "virtual"),
        Some((0, "mypkg")),
        "first pkgname is the canonical provider for pkgbase-level provides",
    );
}

#[test]
fn secondary_provider_of_strips_version_constraint() {
    // `paru-bin` declares `provides = paru=2.0.0`; users may type
    // `paru>=1` and expect the same provider attribution.
    let idx = fixture();
    let s = Secondary::build(&idx);
    let hit = s.provider_of(&idx, "paru>=1").expect("provider lookup");
    assert_eq!(hit.1, "paru-bin");
}

#[test]
fn secondary_provider_of_returns_none_when_no_provides_match() {
    let idx = fixture();
    let s = Secondary::build(&idx);
    assert!(s.provider_of(&idx, "nothing-provides-this").is_none());
}

#[test]
fn secondary_search_filters_by_regex() {
    let idx = fixture();
    let s = Secondary::build(&idx);
    let re = regex::Regex::new("mingw").unwrap();
    let hits = s.search(&idx, &vec![re]);
    assert_eq!(hits.len(), 1);
    assert_eq!(hits[0].pkgbase.as_str(), "mingw-w64-gcc");
}

#[test]
fn member_descriptions_are_not_searched() {
    let mut e = mk("foo", &["foo"], &[]);
    e.pkgnames[0].pkgdesc = Some("a frobnicator".to_owned());
    let idx = IndexFile { entries: vec![e], ..IndexFile::empty() };
    let s = Secondary::build(&idx);
    let re = regex::Regex::new("frobnicator").unwrap();
    assert!(s.search(&idx, &vec![re]).is_empty());
    let re = regex::Regex::new("foo").unwrap();
    assert_eq!(s.search(&idx, &vec![re]).len(), 1);
}
