//! The tables from names to entries.

use aurox::index::lookup::{strip_version_constraint, AurClass, Lookup};
use aurox::index::schema::{IndexEntry, IndexFile, Pkgname};
use aurox::names::{PkgBase, PkgName, PkgTarget};

/// Construct a pkgbase entry whose `provides` live at the pkgbase level
/// (apply to every pkgname implicitly — matches the common AUR shape).
fn mk(pkgbase: &str, names: &[&str], provides: &[&str]) -> IndexEntry {
    IndexEntry {
        pkgbase: pkgbase.into(),
        pkgnames: names
            .iter()
            .map(|s| Pkgname {
                name: (*s).into(),
                provides: Vec::new(),
                pkgdesc: None,
            })
            .collect(),
        provides: provides.iter().map(|s| PkgTarget::new(*s)).collect(),
        pkgver: "1".into(),
        pkgrel: "1".into(),
        ..Default::default()
    }
}

/// Construct a split pkgbase where exactly one pkgname declares the
/// given provides — the bisq shape (`bisq-desktop` provides `bisq`).
fn mk_scoped(
    pkgbase: &str,
    owner: &str,
    owner_provides: &[&str],
    others: &[&str],
) -> IndexEntry {
    let mut pkgnames = vec![Pkgname {
        name: owner.into(),
        provides: owner_provides.iter().map(|s| PkgTarget::new(*s)).collect(),
        pkgdesc: None,
    }];
    for o in others {
        pkgnames.push(Pkgname {
            name: (*o).into(),
            provides: Vec::new(),
            pkgdesc: None,
        });
    }
    IndexEntry {
        pkgbase: pkgbase.into(),
        pkgnames,
        pkgver: "1".into(),
        pkgrel: "1".into(),
        ..Default::default()
    }
}

fn fixture() -> IndexFile {
    IndexFile {
        entries: vec![
            mk("cower", &["cower"], &["cower"]),
            mk(
                "mingw-w64-gcc",
                &["mingw-w64-gcc", "mingw-w64-gcc-libs"],
                &[],
            ),
            mk("paru-bin", &["paru-bin"], &["paru=2.0.0"]),
        ],
        ..IndexFile::empty()
    }
}

#[test]
fn lookup_strip_constraints() {
    assert_eq!(strip_version_constraint("foo>=1.2"), "foo");
    assert_eq!(strip_version_constraint("foo<=2"), "foo");
    assert_eq!(strip_version_constraint("foo=3"), "foo");
    assert_eq!(strip_version_constraint("foo"), "foo");
}

#[test]
fn lookup_split_pkg_maps_all_names() {
    let idx = fixture();
    let s = Lookup::build(&idx);
    assert!(s.by_name.contains_key("mingw-w64-gcc"));
    assert!(s.by_name.contains_key("mingw-w64-gcc-libs"));
    assert_eq!(
        s.by_name.get("mingw-w64-gcc"), s.by_name.get("mingw-w64-gcc-libs"),
        "both pkgnames must point to the same pkgbase entry"
    );
}

#[test]
fn lookup_lookup_falls_back_to_provides() {
    let idx = fixture();
    let s = Lookup::build(&idx);
    let e = s.lookup(&idx, "paru").expect("provides lookup");
    assert_eq!(e.pkgbase.as_str(), "paru-bin");
}

#[test]
fn lookup_lookup_strips_constraint() {
    let idx = fixture();
    let s = Lookup::build(&idx);
    assert_eq!(s.lookup(&idx, "cower>=10").unwrap().pkgbase.as_str(), "cower");
}

#[test]
fn lookup_by_pkgbase_populated_even_when_no_pkgname_matches() {
    // pkgbase `bisq`, pkgname `bisq-desktop` — the real-world case the
    // by_pkgbase fallback was added for.
    let idx = IndexFile {
        entries: vec![mk("bisq", &["bisq-desktop"], &[])],
        ..IndexFile::empty()
    };
    let s = Lookup::build(&idx);
    assert!(
        !s.by_name.contains_key("bisq"),
        "pkgbase must not leak into by_name"
    );
    assert_eq!(s.by_pkgbase.get("bisq").copied(), Some(0));
    assert_eq!(s.by_name.get("bisq-desktop").copied(), Some(0));
}

#[test]
fn lookup_by_pkgbase_covers_all_entries() {
    let idx = fixture();
    let s = Lookup::build(&idx);
    for (i, e) in idx.entries.iter().enumerate() {
        let i = u32::try_from(i).unwrap();
        assert_eq!(s.by_pkgbase.get(e.pkgbase.as_str()).copied(), Some(i));
    }
}

#[test]
fn lookup_provider_of_picks_the_pkgname_that_declares_the_provides() {
    // bisq shape: one of three pkgnames declares `provides = bisq`.
    // The resolver depends on this exact attribution so `-S bisq`
    // rewrites to `bisq-desktop`, not the whole pkgbase.
    let idx = IndexFile {
        entries: vec![mk_scoped(
            "bisq",
            "bisq-desktop",
            &["bisq"],
            &["bisq-cli", "bisq-daemon"],
        )],
        ..IndexFile::empty()
    };
    let s = Lookup::build(&idx);
    let (entry_idx, pkgname) = s.provider_of(&idx, "bisq").expect("provider lookup");
    assert_eq!(entry_idx, 0);
    assert_eq!(pkgname.as_str(), "bisq-desktop");
}

#[test]
fn lookup_provider_of_handles_pkgbase_level_provides_deterministically() {
    // `pkgbase = mypkg`, pkgbase-level `provides = virtual` — every
    // pkgname provides it implicitly, so we return the first pkgname
    // for a stable answer.
    let idx = IndexFile {
        entries: vec![mk("mypkg", &["mypkg", "mypkg-extras"], &["virtual"])],
        ..IndexFile::empty()
    };
    let s = Lookup::build(&idx);
    let (entry_idx, pkgname) = s.provider_of(&idx, "virtual").expect("provider lookup");
    assert_eq!(entry_idx, 0);
    assert_eq!(
        pkgname.as_str(), "mypkg",
        "first pkgname is the canonical provider for pkgbase-level provides",
    );
}

#[test]
fn lookup_provider_of_strips_version_constraint() {
    // `paru-bin` declares `provides = paru=2.0.0`; users may type
    // `paru>=1` and expect the same provider attribution.
    let idx = fixture();
    let s = Lookup::build(&idx);
    let hit = s.provider_of(&idx, "paru>=1").expect("provider lookup");
    assert_eq!(hit.1.as_str(), "paru-bin");
}

#[test]
fn lookup_provider_of_returns_none_when_no_provides_match() {
    let idx = fixture();
    let s = Lookup::build(&idx);
    assert!(s.provider_of(&idx, "nothing-provides-this").is_none());
}

#[test]
fn lookup_search_filters_by_regex() {
    let idx = fixture();
    let s = Lookup::build(&idx);
    let re = regex::Regex::new("ming[wx]").unwrap();
    let hits = s.search(&idx, &vec![re]);
    assert_eq!(hits.len(), 1);
    assert_eq!(hits[0].pkgbase.as_str(), "mingw-w64-gcc");
}

#[test]
fn every_pkgname_of_an_index_is_found_where_it_stands() {
    let idx = fixture();
    let s = Lookup::build(&idx);
    for e in &idx.entries {
        for p in &e.pkgnames {
            let hit = s.lookup_pkgname(&idx, &p.name).unwrap();
            assert_eq!(hit.pkgbase, e.pkgbase);
        }
        let hit = s.lookup_pkgbase(&idx, &e.pkgbase).unwrap();
        assert_eq!(hit.pkgbase, e.pkgbase);
    }
    assert!(s.lookup_pkgname(&idx, &PkgName::new("paru")).is_none());
    assert!(s.lookup_pkgbase(&idx, &PkgBase::new("mingw-w64-gcc-libs")).is_none());
}

#[test]
fn foreign_packages_are_classified() {
    let idx = fixture();
    let s = Lookup::build(&idx);
    assert!(matches!(
        s.classify_foreign(&idx, &PkgName::new("mingw-w64-gcc-libs")),
        AurClass::AsPkgname(e) if e.pkgbase.as_str() == "mingw-w64-gcc"
    ));
    assert!(matches!(
        s.classify_foreign(&idx, &PkgName::new("paru")),
        AurClass::AsProvides(e) if e.pkgbase.as_str() == "paru-bin"
    ));
    assert!(matches!(
        s.classify_foreign(&idx, &PkgName::new("nothing")),
        AurClass::NotInAur
    ));
}

#[test]
fn a_search_wants_every_pattern() {
    let idx = fixture();
    let s = Lookup::build(&idx);
    let one = regex::Regex::new("^mingw").unwrap();
    let two = regex::Regex::new("libs$").unwrap();
    assert_eq!(s.search(&idx, &vec![one.clone(), two]).len(), 1);
    let three = regex::Regex::new("cower").unwrap();
    assert!(s.search(&idx, &vec![one, three]).is_empty());
    assert_eq!(s.search(&idx, &vec![]).len(), 3);
}

#[test]
fn each_provider_is_listed_once() {
    // `virtual` is claimed by the pkgbase, twice, and by a pkgname as well.
    let mut twice = mk_scoped("b", "b1", &["virtual=1"], &["b2"]);
    twice.provides = vec![PkgTarget::new("virtual"), PkgTarget::new("virtual>=2")];
    let idx = IndexFile {
        entries: vec![mk("a", &["a"], &["virtual"]), twice, mk("c", &["c"], &["virtual", "other"])],
        ..IndexFile::empty()
    };
    let s = Lookup::build(&idx);
    let listed = |n: &str| format!("{:?}", s.by_provides.get(n).unwrap());
    assert_eq!(listed("virtual"), "ProviderList { items: [0, 1, 2] }");
    assert_eq!(listed("other"), "ProviderList { items: [2] }");
}

#[test]
fn the_first_provider_is_taken() {
    let idx = IndexFile {
        entries: vec![
            mk("a", &["a"], &["virtual"]),
            mk("b", &["b"], &["virtual"]),
        ],
        ..IndexFile::empty()
    };
    let s = Lookup::build(&idx);
    assert_eq!(s.lookup(&idx, "virtual").unwrap().pkgbase.as_str(), "a");
    assert_eq!(s.provider_of(&idx, "virtual").unwrap().1.as_str(), "a");
}
