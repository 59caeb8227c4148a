//! Where a name comes from.

use aurox::index::lookup::Lookup;
use aurox::index::schema::{IndexEntry, IndexFile, Pkgname};
use aurox::index::{AurIndexData, EntryIdx};
use aurox::names::{PkgName, PkgTarget};
use aurox::pacman::alpm_db::PacmanIndex;
use aurox::resolver::classify::{classify, classify_full, AurVia, PacHit, Source};
use aurox::version::Version;

fn mk_aur(pkgbase: &str, names: &[&str], provides: &[&str]) -> IndexEntry {
    IndexEntry {
        pkgbase: pkgbase.into(),
        pkgnames: names
            .iter()
            .map(|s| Pkgname {
                name: (*s).into(),
                provides: Vec::new(),
                pkgdesc: None,
            })
            .collect(),
        provides: provides.iter().map(|s| (*s).into()).collect(),
        pkgver: "1".into(),
        pkgrel: "1".into(),
        ..Default::default()
    }
}

fn fixture() -> (IndexFile, Lookup, PacmanIndex) {
    let idx = IndexFile {
        entries: vec![
            mk_aur("cower", &["cower"], &[]),
            mk_aur("paru-bin", &["paru-bin"], &["paru"]),
            // Same name in pacman: pacman wins despite this AUR entry.
            mk_aur("firefox-nightly", &["firefox-nightly"], &["firefox"]),
        ],
        ..IndexFile::empty()
    };
    let by = Lookup::build(&idx);
    let mut pac = PacmanIndex::default();
    pac.installed.insert("vim".into(), Version::new("9.0-1"));
    pac.sync_versions.insert("firefox".into(), Version::new("110.0-1"));
    pac.sync_providers
        .insert("java-runtime".into(), vec!["jre-openjdk".into()]);
    (idx, by, pac)
}

/// The "no AUR data" view: an empty lookup, exactly what
/// `AurIndexData::empty()` feeds the resolver.
fn empty_by() -> Lookup {
    Lookup::build(&IndexFile::empty())
}

#[test]
fn installed_wins_everything() {
    let (idx, by, pac) = fixture();
    assert_eq!(
        classify(&idx, &by, &pac, "vim"),
        Source::Installed("vim".into())
    );
}

#[test]
fn pacman_wins_over_aur() {
    // `firefox` is both in the sync repos *and* provided by `firefox-nightly`
    // in the AUR fixture — pacman must take precedence.
    let (idx, by, pac) = fixture();
    assert_eq!(
        classify(&idx, &by, &pac, "firefox"),
        Source::Repo("firefox".into())
    );
}

#[test]
fn virtual_provide_resolves_to_concrete_sync_provider() {
    // `java-runtime` is a virtual `provides`; classify must rewrite to
    // the providing pkgname (`jre-openjdk`) so the plan never shows a
    // fake "package".
    let (idx, by, pac) = fixture();
    assert_eq!(
        classify(&idx, &by, &pac, "java-runtime"),
        Source::Repo("jre-openjdk".into())
    );
}

#[test]
fn installed_provider_short_circuits_to_installed() {
    // Locally-installed pkg `rust` provides `cargo`; asking for `cargo`
    // must classify as Installed (with `rust` as the concrete provider),
    // not Repo — so the resolver drops it from the plan.
    let mut pac = PacmanIndex::default();
    pac.installed.insert("rust".into(), Version::new("1.80-1"));
    pac.installed_providers
        .insert("cargo".into(), vec!["rust".into()]);
    pac.sync_providers
        .insert("cargo".into(), vec!["rustup".into()]);
    pac.sync_versions.insert("rustup".into(), Version::new("1.27-1"));
    assert_eq!(
        classify(&IndexFile::empty(), &empty_by(), &pac, "cargo"),
        Source::Installed("rust".into())
    );
}

#[test]
fn aur_when_pacman_misses() {
    let (idx, by, pac) = fixture();
    assert!(matches!(classify(&idx, &by, &pac, "cower"), Source::Aur(_)));
}

#[test]
fn aur_provides_fallback() {
    let (idx, by, pac) = fixture();
    assert!(matches!(classify(&idx, &by, &pac, "paru"), Source::Aur(_)));
}

#[test]
fn missing_without_aur_index() {
    // No AUR data (pure pacman environment): the empty lookup yields
    // Missing for AUR-only names…
    let (idx, _by, pac) = fixture();
    let by = empty_by();
    assert_eq!(classify(&idx, &by, &pac, "cower"), Source::Missing);
    // …but pacman-resolvable names still classify correctly.
    assert_eq!(
        classify(&idx, &by, &pac, "firefox"),
        Source::Repo("firefox".into())
    );
    assert_eq!(
        classify(&idx, &by, &pac, "vim"),
        Source::Installed("vim".into())
    );
}

#[test]
fn unknown_is_missing() {
    let (idx, by, pac) = fixture();
    assert_eq!(classify(&idx, &by, &pac, "nonexistent"), Source::Missing);
}

#[test]
fn both_sides_are_seen() {
    let (idx, by, pac) = fixture();
    let c = classify_full(&idx, &by, &pac, "firefox");
    assert_eq!(c.pac, Some(PacHit::Repo("firefox".into())));
    let hit = c.aur.unwrap();
    assert_eq!(hit.entry, EntryIdx::new(2));
    assert_eq!(hit.via, AurVia::Provides("firefox-nightly".into()));
    let c = classify_full(&idx, &by, &pac, "cower");
    assert_eq!(c.pac, None);
    assert_eq!(c.aur.unwrap().via, AurVia::Pkgname);
    assert_eq!(classify_full(&idx, &by, &pac, "vim").source(), Source::Installed("vim".into()));
}

#[test]
fn the_index_answers_by_name() {
    let (idx, _, _) = fixture();
    let data = AurIndexData::from_index(idx);
    assert_eq!(data.label().as_str(), "aur");
    assert_eq!(data.entry(&PkgTarget::new("paru>=1")).unwrap().pkgbase.as_str(), "paru-bin");
    assert!(data.entry(&PkgTarget::new("nope")).is_none());
    assert_eq!(data.pkgbase_of(&PkgName::new("cower")).unwrap().as_str(), "cower");
    assert_eq!(data.index().entries.len(), 3);
    assert!(data.lookup().by_pkgbase.contains_key("paru-bin"));
    let re = regex::Regex::new("nightly").unwrap();
    assert_eq!(data.search(&vec![re]).len(), 1);
    assert!(AurIndexData::empty().entry(&PkgTarget::new("cower")).is_none());
}
