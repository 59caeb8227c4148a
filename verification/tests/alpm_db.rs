//! The index over what pacman knows.

use aurox::index::schema::{IndexEntry, Pkgname};
use aurox::names::{PkgName, PkgTarget};
use aurox::pacman::alpm_db::{MatchedVia, PacmanIndex, PkgRecord};
use aurox::version::Version;

/// Build an `IndexEntry` with the fields `counterpart` actually reads
/// (pkgnames, replaces, provides). Everything else stays at default —
/// `counterpart` ignores it.
fn entry(
    pkgbase: &str,
    pkgnames: &[(&str, &[&str])],
    replaces: &[&str],
    provides: &[&str],
) -> IndexEntry {
    IndexEntry {
        pkgbase: pkgbase.into(),
        pkgnames: pkgnames
            .iter()
            .map(|(n, provs)| Pkgname {
                name: (*n).into(),
                provides: provs.iter().map(|p| (*p).into()).collect(),
                pkgdesc: None,
            })
            .collect(),
        replaces: replaces.iter().map(|s| (*s).into()).collect(),
        provides: provides.iter().map(|s| (*s).into()).collect(),
        ..IndexEntry::default()
    }
}

#[test]
fn lookups_use_owned_hashes() {
    let mut idx = PacmanIndex::default();
    idx.installed.insert("vim".into(), Version::new("9.0-1"));
    idx.sync_versions.insert("firefox".into(), Version::new("110.0-1"));
    idx.sync_providers
        .insert("java-runtime".into(), vec!["jre-openjdk".into()]);

    assert!(idx.is_installed("vim"));
    assert!(!idx.is_installed("firefox"));
    assert!(idx.in_sync("firefox"));
    assert!(idx.in_sync("java-runtime"));
    assert!(!idx.in_sync("nonexistent"));
    assert_eq!(idx.installed_version("vim"), Some(&Version::new("9.0-1")));
    assert_eq!(idx.installed_version("firefox"), None);
    assert_eq!(idx.sync_version("firefox"), Some(&Version::new("110.0-1")));
    // Provides-only names carry no version of their own — only the
    // providing pkgname does.
    assert_eq!(idx.sync_version("java-runtime"), None);
}

#[test]
fn foreign_excludes_sync_pkgs() {
    let mut idx = PacmanIndex::default();
    idx.installed.insert("vim".into(), Version::new("9.0-1"));
    idx.installed.insert("paru-bin".into(), Version::new("2.0.0-1"));
    idx.sync_versions.insert("vim".into(), Version::new("9.0-1"));

    let mut foreign = idx.foreign();
    // Sort by pkgname only — `Version` has no `Ord` (vercmp is
    // PartialOrd; bytes-distinct + vercmp-equal corner case breaks
    // total order assumptions).
    foreign.sort_by(|a, b| a.0.cmp(&b.0));
    assert_eq!(foreign, vec![(PkgName::new("paru-bin"), Version::new("2.0.0-1"))]);
}

/// `resolve_concrete` is the single source of truth for "what would
/// pacman actually install if I asked for this name?". Cover every
/// branch: exact installed, installed-via-provides, exact sync, sync-
/// via-provides, and unknown.
#[test]
fn resolve_concrete_orders_installed_before_sync() {
    let mut idx = PacmanIndex::default();
    idx.installed.insert("rust".into(), Version::new("1.80-1"));
    idx.installed_providers
        .insert("cargo".into(), vec!["rust".into()]);
    idx.sync_versions.insert("pacman".into(), Version::new("6.1.0-1"));
    idx.sync_providers
        .insert("libalpm.so".into(), vec!["pacman".into()]);
    idx.sync_versions.insert("rustup".into(), Version::new("1.27-1"));
    // rustup also provides cargo, but rust (installed) must win.
    idx.sync_providers
        .insert("cargo".into(), vec!["rustup".into()]);

    // `resolve_concrete` now returns the typed `&PkgName` (not `&str`);
    // construct the expected key once so the assertions read the same
    // way they would when comparing strings.
    let rust = PkgName::from("rust");
    let pacman = PkgName::from("pacman");
    assert_eq!(idx.resolve_concrete("rust"), Some((&rust, true)));
    assert_eq!(idx.resolve_concrete("cargo"), Some((&rust, true)));
    assert_eq!(idx.resolve_concrete("pacman"), Some((&pacman, false)));
    assert_eq!(idx.resolve_concrete("libalpm.so"), Some((&pacman, false)));
    assert_eq!(idx.resolve_concrete("nonexistent"), None);
}

/// Canonical case: pkgbase pkgname matches localdb directly. Provenance
/// is `Pkgname` and the version comes from pacman.
#[test]
fn counterpart_matches_by_pkgname() {
    let mut idx = PacmanIndex::default();
    idx.installed.insert("foo".into(), Version::new("1.2.3-1"));
    let e = entry("foo", &[("foo", &[])], &[], &[]);
    let c = idx.counterpart(&e).expect("foo is installed");
    assert_eq!(c.pkgname.as_str(), "foo");
    assert_eq!(c.version.as_str(), "1.2.3-1");
    assert_eq!(c.via, MatchedVia::Pkgname);
}

/// Split pkgbase with only one sibling installed: pkgname match still
/// wins, and the matched name is the installed sibling — not the pkgbase.
#[test]
fn counterpart_picks_first_installed_split_sibling() {
    let mut idx = PacmanIndex::default();
    idx.installed.insert("bisq-cli".into(), Version::new("1.9-2"));
    let e = entry(
        "bisq",
        &[
            ("bisq-desktop", &["bisq"]),
            ("bisq-cli", &[]),
            ("bisq-daemon", &[]),
        ],
        &[],
        &[],
    );
    let c = idx.counterpart(&e).expect("bisq-cli is installed");
    assert_eq!(c.pkgname.as_str(), "bisq-cli");
    assert_eq!(c.version.as_str(), "1.9-2");
    assert_eq!(c.via, MatchedVia::Pkgname);
}

/// `entry.replaces` ranks above `entry.provides` even when both could
/// match: the explicit declaration is the more reliable signal.
#[test]
fn counterpart_prefers_replaces_over_provides() {
    let mut idx = PacmanIndex::default();
    idx.installed.insert("old-foo".into(), Version::new("0.9-1"));
    let e = entry(
        "foo-ng",
        &[("foo-ng", &["old-foo"])], // also provides it
        &["old-foo"],                // and replaces it
        &[],
    );
    let c = idx.counterpart(&e).expect("old-foo is installed");
    assert_eq!(c.pkgname.as_str(), "old-foo");
    assert_eq!(c.via, MatchedVia::Replaces);
}

/// Pkgname wins over both replaces and provides, even if the user has
/// the legacy pkg installed alongside the new pkgbase (transitional).
#[test]
fn counterpart_prefers_pkgname_over_replaces_and_provides() {
    let mut idx = PacmanIndex::default();
    idx.installed.insert("foo-ng".into(), Version::new("2.0-1"));
    idx.installed.insert("old-foo".into(), Version::new("0.9-1"));
    let e = entry("foo-ng", &[("foo-ng", &["old-foo"])], &["old-foo"], &[]);
    let c = idx.counterpart(&e).expect("foo-ng is installed");
    assert_eq!(c.pkgname.as_str(), "foo-ng");
    assert_eq!(c.via, MatchedVia::Pkgname);
}

/// The dotnet case: AUR pkgbase ships its own pkgname which `provides`
/// the legacy name the user has installed. Matched via Provides; the
/// version reflects the installed legacy pkg.
#[test]
fn counterpart_matches_pkgname_scoped_provides() {
    let mut idx = PacmanIndex::default();
    idx.installed
        .insert("dotnet-runtime-7.0".into(), Version::new("7.0.15-1"));
    let e = entry(
        "dotnet-core-7.0-bin",
        &[(
            "dotnet-core-7.0-bin",
            &["dotnet-runtime-7.0", "dotnet-sdk-7.0"],
        )],
        &[],
        &[],
    );
    let c = idx
        .counterpart(&e)
        .expect("dotnet-runtime-7.0 is installed");
    assert_eq!(c.pkgname.as_str(), "dotnet-runtime-7.0");
    assert_eq!(c.version.as_str(), "7.0.15-1");
    assert_eq!(c.via, MatchedVia::Provides);
}

/// Pkgbase-level provides are inherited by every pkgname — match still
/// resolves via the entry's top-level `provides` slot.
#[test]
fn counterpart_matches_pkgbase_level_provides() {
    let mut idx = PacmanIndex::default();
    idx.installed.insert("virt-name".into(), Version::new("3.0-1"));
    let e = entry("foo", &[("foo", &[])], &[], &["virt-name"]);
    let c = idx.counterpart(&e).expect("virt-name is installed");
    assert_eq!(c.pkgname.as_str(), "virt-name");
    assert_eq!(c.via, MatchedVia::Provides);
}

/// `provides = name=1.2` must strip the virtual version before lookup;
/// the returned version comes from pacman (the installed pkgname's
/// real version), not from the suffix.
#[test]
fn counterpart_strips_version_constraint_on_provides() {
    let mut idx = PacmanIndex::default();
    idx.installed.insert("libfoo".into(), Version::new("9.9-1"));
    let e = entry("bar", &[("bar", &["libfoo=1.2"])], &[], &[]);
    let c = idx.counterpart(&e).expect("libfoo is installed");
    assert_eq!(c.pkgname.as_str(), "libfoo");
    assert_eq!(c.version.as_str(), "9.9-1"); // real version, not the virtual "1.2"
    assert_eq!(c.via, MatchedVia::Provides);
}

/// No pkgname / replaces / provides match anything installed → fresh
/// install path, caller renders "install: …".
#[test]
fn counterpart_returns_none_when_nothing_installed() {
    let idx = PacmanIndex::default();
    let e = entry(
        "foo",
        &[("foo", &["virt"])],
        &["old-foo"],
        &["pkgbase-virt"],
    );
    assert!(idx.counterpart(&e).is_none());
}

/// Scoped provides (more specific) beats pkgbase-level provides when
/// both could match.
#[test]
fn counterpart_prefers_scoped_provides_over_pkgbase_level() {
    let mut idx = PacmanIndex::default();
    idx.installed.insert("scoped".into(), Version::new("1-1"));
    idx.installed.insert("toplevel".into(), Version::new("2-1"));
    let e = entry("foo", &[("foo", &["scoped"])], &[], &["toplevel"]);
    let c = idx.counterpart(&e).expect("scoped is installed");
    assert_eq!(c.pkgname.as_str(), "scoped");
}

// ──────────────────────────────────────────────────────────────────
// counterpart_with_hint() — the dotnet-runtime regression cluster.
// ──────────────────────────────────────────────────────────────────

/// Two virtuals are installed; pkgbase declares both. Without a hint the
/// first-declared provides wins. With a hint pointing at the second one,
/// the lookup returns *that* one — the user's intent overrides
/// declaration order.
#[test]
fn hint_steers_provides_match_to_user_intent() {
    let mut idx = PacmanIndex::default();
    idx.installed
        .insert("aspnet-runtime".into(), Version::new("10.0-1"));
    idx.installed
        .insert("dotnet-runtime-7.0".into(), Version::new("7.0.20-1"));
    // entry's `provides` declares aspnet-runtime first; without a hint
    // counterpart() picks that.
    let e = entry(
        "dotnet-core-7.0-bin",
        &[(
            "dotnet-core-7.0-bin",
            &["aspnet-runtime", "dotnet-runtime-7.0"],
        )],
        &[],
        &[],
    );
    let unhinted = idx.counterpart(&e).unwrap();
    assert_eq!(unhinted.pkgname.as_str(), "aspnet-runtime");
    let hint = PkgName::from("dotnet-runtime-7.0");
    let hinted = idx.counterpart_with_hint(&e, Some(&hint)).unwrap();
    assert_eq!(hinted.pkgname.as_str(), "dotnet-runtime-7.0");
    assert_eq!(hinted.via, MatchedVia::Provides);
}

/// Hint matches the canonical pkgname — provenance must be Pkgname,
/// not Provides, even if the entry *also* declares a provides line for
/// the same name (rare but real).
#[test]
fn hint_prefers_pkgname_provenance_over_provides() {
    let mut idx = PacmanIndex::default();
    idx.installed.insert("foo".into(), Version::new("1-1"));
    // entry's pkgname is foo, AND it provides foo (a self-referential
    // provides=, which AUR doesn't reject).
    let e = entry("foo", &[("foo", &["foo"])], &[], &[]);
    let hint = PkgName::from("foo");
    let c = idx.counterpart_with_hint(&e, Some(&hint)).unwrap();
    assert_eq!(c.via, MatchedVia::Pkgname);
}

/// Hint matches a `replaces=` declaration. The pkgname rename case —
/// user has the old name installed, AUR pkgbase declares it as replaced
/// by the new pkgname.
#[test]
fn hint_returns_replaces_provenance() {
    let mut idx = PacmanIndex::default();
    idx.installed.insert("old-foo".into(), Version::new("0.9-1"));
    let e = entry("foo-ng", &[("foo-ng", &[])], &["old-foo"], &[]);
    let hint = PkgName::from("old-foo");
    let c = idx.counterpart_with_hint(&e, Some(&hint)).unwrap();
    assert_eq!(c.pkgname.as_str(), "old-foo");
    assert_eq!(c.via, MatchedVia::Replaces);
}

/// Hint is installed but the entry doesn't reference it (not a pkgname,
/// not in replaces, not in provides). Fall back to the unhinted walk —
/// otherwise a stale hint could silently nullify a real counterpart match.
#[test]
fn unmatched_hint_falls_back_to_unhinted_walk() {
    let mut idx = PacmanIndex::default();
    idx.installed.insert("unrelated".into(), Version::new("1-1"));
    idx.installed.insert("real-target".into(), Version::new("2-1"));
    let e = entry("foo", &[("foo", &["real-target"])], &[], &[]);
    let stale = PkgName::from("unrelated");
    let c = idx.counterpart_with_hint(&e, Some(&stale)).unwrap();
    assert_eq!(c.pkgname.as_str(), "real-target");
    assert_eq!(c.via, MatchedVia::Provides);
}

/// Hint is not installed. Same fallback path — we only honour the hint
/// when it identifies a real localdb entry to anchor on.
#[test]
fn non_installed_hint_falls_back_to_unhinted_walk() {
    let mut idx = PacmanIndex::default();
    idx.installed.insert("real-target".into(), Version::new("2-1"));
    let e = entry("foo", &[("foo", &["real-target"])], &[], &[]);
    let missing = PkgName::from("never-installed");
    let c = idx.counterpart_with_hint(&e, Some(&missing)).unwrap();
    assert_eq!(c.pkgname.as_str(), "real-target");
}

/// Hint with an explicit None — same behaviour as plain `counterpart()`.
#[test]
fn none_hint_matches_unhinted_counterpart() {
    let mut idx = PacmanIndex::default();
    idx.installed.insert("foo".into(), Version::new("1-1"));
    let e = entry("foo", &[("foo", &[])], &[], &[]);
    assert_eq!(
        idx.counterpart_with_hint(&e, None)
            .map(|c| c.pkgname.as_str().to_owned()),
        idx.counterpart(&e).map(|c| c.pkgname.as_str().to_owned()),
    );
}

// ──────────────────────────────────────────────────────────────────
// Multi-match Provides: behaviour exercise (warning is best-effort
// tracing output, so the assertion is on the picked pkgname).
// ──────────────────────────────────────────────────────────────────

/// Two installed pkgs match the same pkgbase's `provides`. The unhinted
/// walk picks the first declared (dotnet-core-7.0-bin declares
/// aspnet-runtime before dotnet-runtime-7.0 in its PKGBUILD); the
/// warning is emitted via `tracing::warn!` so the user sees an audit
/// trail when the picked counterpart isn't the obviously right one.
#[test]
fn unhinted_multi_provides_match_picks_first_declared() {
    let mut idx = PacmanIndex::default();
    idx.installed
        .insert("aspnet-runtime".into(), Version::new("10.0-1"));
    idx.installed
        .insert("dotnet-runtime-7.0".into(), Version::new("7.0.20-1"));
    let e = entry(
        "dotnet-core-7.0-bin",
        &[(
            "dotnet-core-7.0-bin",
            &["aspnet-runtime", "dotnet-runtime-7.0"],
        )],
        &[],
        &[],
    );
    let c = idx.counterpart(&e).unwrap();
    assert_eq!(c.pkgname.as_str(), "aspnet-runtime");
    assert_eq!(c.via, MatchedVia::Provides);
}

/// Scoped + pkgbase-level provides referencing the same installed pkg
/// shouldn't count as two distinct matches — they're the same candidate
/// declared twice. Tests dedup in the collection step.
#[test]
fn unhinted_dedup_scoped_and_pkgbase_level_provides() {
    let mut idx = PacmanIndex::default();
    idx.installed.insert("only-one".into(), Version::new("1-1"));
    // The same name appears both pkgname-scoped AND pkgbase-level — the
    // collector should treat them as one match, not two, so no
    // multi-match warning fires.
    let e = entry("foo", &[("foo", &["only-one"])], &[], &["only-one"]);
    let c = idx.counterpart(&e).unwrap();
    assert_eq!(c.pkgname.as_str(), "only-one");
}

fn record(name: &str, version: &str, provides: &[&str], depends: &[&str]) -> PkgRecord {
    PkgRecord {
        name: PkgName::new(name),
        version: Version::new(version),
        provides: provides.iter().map(|s| (*s).to_owned()).collect(),
        depends: depends.iter().map(|s| PkgTarget::new(s)).collect(),
    }
}

#[test]
fn the_first_database_names_the_version() {
    let local = vec![record("bash", "5.1-1", &["sh"], &[])];
    let sync = vec![
        vec![record("bash", "5.2-1", &["sh"], &["readline"])],
        vec![record("bash", "5.3-1", &[], &[]), record("dash", "0.5-1", &["sh"], &[])],
    ];
    let idx = PacmanIndex::build(&local, &sync);
    assert_eq!(idx.installed_version("bash"), Some(&Version::new("5.1-1")));
    assert_eq!(idx.sync_version("bash"), Some(&Version::new("5.2-1")));
    assert!(idx.in_sync("sh"));
    assert!(idx.in_sync("dash"));
    assert_eq!(
        idx.sync_depends(&PkgName::new("bash")),
        Some(&vec![PkgTarget::new("readline")])
    );
    assert!(idx.sync_depends(&PkgName::new("zsh")).is_none());
    assert_eq!(idx.resolve_concrete("sh"), Some((&PkgName::new("bash"), true)));
    assert!(idx.foreign().is_empty());
}
