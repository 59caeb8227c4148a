//! Targets that name a pkgbase.

use aurox::error::Error;
use aurox::index::lookup::Lookup;
use aurox::index::schema::{IndexEntry, IndexFile, Pkgname};
use aurox::names::{PkgBase, PkgName};
use aurox::pacman::alpm_db::PacmanIndex;
use aurox::resolver::pkgbase_expand::{check_choice, expand_pkgbase_targets, is_expandable};
use aurox::targets::Target;
use aurox::version::Version;
use std::cell::Cell;

/// Entry whose `provides` live at the pkgbase level (every pkgname is
/// a provider — the common AUR shape).
fn entry(pkgbase: &str, pkgnames: &[&str], provides: &[&str]) -> IndexEntry {
    IndexEntry {
        pkgbase: pkgbase.into(),
        pkgnames: pkgnames
            .iter()
            .map(|s| Pkgname {
                name: (*s).into(),
                provides: Vec::new(),
                pkgdesc: None,
            })
            .collect(),
        provides: provides.iter().map(|s| (*s).into()).collect(),
        pkgver: "1".into(),
        pkgrel: "1".into(),
        ..Default::default()
    }
}

/// Split pkgbase where one pkgname declares scoped provides (bisq shape).
fn entry_scoped(
    pkgbase: &str,
    provider_pkgname: &str,
    provider_provides: &[&str],
    siblings: &[&str],
) -> IndexEntry {
    let mut pkgnames = vec![Pkgname {
        name: provider_pkgname.into(),
        provides: provider_provides.iter().map(|s| (*s).into()).collect(),
        pkgdesc: None,
    }];
    for s in siblings {
        pkgnames.push(Pkgname {
            name: (*s).into(),
            provides: Vec::new(),
            pkgdesc: None,
        });
    }
    IndexEntry {
        pkgbase: pkgbase.into(),
        pkgnames,
        pkgver: "1".into(),
        pkgrel: "1".into(),
        ..Default::default()
    }
}

fn fixture() -> (IndexFile, Lookup, PacmanIndex) {
    let idx = IndexFile {
        entries: vec![
            // Real-world: pkgbase ≠ pkgname (the bisq case, single pkgname).
            entry("bisq-single", &["bisq-desktop-single"], &[]),
            // bisq itself: split pkg where one pkgname provides the virtual.
            entry_scoped(
                "bisq",
                "bisq-desktop",
                &["bisq"],
                &["bisq-cli", "bisq-daemon"],
            ),
            // Split pkg: pkgbase has multiple pkgnames, no scoped provides.
            entry("split-pkg", &["split-a", "split-b", "split-c"], &[]),
            // Trivial: pkgname == pkgbase.
            entry("cower", &["cower"], &[]),
            // Pkgbase-level provides (every pkgname is implicitly a provider).
            entry("paru-bin", &["paru-bin"], &["paru"]),
        ],
        ..IndexFile::empty()
    };
    let by = Lookup::build(&idx);
    let mut pac = PacmanIndex::default();
    pac.sync_versions.insert("firefox".into(), Version::new("110.0-1"));
    (idx, by, pac)
}

/// Trivial selector — picks every pkgname. Wrapped in `Result` because
/// the `expand_pkgbase_targets` callback type is `FnMut(...) -> Result<_>`.
fn select_all(_: &PkgBase, pkgnames: &Vec<PkgName>) -> Result<Vec<PkgName>, Error> {
    Ok(pkgnames.to_vec())
}

/// Test helper: wrap bare spec strings as hint-less `Target`s — the
/// shape of `-S <name>` argv where `expand_pkgbase_targets` is expected
/// to derive any hint from the spec itself.
fn ts(specs: &[&str]) -> Vec<Target> {
    specs.iter().copied().map(Target::bare).collect()
}

#[test]
fn scoped_provides_rewrites_to_pkgbase_with_subset() {
    // bisq pkgbase: only `bisq-desktop` declares `provides = bisq`.
    // `-S bisq` rewrites to the *pkgbase* (not the pkgname) so the
    // resolver pins through `by_pkgbase`, dodging by_name collisions
    // with other AUR entries that happen to ship the same pkgname.
    let (idx, by, pac) = fixture();
    let r =
        expand_pkgbase_targets(&idx, Some(&by), &pac, &ts(&["bisq"]), select_all).unwrap();
    assert_eq!(
        r.targets,
        vec!["bisq".to_owned()],
        "resolve target is pkgbase"
    );
    assert_eq!(
        r.direct_pkgnames,
        vec![PkgName::from("bisq-desktop")],
        "the providing pkgname is the user's actual direct target",
    );
    assert_eq!(
        r.selections.get("bisq"),
        Some(&vec![PkgName::from("bisq-desktop")]),
        "scoped provides must constrain the install-side filter",
    );
}

#[test]
fn pkgbase_level_provides_does_not_constrain_split_pkgbase() {
    // paru-bin has pkgbase-level `provides = paru` on a single-pkgname
    // pkgbase. `-S paru` rewrites to the pkgbase string; no selection
    // recorded because every pkgname implicitly provides the virtual.
    let (idx, by, pac) = fixture();
    let r =
        expand_pkgbase_targets(&idx, Some(&by), &pac, &ts(&["paru"]), select_all).unwrap();
    assert_eq!(r.targets, vec!["paru-bin".to_owned()]);
    assert_eq!(r.direct_pkgnames, vec![PkgName::from("paru-bin")]);
    assert!(
        r.selections.is_empty(),
        "single-pkgname pkgbase means no real subset",
    );
}

#[test]
fn passes_through_pacman_targets_unchanged() {
    let (idx, by, pac) = fixture();
    let r = expand_pkgbase_targets(&idx, Some(&by), &pac, &ts(&["firefox"]), select_all)
        .unwrap();
    assert_eq!(r.targets, vec!["firefox".to_owned()]);
    assert!(r.direct_pkgnames.is_empty());
}

#[test]
fn expands_bare_pkgbase_to_pkgbase_target_with_chosen_pkgnames() {
    // pkgbase `bisq-single` has only `bisq-desktop-single` as pkgname,
    // no provides — the pure-pkgbase fallback path. Resolve target is
    // the pkgbase; `direct_pkgnames` carries the actual pkgname for
    // install_stratum to mark Explicit.
    let (idx, by, pac) = fixture();
    let r = expand_pkgbase_targets(
        &idx,
        Some(&by),
        &pac,
        &ts(&["bisq-single"]),
        select_all,
    )
    .unwrap();
    assert_eq!(r.targets, vec!["bisq-single".to_owned()]);
    assert_eq!(
        r.direct_pkgnames,
        vec![PkgName::from("bisq-desktop-single")]
    );
    // Full selection (1/1): no need to record.
    assert!(r.selections.is_empty());
}

#[test]
fn expands_split_pkgbase_to_all_pkgnames_by_default() {
    let (idx, by, pac) = fixture();
    let r = expand_pkgbase_targets(&idx, Some(&by), &pac, &ts(&["split-pkg"]), select_all)
        .unwrap();
    assert_eq!(r.targets, vec!["split-pkg".to_owned()]);
    assert_eq!(
        r.direct_pkgnames,
        vec![
            PkgName::from("split-a"),
            PkgName::from("split-b"),
            PkgName::from("split-c"),
        ],
    );
    assert!(
        r.selections.is_empty(),
        "all-pkgnames selection is the default; no install-side filter needed",
    );
}

#[test]
fn split_pkgbase_partial_selection_records_constraint() {
    let (idx, by, pac) = fixture();
    let select = |_pkgbase: &PkgBase, _pkgnames: &Vec<PkgName>| -> Result<Vec<PkgName>, Error> {
        Ok(vec![PkgName::from("split-a"), PkgName::from("split-c")])
    };
    let r = expand_pkgbase_targets(&idx, Some(&by), &pac, &ts(&["split-pkg"]), select)
        .unwrap();
    assert_eq!(r.targets, vec!["split-pkg".to_owned()]);
    assert_eq!(
        r.direct_pkgnames,
        vec![PkgName::from("split-a"), PkgName::from("split-c")],
    );
    assert_eq!(
        r.selections.get("split-pkg"),
        Some(&vec![PkgName::from("split-a"), PkgName::from("split-c")]),
        "partial selection records the install-side filter constraint",
    );
}

#[test]
fn pkgname_beats_pkgbase_when_both_could_match() {
    // `cower` matches both by_name and by_pkgbase. pkgname wins → no expand,
    // no selector call.
    let (idx, by, pac) = fixture();
    let calls = Cell::new(0);
    let select = |_p: &PkgBase, n: &Vec<PkgName>| -> Result<Vec<PkgName>, Error> {
        calls.set(calls.get() + 1);
        Ok(n.to_vec())
    };
    let r =
        expand_pkgbase_targets(&idx, Some(&by), &pac, &ts(&["cower"]), select).unwrap();
    assert_eq!(r.targets, vec!["cower".to_owned()]);
    assert_eq!(calls.get(), 0, "selector must not be invoked on pkgname hits");
}

#[test]
fn version_constraint_preserved_on_passthrough() {
    // Single-pkgname pkgbase (`cower`) stays in the passthrough lane.
    // Multi-pkgname pkgnames now rewrite to pkgbase and would drop the
    // version constraint suffix; only single-pkgname / pacman / no-AUR
    // passthroughs preserve it.
    let (idx, by, pac) = fixture();
    let r =
        expand_pkgbase_targets(&idx, Some(&by), &pac, &ts(&["cower>=1.2"]), select_all)
            .unwrap();
    assert_eq!(r.targets, vec!["cower>=1.2".to_owned()]);
}

#[test]
fn empty_selection_errors() {
    let (idx, by, pac) = fixture();
    let select = |_p: &PkgBase, _n: &Vec<PkgName>| -> Result<Vec<PkgName>, Error> { Ok(vec![]) };
    let err = expand_pkgbase_targets(&idx, Some(&by), &pac, &ts(&["split-pkg"]), select)
        .err().unwrap();
    assert!(err.to_string().contains("no pkgnames selected"));
}

#[test]
fn selector_returning_unrelated_pkgname_errors() {
    let (idx, by, pac) = fixture();
    let select = |_p: &PkgBase, _n: &Vec<PkgName>| -> Result<Vec<PkgName>, Error> {
        Ok(vec![PkgName::from("totally-unrelated")])
    };
    let err = expand_pkgbase_targets(&idx, Some(&by), &pac, &ts(&["split-pkg"]), select)
        .err().unwrap();
    assert!(err.to_string().contains("not a pkgname of"));
}

#[test]
fn pkgbase_target_survives_pkgname_collision_with_another_pkgbase() {
    // Real-world: AUR has `commit-mono-font` (pkgbase, pkgnames
    // otf-commit-mono + ttf-commit-mono) *and* a separate
    // `otf-commit-mono` pkgbase. `by_name["otf-commit-mono"]` only
    // stores one entry (HashMap insert-order winner); the resolver
    // would silently build the wrong pkgbase if expand handed it the
    // pkgname. Fix: expand emits the pkgbase string so classify
    // routes through `by_pkgbase`, which is unique.
    let idx = IndexFile {
        entries: vec![
            entry(
                "commit-mono-font",
                &["otf-commit-mono", "ttf-commit-mono"],
                &[],
            ),
            // Unrelated pkgbase that happens to ship a pkgname matching
            // a sibling of the entry above.
            entry("otf-commit-mono", &["otf-commit-mono"], &[]),
        ],
        ..IndexFile::empty()
    };
    let by = Lookup::build(&idx);
    let pac = PacmanIndex::default();

    let r = expand_pkgbase_targets(
        &idx,
        Some(&by),
        &pac,
        &ts(&["commit-mono-font"]),
        select_all,
    )
    .unwrap();
    assert_eq!(
        r.targets,
        vec!["commit-mono-font".to_owned()],
        "must pass the pkgbase string, NOT the pkgnames — by_name would alias to the wrong entry",
    );
    // Both pkgnames still flow through `direct_pkgnames` so
    // install_stratum marks them Explicit.
    assert_eq!(
        r.direct_pkgnames,
        vec![
            PkgName::from("otf-commit-mono"),
            PkgName::from("ttf-commit-mono"),
        ],
    );
}

#[test]
fn pkgname_in_multi_pkgbase_restricts_to_that_pkgname() {
    // Regression: `aurox -S bisq-cli` (a pkgname of the split pkgbase
    // `bisq`) used to install all three siblings because the by_name hit
    // was a bare passthrough — install_stratum has no way to filter
    // without a selection. Selection must pin the install to bisq-cli;
    // sibling pkgnames must NOT appear in direct_pkgnames.
    let (idx, by, pac) = fixture();
    let r = expand_pkgbase_targets(&idx, Some(&by), &pac, &ts(&["bisq-cli"]), select_all)
        .unwrap();
    assert_eq!(r.targets, vec!["bisq".to_owned()]);
    assert_eq!(r.direct_pkgnames, vec![PkgName::from("bisq-cli")]);
    assert_eq!(
        r.selections.get("bisq"),
        Some(&vec![PkgName::from("bisq-cli")]),
        "pkgname-target on split pkgbase must restrict install to that pkgname",
    );
}

#[test]
fn pkgname_in_multi_pkgbase_pulls_sibling_runtime_deps() {
    // Per-pkgname runtime depends end up in the pkgbase-level
    // `e.depends` after .SRCINFO parsing — there's no per-pkgname
    // depends bucket today. If a sibling pkgname appears in that
    // pooled list, include it in the selection so pacman -U has the
    // intra-split dep on disk. Over-includes when the dep belongs to
    // a different sibling than the one targeted; that's a safe
    // over-install rather than a broken transaction.
    let idx = IndexFile {
        entries: vec![IndexEntry {
            pkgbase: "test-split".into(),
            pkgnames: vec![
                Pkgname {
                    name: "test-split-core".into(),
                    provides: Vec::new(),
                    pkgdesc: None,
                },
                Pkgname {
                    name: "test-split-extras".into(),
                    provides: Vec::new(),
                    pkgdesc: None,
                },
            ],
            depends: vec!["test-split-core".into()],
            pkgver: "1".into(),
            pkgrel: "1".into(),
            ..Default::default()
        }],
        ..IndexFile::empty()
    };
    let by = Lookup::build(&idx);
    let pac = PacmanIndex::default();
    let r = expand_pkgbase_targets(
        &idx,
        Some(&by),
        &pac,
        &ts(&["test-split-extras"]),
        select_all,
    )
    .unwrap();
    assert_eq!(r.targets, vec!["test-split".to_owned()]);
    assert_eq!(
        r.direct_pkgnames,
        vec![PkgName::from("test-split-extras")],
        "direct_pkgnames stays at the user's explicit choice; sibling deps install --asdeps",
    );
    let mut sel = r.selections.get("test-split").cloned().unwrap_or_default();
    sel.sort();
    assert_eq!(
        sel,
        vec![
            PkgName::from("test-split-core"),
            PkgName::from("test-split-extras"),
        ],
        "sibling pkgname appearing in pkgbase.depends must join the install selection",
    );
}

#[test]
fn pkgname_in_single_pkgbase_remains_passthrough() {
    // Trivial pkgbase (one pkgname): no selection needed, no
    // pkgbase-rewrite needed; the by_name passthrough is sufficient.
    let (idx, by, pac) = fixture();
    let r = expand_pkgbase_targets(&idx, Some(&by), &pac, &ts(&["cower"]), select_all)
        .unwrap();
    assert_eq!(r.targets, vec!["cower".to_owned()]);
    assert!(r.selections.is_empty());
    assert!(r.direct_pkgnames.is_empty());
}

#[test]
fn multiple_pkgnames_in_same_split_pkgbase_merge_selection() {
    // `aurox -S bisq-cli bisq-daemon` must install BOTH (and not
    // bisq-desktop). The second target must extend the existing
    // selection rather than overwrite it.
    let (idx, by, pac) = fixture();
    let r = expand_pkgbase_targets(
        &idx,
        Some(&by),
        &pac,
        &ts(&["bisq-cli", "bisq-daemon"]),
        select_all,
    )
    .unwrap();
    assert_eq!(r.targets, vec!["bisq".to_owned(), "bisq".to_owned()]);
    let mut dp = r.direct_pkgnames.clone();
    dp.sort();
    assert_eq!(dp, vec![PkgName::from("bisq-cli"), PkgName::from("bisq-daemon")],);
    let mut sel = r.selections.get("bisq").cloned().unwrap_or_default();
    sel.sort();
    assert_eq!(
        sel,
        vec![PkgName::from("bisq-cli"), PkgName::from("bisq-daemon")],
        "multiple pkgname targets must accumulate into the same pkgbase selection",
    );
}

#[test]
fn no_index_means_passthrough() {
    let (idx, _by, pac) = fixture();
    let r = expand_pkgbase_targets(&idx, None, &pac, &ts(&["bisq-single"]), select_all)
        .unwrap();
    assert_eq!(r.targets, vec!["bisq-single".to_owned()]);
    assert!(r.selections.is_empty());
}

// ──────────────────────────────────────────────────────────────────
// counterpart_hints — the dotnet-runtime fix at the expand layer.
// ──────────────────────────────────────────────────────────────────

/// Provides path: `-S bisq` rewrites to pkgbase `bisq`. The hint should
/// be the virtual the user typed (`PkgName("bisq")`) — that's the
/// installed name `counterpart_with_hint` will look for in localdb.
#[test]
fn provides_rewrite_records_virtual_as_hint() {
    let (idx, by, pac) = fixture();
    let r =
        expand_pkgbase_targets(&idx, Some(&by), &pac, &ts(&["bisq"]), select_all).unwrap();
    assert_eq!(
        r.counterpart_hints.get("bisq"),
        Some(&PkgName::from("bisq")),
        "user typed `bisq` (a virtual) → hint must carry that pkgname",
    );
}

/// Pkgname-in-split path: `-S bisq-cli` rewrites to pkgbase `bisq`.
/// Hint = the pkgname the user typed.
#[test]
fn split_pkgname_rewrite_records_pkgname_as_hint() {
    let (idx, by, pac) = fixture();
    let r = expand_pkgbase_targets(&idx, Some(&by), &pac, &ts(&["bisq-cli"]), select_all)
        .unwrap();
    assert_eq!(
        r.counterpart_hints.get("bisq"),
        Some(&PkgName::from("bisq-cli")),
    );
}

/// Bare pkgbase path: `-S bisq-single` — the user typed the pkgbase
/// itself, not a pkgname. No hint to record without an explicit one.
#[test]
fn bare_pkgbase_records_no_hint_when_none_supplied() {
    let (idx, by, pac) = fixture();
    let r = expand_pkgbase_targets(
        &idx,
        Some(&by),
        &pac,
        &ts(&["bisq-single"]),
        select_all,
    )
    .unwrap();
    assert!(
        r.counterpart_hints.is_empty(),
        "no inferred hint for a pkgbase-typed target without explicit Target::hint",
    );
}

/// Explicit hint (the `-Syu` shape) overrides any inferred-from-spec
/// hint even on the provides path. -Syu rows are
/// `Target::with_hint(name, name)`, so the explicit hint matches the
/// spec — but the precedence still must be exercised in case a future
/// caller supplies a divergent hint.
#[test]
fn explicit_hint_overrides_inferred_hint() {
    let (idx, by, pac) = fixture();
    let explicit = vec![Target::with_hint("bisq", PkgName::from("bisq-cli"))];
    let r = expand_pkgbase_targets(&idx, Some(&by), &pac, &explicit, select_all).unwrap();
    assert_eq!(
        r.counterpart_hints.get("bisq"),
        Some(&PkgName::from("bisq-cli")),
        "explicit Target::hint must win over the spec-derived hint",
    );
}

/// First hint wins when multiple targets rewrite to the same pkgbase
/// (e.g. `-S bisq-cli bisq-daemon` both land on pkgbase `bisq`). The
/// later target's hint must not clobber the first — counterpart only
/// reads one hint per pkgbase and either would land on a valid sibling.
#[test]
fn first_target_hint_wins_on_collision() {
    let (idx, by, pac) = fixture();
    let r = expand_pkgbase_targets(
        &idx,
        Some(&by),
        &pac,
        &ts(&["bisq-cli", "bisq-daemon"]),
        select_all,
    )
    .unwrap();
    assert_eq!(
        r.counterpart_hints.get("bisq"),
        Some(&PkgName::from("bisq-cli")),
    );
}

/// Regression for the dotnet-runtime case as the user actually
/// experienced it: the foreign virtual (`paru`) is *itself* installed
/// (some prior AUR build registered that exact name in localdb), so
/// `pac.is_installed(bare)` is true and the `record_target_hint` call
/// at the top of the loop is the only thing that runs — the rewrite
/// branches all short-circuit. Without that top-of-loop record, the
/// hint would never reach `Plan.counterpart_hints` and `counterpart`
/// would fall back to the first-declared provides (wrong).
///
/// Verifies both that the spec passes through (resolver routes via
/// `by_provides` itself) AND that the hint lands on the pkgbase.
#[test]
fn installed_foreign_virtual_records_hint_despite_pacman_shortcut() {
    let (idx, by, mut pac) = fixture();
    // `paru-bin` is the pkgbase; `paru` is its pkgbase-level provides.
    // Pretend `paru` itself is registered in localdb (foreign install
    // from some earlier source), mirroring the dotnet-runtime-7.0
    // shape — the name in `pac.installed` collides with the AUR
    // pkgbase's `provides`.
    pac.installed.insert("paru".into(), Version::new("1.0-1"));
    let r =
        expand_pkgbase_targets(&idx, Some(&by), &pac, &ts(&["paru"]), select_all).unwrap();
    // Spec passed through unchanged — `pac.is_installed("paru")` is
    // true, so expand did NOT rewrite to the pkgbase string. Resolver
    // routes via `by_provides` in `resolve_target_source`.
    assert_eq!(r.targets, vec!["paru".to_owned()]);
    // The crucial bit: hint IS recorded despite the passthrough, so
    // `prepare_one` can pass it to `counterpart_with_hint`.
    assert_eq!(
        r.counterpart_hints.get("paru-bin"),
        Some(&PkgName::from("paru")),
        "installed foreign virtual must record its hint even though \
         the spec passes through unchanged",
    );
}

/// Regression for the google-cloud-cli bug. `-Syu` rows for a
/// foreign-installed pkgname in a split pkgbase hit the
/// `pac.is_installed(bare)` shortcut. Twin to
/// `installed_foreign_virtual_records_hint_despite_pacman_shortcut`,
/// but for the **selection** side of the bookkeeping: without a
/// recorded selection, `install_stratum` has no filter and `pacman
/// -U`'s every sibling makepkg packaged. With the fix, the shortcut
/// branch records the same single-pkgname (+ sibling runtime deps)
/// selection that the `by_name` rewrite branch would have.
#[test]
fn installed_split_pkgname_records_selection_despite_pacman_shortcut() {
    let (idx, by, mut pac) = fixture();
    // bisq-cli is a pkgname of the split pkgbase `bisq` (siblings:
    // bisq-daemon, bisq-desktop; no intra-split deps in the fixture
    // → chosen reduces to just bisq-cli). Pretend it's installed
    // foreign at an outdated version, mirroring the
    // google-cloud-cli-bq starting state.
    pac.installed.insert("bisq-cli".into(), Version::new("1.0-1"));
    let r = expand_pkgbase_targets(&idx, Some(&by), &pac, &ts(&["bisq-cli"]), select_all)
        .unwrap();
    // Shortcut fired — spec passes through unchanged.
    assert_eq!(r.targets, vec!["bisq-cli".to_owned()]);
    // The crucial bit: selection IS recorded against the pkgbase.
    // Without this, install_stratum installs all three siblings.
    assert_eq!(
        r.selections.get("bisq"),
        Some(&vec![PkgName::from("bisq-cli")]),
        "shortcut path must record the single-pkgname selection for \
         a foreign-installed sibling of a split pkgbase",
    );
}

/// Single-pkgname pkgbase under the shortcut: no selection needed
/// (there's nothing to filter against). Guards against a refactor
/// that records a degenerate `len==1` selection from the shortcut
/// just because it can — `selections` is meaningful only when it
/// constrains a *true subset*, and bloating it would muddy the
/// `install_stratum` filter's "Some means subset" contract.
#[test]
fn installed_single_pkgname_records_no_selection_in_shortcut() {
    let (idx, by, mut pac) = fixture();
    // `cower` is a trivial single-pkgname pkgbase. Installed foreign.
    pac.installed.insert("cower".into(), Version::new("1.0-1"));
    let r = expand_pkgbase_targets(&idx, Some(&by), &pac, &ts(&["cower"]), select_all)
        .unwrap();
    assert_eq!(r.targets, vec!["cower".to_owned()]);
    assert!(
        r.selections.is_empty(),
        "single-pkgname pkgbase has no real subset to record",
    );
}

#[test]
fn a_choice_names_pkgnames_of_the_pkgbase() {
    let e = entry("split-pkg", &["split-a", "split-b"], &[]);
    assert!(check_choice(&e, &vec![PkgName::from("split-b")]).is_ok());
    assert!(check_choice(&e, &vec![]).is_err());
    assert!(check_choice(&e, &vec![PkgName::from("x")]).is_err());
}

#[test]
fn an_error_of_the_selector_is_handed_on() {
    let (idx, by, pac) = fixture();
    let select = |_p: &PkgBase, _n: &Vec<PkgName>| -> Result<Vec<PkgName>, Error> {
        Err(Error::UserAbort)
    };
    let r = expand_pkgbase_targets(&idx, Some(&by), &pac, &ts(&["split-pkg"]), select);
    assert!(matches!(r.err(), Some(Error::UserAbort)));
}

#[test]
fn known_targets_can_be_expanded() {
    let (idx, by, pac) = fixture();
    for t in ts(&["bisq", "split-pkg", "cower", "nothing"]) {
        assert!(is_expandable(&idx, &by, &pac, &t));
    }
}
