//! Plans.

use aurox::error::Error;
use aurox::index::lookup::Lookup;
use aurox::index::schema::{IndexEntry, IndexFile, Pkgname};
use aurox::names::{PkgBase, PkgTarget};
use aurox::pacman::alpm_db::PacmanIndex;
use aurox::resolver::{resolve, Plan};
use aurox::version::Version;

fn strata(plan: &Plan) -> Vec<Vec<String>> {
    plan.aur_strata
        .iter()
        .map(|layer| layer.iter().map(|b| b.to_string()).collect())
        .collect()
}

fn entry(pkgbase: &str, depends: &[&str], makedepends: &[&str]) -> IndexEntry {
    entry_full(pkgbase, &[pkgbase], depends, makedepends, &[], &[])
}

fn entry_full(
    pkgbase: &str,
    pkgnames: &[&str],
    depends: &[&str],
    makedepends: &[&str],
    checkdepends: &[&str],
    provides: &[&str],
) -> IndexEntry {
    IndexEntry {
        pkgbase: pkgbase.into(),
        pkgnames: pkgnames
            .iter()
            .map(|s| Pkgname {
                name: (*s).into(),
                provides: Vec::new(),
                pkgdesc: None,
            })
            .collect(),
        depends: depends.iter().map(|s| (*s).into()).collect(),
        makedepends: makedepends.iter().map(|s| (*s).into()).collect(),
        checkdepends: checkdepends.iter().map(|s| (*s).into()).collect(),
        provides: provides.iter().map(|s| (*s).into()).collect(),
        pkgver: "1".into(),
        pkgrel: "1".into(),
        ..Default::default()
    }
}

fn run(targets: &[&str], entries: Vec<IndexEntry>, repo: &[&str]) -> Result<Plan, Error> {
    let idx = IndexFile {
        entries,
        ..IndexFile::empty()
    };
    let by = Lookup::build(&idx);
    let mut pac = PacmanIndex::default();
    for n in repo {
        pac.sync_versions.insert((*n).into(), Version::new("1.0-1"));
    }
    let targets: Vec<String> = targets.iter().map(|s| (*s).to_owned()).collect();
    resolve(&idx, &by, &pac, &targets)
}

/// Resolve `targets` against a caller-built [`PacmanIndex`] and no AUR
/// index — the seam for repo→repo dependency-walk tests, which set up
/// `sync_versions` / `sync_depends` / `installed` with typed values.
fn resolve_repo(pac: &PacmanIndex, targets: &[&str]) -> Plan {
    let idx = IndexFile::empty();
    let by = Lookup::build(&idx);
    let targets: Vec<String> = targets.iter().map(|s| (*s).to_owned()).collect();
    resolve(&idx, &by, pac, &targets).unwrap()
}

/// Register a sync package with its dependency list, typed at the seam:
/// `PkgName` key, `PkgTarget` deps. Keeps the per-test setup declarative.
fn sync_pkg(pac: &mut PacmanIndex, name: &str, deps: &[&str]) {
    pac.sync_versions.insert(name.into(), Version::new("1.0-1"));
    pac.sync_depends.insert(
        name.into(),
        deps.iter().map(|d| PkgTarget::from(*d)).collect(),
    );
}

/// Sorted clone of `transitive_repo` — the BFS pushes in pop order, so
/// tests assert membership, not the incidental ordering.
fn sorted_transitive(plan: &Plan) -> Vec<String> {
    let mut t = plan.transitive_repo.clone();
    t.sort();
    t
}

// ---- repo dependency tree --------------------------------------------

#[test]
fn repo_target_pulls_uninstalled_repo_dep() {
    // `foo` depends on repo `bar`; nothing installed. `bar` is an
    // unrequested repo dep → transitive_repo, and the prompt must fire.
    let mut pac = PacmanIndex::default();
    sync_pkg(&mut pac, "foo", &["bar"]);
    sync_pkg(&mut pac, "bar", &[]);
    let plan = resolve_repo(&pac, &["foo"]);
    assert_eq!(plan.direct_repo, vec!["foo".to_owned()]);
    assert_eq!(plan.transitive_repo, vec!["bar".to_owned()]);
    assert!(!plan.only_requested());
}

#[test]
fn repo_dep_already_installed_is_dropped() {
    // Same graph, but `bar` is already installed → satisfied, dropped from
    // the plan. Nothing unrequested remains, so the prompt is skipped.
    let mut pac = PacmanIndex::default();
    sync_pkg(&mut pac, "foo", &["bar"]);
    sync_pkg(&mut pac, "bar", &[]);
    pac.installed.insert("bar".into(), Version::new("1.0-1"));
    let plan = resolve_repo(&pac, &["foo"]);
    assert_eq!(plan.direct_repo, vec!["foo".to_owned()]);
    assert!(plan.transitive_repo.is_empty());
    assert!(plan.only_requested());
}

#[test]
fn repo_deps_walk_transitively() {
    // foo → bar → baz, all repo, none installed. The walk must reach the
    // whole closure, not just the direct dep.
    let mut pac = PacmanIndex::default();
    sync_pkg(&mut pac, "foo", &["bar"]);
    sync_pkg(&mut pac, "bar", &["baz"]);
    sync_pkg(&mut pac, "baz", &[]);
    let plan = resolve_repo(&pac, &["foo"]);
    assert_eq!(plan.direct_repo, vec!["foo".to_owned()]);
    assert_eq!(
        sorted_transitive(&plan),
        vec!["bar".to_owned(), "baz".to_owned()]
    );
    assert!(!plan.only_requested());
}

#[test]
fn user_named_repo_dep_stays_direct() {
    // User names both `foo` and its dep `bar` → both explicit, nothing
    // unrequested, prompt skipped. `bar` is reached as a dep too, but the
    // direct_set backstop keeps it in direct_repo, not transitive_repo.
    let mut pac = PacmanIndex::default();
    sync_pkg(&mut pac, "foo", &["bar"]);
    sync_pkg(&mut pac, "bar", &[]);
    let plan = resolve_repo(&pac, &["foo", "bar"]);
    let mut direct = plan.direct_repo.clone();
    direct.sort();
    assert_eq!(direct, vec!["bar".to_owned(), "foo".to_owned()]);
    assert!(plan.transitive_repo.is_empty());
    assert!(plan.only_requested());
}

#[test]
fn repo_dep_via_virtual_provide_resolves_to_concrete() {
    // `foo` depends on the virtual `libbar.so`, provided by sync pkg
    // `barlib`. The plan must list the concrete provider, not the virtual.
    let mut pac = PacmanIndex::default();
    sync_pkg(&mut pac, "foo", &["libbar.so"]);
    pac.sync_versions.insert("barlib".into(), Version::new("2.0-1"));
    pac.sync_providers
        .insert("libbar.so".into(), vec!["barlib".into()]);
    let plan = resolve_repo(&pac, &["foo"]);
    assert_eq!(plan.direct_repo, vec!["foo".to_owned()]);
    assert_eq!(plan.transitive_repo, vec!["barlib".to_owned()]);
    assert!(!plan.only_requested());
}

// ---- repo-only paths -------------------------------------------------

#[test]
fn pure_repo_target_lands_in_direct_repo() {
    let plan = run(&["foo"], vec![], &["foo"]).unwrap();
    assert_eq!(plan.direct_repo, vec!["foo".to_owned()]);
    assert!(plan.transitive_repo.is_empty());
    assert!(plan.aur_strata.is_empty());
}

#[test]
fn version_constraint_on_repo_target_strips() {
    let plan = run(&["foo>=1.2"], vec![], &["foo"]).unwrap();
    assert_eq!(plan.direct_repo, vec!["foo".to_owned()]);
}

#[test]
fn missing_target_errors() {
    let err = run(&["nope"], vec![], &[]).err().unwrap();
    match err {
        Error::UnknownTargets(s) => assert_eq!(s, "nope"),
        other => panic!("expected UnknownTargets, got {other:?}"),
    }
}

// ---- only_requested: when the plan adds nothing the user didn't name -

#[test]
fn only_requested_for_pure_repo_target() {
    let plan = run(&["foo"], vec![], &["foo"]).unwrap();
    assert!(plan.only_requested());
}

#[test]
fn only_requested_false_when_repo_dep_pulled_in() {
    // AUR `a` drags in repo `bash` as a makedep → unrequested repo pkg.
    let plan = run(&["a"], vec![entry("a", &[], &["bash"])], &["bash"]).unwrap();
    assert!(!plan.only_requested());
}

#[test]
fn only_requested_for_named_aur_with_no_deps() {
    let plan = run(&["a"], vec![entry("a", &[], &[])], &[]).unwrap();
    assert!(plan.only_requested());
}

#[test]
fn only_requested_false_when_aur_makedep_pkgbase_pulled_in() {
    // `a` makedepends on AUR `b`; `b` is built but never named.
    let plan = run(
        &["a"],
        vec![entry("a", &[], &["b"]), entry("b", &[], &[])],
        &[],
    )
    .unwrap();
    assert!(!plan.only_requested());
    assert!(plan.direct_aur.contains("a"));
    assert!(!plan.direct_aur.contains("b"));
}

#[test]
fn only_requested_when_both_aur_pkgbases_named() {
    // Same graph, but the user names `b` too → no unrequested pkg.
    let plan = run(
        &["a", "b"],
        vec![entry("a", &[], &["b"]), entry("b", &[], &[])],
        &[],
    )
    .unwrap();
    assert!(plan.only_requested());
}

// ---- single AUR pkg --------------------------------------------------

#[test]
fn aur_with_no_deps_single_stratum() {
    let plan = run(&["a"], vec![entry("a", &[], &[])], &[]).unwrap();
    assert_eq!(strata(&plan), vec![vec!["a".to_owned()]]);
}

#[test]
fn aur_with_repo_makedep_pulls_transitive_repo() {
    let plan = run(&["a"], vec![entry("a", &[], &["bash"])], &["bash"]).unwrap();
    assert_eq!(strata(&plan), vec![vec!["a".to_owned()]]);
    assert_eq!(plan.transitive_repo, vec!["bash".to_owned()]);
    assert!(plan.direct_repo.is_empty());
}

// ---- build graph: makedepends drive strata, depends do not ----------

#[test]
fn regular_depends_does_not_create_stratum_edge() {
    // A depends=B (runtime only), both AUR. Both should land in stratum 0.
    let plan = run(
        &["a"],
        vec![entry("a", &["b"], &[]), entry("b", &[], &[])],
        &[],
    )
    .unwrap();
    assert_eq!(plan.aur_strata.len(), 1);
    let mut s0 = strata(&plan)[0].clone();
    s0.sort();
    assert_eq!(s0, vec!["a".to_owned(), "b".to_owned()]);
}

#[test]
fn makedepends_creates_stratum_edge() {
    // A makedepends=B, both AUR → B must be installed before A builds.
    let plan = run(
        &["a"],
        vec![entry("a", &[], &["b"]), entry("b", &[], &[])],
        &[],
    )
    .unwrap();
    assert_eq!(
        strata(&plan),
        vec![vec!["b".to_owned()], vec!["a".to_owned()]]
    );
}

#[test]
fn deep_makedep_chain_layers_correctly() {
    // a → b → c via makedepends → 3 strata.
    let plan = run(
        &["a"],
        vec![
            entry("a", &[], &["b"]),
            entry("b", &[], &["c"]),
            entry("c", &[], &[]),
        ],
        &[],
    )
    .unwrap();
    assert_eq!(
        strata(&plan),
        vec![
            vec!["c".to_owned()],
            vec!["b".to_owned()],
            vec!["a".to_owned()],
        ]
    );
}

#[test]
fn diamond_makedep_graph_groups_middle_layer() {
    // d makedepends b+c; b makedepends a; c makedepends a. Layers: [a],[b,c],[d].
    let plan = run(
        &["d"],
        vec![
            entry("d", &[], &["b", "c"]),
            entry("b", &[], &["a"]),
            entry("c", &[], &["a"]),
            entry("a", &[], &[]),
        ],
        &[],
    )
    .unwrap();
    assert_eq!(plan.aur_strata.len(), 3);
    assert_eq!(strata(&plan)[0], vec!["a".to_owned()]);
    let mut mid = strata(&plan)[1].clone();
    mid.sort();
    assert_eq!(mid, vec!["b".to_owned(), "c".to_owned()]);
    assert_eq!(strata(&plan)[2], vec!["d".to_owned()]);
}

// ---- self-edges are dropped, not reported as cycles -----------------

#[test]
fn aur_self_dependency_is_not_a_cycle() {
    // Regression (docs/plans/bugs.md): a pkgbase that lists its own name
    // in `depends` (a package providing/depending on itself) produced a
    // spurious `cycle: systemd-selinux → systemd-selinux` from the
    // full-graph `topo::sort`. The self-edge must be dropped before the
    // cycle check, so the package resolves normally.
    let plan = run(
        &["systemd-selinux"],
        vec![entry("systemd-selinux", &["systemd-selinux"], &[])],
        &[],
    )
    .expect("a package depending on itself must resolve, not cycle");
    assert!(plan.direct_aur.contains("systemd-selinux"));
    assert_eq!(strata(&plan), vec![vec!["systemd-selinux".to_owned()]]);
}

#[test]
fn aur_self_makedepend_is_not_a_cycle() {
    // Same self-edge via `makedepends` (a split pkgbase whose build dep
    // names its own pkgbase). It must clear both the `topo::sort` cycle
    // check and strata — a single unblocked stratum.
    let plan = run(&["foo"], vec![entry("foo", &[], &["foo"])], &[])
        .expect("a pkgbase makedepending on itself must resolve, not cycle");
    assert_eq!(strata(&plan), vec![vec!["foo".to_owned()]]);
}

#[test]
fn checkdepends_count_as_buildtime() {
    // checkdeps run check() at build time, so they're build-edges too.
    let plan = run(
        &["a"],
        vec![
            entry_full("a", &["a"], &[], &[], &["b"], &[]),
            entry("b", &[], &[]),
        ],
        &[],
    )
    .unwrap();
    assert_eq!(
        strata(&plan),
        vec![vec!["b".to_owned()], vec!["a".to_owned()]]
    );
}

#[test]
fn split_pkg_makedep_collapses_to_one_pkgbase() {
    // Pkg `client` makedepends on `helper-libs`, which is a pkgname of
    // pkgbase `helper-pkg` (split pkg with names [helper, helper-libs]).
    // Strata edge must be on the pkgbase, not the pkgname.
    let plan = run(
        &["client"],
        vec![
            entry_full("client", &["client"], &[], &["helper-libs"], &[], &[]),
            entry_full("helper-pkg", &["helper", "helper-libs"], &[], &[], &[], &[]),
        ],
        &[],
    )
    .unwrap();
    assert_eq!(
        strata(&plan),
        vec![vec!["helper-pkg".to_owned()], vec!["client".to_owned()]]
    );
}

#[test]
fn split_pkg_visited_once() {
    // Two of the split pkgnames named as targets should still result in
    // a single pkgbase visit.
    let plan = run(
        &["helper", "helper-libs"],
        vec![entry_full(
            "helper-pkg",
            &["helper", "helper-libs"],
            &[],
            &[],
            &[],
            &[],
        )],
        &[],
    )
    .unwrap();
    assert_eq!(plan.aur_strata.len(), 1);
    assert_eq!(strata(&plan)[0], vec!["helper-pkg".to_owned()]);
}

// ---- direct/transitive partitioning ---------------------------------

#[test]
fn user_named_repo_target_is_direct_even_when_also_dep() {
    // foo is a repo pkg and also a makedep of an AUR pkg a. User asked
    // for foo explicitly → direct_repo (not transitive_repo).
    let plan = run(&["foo", "a"], vec![entry("a", &[], &["foo"])], &["foo"]).unwrap();
    assert_eq!(plan.direct_repo, vec!["foo".to_owned()]);
    assert!(plan.transitive_repo.is_empty());
}

#[test]
fn unsolicited_repo_dep_is_transitive() {
    let plan = run(&["a"], vec![entry("a", &[], &["foo"])], &["foo"]).unwrap();
    assert!(plan.direct_repo.is_empty());
    assert_eq!(plan.transitive_repo, vec!["foo".to_owned()]);
}

// ---- provides resolution: the `paru` regression --------------------

/// AUR `paru` makedepends on the virtual `cargo` and `libalpm.so`.
/// Those are not packages — `rust` provides `cargo` and `pacman`
/// provides `libalpm.so`. The plan must list the concrete pkgnames
/// with their versions, never the virtuals.
#[test]
fn aur_makedep_virtual_provides_resolves_to_concrete() {
    let idx = IndexFile {
        entries: vec![entry("paru", &[], &["cargo", "libalpm.so"])],
        ..IndexFile::empty()
    };
    let by = Lookup::build(&idx);
    let mut pac = PacmanIndex::default();
    pac.sync_versions.insert("rust".into(), Version::new("1.80.0-1"));
    pac.sync_providers
        .insert("cargo".into(), vec!["rust".into()]);
    pac.sync_versions.insert("pacman".into(), Version::new("6.1.0-1"));
    pac.sync_providers
        .insert("libalpm.so".into(), vec!["pacman".into()]);
    let plan = resolve(&idx, &by, &pac, &vec!["paru".to_owned()]).unwrap();

    assert_eq!(strata(&plan), vec![vec!["paru".to_owned()]]);
    let mut t = plan.transitive_repo.clone();
    t.sort();
    assert_eq!(t, vec!["pacman".to_owned(), "rust".to_owned()]);
    assert!(plan.direct_repo.is_empty());
}

/// When a provider is already installed, the dep is already satisfied —
/// pacman --needed would no-op — so the resolver must drop it entirely
/// rather than show a phantom row in the plan.
#[test]
fn aur_makedep_provider_already_installed_is_dropped() {
    let idx = IndexFile {
        entries: vec![entry("paru", &[], &["cargo"])],
        ..IndexFile::empty()
    };
    let by = Lookup::build(&idx);
    let mut pac = PacmanIndex::default();
    pac.installed.insert("rust".into(), Version::new("1.80.0-1"));
    pac.installed_providers
        .insert("cargo".into(), vec!["rust".into()]);
    // rust is also in sync, but installed wins.
    pac.sync_versions.insert("rust".into(), Version::new("1.80.0-1"));
    pac.sync_providers
        .insert("cargo".into(), vec!["rust".into()]);
    let plan = resolve(&idx, &by, &pac, &vec!["paru".to_owned()]).unwrap();

    assert_eq!(strata(&plan), vec![vec!["paru".to_owned()]]);
    assert!(plan.transitive_repo.is_empty());
    assert!(plan.direct_repo.is_empty());
}

/// A concrete pkg may land in `direct_repo` via one alias (`rust`) AND in
/// `transitive_repo` via another (a dep `cargo` → `rust`). Direct wins —
/// the cross-bucket dedup pass must drop the transitive copy so the
/// install argv isn't double-listed.
#[test]
fn provides_dedup_prefers_direct_over_transitive() {
    let idx = IndexFile {
        entries: vec![entry("paru", &[], &["cargo"])],
        ..IndexFile::empty()
    };
    let by = Lookup::build(&idx);
    let mut pac = PacmanIndex::default();
    pac.sync_versions.insert("rust".into(), Version::new("1.80.0-1"));
    pac.sync_providers
        .insert("cargo".into(), vec!["rust".into()]);
    let plan = resolve(
        &idx,
        &by,
        &pac,
        &vec!["rust".to_owned(), "paru".to_owned()],
    )
    .unwrap();

    assert_eq!(plan.direct_repo, vec!["rust".to_owned()]);
    assert!(
        plan.transitive_repo.is_empty(),
        "rust must not appear in both buckets, got transitive {:?}",
        plan.transitive_repo
    );
}

// ---- direct-rebuild override ----------------------------------------

/// A direct target that's already installed but also lives in the AUR
/// index must rebuild (route to `aur_strata`), not get dropped as satisfied.
/// This is the `-Syu` AUR upgrade path and `-S name` on an installed AUR
/// pkg — the classifier can't see version, so the resolver overrides.
#[test]
fn installed_direct_aur_target_routes_to_rebuild() {
    let idx = IndexFile {
        entries: vec![entry("brave-bin", &[], &[])],
        ..IndexFile::empty()
    };
    let by = Lookup::build(&idx);
    let mut pac = PacmanIndex::default();
    pac.installed
        .insert("brave-bin".into(), Version::new("1:1.90.121-1"));
    let plan = resolve(&idx, &by, &pac, &vec!["brave-bin".to_owned()]).unwrap();
    assert_eq!(strata(&plan), vec![vec!["brave-bin".to_owned()]]);
}

/// Transitive deps that are already installed must stay dropped — only
/// direct targets get the rebuild override. A makedep `helper` that's
/// installed shouldn't trigger a needless rebuild of `helper`.
#[test]
fn installed_transitive_aur_dep_is_still_dropped() {
    let idx = IndexFile {
        entries: vec![entry("client", &[], &["helper"]), entry("helper", &[], &[])],
        ..IndexFile::empty()
    };
    let by = Lookup::build(&idx);
    let mut pac = PacmanIndex::default();
    pac.installed.insert("helper".into(), Version::new("1.0-1"));
    let plan = resolve(&idx, &by, &pac, &vec!["client".to_owned()]).unwrap();
    // Only client should be in the build plan; helper stays satisfied.
    assert_eq!(strata(&plan), vec![vec!["client".to_owned()]]);
}

// ---- cycles ---------------------------------------------------------

#[test]
fn cycle_in_makedepends_errors() {
    let err = run(
        &["a"],
        vec![entry("a", &[], &["b"]), entry("b", &[], &["a"])],
        &[],
    )
    .err().unwrap();
    assert!(matches!(err, Error::Resolve(_)));
}

#[test]
fn cycle_in_runtime_depends_errors_too() {
    // Strata wouldn't see this cycle (it's not on make edges), but the
    // full-dep cycle check catches it.
    let err = run(
        &["a"],
        vec![entry("a", &["b"], &[]), entry("b", &["a"], &[])],
        &[],
    )
    .err().unwrap();
    assert!(matches!(err, Error::Resolve(_)));
}

// ---- direct_targets bookkeeping -------------------------------------

#[test]
fn direct_targets_records_user_input_verbatim() {
    let plan = run(&["foo", "bar>=2"], vec![], &["foo", "bar"]).unwrap();
    assert!(plan.direct_targets.contains("foo"));
    assert!(plan.direct_targets.contains("bar>=2"));
}

// ---- aur_order() convenience ----------------------------------------

#[test]
fn aur_order_flattens_strata_preserving_order() {
    let plan = run(
        &["a"],
        vec![
            entry("a", &[], &["b"]),
            entry("b", &[], &["c"]),
            entry("c", &[], &[]),
        ],
        &[],
    )
    .unwrap();
    let order = plan.aur_order();
    let order: Vec<&str> = order.iter().map(|b| b.as_str()).collect();
    assert_eq!(order, vec!["c", "b", "a"]);
}

#[test]
fn unknown_targets_are_listed_sorted() {
    let err = run(&["zeta", "alpha", "foo"], vec![], &["foo"]).err().unwrap();
    assert!(err.to_string().contains("alpha, zeta"), "{}", err.to_string());
}

#[test]
fn every_bucket_is_its_own() {
    let plan = run(
        &["a", "foo"],
        vec![entry("a", &["b"], &["c", "bar"]), entry("b", &[], &[]), entry("c", &["foo"], &[])],
        &["foo", "bar"],
    )
    .unwrap();
    assert_eq!(plan.direct_repo, ["foo"]);
    assert_eq!(plan.transitive_repo, ["bar"]);
    let order: Vec<String> = plan.aur_order().iter().map(|b| b.to_string()).collect();
    assert_eq!(order.len(), 3);
    // What a build needs comes before it.
    let at = |n: &str| order.iter().position(|o| o == n).unwrap();
    assert!(at("c") < at("a"));
    assert_eq!(
        plan.aur_make_edges.get("a").unwrap().iter().map(|b| b.as_str()).collect::<Vec<_>>(),
        ["c"]
    );
}

#[test]
fn a_pkgbase_has_its_part_of_the_plan() {
    let mut plan = Plan::default();
    assert!(plan.only_requested());
    plan.pkgname_selections.insert(PkgBase::new("bisq"), vec!["bisq-cli".into()]);
    plan.counterpart_hints.insert(PkgBase::new("bisq"), "bisq".into());
    let bisq = PkgBase::new("bisq");
    let part = plan.pkgbase_plan(&bisq);
    assert_eq!(part.pkgbase.as_str(), "bisq");
    assert_eq!(part.selection.unwrap()[0].as_str(), "bisq-cli");
    assert_eq!(part.hint.unwrap().as_str(), "bisq");
    let other = PkgBase::new("other");
    let part = plan.pkgbase_plan(&other);
    assert!(part.selection.is_none() && part.hint.is_none());
}

#[test]
fn what_came_up_last_is_looked_at_first() {
    let mut pac = PacmanIndex::default();
    sync_pkg(&mut pac, "one", &["x", "y"]);
    sync_pkg(&mut pac, "two", &["y", "z"]);
    for n in ["x", "y", "z"] {
        sync_pkg(&mut pac, n, &[]);
    }
    let plan = resolve_repo(&pac, &["one", "two"]);
    assert_eq!(plan.direct_repo, vec!["two".to_owned(), "one".to_owned()]);
    assert_eq!(
        plan.transitive_repo,
        vec!["z".to_owned(), "y".to_owned(), "x".to_owned()]
    );
}

#[test]
fn a_cycle_of_plain_needs_is_reported_before_any_other() {
    let entries = vec![entry("a", &["b"], &[]), entry("b", &["a"], &[])];
    match run(&["a"], entries, &[]) {
        Err(Error::Resolve(m)) => assert_eq!(m, "cycle: a \u{2192} b \u{2192} a"),
        _ => panic!("a cycle is an error"),
    }
}
