//! Conflicts of what is staged.

use aurox::maps::NameSet;
use aurox::names::{PkgName, PkgTarget};
use aurox::resolver::conflict::{check, Declarer};

fn declarer(name: &str, conflicts: &[&str], replaces: &[&str]) -> Declarer {
    Declarer {
        name: PkgName::from(name),
        conflicts: conflicts.iter().map(|s| PkgTarget::new(s)).collect(),
        replaces: replaces.iter().map(|s| PkgTarget::new(s)).collect(),
    }
}

fn names(specs: &[&str]) -> NameSet<PkgName> {
    let mut r = NameSet::new();
    for s in specs {
        r.insert(PkgName::from(*s));
    }
    r
}

/// Nothing installed, no removals.
fn none(_: &PkgName) -> bool {
    false
}

#[test]
fn two_staged_packages_that_conflict_are_rejected() {
    // `foo-bin` (staged) declares conflicts=foo; `foo` is also staged.
    let declarers = vec![declarer("foo-bin", &["foo"], &[])];
    let staged = names(&["foo-bin", "foo"]);
    let err = check(&declarers, &staged, none, &NameSet::new()).unwrap_err();
    assert!(
        err.to_string().contains("foo-bin conflicts with foo"),
        "{}", err.to_string()
    );
}

#[test]
fn conflict_with_an_installed_package_is_rejected() {
    let declarers = vec![declarer("dotnet-core-bin", &["dotnet-runtime"], &[])];
    let staged = names(&["dotnet-core-bin"]);
    let installed = names(&["dotnet-runtime"]);
    let err = check(
        &declarers,
        &staged,
        |n: &PkgName| installed.contains(n.as_str()),
        &NameSet::new(),
    )
    .unwrap_err();
    assert!(err.to_string().contains("remove dotnet-runtime"), "{}", err.to_string());
}

#[test]
fn a_matching_replaces_makes_the_conflict_transparent() {
    // conflicts=X paired with replaces=X: the swap is automatic, not a block.
    let declarers = vec![declarer(
        "dotnet-core-bin",
        &["dotnet-runtime"],
        &["dotnet-runtime"],
    )];
    let installed = names(&["dotnet-runtime"]);
    assert!(
        check(
            &declarers,
            &names(&["dotnet-core-bin"]),
            |n: &PkgName| installed.contains(n.as_str()),
            &NameSet::new()
        )
        .is_ok()
    );
}

#[test]
fn removing_the_conflicting_package_clears_it() {
    // Staging the -bin while also staging the old one for removal is fine.
    let declarers = vec![declarer("dotnet-core-bin", &["dotnet-runtime"], &[])];
    let installed = names(&["dotnet-runtime"]);
    let removing = names(&["dotnet-runtime"]);
    assert!(
        check(
            &declarers,
            &names(&["dotnet-core-bin"]),
            |n: &PkgName| installed.contains(n.as_str()),
            &removing
        )
        .is_ok()
    );
}

#[test]
fn a_conflict_against_something_absent_is_fine() {
    // conflicts=X but X is neither staged nor installed → no collision.
    let declarers = vec![declarer("foo-bin", &["foo"], &[])];
    assert!(check(&declarers, &names(&["foo-bin"]), none, &NameSet::new()).is_ok());
}

#[test]
fn a_versioned_conflict_matches_on_the_bare_name() {
    // conflicts=foo>=2 collides with a present `foo` (constraint ignored for
    // the bare-name co-presence test).
    let declarers = vec![declarer("foo-bin", &["foo>=2"], &[])];
    assert!(
        check(
            &declarers,
            &names(&["foo-bin", "foo"]),
            none,
            &NameSet::new()
        )
        .is_err()
    );
}

#[test]
fn a_package_does_not_conflict_with_itself() {
    let declarers = vec![declarer("foo", &["foo"], &[])];
    assert!(check(&declarers, &names(&["foo"]), none, &NameSet::new()).is_ok());
}
