//! What changed from one version to the next.

use aurox::pacman::vercmp::is_outdated;
use aurox::pacman::verdiff::{
    classify_bump, common_prefix_at_boundary, shared_prefix, split_ver, BumpKind,
};
use aurox::version::Version;
use std::cmp::Ordering;

fn v(s: &str) -> Version {
    Version::new(s)
}

#[test]
fn classify_bump_layers() {
    assert_eq!(classify_bump(&v("1.0-1"), &v("1.0-2")), BumpKind::PkgRel);
    assert_eq!(classify_bump(&v("1.0.0-1"), &v("1.0.1-1")), BumpKind::Patch);
    assert_eq!(classify_bump(&v("1.0-1"), &v("1.1-1")), BumpKind::Minor);
    assert_eq!(classify_bump(&v("1.0-1"), &v("2.0-1")), BumpKind::Major);
    assert_eq!(classify_bump(&v("1:1.0-1"), &v("2:1.0-1")), BumpKind::Epoch);
    assert_eq!(classify_bump(&v("1.0-1"), &v("1.0-1")), BumpKind::Other);
}

#[test]
fn classify_bump_handles_trailing_component() {
    assert_eq!(classify_bump(&v("1.2-1"), &v("1.2.1-1")), BumpKind::Patch);
}

#[test]
fn classify_bump_first_layer_wins() {
    // pkgrel also changed, but the pkgver bump is what we report.
    assert_eq!(classify_bump(&v("1.0-3"), &v("1.1-1")), BumpKind::Minor);
}

/// `BumpKind`'s derived `Ord` is load-bearing: `upgrade_table` sorts
/// rows by it to put the most-severe bumps first. If a future refactor
/// reorders the enum variants this test breaks immediately.
#[test]
fn bumpkind_orders_most_severe_first() {
    let mut kinds = [
        BumpKind::Other,
        BumpKind::PkgRel,
        BumpKind::Patch,
        BumpKind::Minor,
        BumpKind::Major,
        BumpKind::Epoch,
    ];
    kinds.sort();
    assert_eq!(
        kinds,
        [
            BumpKind::Epoch,
            BumpKind::Major,
            BumpKind::Minor,
            BumpKind::Patch,
            BumpKind::PkgRel,
            BumpKind::Other,
        ]
    );
}

/// Helper: byte index → suffix of `new`. Reads more naturally in tests.
/// Inputs are `&str` literals; wrap once before calling the typed API
/// and slice the original `new` by the returned byte position.
fn suffix_of<'a>(old: &str, new: &'a str) -> &'a str {
    &new[common_prefix_at_boundary(&v(old), &v(new))..]
}

#[test]
fn split_at_component_boundary_not_mid_component() {
    // Char-by-char common prefix is `1.2`, but the second component
    // changed (`2` → `20`) so we back up to the `.` separator.
    assert_eq!(suffix_of("1.2.3", "1.20.0"), "20.0");
}

#[test]
fn split_pkgrel_only() {
    assert_eq!(suffix_of("1.0.0-1", "1.0.0-2"), "2");
}

#[test]
fn split_patch_bump() {
    assert_eq!(suffix_of("1.0.0-1", "1.0.1-1"), "1-1");
}

#[test]
fn split_major_bump_no_prefix() {
    assert_eq!(suffix_of("1.2.3", "2.0.0"), "2.0.0");
}

#[test]
fn split_epoch_change() {
    // Epoch `:` is the first divergence char and is itself a separator,
    // so the suffix starts right at the new epoch digit.
    assert_eq!(suffix_of("1:1.0-1", "2:1.0-1"), "2:1.0-1");
}

#[test]
fn split_extra_trailing_component() {
    // No divergence inside the common run — fall through to keeping the
    // full shared prefix, so the new suffix is just the added tail.
    assert_eq!(suffix_of("1.2", "1.2.1"), ".1");
}

#[test]
fn split_identical_versions() {
    assert_eq!(suffix_of("1.0-1", "1.0-1"), "");
}

#[test]
fn split_handles_underscore_as_boundary() {
    // `1.0_beta1` → `1.0_beta2`: `_` is non-alphanumeric, so we back up
    // to it rather than splitting inside `beta1`/`beta2`.
    assert_eq!(suffix_of("1.0_beta1", "1.0_beta2"), "beta2");
}

#[test]
fn split_alpha_suffix_inside_component() {
    // `5.10rc1` vs `5.10rc2`: no separator between `5.10` and `rc1`,
    // so we back up to the `.` and color the whole `10rc2`.
    assert_eq!(suffix_of("5.10rc1", "5.10rc2"), "10rc2");
}

#[test]
fn split_is_utf8_safe() {
    // Multi-byte chars in the common run must not desync byte indexing.
    assert_eq!(suffix_of("1.α-1", "1.α-2"), "2");
}

#[test]
fn versions_have_up_to_three_parts() {
    assert_eq!(split_ver("2:1.0-3"), (Some("2"), "1.0", Some("3")));
    assert_eq!(split_ver("1.0"), (None, "1.0", None));
    assert_eq!(split_ver("1.0-rc-3"), (None, "1.0-rc", Some("3")));
}

#[test]
fn equal_versions_show_no_bump() {
    assert_eq!(classify_bump(&v("3:1.2.3-4"), &v("3:1.2.3-4")), BumpKind::Other);
    assert_eq!(suffix_of("3:1.2.3-4", "3:1.2.3-4"), "");
}

#[test]
fn the_cut_backs_up_to_the_last_boundary() {
    assert_eq!(shared_prefix("1.23", "1.24", &vec![true, false, true, true]), 2);
    assert_eq!(shared_prefix("123", "124", &vec![true, true, true]), 0);
}

/// The orders are those that libalpm gives for the versions.
#[test]
fn outdated_helper() {
    let orders = [
        ("1.0-1", "1.0-2", Ordering::Less, true),
        ("1.0-2", "1.0-2", Ordering::Equal, false),
        ("1.1", "1.0", Ordering::Greater, false),
    ];
    for (installed, available, order, want) in orders {
        assert_eq!(is_outdated(order), want, "{installed} {available}");
    }
}
