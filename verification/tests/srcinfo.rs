//! Reading a `.SRCINFO`.

use aurox::error::Error;
use aurox::index::schema::IndexEntry;
use aurox::index::srcinfo::parse;
use aurox::names::{Arch, PkgTarget, Url};

const COWER: &str = "
pkgbase = cower
	pkgdesc = A simple AUR agent with a pretentious name
	pkgver = 17
	pkgrel = 2
	url = https://github.com/falconindy/cower
	arch = i686
	arch = x86_64
	makedepends = perl
	depends = pacman
	depends = curl
	depends = yajl
	provides = cower
	conflicts = cower-git

pkgname = cower
";

const SPLIT: &str = "
pkgbase = mingw-w64-gcc
	pkgver = 13.2.0
	pkgrel = 1
	makedepends = mingw-w64-binutils
	depends = mingw-w64-crt

pkgname = mingw-w64-gcc
	depends = mingw-w64-winpthreads

pkgname = mingw-w64-gcc-libs
	pkgdesc = Runtime libs

pkgname = mingw-w64-gcc-fortran
";

/// 3-way split where one pkgname declares `provides`. Mirrors the real
/// AUR `bisq` entry, which is the regression target for per-pkgname
/// provides attribution.
const BISQ: &str = "
pkgbase = bisq
	pkgver = 1.9.22
	pkgrel = 2
	makedepends = jdk11-openjdk
	depends = jdk11-openjdk

pkgname = bisq-desktop
	provides = bisq
	conflicts = bisq-bin

pkgname = bisq-cli

pkgname = bisq-daemon
";

fn names(e: &IndexEntry) -> Vec<&str> {
    e.pkgnames.iter().map(|p| p.name.as_str()).collect()
}

#[test]
fn parses_simple() {
    let e = parse(COWER).unwrap();
    assert_eq!(e.pkgbase.as_str(), "cower");
    assert_eq!(e.pkgver, "17");
    assert_eq!(e.pkgrel, "2");
    assert_eq!(names(&e), vec!["cower"]);
    assert!(e.depends.contains(&PkgTarget::new("pacman")));
    assert!(e.depends.contains(&PkgTarget::new("curl")));
    // Pkgbase-level provides land on the entry, not on the pkgname.
    assert!(e.provides.contains(&PkgTarget::new("cower")));
    assert!(e.pkgnames[0].provides.is_empty());
    assert!(e.conflicts.contains(&PkgTarget::new("cower-git")));
    assert!(e.arch.contains(&Arch::new("x86_64")));
    assert_eq!(e.url, Some(Url::new("https://github.com/falconindy/cower")));
}

#[test]
fn url_pkgbase_level_wins_over_pkgname_overrides() {
    // The header's url lands first; a per-pkgname override must not
    // replace it (the info block shows one URL per pkgbase).
    let e = parse(
        "
pkgbase = foo
	pkgver = 1
	pkgrel = 1
	url = https://base.example

pkgname = foo
	url = https://member.example
",
    )
    .unwrap();
    assert_eq!(e.url, Some(Url::new("https://base.example")));
}

#[test]
fn url_falls_back_to_first_pkgname_scoped_value() {
    // Split package with no pkgbase-level url: keep the first member's
    // rather than none.
    let e = parse(
        "
pkgbase = foo
	pkgver = 1
	pkgrel = 1

pkgname = foo-a
	url = https://a.example

pkgname = foo-b
	url = https://b.example
",
    )
    .unwrap();
    assert_eq!(e.url, Some(Url::new("https://a.example")));
}

#[test]
fn parses_split() {
    let e = parse(SPLIT).unwrap();
    assert_eq!(e.pkgbase.as_str(), "mingw-w64-gcc");
    assert_eq!(
        names(&e),
        vec![
            "mingw-w64-gcc",
            "mingw-w64-gcc-libs",
            "mingw-w64-gcc-fortran"
        ]
    );
    // Pkgbase-level + pkgname-level depends are both collected.
    assert!(e.depends.contains(&PkgTarget::new("mingw-w64-crt")));
    assert!(e.depends.contains(&PkgTarget::new("mingw-w64-winpthreads")));
    // `pkgdesc` declared inside a `pkgname` section lands on that pkgname,
    // not on the pkgbase (which has no desc here).
    assert!(e.pkgdesc.is_none());
    assert!(e.pkgnames[0].pkgdesc.is_none());
    assert_eq!(e.pkgnames[1].pkgdesc.as_deref(), Some("Runtime libs"));
    assert!(e.pkgnames[2].pkgdesc.is_none());
}

#[test]
fn pkgname_scoped_provides_lands_on_the_right_pkgname() {
    // The bisq regression: only `bisq-desktop` declares `provides = bisq`;
    // the resolver needs to find it on that pkgname's slot, not on the
    // pkgbase-level list or on the wrong sibling.
    let e = parse(BISQ).unwrap();
    assert_eq!(names(&e), vec!["bisq-desktop", "bisq-cli", "bisq-daemon"]);
    assert!(
        e.provides.is_empty(),
        "no pkgbase-level provides → e.provides must be empty",
    );
    assert_eq!(e.pkgnames[0].provides, vec![PkgTarget::new("bisq")]);
    assert!(e.pkgnames[1].provides.is_empty());
    assert!(e.pkgnames[2].provides.is_empty());
    // all_provides() unions both buckets, regardless of attribution.
    let all: Vec<&PkgTarget> = e.all_provides();
    assert_eq!(all, vec![&PkgTarget::new("bisq")]);
}

#[test]
fn pkgbase_provides_inherited_implicitly() {
    // When `provides` is declared at the pkgbase level, every pkgname is
    // a provider — we encode that by leaving the per-pkgname slots
    // empty and letting `e.provides` carry the line. Resolution code
    // that walks both via `all_provides()` (or queries Lookup) sees
    // the same lookup either way.
    let s = "pkgbase = foo\npkgver = 1\npkgrel = 1\nprovides = bar\npkgname = foo\npkgname = foo-extras\n";
    let e = parse(s).unwrap();
    assert_eq!(e.provides, vec![PkgTarget::new("bar")]);
    for p in &e.pkgnames {
        assert!(p.provides.is_empty());
    }
}

#[test]
fn arch_suffixed_keys() {
    // `provides_<arch>` declared at the pkgname level must still land on
    // that pkgname, not on the pkgbase. Catches a regression where
    // arch-folding bypassed the per-section routing.
    let s = "pkgbase = foo\npkgver = 1\npkgrel = 1\npkgname = foo\ndepends_x86_64 = libfoo\nprovides_aarch64 = bar\n";
    let e = parse(s).unwrap();
    assert!(e.depends.contains(&PkgTarget::new("libfoo")));
    assert_eq!(e.pkgnames[0].provides, vec![PkgTarget::new("bar")]);
    assert!(e.provides.is_empty());
}

#[test]
fn rejects_missing_pkgbase() {
    let s = "pkgver = 1\npkgrel = 1\n";
    assert!(parse(s).is_err());
}

#[test]
fn a_missing_pkgbase_is_named() {
    let e = parse("pkgver = 1\npkgrel = 1\n").err().unwrap();
    assert!(matches!(e, Error::SrcInfo(_)));
}

#[test]
fn comments_and_empty_lines_are_skipped() {
    let e = parse("# a comment\npkgbase = foo\n\n\tpkgver = 1\npkgrel = 2\npkgname = foo\n").unwrap();
    assert_eq!(e.pkgbase.as_str(), "foo");
    assert_eq!(e.pkgver, "1");
    assert_eq!(e.pkgrel, "2");
    assert_eq!(names(&e), ["foo"]);
}

#[test]
fn a_line_without_a_value_is_an_error() {
    let e = parse("# a comment\npkgbase = foo\n\nnonsense\n").err().unwrap();
    assert_eq!(e.to_string(), "srcinfo parse: line 4: no `=`");
}

#[test]
fn repeated_list_values_are_kept_once() {
    let e = parse("pkgbase = foo\npkgver = 1\npkgrel = 1\ndepends = b\ndepends = a\ndepends = b\npkgname = foo\n").unwrap();
    let mut deps: Vec<&str> = e.depends.iter().map(|d| d.as_str()).collect();
    assert_eq!(deps.len(), 2);
    deps.sort();
    assert_eq!(deps, ["a", "b"]);
}
