//! Names of packages, repositories and dependencies.

use aurox::maps::{NameMap, NameSet};
use aurox::names::{
    anchor_of, Arch, NameMatch, OptDep, PkgBase, PkgName, PkgTarget, RepoName, SearchTerm, Url,
    VirtualName,
};
use aurox::text::{pad, Align};

#[test]
fn optdep_parses_dep_and_reason() {
    let od = OptDep::from("cups: printing support");
    assert_eq!(od.dep(), &PkgTarget::new("cups"));
    assert_eq!(od.to_string(), "cups: printing support");

    // The colon of an epoch does not separate.
    let epoch = OptDep::from("libfoo>=1:2.0: frobnication");
    assert_eq!(epoch.dep(), &PkgTarget::new("libfoo>=1:2.0"));
    assert_eq!(epoch.dep().bare(), "libfoo");

    let bare = OptDep::from("cups");
    assert_eq!(bare.dep(), &PkgTarget::new("cups"));
    assert_eq!(bare.to_string(), "cups");
    assert_eq!(OptDep::from("cups:").dep(), &PkgTarget::new("cups"));
}

#[test]
fn a_tidy_optdep_line_is_shown_as_it_was_read() {
    for line in ["cups: printing support", "libfoo>=1:2.0: frobnication", "cups", "a: b: c", ""] {
        assert_eq!(OptDep::from(line).to_string(), line);
    }
    assert_eq!(OptDep::from(" cups :  printing ").to_string(), "cups: printing");
    assert_eq!(OptDep::from("cups::").to_string(), "cups");
}

#[test]
fn hashmap_key_lookup_works_with_str() {
    let mut m: NameMap<PkgBase, u32> = NameMap::new();
    m.insert(PkgBase::from("bisq"), 1);
    assert_eq!(m.get("bisq"), Some(&1));
}

#[test]
fn display_returns_raw_string() {
    assert_eq!(
        PkgBase::from("dotnet-core-7.0-bin").to_string(),
        "dotnet-core-7.0-bin"
    );
}

#[test]
fn display_respects_width_and_alignment() {
    assert_eq!(pad(PkgName::from("foo").as_str(), " ", Align::Left, 8), "foo     ");
    assert_eq!(pad(PkgBase::from("foo").as_str(), " ", Align::Left, 8), "foo     ");
    assert_eq!(pad(PkgName::from("foo").as_str(), " ", Align::Right, 8), "     foo");
    assert_eq!(pad(PkgName::from("foo").as_str(), "*", Align::Center, 7), "**foo**");
}

#[test]
fn from_str_and_string_both_work() {
    let a = PkgName::from("foo");
    let b = PkgName::from(String::from("foo"));
    let c: PkgName = "foo".into();
    assert_eq!(a, b);
    assert_eq!(a, c);
}

#[test]
fn pkgbase_is_vcs_detects_vcs_suffixes() {
    assert!(PkgBase::from("neovim-git").is_vcs());
    assert!(PkgBase::from("foo-svn").is_vcs());
    assert!(PkgBase::from("bar-hg").is_vcs());
    assert!(PkgBase::from("baz-bzr").is_vcs());
    assert!(!PkgBase::from("neovim").is_vcs());
    assert!(!PkgBase::from("git-lfs").is_vcs());
}

#[test]
fn arch_round_trips_and_pads() {
    let arch = Arch::new("x86_64");
    assert_eq!(arch.as_str(), "x86_64");
    assert_eq!(arch.to_string(), "x86_64");
    assert_eq!(pad(arch.as_str(), " ", Align::Right, 8), "  x86_64");
}

#[test]
fn padding_keeps_what_is_too_long() {
    assert_eq!(pad("foobar", " ", Align::Left, 3), "foobar");
    // The odd fill character stands at the right.
    assert_eq!(pad("ab", "*", Align::Center, 5), "*ab**");
    // Characters count, not bytes.
    assert_eq!(pad("äö", ".", Align::Right, 4), "..äö");
}

#[test]
fn names_keep_their_text() {
    let name = PkgName::new("gtk3");
    assert_eq!(name.as_str(), "gtk3");
    assert_eq!(name.len(), 4);
    assert!(!name.is_empty());
    assert!(PkgName::default().is_empty());
    assert!(name.starts_with("gtk"));
    assert!(!name.starts_with("gtk4"));
    assert!(name.same_as(&name.clone()));
    assert!(!name.same_as(&PkgName::new("gtk4")));
    assert_eq!(name.into_inner(), "gtk3");
    assert_eq!(RepoName::new("extra").to_string(), "extra");
    assert_eq!(VirtualName::new("java-runtime").as_str(), "java-runtime");
    assert_eq!(Url::new("https://a.example").as_str(), "https://a.example");
}

#[test]
fn the_first_operator_ends_the_name() {
    assert_eq!(PkgTarget::new("foo>=1.2").bare(), "foo");
    assert_eq!(PkgTarget::new("foo = 3").bare(), "foo");
    assert_eq!(PkgTarget::new("foo<2").bare(), "foo");
    for op in [">=", "<=", "==", ">", "<", "="] {
        assert_eq!(PkgTarget::from(format!("lib-foo.so{op}1:2.0-3")).bare(), "lib-foo.so");
    }
    assert_eq!(PkgTarget::new("foo").bare(), "foo");
    assert_eq!(PkgTarget::new("").bare(), "");
}

#[test]
fn an_anchor_tells_prefixes_from_infixes() {
    assert_eq!(anchor_of(Some(0)), Some(NameMatch::Prefix));
    assert_eq!(anchor_of(Some(3)), Some(NameMatch::Inside));
    assert_eq!(anchor_of(None), None);

    let re = regex::Regex::new("fire").unwrap();
    assert_eq!(PkgName::new("firefox").regex_anchor(&re), Some(NameMatch::Prefix));
    assert_eq!(PkgName::new("campfire").regex_anchor(&re), Some(NameMatch::Inside));
    assert_eq!(PkgName::new("chromium").regex_anchor(&re), None);
    assert!(PkgName::new("campfire").matches_regex(&re));
    assert!(!PkgName::new("chromium").matches_regex(&re));
}

#[test]
fn search_terms_ignore_case() {
    let re = SearchTerm::new("FireFox").compile().unwrap();
    assert!(PkgName::new("firefox-bin").matches_regex(&re));
    assert_eq!(SearchTerm::new("FireFox").as_str(), "FireFox");
}

#[test]
fn a_broken_search_term_is_reported() {
    let e = SearchTerm::new("a(b").compile().err().unwrap();
    assert!(e.to_string().contains("unclosed group"), "{e}");
}

#[test]
fn a_map_keeps_the_order_of_first_insertion() {
    let mut m: NameMap<PkgName, u32> = NameMap::new();
    assert!(m.is_empty());
    m.insert(PkgName::new("b"), 1);
    m.insert(PkgName::new("a"), 2);
    m.insert(PkgName::new("b"), 3);
    assert_eq!(m.len(), 2);
    assert_eq!(m.key_at(0).as_str(), "b");
    assert_eq!(m.value_at(0), &3);
    assert_eq!(m.key_at(1).as_str(), "a");
    assert_eq!(m.replace("a", 9), 2);
    assert_eq!(m.get("a"), Some(&9));
    assert!(m.get("c").is_none());

    let mut s: NameSet<PkgName> = NameSet::new();
    assert!(s.insert(PkgName::new("x")));
    assert!(!s.insert(PkgName::new("x")));
    assert_eq!(s.len(), 1);
    assert!(s.contains("x"));
    assert!(!s.contains("y"));
    assert_eq!(s.name_at(0).as_str(), "x");
}

#[test]
fn a_name_becomes_a_target_as_it_is() {
    assert_eq!(PkgTarget::from_pkgbase(&PkgBase::new("yay")).as_str(), "yay");
    assert_eq!(PkgTarget::from_pkgname(&PkgName::new("yay-bin")).as_str(), "yay-bin");
}

#[test]
fn debug_splits_are_told_by_their_suffix() {
    assert!(PkgName::new("yay-debug").is_makepkg_debug_split());
    assert!(!PkgName::new("debug-yay").is_makepkg_debug_split());
    assert!(!PkgName::new("yay").is_makepkg_debug_split());
}
