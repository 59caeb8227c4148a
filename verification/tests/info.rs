//! The `info` block and the search listing.

use aurox::error::Error;
use aurox::index::info::{
    cmd_info, cmd_search, compile_terms, field, first_submitted, has_commit, info_block,
    installed_members, list_field, maintainers, multiline_field, report_missing, unavailable, write_info, write_search_result,
    Extras, InstalledMember, Label,
};
use aurox::index::schema::{IndexEntry, IndexFile, Pkgname};
use aurox::index::secondary::Secondary;
use aurox::index::AurState;
use aurox::names::{Arch, Maintainer, PkgName, PkgTarget, SearchTerm, Url};
use aurox::units::{ByteSize, UnixTime};

const ALL: [Label; 21] = [
    Label::Repository,
    Label::Name,
    Label::SplitPkgs,
    Label::Version,
    Label::Description,
    Label::Architecture,
    Label::Url,
    Label::Provides,
    Label::DependsOn,
    Label::MakeDeps,
    Label::CheckDeps,
    Label::OptionalDeps,
    Label::ConflictsWith,
    Label::Replaces,
    Label::DownloadSize,
    Label::InstalledSize,
    Label::Maintainer,
    Label::Packager,
    Label::FirstSubmitted,
    Label::LastUpdated,
    Label::BuildDate,
];

fn listed(e: &IndexEntry) -> String {
    let mut out = String::new();
    write_search_result(&mut out, e);
    out
}

fn mk(pkgbase: &str) -> IndexEntry {
    IndexEntry {
        pkgbase: pkgbase.into(),
        pkgnames: vec![Pkgname {
            name: pkgbase.into(),
            provides: Vec::new(),
            pkgdesc: None,
        }],
        pkgver: "1.0".into(),
        pkgrel: "1".into(),
        ..Default::default()
    }
}

fn member(name: &str, desc: Option<&str>) -> Pkgname {
    Pkgname {
        name: name.into(),
        provides: Vec::new(),
        pkgdesc: desc.map(str::to_owned),
    }
}

#[test]
fn minimal_entry_renders_header_fields_only() {
    let out = write_info(&mk("foo"), &Extras::default());
    assert_eq!(
        out,
        "Repository      : aur\n\
         Name            : foo\n\
         Version         : 1.0-1\n\
         \n"
    );
}

#[test]
fn full_entry_renders_pacman_si_field_order() {
    let mut e = mk("foo");
    e.pkgdesc = Some("does foo".into());
    e.url = Some(Url::new("https://foo.example"));
    e.arch = vec![Arch::new("i686"), Arch::new("x86_64")];
    e.provides = vec![PkgTarget::new("libfoo.so")];
    e.depends = vec![PkgTarget::new("glibc>=2.38")];
    e.makedepends = vec![PkgTarget::new("cmake")];
    e.checkdepends = vec![PkgTarget::new("python-pytest")];
    e.optdepends = vec!["cups: printing support".into(), "bash-completion".into()];
    e.conflicts = vec![PkgTarget::new("foo-git")];
    e.replaces = vec![PkgTarget::new("foo-legacy")];
    let out = write_info(&e, &Extras::default());
    assert_eq!(
        out,
        "Repository      : aur\n\
         Name            : foo\n\
         Version         : 1.0-1\n\
         Description     : does foo\n\
         Architecture    : i686 x86_64\n\
         URL             : https://foo.example\n\
         Provides        : libfoo.so\n\
         Depends On      : glibc>=2.38\n\
         Make Deps       : cmake\n\
         Check Deps      : python-pytest\n\
         Optional Deps   : cups: printing support\n                  bash-completion\n\
         Conflicts With  : foo-git\n\
         Replaces        : foo-legacy\n\
         \n"
    );
}

#[test]
fn extras_render_after_the_index_fields() {
    let mut e = mk("foo");
    e.commit_time = UnixTime::new(1_700_000_000);
    let x = Extras {
        maintainers: vec![Maintainer::new("Jane Doe <jane@example.org>")],
        first_submitted: Some(UnixTime::new(1_600_000_000)),
        installed: vec![InstalledMember {
            name: PkgName::new("foo"),
            size: ByteSize::new(12 * 1024 * 1024),
        }],
    };
    let out = write_info(&e, &x);
    assert!(out.contains("Installed Size  : 12.00 MiB\n"), "{out}");
    assert!(out.contains("Maintainer      : Jane Doe <jane@example.org>\n"), "{out}");
    // System-timezone rendering makes the exact text environment-dependent;
    // presence and ordering are what this pins.
    let submitted = out.find("First Submitted").unwrap();
    let updated = out.find("Last Updated").unwrap();
    assert!(submitted < updated, "field order regressed:\n{out}");
}

#[test]
fn each_date_line_shows_its_own_time() {
    let mut e = mk("foo");
    e.commit_time = UnixTime::new(1_700_000_000);
    let x = Extras { first_submitted: Some(UnixTime::new(1_600_000_000)), ..Extras::default() };
    let out = write_info(&e, &x);
    let first = UnixTime::new(1_600_000_000).render().unwrap();
    let last = UnixTime::new(1_700_000_000).render().unwrap();
    assert!(out.contains(&format!("First Submitted : {first}\n")), "{out}");
    assert!(out.contains(&format!("Last Updated    : {last}\n")), "{out}");
}

#[test]
fn unknown_commit_time_omits_last_updated() {
    // The `UnixTime` sentinel (entries from pre-v4 archives).
    let out = write_info(&mk("foo"), &Extras::default());
    assert!(!out.contains("Last Updated"), "{out}");
}

#[test]
fn split_members_render_one_per_line_with_their_desc() {
    let mut e = mk("bisq");
    e.pkgnames = vec![
        member("bisq-desktop", Some("Desktop client")),
        member("bisq-cli", None),
    ];
    let out = write_info(&e, &Extras::default());
    assert!(out.contains("Split pkgs      : bisq-desktop: Desktop client\n"), "{out}");
    assert!(out.contains("                  bisq-cli\n"), "{out}");
}

#[test]
fn split_installed_sizes_are_labelled_per_member() {
    let mut e = mk("bisq");
    e.pkgnames = vec![member("bisq-desktop", None), member("bisq-cli", None)];
    let x = Extras {
        installed: vec![
            InstalledMember {
                name: PkgName::new("bisq-desktop"),
                size: ByteSize::new(210 * 1024 * 1024),
            },
            InstalledMember {
                name: PkgName::new("bisq-cli"),
                size: ByteSize::new(1024 * 1024),
            },
        ],
        ..Default::default()
    };
    let out = write_info(&e, &x);
    assert!(out.contains("Installed Size  : bisq-desktop: 210.00 MiB\n"), "{out}");
    assert!(out.contains("                  bisq-cli: 1.00 MiB\n"), "{out}");
}

#[test]
fn maintainer_comments_parse_case_insensitively_in_file_order() {
    let pkgbuild = "\
# maintainer: First <first@example.org>
#Maintainer : Second <second@example.org>
# Contributor: Old Hand <old@example.org>
# maintainership notes: not a person
pkgname=foo
# Maintainer: buried mid-file counts too
";
    assert_eq!(
        maintainers(pkgbuild),
        vec![
            Maintainer::new("First <first@example.org>"),
            Maintainer::new("Second <second@example.org>"),
            Maintainer::new("buried mid-file counts too"),
        ]
    );
}

#[test]
fn maintainer_without_colon_or_value_is_skipped() {
    assert!(maintainers("# Maintainer\n# Maintainer:\n# Maintainer:   \n").is_empty());
}

#[test]
fn every_label_fits_the_16_column_gutter() {
    for l in ALL {
        assert!(
            l.text().len() <= 16,
            "label {l:?} ({:?}) overflows the value column",
            l.text()
        );
    }
}

#[test]
fn search_result_writes_to_writer_not_stdout() {
    // The function takes any Write, so it must not be coupled to stdout.
    // (If it called println! the buffer below would be empty.)
    let e = mk("foo");
    let out = listed(&e);
    assert!(!out.is_empty(), "writer captured nothing");
}

#[test]
fn search_result_format_matches_pacman_ss() {
    // pacman -Ss prints `repo/name version` then indented description.
    let mut e = mk("foo");
    e.pkgdesc = Some("does foo".into());
    let out = listed(&e);
    assert_eq!(out, "aur/foo 1.0-1\n    does foo\n");
}

#[test]
fn search_result_omits_description_block_when_none() {
    // Single-line output, no blank "    " for entries without a pkgdesc.
    let out = listed(&mk("bar"));
    assert_eq!(out, "aur/bar 1.0-1\n");
}

#[test]
fn search_result_includes_epoch_when_present() {
    let mut e = mk("baz");
    e.epoch = Some("2".into());
    let out = listed(&e);
    assert!(out.starts_with("aur/baz 2:1.0-1\n"), "got: {out:?}");
}

#[test]
fn search_result_skips_empty_epoch_string() {
    // An empty-string epoch (e.g. from `epoch=` with no value) is not
    // rendered as `:1.0-1`. Regression bait: version_string special-cases
    // it.
    let mut e = mk("qux");
    e.epoch = Some(String::new());
    let out = listed(&e);
    assert!(out.starts_with("aur/qux 1.0-1\n"), "got: {out:?}");
}

#[test]
fn fields_are_aligned() {
    let mut out = String::new();
    field(&mut out, Label::Url, "u");
    list_field(&mut out, Label::Replaces, &vec!["a".to_owned(), "b".to_owned()]);
    list_field(&mut out, Label::Provides, &vec![]);
    multiline_field(&mut out, Label::Packager, &vec!["x".to_owned(), "y".to_owned()]);
    assert_eq!(
        out,
        "URL             : u\nReplaces        : a b\nPackager        : x\n                  y\n"
    );
}

#[test]
fn times_are_shown_as_given() {
    let e = mk("foo");
    let out = info_block(&e, &Extras::default(), &Some("long ago".to_owned()), &Some("today".to_owned()));
    assert!(out.ends_with("First Submitted : long ago\nLast Updated    : today\n\n"), "{out}");
}

#[test]
fn the_oldest_root_was_submitted_first() {
    assert_eq!(first_submitted(&vec![30, 10, 20]), Some(UnixTime::new(10)));
    assert_eq!(first_submitted(&vec![]), None);
}

#[test]
fn installed_members_keep_the_order_of_the_pkgnames() {
    let mut e = mk("bisq");
    e.pkgnames = vec![member("a", None), member("b", None), member("c", None)];
    let got = installed_members(&e, &vec![Some(7), None, Some(-1)]);
    let shown: Vec<(&str, u64)> = got.iter().map(|m| (m.name.as_str(), m.size.0)).collect();
    assert_eq!(shown, [("a", 7), ("c", 0)]);
    let mut oid = [0u8; 20];
    assert!(!has_commit(&oid));
    oid[19] = 1;
    assert!(has_commit(&oid));
}

#[test]
fn a_missing_index_is_explained() {
    assert_eq!(unavailable(AurState::Ready), None);
    assert_eq!(
        unavailable(AurState::NotSetUp),
        Some("no AUR index; run `aurox -Sy` first")
    );
    assert_eq!(
        unavailable(AurState::Disabled),
        Some("AUR info is disabled (aur = false in config.toml)")
    );
}

#[test]
fn missing_targets_are_listed() {
    assert_eq!(report_missing(&vec![]), (None, 0));
    assert_eq!(
        report_missing(&vec!["a".to_owned(), "b".to_owned()]),
        (Some("not in AUR: a, b".to_owned()), 1)
    );
}

#[test]
fn info_finds_what_it_can() {
    let idx = IndexFile { entries: vec![mk("foo"), mk("bar")], ..IndexFile::empty() };
    let by = Secondary::build(&idx);
    let r = cmd_info(
        &idx,
        &by,
        &vec![PkgTarget::new("bar>=1"), PkgTarget::new("nope"), PkgTarget::new("foo")],
    );
    let found: Vec<&str> = r.found.iter().map(|e| e.pkgbase.as_str()).collect();
    assert_eq!(found, ["bar", "foo"]);
    assert_eq!(r.warning.as_deref(), Some("not in AUR: nope"));
    assert_eq!(r.code, 1);

    let r = cmd_info(&idx, &by, &vec![PkgTarget::new("foo")]);
    assert_eq!(r.warning, None);
    assert_eq!(r.code, 0);
}

#[test]
fn search_lists_in_index_order() {
    let mut bar = mk("bar");
    bar.pkgdesc = Some("foo helper".to_owned());
    let idx = IndexFile { entries: vec![bar, mk("foo"), mk("qux")], ..IndexFile::empty() };
    let by = Secondary::build(&idx);
    let regexes = compile_terms(&vec![SearchTerm::new("FOO")]).unwrap();
    assert_eq!(
        cmd_search(&idx, &by, &regexes),
        "aur/bar 1.0-1\n    foo helper\naur/foo 1.0-1\n"
    );
}

#[test]
fn the_first_broken_term_is_reported() {
    let e = compile_terms(&vec![SearchTerm::new("ok"), SearchTerm::new("(")]).err().unwrap();
    assert!(matches!(e, Error::Regex(_)));
    assert_eq!(compile_terms(&vec![]).unwrap().len(), 0);
}
