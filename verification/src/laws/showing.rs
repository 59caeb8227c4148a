//! What the user gets to read.

use regex::{Error as RegexError, Regex};
use vstd::prelude::*;

use crate::error::Error;
use crate::index::info::{
    all_meant, all_missing, block_spec, field_spec, first_fault, line_maintainer, lines_of,
    list_spec, maintainer_views, maintainers_spec, meant, member_text, members_spec, optional_spec,
    search_line, search_lines, size_line, unavailable_text, Extras, InstalledMember, Label,
};
use crate::index::schema::{
    all_provides_spec, display_desc_spec, version_spec, EntryView, IndexEntry, IndexFile,
    PkgnameView,
};
use crate::index::secondary::Secondary;
use crate::index::AurState;
use crate::laws::texts::is_without;
use crate::names::{caseless_regex, optdep_spec, optdep_text, OptDepView};
use crate::text::{
    dec, dec_int, join_spec, pad_spec, same_ascii_caseless, trim_spec, trim_start_spec, Align,
};
use crate::ui::{age_text, duration_text, mark, message_spec, Tone};
use crate::units::{
    as_double, double_scale, hundredths, micros_text, pow1024, quotient_parts, round_half_even,
    size_text, tenths, unit_step,
};

verus! {

proof fn lemma_blanks(s: Seq<char>, t: Seq<char>)
    requires
        s.len() <= 16,
        t.len() == 18,
        t.take(s.len() as int) == s,
        forall|i: int| s.len() <= i < 16 ==> #[trigger] t[i] == ' ',
        t[16] == ':',
        t[17] == ' ',
    ensures
        pad_spec(s, ' ', Align::Left, 16) + ": "@ == t,
{
    reveal_strlit(": ");
    let p = pad_spec(s, ' ', Align::Left, 16) + ": "@;
    assert(p.len() == 18);
    assert forall|i: int| 0 <= i < 18 implies p[i] == t[i] by {
        if i < s.len() {
            assert(t.take(s.len() as int)[i] == s[i]);
        }
    }
    assert(p =~= t);
}

/// Each line of a block begins with its label, in a column of its own.
pub proof fn law_how_labels_read(v: Seq<char>)
    ensures
        field_spec(Label::Repository, v) == "Repository      : "@ + v + "\n"@,
        field_spec(Label::Name, v) == "Name            : "@ + v + "\n"@,
        field_spec(Label::SplitPkgs, v) == "Split pkgs      : "@ + v + "\n"@,
        field_spec(Label::Version, v) == "Version         : "@ + v + "\n"@,
        field_spec(Label::Description, v) == "Description     : "@ + v + "\n"@,
        field_spec(Label::Architecture, v) == "Architecture    : "@ + v + "\n"@,
        field_spec(Label::Url, v) == "URL             : "@ + v + "\n"@,
        field_spec(Label::Provides, v) == "Provides        : "@ + v + "\n"@,
        field_spec(Label::DependsOn, v) == "Depends On      : "@ + v + "\n"@,
        field_spec(Label::MakeDeps, v) == "Make Deps       : "@ + v + "\n"@,
        field_spec(Label::CheckDeps, v) == "Check Deps      : "@ + v + "\n"@,
        field_spec(Label::OptionalDeps, v) == "Optional Deps   : "@ + v + "\n"@,
        field_spec(Label::ConflictsWith, v) == "Conflicts With  : "@ + v + "\n"@,
        field_spec(Label::Replaces, v) == "Replaces        : "@ + v + "\n"@,
        field_spec(Label::DownloadSize, v) == "Download Size   : "@ + v + "\n"@,
        field_spec(Label::InstalledSize, v) == "Installed Size  : "@ + v + "\n"@,
        field_spec(Label::Maintainer, v) == "Maintainer      : "@ + v + "\n"@,
        field_spec(Label::Packager, v) == "Packager        : "@ + v + "\n"@,
        field_spec(Label::FirstSubmitted, v) == "First Submitted : "@ + v + "\n"@,
        field_spec(Label::LastUpdated, v) == "Last Updated    : "@ + v + "\n"@,
        field_spec(Label::BuildDate, v) == "Build Date      : "@ + v + "\n"@,
{
    assert(field_spec(Label::Repository, v) == "Repository      : "@ + v + "\n"@) by {
        reveal_strlit("Repository");
        reveal_strlit("Repository      : ");
        assert("Repository      : "@.take(10) =~= "Repository"@);
        lemma_blanks("Repository"@, "Repository      : "@);
    }
    assert(field_spec(Label::Name, v) == "Name            : "@ + v + "\n"@) by {
        reveal_strlit("Name");
        reveal_strlit("Name            : ");
        assert("Name            : "@.take(4) =~= "Name"@);
        lemma_blanks("Name"@, "Name            : "@);
    }
    assert(field_spec(Label::SplitPkgs, v) == "Split pkgs      : "@ + v + "\n"@) by {
        reveal_strlit("Split pkgs");
        reveal_strlit("Split pkgs      : ");
        assert("Split pkgs      : "@.take(10) =~= "Split pkgs"@);
        lemma_blanks("Split pkgs"@, "Split pkgs      : "@);
    }
    assert(field_spec(Label::Version, v) == "Version         : "@ + v + "\n"@) by {
        reveal_strlit("Version");
        reveal_strlit("Version         : ");
        assert("Version         : "@.take(7) =~= "Version"@);
        lemma_blanks("Version"@, "Version         : "@);
    }
    assert(field_spec(Label::Description, v) == "Description     : "@ + v + "\n"@) by {
        reveal_strlit("Description");
        reveal_strlit("Description     : ");
        assert("Description     : "@.take(11) =~= "Description"@);
        lemma_blanks("Description"@, "Description     : "@);
    }
    assert(field_spec(Label::Architecture, v) == "Architecture    : "@ + v + "\n"@) by {
        reveal_strlit("Architecture");
        reveal_strlit("Architecture    : ");
        assert("Architecture    : "@.take(12) =~= "Architecture"@);
        lemma_blanks("Architecture"@, "Architecture    : "@);
    }
    assert(field_spec(Label::Url, v) == "URL             : "@ + v + "\n"@) by {
        reveal_strlit("URL");
        reveal_strlit("URL             : ");
        assert("URL             : "@.take(3) =~= "URL"@);
        lemma_blanks("URL"@, "URL             : "@);
    }
    assert(field_spec(Label::Provides, v) == "Provides        : "@ + v + "\n"@) by {
        reveal_strlit("Provides");
        reveal_strlit("Provides        : ");
        assert("Provides        : "@.take(8) =~= "Provides"@);
        lemma_blanks("Provides"@, "Provides        : "@);
    }
    assert(field_spec(Label::DependsOn, v) == "Depends On      : "@ + v + "\n"@) by {
        reveal_strlit("Depends On");
        reveal_strlit("Depends On      : ");
        assert("Depends On      : "@.take(10) =~= "Depends On"@);
        lemma_blanks("Depends On"@, "Depends On      : "@);
    }
    assert(field_spec(Label::MakeDeps, v) == "Make Deps       : "@ + v + "\n"@) by {
        reveal_strlit("Make Deps");
        reveal_strlit("Make Deps       : ");
        assert("Make Deps       : "@.take(9) =~= "Make Deps"@);
        lemma_blanks("Make Deps"@, "Make Deps       : "@);
    }
    assert(field_spec(Label::CheckDeps, v) == "Check Deps      : "@ + v + "\n"@) by {
        reveal_strlit("Check Deps");
        reveal_strlit("Check Deps      : ");
        assert("Check Deps      : "@.take(10) =~= "Check Deps"@);
        lemma_blanks("Check Deps"@, "Check Deps      : "@);
    }
    assert(field_spec(Label::OptionalDeps, v) == "Optional Deps   : "@ + v + "\n"@) by {
        reveal_strlit("Optional Deps");
        reveal_strlit("Optional Deps   : ");
        assert("Optional Deps   : "@.take(13) =~= "Optional Deps"@);
        lemma_blanks("Optional Deps"@, "Optional Deps   : "@);
    }
    assert(field_spec(Label::ConflictsWith, v) == "Conflicts With  : "@ + v + "\n"@) by {
        reveal_strlit("Conflicts With");
        reveal_strlit("Conflicts With  : ");
        assert("Conflicts With  : "@.take(14) =~= "Conflicts With"@);
        lemma_blanks("Conflicts With"@, "Conflicts With  : "@);
    }
    assert(field_spec(Label::Replaces, v) == "Replaces        : "@ + v + "\n"@) by {
        reveal_strlit("Replaces");
        reveal_strlit("Replaces        : ");
        assert("Replaces        : "@.take(8) =~= "Replaces"@);
        lemma_blanks("Replaces"@, "Replaces        : "@);
    }
    assert(field_spec(Label::DownloadSize, v) == "Download Size   : "@ + v + "\n"@) by {
        reveal_strlit("Download Size");
        reveal_strlit("Download Size   : ");
        assert("Download Size   : "@.take(13) =~= "Download Size"@);
        lemma_blanks("Download Size"@, "Download Size   : "@);
    }
    assert(field_spec(Label::InstalledSize, v) == "Installed Size  : "@ + v + "\n"@) by {
        reveal_strlit("Installed Size");
        reveal_strlit("Installed Size  : ");
        assert("Installed Size  : "@.take(14) =~= "Installed Size"@);
        lemma_blanks("Installed Size"@, "Installed Size  : "@);
    }
    assert(field_spec(Label::Maintainer, v) == "Maintainer      : "@ + v + "\n"@) by {
        reveal_strlit("Maintainer");
        reveal_strlit("Maintainer      : ");
        assert("Maintainer      : "@.take(10) =~= "Maintainer"@);
        lemma_blanks("Maintainer"@, "Maintainer      : "@);
    }
    assert(field_spec(Label::Packager, v) == "Packager        : "@ + v + "\n"@) by {
        reveal_strlit("Packager");
        reveal_strlit("Packager        : ");
        assert("Packager        : "@.take(8) =~= "Packager"@);
        lemma_blanks("Packager"@, "Packager        : "@);
    }
    assert(field_spec(Label::FirstSubmitted, v) == "First Submitted : "@ + v + "\n"@) by {
        reveal_strlit("First Submitted");
        reveal_strlit("First Submitted : ");
        assert("First Submitted : "@.take(15) =~= "First Submitted"@);
        lemma_blanks("First Submitted"@, "First Submitted : "@);
    }
    assert(field_spec(Label::LastUpdated, v) == "Last Updated    : "@ + v + "\n"@) by {
        reveal_strlit("Last Updated");
        reveal_strlit("Last Updated    : ");
        assert("Last Updated    : "@.take(12) =~= "Last Updated"@);
        lemma_blanks("Last Updated"@, "Last Updated    : "@);
    }
    assert(field_spec(Label::BuildDate, v) == "Build Date      : "@ + v + "\n"@) by {
        reveal_strlit("Build Date");
        reveal_strlit("Build Date      : ");
        assert("Build Date      : "@.take(10) =~= "Build Date"@);
        lemma_blanks("Build Date"@, "Build Date      : "@);
    }
}

/// A list stands on one line with blanks between, and not at all where it is empty.
/// Several values stand below each other, the label only before the first.
pub proof fn law_how_lists_read(
    l: Label,
    items: Seq<Seq<char>>,
    v: Seq<char>,
    rest: Seq<Seq<char>>,
)
    ensures
        list_spec(l, Seq::empty()).len() == 0,
        items.len() > 0 ==> list_spec(l, items) == field_spec(l, join_spec(items, " "@)),
        lines_of(l, Seq::empty()).len() == 0,
        lines_of(l, seq![v]) == field_spec(l, v),
        rest.len() > 0 ==> lines_of(l, rest.push(v)) == lines_of(l, rest) + "                  "@ + v
            + "\n"@,
        optional_spec(l, None).len() == 0,
        optional_spec(l, Some(v)) == field_spec(l, v),
{
    reveal_strlit("                  ");
    assert(crate::text::repeat(' ', 18) =~= "                  "@);
    if rest.len() > 0 {
        assert(rest.push(v).drop_last() =~= rest);
    }
}

/// The block of an entry shows, in this order, each of its fields under its own label:
/// a pkgname that reads like the pkgbase is not shown again, and what is empty has no
/// line.
pub proof fn law_what_a_block_shows(
    e: EntryView,
    x: Extras,
    submitted: Option<Seq<char>>,
    updated: Option<Seq<char>>,
)
    ensures
        ({
            let single = e.pkgnames.len() == 1 && e.pkgnames[0].name == e.pkgbase;
            let opts = Seq::new(e.optdepends.len(), |i: int| optdep_text(e.optdepends[i]));
            let members = Seq::new(e.pkgnames.len(), |i: int| member_text(e.pkgnames[i]));
            let sizes = Seq::new(
                x.installed@.len(),
                |i: int| size_line(single, x.installed@[i]),
            );
            let people = Seq::new(x.maintainers@.len(), |i: int| x.maintainers@[i]@);
            block_spec(e, x, submitted, updated) == "Repository      : aur\n"@ + (
            "Name            : "@ + e.pkgbase + "\n"@) + (if single {
                Seq::empty()
            } else {
                lines_of(Label::SplitPkgs, members)
            }) + ("Version         : "@ + version_spec(e) + "\n"@) + optional_spec(
                Label::Description,
                display_desc_spec(e),
            ) + list_spec(Label::Architecture, e.arch) + optional_spec(Label::Url, e.url)
                + list_spec(Label::Provides, all_provides_spec(e)) + list_spec(
                Label::DependsOn,
                e.depends,
            ) + list_spec(Label::MakeDeps, e.makedepends) + list_spec(
                Label::CheckDeps,
                e.checkdepends,
            ) + lines_of(Label::OptionalDeps, opts) + list_spec(Label::ConflictsWith, e.conflicts)
                + list_spec(Label::Replaces, e.replaces) + lines_of(Label::InstalledSize, sizes)
                + lines_of(Label::Maintainer, people) + optional_spec(
                Label::FirstSubmitted,
                submitted,
            ) + optional_spec(Label::LastUpdated, updated) + "\n"@
        }),
{
    let single = e.pkgnames.len() == 1 && e.pkgnames[0].name == e.pkgbase;
    law_how_labels_read("aur"@);
    law_how_labels_read(e.pkgbase);
    law_how_labels_read(version_spec(e));
    assert("Repository      : "@ + "aur"@ + "\n"@ =~= "Repository      : aur\n"@) by {
        reveal_strlit("Repository      : ");
        reveal_strlit("aur");
        reveal_strlit("\n");
        reveal_strlit("Repository      : aur\n");
    }
    assert(e.optdepends.map_values(|o: OptDepView| optdep_text(o)) =~= Seq::new(
        e.optdepends.len(),
        |i: int| optdep_text(e.optdepends[i]),
    ));
    assert(e.pkgnames.map_values(|p: PkgnameView| member_text(p)) =~= Seq::new(
        e.pkgnames.len(),
        |i: int| member_text(e.pkgnames[i]),
    ));
    assert(x.installed@.map_values(|m: InstalledMember| size_line(single, m)) =~= Seq::new(
        x.installed@.len(),
        |i: int| size_line(single, x.installed@[i]),
    ));
    assert(maintainer_views(x.maintainers@) =~= Seq::new(
        x.maintainers@.len(),
        |i: int| x.maintainers@[i]@,
    ));
}

/// A pkgname among several is shown with its description, if that says something, and a
/// size with its pkgname where there are several.
pub proof fn law_how_members_read(p: PkgnameView, m: InstalledMember)
    ensures
        p.pkgdesc is None ==> member_text(p) == p.name,
        p.pkgdesc matches Some(d) ==> (d.len() == 0 ==> member_text(p) == p.name),
        p.pkgdesc matches Some(d) ==> (d.len() > 0 ==> member_text(p) == p.name + ": "@ + d),
        size_line(true, m) == size_text(m.size.0 as nat),
        size_line(false, m) == m.name@ + ": "@ + size_text(m.size.0 as nat),
{
}

/// An optional dependency is what stands before `: `, and its reason what follows. Without
/// one, a colon at the end does not belong to the name.
pub proof fn law_how_optional_dependencies_are_read(dep: Seq<char>, why: Seq<char>)
    requires
        is_without(dep, ':'),
    ensures
        optdep_spec(dep + ": "@ + why) == (OptDepView {
            dep: trim_spec(dep),
            reason: Some(trim_spec(why)),
        }),
        optdep_spec(dep) == (OptDepView { dep: trim_spec(dep), reason: None }),
        optdep_text(OptDepView { dep, reason: Some(why) }) == dep + ": "@ + why,
        optdep_text(OptDepView { dep, reason: None }) == dep,
{
    reveal_strlit(": ");
    let s = dep + ": "@ + why;
    let at = dep.len() as int;
    assert(s.subrange(at, at + 2) =~= ": "@);
    assert forall|j: int| 0 <= j < at implies !crate::text::occurs_at(s, ": "@, j) by {
        if crate::text::occurs_at(s, ": "@, j) {
            assert(s.subrange(j, j + 2)[0] == dep[j]);
        }
    }
    assert(crate::text::first_at(s, ": "@, at));
    crate::text::lemma_find_is(s, ": "@, at);
    assert(s.take(at) =~= dep);
    assert(s.skip(at + 2) =~= why);
    if crate::text::occurs(dep, ": "@) {
        let j = choose|j: int| crate::text::occurs_at(dep, ": "@, j);
        assert(dep.subrange(j, j + 2)[0] == dep[j]);
    }
    let t = trim_spec(dep);
    let cut = crate::laws::naming::law_trimming_cuts_white_space(dep);
    let n = crate::laws::texts::law_only_the_end_is_cut(t, ':');
    if n < t.len() {
        assert(t[n] == ':');
        assert(t[n] == dep[cut.0 + n]);
    }
    assert(t.take(t.len() as int) =~= t);
}

/// A comment that names a maintainer, in any case, gives what follows the colon. Anything
/// else names nobody.
pub proof fn law_who_maintains(key: Seq<char>, value: Seq<char>, line: Seq<char>)
    requires
        is_without(key, ':'),
    ensures
        line_maintainer("#"@ + key + ":"@ + value) == (if (same_ascii_caseless(
            trim_spec(key),
            "maintainer"@,
        ) || same_ascii_caseless(trim_spec(key), "maintainers"@)) && trim_spec(value).len() > 0 {
            Some(trim_spec(value))
        } else {
            None
        }),
        line_maintainer("#"@ + key) is None,
        trim_start_spec(line).len() == 0 || trim_start_spec(line)[0] != '#' ==> line_maintainer(
            line,
        ) is None,
        line_maintainer(line) == line_maintainer(trim_start_spec(line)),
{
    reveal_strlit("#");
    reveal_strlit(":");
    let s = "#"@ + key + ":"@ + value;
    let t = key + ":"@ + value;
    let at = key.len() as int;
    assert(s.skip(1) =~= t);
    assert(s[0] == '#');
    assert(trim_start_spec(s) == s);
    assert(t.subrange(at, at + 1) =~= ":"@);
    assert forall|j: int| 0 <= j < at implies !crate::text::occurs_at(t, ":"@, j) by {
        if crate::text::occurs_at(t, ":"@, j) {
            assert(t.subrange(j, j + 1)[0] == key[j]);
        }
    }
    assert(crate::text::first_at(t, ":"@, at));
    crate::text::lemma_find_is(t, ":"@, at);
    assert(t.take(at) =~= key);
    assert(t.skip(at + 1) =~= value);
    let u = "#"@ + key;
    assert(u.skip(1) =~= key);
    assert(trim_start_spec(u) == u);
    if crate::text::occurs(key, ":"@) {
        let j = choose|j: int| crate::text::occurs_at(key, ":"@, j);
        assert(key.subrange(j, j + 1)[0] == key[j]);
    }
    lemma_trimmed_once(line);
}

proof fn lemma_trimmed_once(s: Seq<char>)
    ensures
        trim_start_spec(trim_start_spec(s)) == trim_start_spec(s),
    decreases s.len(),
{
    if s.len() > 0 && crate::text::is_white(s[0]) {
        lemma_trimmed_once(s.drop_first());
    }
}

/// The maintainers are those that the lines name, in their order.
pub proof fn law_maintainers_keep_their_order(
    a: Seq<Seq<char>>,
    b: Seq<Seq<char>>,
    line: Seq<char>,
)
    ensures
        maintainers_spec(seq![line]) == (match line_maintainer(line) {
            Some(m) => seq![m],
            None => Seq::empty(),
        }),
        maintainers_spec(a + b) == maintainers_spec(a) + maintainers_spec(b),
    decreases b.len(),
{
    let none = Seq::<Seq<char>>::empty();
    assert(seq![line].drop_last() =~= none);
    assert(maintainers_spec(none) =~= none);
    if b.len() == 0 {
        assert(a + b =~= a);
        assert(maintainers_spec(a) + maintainers_spec(b) =~= maintainers_spec(a));
    } else {
        law_maintainers_keep_their_order(a, b.drop_last(), line);
        assert((a + b).drop_last() =~= a + b.drop_last());
        assert((a + b).last() == b.last());
        assert(maintainers_spec(a + b) =~= maintainers_spec(a) + maintainers_spec(b));
    }
}

/// An installed pkgname is listed with its size, which is never below zero; one that is
/// not installed is not listed.
pub proof fn law_which_members_are_installed(
    names: Seq<PkgnameView>,
    sizes: Seq<Option<i64>>,
    n: Seq<char>,
    size: u64,
)
    requires
        sizes.len() <= names.len(),
    ensures
        members_spec(names, sizes).contains((n, size)) <==> exists|i: int|
            0 <= i < sizes.len() && names[i].name == n && ((#[trigger] sizes[i]) matches Some(k)
                && size == (if k < 0 {
                0int
            } else {
                k as int
            })),
    decreases sizes.len(),
{
    if sizes.len() > 0 {
        let r = sizes.drop_last();
        let rest = members_spec(names, r);
        let all = members_spec(names, sizes);
        law_which_members_are_installed(names, r, n, size);
        if all.contains((n, size)) {
            let k = choose|k: int| 0 <= k < all.len() && all[k] == (n, size);
            if k < rest.len() {
                assert(rest[k] == (n, size));
                let i = choose|i: int|
                    0 <= i < r.len() && names[i].name == n && ((#[trigger] r[i]) matches Some(k)
                        && size == (if k < 0 {
                        0int
                    } else {
                        k as int
                    }));
                assert(sizes[i] == r[i]);
            } else {
                assert(sizes[sizes.len() - 1] is Some);
            }
        }
        if exists|i: int|
            0 <= i < sizes.len() && names[i].name == n && ((#[trigger] sizes[i]) matches Some(k)
                && size == (if k < 0 {
                0int
            } else {
                k as int
            })) {
            let i = choose|i: int|
                0 <= i < sizes.len() && names[i].name == n && ((#[trigger] sizes[i]) matches Some(k)
                    && size == (if k < 0 {
                    0int
                } else {
                    k as int
                }));
            if i < r.len() {
                assert(r[i] == sizes[i]);
                let k = choose|k: int| 0 <= k < rest.len() && rest[k] == (n, size);
                assert(all[k] == (n, size));
            } else {
                assert(all[rest.len() as int] == (n, size));
            }
        }
    }
}

/// A search lists an entry by its pkgbase and version, with its own description below.
pub proof fn law_how_a_hit_reads(e: EntryView, a: Seq<IndexEntry>, x: IndexEntry)
    ensures
        e.pkgdesc is None ==> search_line(e) == "aur/"@ + e.pkgbase + " "@ + version_spec(e)
            + "\n"@,
        e.pkgdesc matches Some(d) ==> search_line(e) == "aur/"@ + e.pkgbase + " "@ + version_spec(e)
            + "\n"@ + ("    "@ + d + "\n"@),
        search_lines(Seq::empty()).len() == 0,
        search_lines(a.push(x)) == search_lines(a) + search_line(x@),
{
    let l = "aur/"@ + e.pkgbase + " "@ + version_spec(e) + "\n"@;
    assert(l + Seq::<char>::empty() =~= l);
    assert(a.push(x).drop_last() =~= a);
}

/// Every target is either shown or missing, in order.
pub proof fn law_targets_are_shown_or_missing(
    idx: IndexFile,
    by: Secondary,
    ts: Seq<Seq<char>>,
    t: Seq<char>,
)
    ensures
        all_meant(idx, by, ts).len() + all_missing(idx, by, ts).len() == ts.len(),
        all_missing(idx, by, ts).contains(t) <==> ts.contains(t) && meant(idx, by, t) is None,
        all_meant(idx, by, ts.push(t)) == (match meant(idx, by, t) {
            Some(e) => all_meant(idx, by, ts).push(e),
            None => all_meant(idx, by, ts),
        }),
    decreases ts.len(),
{
    assert(ts.push(t).drop_last() =~= ts);
    if ts.len() > 0 {
        let r = ts.drop_last();
        law_targets_are_shown_or_missing(idx, by, r, t);
        let rest = all_missing(idx, by, r);
        let all = all_missing(idx, by, ts);
        if all.contains(t) {
            let k = choose|k: int| 0 <= k < all.len() && all[k] == t;
            if k < rest.len() {
                assert(rest[k] == t);
                let i = choose|i: int| 0 <= i < r.len() && r[i] == t;
                assert(ts[i] == t);
            } else {
                assert(ts[ts.len() - 1] == t);
            }
        }
        if ts.contains(t) && meant(idx, by, t) is None {
            let i = choose|i: int| 0 <= i < ts.len() && ts[i] == t;
            if i < r.len() {
                assert(r[i] == t);
                let k = choose|k: int| 0 <= k < rest.len() && rest[k] == t;
                assert(all[k] == t);
            } else {
                assert(all[rest.len() as int] == t);
            }
        }
    }
}

/// The first pattern that is none is reported, and only where there is one.
pub proof fn law_the_first_bad_pattern_is_reported(terms: Seq<Seq<char>>)
    ensures
        match first_fault(terms) {
            Some(f) => exists|i: int|
                0 <= i < terms.len() && caseless_regex(#[trigger] terms[i]) == Err::<
                    Regex,
                    RegexError,
                >(f) && (forall|j: int| 0 <= j < i ==> caseless_regex(#[trigger] terms[j]) is Ok),
            None => forall|j: int| 0 <= j < terms.len() ==> caseless_regex(#[trigger] terms[j]) is Ok,
        },
    decreases terms.len(),
{
    if terms.len() > 0 {
        let r = terms.drop_last();
        law_the_first_bad_pattern_is_reported(r);
        assert forall|j: int| 0 <= j < r.len() implies r[j] == #[trigger] terms[j] by {}
        match first_fault(r) {
            Some(f) => {
                let i = choose|i: int|
                    0 <= i < r.len() && caseless_regex(#[trigger] r[i]) == Err::<Regex, RegexError>(
                        f,
                    ) && (forall|j: int| 0 <= j < i ==> caseless_regex(#[trigger] r[j]) is Ok);
                assert(terms[i] == r[i]);
            },
            None => {
                assert(terms[terms.len() - 1] == terms.last());
            },
        }
    }
}

/// Without an index the user is told what to do.
pub proof fn law_what_is_said_without_an_index()
    ensures
        unavailable_text(AurState::Ready) is None,
        unavailable_text(AurState::NotSetUp) == Some("no AUR index; run `aurox -Sy` first"@),
        unavailable_text(AurState::Disabled) == Some(
            "AUR info is disabled (aur = false in config.toml)"@,
        ),
{
}

/// Errors are told apart by how their messages begin.
pub proof fn law_how_errors_read(m: String, n: i32)
    ensures
        Error::Io(m).text() == "io: "@ + m@,
        Error::Gix(m).text() == "git: "@ + m@,
        Error::Alpm(m).text() == "alpm: "@ + m@,
        Error::Toml(m).text() == "toml: "@ + m@,
        Error::Regex(m).text() == "regex: "@ + m@,
        Error::Rkyv(m).text() == "rkyv: "@ + m@,
        Error::IndexIncompatible(m).text() == "index incompatible: "@ + m@,
        Error::SrcInfo(m).text() == "srcinfo parse: "@ + m@,
        Error::Resolve(m).text() == "resolve: "@ + m@,
        Error::Build(m).text() == "build: "@ + m@,
        Error::PacmanExit(n).text() == "pacman exited with status "@ + dec_int(n as int),
        Error::UserAbort.text() == "user aborted"@,
        Error::Interrupted.text() == "interrupted"@,
        Error::UnknownTargets(m).text() == "unknown target(s): "@ + m@,
        Error::Other(m).text() == m@,
{
}

/// A duration is told in hours and minutes, or in minutes and seconds, or in seconds.
pub proof fn law_how_durations_read(h: nat, m: nat, s: nat)
    requires
        m < 60,
        s < 60,
    ensures
        h > 0 ==> duration_text(3600 * h + 60 * m + s) == dec(h) + "h "@ + dec(m) + "m"@,
        m > 0 ==> duration_text(60 * m + s) == dec(m) + "m "@ + dec(s) + "s"@,
        duration_text(s) == dec(s) + "s"@,
{
    let n = 3600 * h + 60 * m + s;
    assert(n / 3600 == h && (n % 3600) / 60 == m && n % 60 == s);
    let k = 60 * m + s;
    assert(k / 3600 == 0 && (k % 3600) / 60 == m && k % 60 == s);
}

/// An age is told in days, hours or minutes, whichever is the largest that is not zero.
pub proof fn law_how_ages_read(n: nat, rest: nat)
    ensures
        n > 0 && rest < 86400 ==> age_text(86400 * n + rest) == dec(n) + "d"@,
        0 < n < 24 && rest < 3600 ==> age_text(3600 * n + rest) == dec(n) + "h"@,
        0 < n < 60 && rest < 60 ==> age_text(60 * n + rest) == dec(n) + "m"@,
        rest < 60 ==> age_text(rest) == "now"@,
{
    if n > 0 && rest < 86400 {
        assert((86400 * n + rest) / 86400 == n);
    }
    if 0 < n < 24 && rest < 3600 {
        assert((3600 * n + rest) / 3600 == n);
    }
    if 0 < n < 60 && rest < 60 {
        assert((60 * n + rest) / 60 == n);
    }
}

/// A message begins with the mark of its tone.
pub proof fn law_how_messages_begin(msg: Seq<char>)
    ensures
        message_spec(Tone::Info, false, msg) == "::"@ + " "@ + msg,
        message_spec(Tone::Step, false, msg) == "==>"@ + " "@ + msg,
        message_spec(Tone::Warn, false, msg) == "warning:"@ + " "@ + msg,
        message_spec(Tone::Error, false, msg) == "error:"@ + " "@ + msg,
        message_spec(Tone::Note, false, msg) == "->"@ + " "@ + msg,
{
}

/// In colour a mark stands in the colour of its tone, and the messages of headlines in
/// bold.
pub proof fn law_how_messages_are_coloured(msg: Seq<char>)
    ensures
        message_spec(Tone::Info, true, msg) == ("\u{1b}[34m\u{1b}[1m"@ + "::"@ + "\u{1b}[0m"@)
            + " "@ + ("\u{1b}[1m"@ + msg + "\u{1b}[0m"@),
        message_spec(Tone::Step, true, msg) == ("\u{1b}[32m\u{1b}[1m"@ + "==>"@ + "\u{1b}[0m"@)
            + " "@ + ("\u{1b}[1m"@ + msg + "\u{1b}[0m"@),
        message_spec(Tone::Warn, true, msg) == ("\u{1b}[33m\u{1b}[1m"@ + "warning:"@
            + "\u{1b}[0m"@) + " "@ + msg,
        message_spec(Tone::Error, true, msg) == ("\u{1b}[31m\u{1b}[1m"@ + "error:"@
            + "\u{1b}[0m"@) + " "@ + msg,
        message_spec(Tone::Note, true, msg) == ("\u{1b}[36m"@ + "->"@ + "\u{1b}[0m"@) + " "@ + msg,
{
    lemma_styles();
}

proof fn lemma_styles()
    ensures
        crate::ui::style_codes("bold"@) == Some("\u{1b}[1m"@),
        crate::ui::style_codes("cyan"@) == Some("\u{1b}[36m"@),
        crate::ui::style_codes("bold.red"@) == Some("\u{1b}[31m\u{1b}[1m"@),
        crate::ui::style_codes("bold.green"@) == Some("\u{1b}[32m\u{1b}[1m"@),
        crate::ui::style_codes("bold.yellow"@) == Some("\u{1b}[33m\u{1b}[1m"@),
        crate::ui::style_codes("bold.blue"@) == Some("\u{1b}[34m\u{1b}[1m"@),
{
    reveal_strlit("bold");
    reveal_strlit("cyan");
    reveal_strlit("bold.red");
    reveal_strlit("bold.green");
    reveal_strlit("bold.yellow");
    reveal_strlit("bold.blue");
    assert("bold"@.len() == 4 && "cyan"@.len() == 4 && "bold"@[0] == 'b' && "cyan"@[0] == 'c');
    assert("bold.red"@.len() == 8 && "bold.green"@.len() == 10 && "bold.yellow"@.len() == 11
        && "bold.blue"@.len() == 9);
}

/// Of two neighbours the nearer one is taken, and of two that are equally near the even
/// one.
pub proof fn law_how_numbers_are_rounded(n: nat, d: nat)
    requires
        d > 0,
    ensures
        2 * n <= 2 * (round_half_even(n, d) * d) + d,
        2 * (round_half_even(n, d) * d) <= 2 * n + d,
        2 * n == 2 * (round_half_even(n, d) * d) + d || 2 * (round_half_even(n, d) * d) == 2 * n + d
            ==> round_half_even(n, d) % 2 == 0,
{
    let q = n / d;
    let r = n % d;
    vstd::arithmetic::div_mod::lemma_fundamental_div_mod(n as int, d as int);
    assert(d * q == q * d) by (nonlinear_arith);
    assert((q + 1) * d == q * d + d) by (nonlinear_arith);
    assert(n == q * d + r);
}

/// Two decimals are the hundredths that are left over.
pub proof fn law_how_hundredths_read(w: nat, t: nat, h: nat)
    requires
        t < 10,
        h < 10,
    ensures
        hundredths(100 * w + 10 * t + h) == dec(w) + "."@ + dec(t) + dec(h),
        tenths(10 * w + t) == dec(w) + "."@ + dec(t),
{
    let n = 100 * w + 10 * t + h;
    assert(n / 100 == w && n % 100 / 10 == t && n % 10 == h);
    let m = 10 * w + t;
    assert(m / 10 == w && m % 10 == t);
    assert(hundredths(n) =~= dec(w) + "."@ + dec(t) + dec(h));
    assert(tenths(m) =~= dec(w) + "."@ + dec(t));
}

/// A size is told in the largest binary unit that it reaches, with two decimals.
pub proof fn law_how_sizes_read(n: nat)
    ensures
        n < 0x400 ==> size_text(n) == dec(n) + " B"@,
        0x400 <= n < 0x10_0000 ==> size_text(n) == hundredths(round_half_even(n * 100, 0x400)) + " "@
            + "KiB"@,
        0x10_0000 <= n < 0x4000_0000 ==> size_text(n) == hundredths(
            round_half_even(n * 100, 0x10_0000),
        ) + " "@ + "MiB"@,
        0x4000_0000 <= n < 0x100_0000_0000 ==> size_text(n) == hundredths(
            round_half_even(n * 100, 0x4000_0000),
        ) + " "@ + "GiB"@,
        0x100_0000_0000 <= n < 0x4_0000_0000_0000 ==> size_text(n) == hundredths(
            round_half_even(n * 100, 0x100_0000_0000),
        ) + " "@ + "TiB"@,
        0x4_0000_0000_0000 <= n < 0x1000_0000_0000_0000 ==> size_text(n) == hundredths(
            round_half_even(n * 100, 0x4_0000_0000_0000),
        ) + " "@ + "PiB"@,
        0x1000_0000_0000_0000 <= n < 0x1_0000_0000_0000_0000 ==> size_text(n) == hundredths(
            round_half_even(n * 100, 0x1000_0000_0000_0000),
        ) + " "@ + "EiB"@,
{
    reveal_with_fuel(unit_step, 8);
    reveal_with_fuel(pow1024, 8);
    assert(n / 1024 / 1024 == n / 0x10_0000) by (nonlinear_arith);
    assert(n / 1024 / 1024 / 1024 == n / 0x4000_0000) by (nonlinear_arith);
    assert(n / 1024 / 1024 / 1024 / 1024 == n / 0x100_0000_0000) by (nonlinear_arith);
    assert(n / 1024 / 1024 / 1024 / 1024 / 1024 == n / 0x4_0000_0000_0000) by (nonlinear_arith);
    assert(n / 1024 / 1024 / 1024 / 1024 / 1024 / 1024 == n / 0x1000_0000_0000_0000)
        by (nonlinear_arith);
}

/// Microseconds are told as they are up to a thousand; whole milliseconds and whole
/// seconds are told as such.
pub proof fn law_how_microseconds_read(q: nat)
    ensures
        q < 1000 ==> micros_text(q) == dec(q) + "µs"@,
        0 < q < 1000 ==> micros_text(1000 * q) == tenths(10 * q) + "ms"@,
        0 < q < 0x1_0000_0000 ==> micros_text(1_000_000 * q) == hundredths(100 * q) + "s"@,
{
    lemma_whole(q, 1000, 10);
    lemma_whole(q, 1_000_000, 100);
    if 0 < q < 0x1_0000_0000 {
        let n = 1_000_000 * q;
        vstd::arithmetic::power2::lemma2_to64();
        assert(as_double(n) == n) by {
            assert(crate::units::lost_bits(n) == 0);
            assert(n % 1 == 0 && n / 1 == n);
        }
    }
}

proof fn lemma_whole(q: nat, d: nat, parts: nat)
    requires
        d > 0,
    ensures
        quotient_parts(d * q, d, parts) == parts * q,
{
    let k = double_scale(d * q, d, 52);
    let p = vstd::arithmetic::power2::pow2(k);
    vstd::arithmetic::power2::lemma_pow2_pos(k);
    let a = (d * q) * p;
    assert(a == d * (q * p)) by (nonlinear_arith)
        requires
            a == (d * q) * p,
    ;
    vstd::arithmetic::div_mod::lemma_div_multiples_vanish((q * p) as int, d as int);
    vstd::arithmetic::div_mod::lemma_mod_multiples_basic((q * p) as int, d as int);
    assert((q * p) * d == d * (q * p)) by (nonlinear_arith);
    assert(a / d == q * p && a % d == 0);
    assert(round_half_even(a, d) == q * p);
    let b = (q * p) * parts;
    assert(b == p * (parts * q)) by (nonlinear_arith)
        requires
            b == (q * p) * parts,
    ;
    vstd::arithmetic::div_mod::lemma_div_multiples_vanish((parts * q) as int, p as int);
    vstd::arithmetic::div_mod::lemma_mod_multiples_basic((parts * q) as int, p as int);
    assert((parts * q) * p == p * (parts * q)) by (nonlinear_arith);
    assert(b / p == parts * q && b % p == 0);
}

} // verus!
