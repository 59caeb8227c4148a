//! The block that describes one package of the AUR, and the line that lists it.

use regex::{Error as RegexError, Regex};
use vstd::prelude::*;

use crate::error::Error;
use crate::index::lookup::{entry_at, kept};
use crate::index::schema::{
    all_provides_spec, display_desc_spec, version_spec, EntryView, IndexEntry, IndexFile,
    PkgnameView,
};
use crate::index::secondary::{all_plain_match, Secondary};
use crate::index::AurState;
use crate::names::{
    bare_spec, caseless_regex, optdep_text, pkgtarget_views, regex_complaint, regex_error_text, Arch,
    Maintainer, OptDep, OptDepView, PkgName, PkgTarget, SearchTerm,
};
use crate::text::{
    eq_ignore_ascii_case, join, join_spec, lines, lines_spec, opt_view, pad, pad_spec, repeat,
    same_ascii_caseless, skip, split_once, split_once_spec, str_views, trim, trim_spec, trim_start,
    trim_start_spec, views, Align,
};
use crate::units::{size_text, ByteSize, UnixTime};

verus! {

broadcast use {vstd::string::group_string_axioms, crate::seqs::lemma_map_push};

/// What a line of the block is about.
#[derive(Debug, Clone, Copy, PartialEq, Eq, Structural)]
pub enum Label {
    Repository,
    Name,
    SplitPkgs,
    Version,
    Description,
    Architecture,
    Url,
    Provides,
    DependsOn,
    MakeDeps,
    CheckDeps,
    OptionalDeps,
    ConflictsWith,
    Replaces,
    DownloadSize,
    InstalledSize,
    Maintainer,
    Packager,
    FirstSubmitted,
    LastUpdated,
    BuildDate,
}

impl Label {
    /// The label in words.
    pub open spec fn words(self) -> Seq<char> {
        match self {
            Label::Repository => "Repository"@,
            Label::Name => "Name"@,
            Label::SplitPkgs => "Split pkgs"@,
            Label::Version => "Version"@,
            Label::Description => "Description"@,
            Label::Architecture => "Architecture"@,
            Label::Url => "URL"@,
            Label::Provides => "Provides"@,
            Label::DependsOn => "Depends On"@,
            Label::MakeDeps => "Make Deps"@,
            Label::CheckDeps => "Check Deps"@,
            Label::OptionalDeps => "Optional Deps"@,
            Label::ConflictsWith => "Conflicts With"@,
            Label::Replaces => "Replaces"@,
            Label::DownloadSize => "Download Size"@,
            Label::InstalledSize => "Installed Size"@,
            Label::Maintainer => "Maintainer"@,
            Label::Packager => "Packager"@,
            Label::FirstSubmitted => "First Submitted"@,
            Label::LastUpdated => "Last Updated"@,
            Label::BuildDate => "Build Date"@,
        }
    }

    /// The label in words.
    pub fn text(self) -> (r: &'static str)
        ensures
            r@ == self.words(),
    {
        match self {
            Label::Repository => "Repository",
            Label::Name => "Name",
            Label::SplitPkgs => "Split pkgs",
            Label::Version => "Version",
            Label::Description => "Description",
            Label::Architecture => "Architecture",
            Label::Url => "URL",
            Label::Provides => "Provides",
            Label::DependsOn => "Depends On",
            Label::MakeDeps => "Make Deps",
            Label::CheckDeps => "Check Deps",
            Label::OptionalDeps => "Optional Deps",
            Label::ConflictsWith => "Conflicts With",
            Label::Replaces => "Replaces",
            Label::DownloadSize => "Download Size",
            Label::InstalledSize => "Installed Size",
            Label::Maintainer => "Maintainer",
            Label::Packager => "Packager",
            Label::FirstSubmitted => "First Submitted",
            Label::LastUpdated => "Last Updated",
            Label::BuildDate => "Build Date",
        }
    }
}

/// Every label fits into the column that labels are padded to, so that all values
/// begin in the same column.
pub proof fn law_labels_fit(label: Label)
    ensures
        label.words().len() <= 16,
        pad_spec(label.words(), ' ', Align::Left, 16).len() == 16,
{
    reveal_strlit("Repository");
    reveal_strlit("Name");
    reveal_strlit("Split pkgs");
    reveal_strlit("Version");
    reveal_strlit("Description");
    reveal_strlit("Architecture");
    reveal_strlit("URL");
    reveal_strlit("Provides");
    reveal_strlit("Depends On");
    reveal_strlit("Make Deps");
    reveal_strlit("Check Deps");
    reveal_strlit("Optional Deps");
    reveal_strlit("Conflicts With");
    reveal_strlit("Replaces");
    reveal_strlit("Download Size");
    reveal_strlit("Installed Size");
    reveal_strlit("Maintainer");
    reveal_strlit("Packager");
    reveal_strlit("First Submitted");
    reveal_strlit("Last Updated");
    reveal_strlit("Build Date");
}

/// One line: the label in 16 columns, a colon and the value.
pub open spec fn field_spec(label: Label, value: Seq<char>) -> Seq<char> {
    pad_spec(label.words(), ' ', Align::Left, 16) + ": "@ + value + "\n"@
}

/// The values on one line with blanks between them; no line where there are none.
pub open spec fn list_spec(label: Label, items: Seq<Seq<char>>) -> Seq<char> {
    if items.len() == 0 {
        seq![]
    } else {
        field_spec(label, join_spec(items, " "@))
    }
}

/// One value per line, all of them in the column of the first; no line where there
/// are none.
pub open spec fn lines_of(label: Label, values: Seq<Seq<char>>) -> Seq<char>
    decreases values.len(),
{
    if values.len() == 0 {
        seq![]
    } else if values.len() == 1 {
        field_spec(label, values[0])
    } else {
        lines_of(label, values.drop_last()) + repeat(' ', 18) + values.last() + "\n"@
    }
}

/// A line where there is a value.
pub open spec fn optional_spec(label: Label, value: Option<Seq<char>>) -> Seq<char> {
    match value {
        Some(v) => field_spec(label, v),
        None => seq![],
    }
}

/// Adds one line.
pub fn field(out: &mut String, label: Label, value: &str)
    ensures
        final(out)@ == old(out)@ + field_spec(label, value@),
{
    let ghost before = out@;
    proof {
        reveal_strlit(" ");
        assert(" "@.len() == 1 && " "@[0] == ' ');
    }
    out.append(pad(label.text(), " ", Align::Left, 16).as_str());
    out.append(": ");
    out.append(value);
    out.append("\n");
    assert(out@ =~= before + field_spec(label, value@));
}

/// Adds the values on one line, where there are any.
pub fn list_field(out: &mut String, label: Label, items: &Vec<String>)
    ensures
        final(out)@ == old(out)@ + list_spec(label, views(items@)),
{
    assert(views(items@).len() == items@.len());
    if items.len() > 0 {
        let joined = join(items, " ");
        field(out, label, joined.as_str());
    } else {
        assert(out@ + seq![] =~= out@);
    }
}

/// Adds one value per line.
pub fn multiline_field(out: &mut String, label: Label, values: &Vec<String>)
    ensures
        final(out)@ == old(out)@ + lines_of(label, views(values@)),
{
    let ghost before = out@;
    let ghost all = views(values@);
    let mut i: usize = 0;
    assert(before + lines_of(label, all.take(0)) =~= before);
    while i < values.len()
        invariant
            all == views(values@),
            all.len() == values@.len(),
            i <= values.len(),
            out@ == before + lines_of(label, all.take(i as int)),
        decreases values.len() - i,
    {
        let v = values[i].as_str();
        proof {
            crate::seqs::lemma_take_succ(all, i as int);
            assert(all[i as int] == v@);
        }
        if i == 0 {
            assert(all.take(1)[0] == v@);
            field(out, label, v);
            assert(out@ =~= before + lines_of(label, all.take(1)));
        } else {
            out.append("                  ");
            out.append(v);
            out.append("\n");
            proof {
                reveal_strlit("                  ");
                assert("                  "@ =~= repeat(' ', 18));
                assert(all.take(i as int + 1).len() > 1);
            }
            assert(out@ =~= before + lines_of(label, all.take(i as int + 1)));
        }
        i = i + 1;
    }
    assert(all.take(i as int) =~= all);
}

/// A pkgname that is installed, and its size.
#[derive(Debug)]
pub struct InstalledMember {
    /// The pkgname.
    pub name: PkgName,
    /// How much it takes on disk.
    pub size: ByteSize,
}

/// What is known of an entry besides the index.
#[derive(Debug)]
pub struct Extras {
    /// Who maintains it.
    pub maintainers: Vec<Maintainer>,
    /// When it first came to the AUR.
    pub first_submitted: Option<UnixTime>,
    /// Which of its pkgnames are installed.
    pub installed: Vec<InstalledMember>,
}

impl Default for Extras {
    fn default() -> (r: Self)
        ensures
            r.maintainers@.len() == 0,
            r.first_submitted is None,
            r.installed@.len() == 0,
    {
        Extras { maintainers: Vec::new(), first_submitted: None, installed: Vec::new() }
    }
}

/// The texts of the maintainers.
pub open spec fn maintainer_views(v: Seq<Maintainer>) -> Seq<Seq<char>> {
    v.map_values(|m: Maintainer| m@)
}

/// Whether an entry has one pkgname that reads like its pkgbase.
pub open spec fn is_trivial(e: EntryView) -> bool {
    e.pkgnames.len() == 1 && e.pkgbase == e.pkgnames[0].name
}

/// How a pkgname of several is shown: with its description, where it has one.
pub open spec fn member_text(p: PkgnameView) -> Seq<char> {
    match p.pkgdesc {
        Some(d) if d.len() > 0 => p.name + ": "@ + d,
        _ => p.name,
    }
}

/// How an installed size is shown: with the pkgname, where there are several.
pub open spec fn size_line(trivial: bool, m: InstalledMember) -> Seq<char> {
    if trivial {
        size_text(m.size.0 as nat)
    } else {
        m.name@ + ": "@ + size_text(m.size.0 as nat)
    }
}

/// The block of an entry, with the two times in words.
pub open spec fn block_spec(
    e: EntryView,
    x: Extras,
    submitted: Option<Seq<char>>,
    updated: Option<Seq<char>>,
) -> Seq<char> {
    field_spec(Label::Repository, "aur"@) + field_spec(Label::Name, e.pkgbase) + (if is_trivial(e) {
        seq![]
    } else {
        lines_of(Label::SplitPkgs, e.pkgnames.map_values(|p: PkgnameView| member_text(p)))
    }) + field_spec(Label::Version, version_spec(e)) + optional_spec(
        Label::Description,
        display_desc_spec(e),
    ) + list_spec(Label::Architecture, e.arch) + optional_spec(Label::Url, e.url) + list_spec(
        Label::Provides,
        all_provides_spec(e),
    ) + list_spec(Label::DependsOn, e.depends) + list_spec(Label::MakeDeps, e.makedepends)
        + list_spec(Label::CheckDeps, e.checkdepends) + lines_of(
        Label::OptionalDeps,
        e.optdepends.map_values(|o: OptDepView| optdep_text(o)),
    ) + list_spec(Label::ConflictsWith, e.conflicts) + list_spec(Label::Replaces, e.replaces)
        + lines_of(
        Label::InstalledSize,
        x.installed@.map_values(|m: InstalledMember| size_line(is_trivial(e), m)),
    ) + lines_of(Label::Maintainer, maintainer_views(x.maintainers@)) + optional_spec(
        Label::FirstSubmitted,
        submitted,
    ) + optional_spec(Label::LastUpdated, updated) + "\n"@
}

fn target_texts(v: &Vec<PkgTarget>) -> (r: Vec<String>)
    ensures
        views(r@) == pkgtarget_views(v@),
{
    let ghost all = pkgtarget_views(v@);
    let mut r: Vec<String> = Vec::new();
    let mut i: usize = 0;
    assert(views(r@) =~= all.take(0));
    while i < v.len()
        invariant
            all == pkgtarget_views(v@),
            i <= v.len(),
            views(r@) == all.take(i as int),
        decreases v.len() - i,
    {
        r.push(v[i].to_string());
        proof {
            crate::seqs::lemma_take_succ(all, i as int);
            assert(all[i as int] == v@[i as int]@);
        }
        i = i + 1;
    }
    assert(all.take(i as int) =~= all);
    r
}

fn provided_texts(e: &IndexEntry) -> (r: Vec<String>)
    ensures
        views(r@) == all_provides_spec(e@),
{
    let v = e.all_provides();
    let ghost all = all_provides_spec(e@);
    let mut r: Vec<String> = Vec::new();
    let mut i: usize = 0;
    assert(views(r@) =~= all.take(0));
    assert(all.len() == v@.len());
    while i < v.len()
        invariant
            v@.map_values(|t: &PkgTarget| t@) == all,
            all.len() == v@.len(),
            i <= v.len(),
            views(r@) == all.take(i as int),
        decreases v.len() - i,
    {
        r.push(v[i].to_string());
        proof {
            crate::seqs::lemma_take_succ(all, i as int);
            assert(all[i as int] == v@[i as int]@);
        }
        i = i + 1;
    }
    assert(all.take(i as int) =~= all);
    r
}

fn arch_texts(v: &Vec<Arch>) -> (r: Vec<String>)
    ensures
        views(r@) == crate::index::schema::arch_list(v@),
{
    let ghost all = crate::index::schema::arch_list(v@);
    let mut r: Vec<String> = Vec::new();
    let mut i: usize = 0;
    assert(views(r@) =~= all.take(0));
    while i < v.len()
        invariant
            all == crate::index::schema::arch_list(v@),
            i <= v.len(),
            views(r@) == all.take(i as int),
        decreases v.len() - i,
    {
        r.push(v[i].to_string());
        proof {
            crate::seqs::lemma_take_succ(all, i as int);
            assert(all[i as int] == v@[i as int]@);
        }
        i = i + 1;
    }
    assert(all.take(i as int) =~= all);
    r
}

fn optdep_texts(v: &Vec<OptDep>) -> (r: Vec<String>)
    ensures
        views(r@) == crate::index::schema::optdep_list(v@).map_values(
            |o: OptDepView| optdep_text(o),
        ),
{
    let ghost all = crate::index::schema::optdep_list(v@).map_values(
        |o: OptDepView| optdep_text(o),
    );
    let mut r: Vec<String> = Vec::new();
    let mut i: usize = 0;
    assert(views(r@) =~= all.take(0));
    assert(all.len() == v@.len());
    while i < v.len()
        invariant
            all == crate::index::schema::optdep_list(v@).map_values(
                |o: OptDepView| optdep_text(o),
            ),
            all.len() == v@.len(),
            i <= v.len(),
            views(r@) == all.take(i as int),
        decreases v.len() - i,
    {
        r.push(v[i].to_string());
        proof {
            crate::seqs::lemma_take_succ(all, i as int);
            assert(all[i as int] == optdep_text(v@[i as int]@));
        }
        i = i + 1;
    }
    assert(all.take(i as int) =~= all);
    r
}

fn member_texts(e: &IndexEntry) -> (r: Vec<String>)
    ensures
        views(r@) == e@.pkgnames.map_values(|p: PkgnameView| member_text(p)),
{
    let ghost all = e@.pkgnames.map_values(|p: PkgnameView| member_text(p));
    let mut r: Vec<String> = Vec::new();
    let mut i: usize = 0;
    assert(views(r@) =~= all.take(0));
    assert(all.len() == e.pkgnames@.len());
    while i < e.pkgnames.len()
        invariant
            all == e@.pkgnames.map_values(|p: PkgnameView| member_text(p)),
            all.len() == e.pkgnames@.len(),
            i <= e.pkgnames.len(),
            views(r@) == all.take(i as int),
        decreases e.pkgnames.len() - i,
    {
        let p = &e.pkgnames[i];
        let mut s = p.name.to_string();
        match &p.pkgdesc {
            Some(d) => {
                if !d.as_str().is_empty() {
                    s.append(": ");
                    s.append(d.as_str());
                }
            },
            None => {},
        }
        assert(s@ =~= member_text(p@));
        r.push(s);
        proof {
            crate::seqs::lemma_take_succ(all, i as int);
            assert(all[i as int] == member_text(e.pkgnames@[i as int]@));
        }
        i = i + 1;
    }
    assert(all.take(i as int) =~= all);
    r
}

fn size_texts(v: &Vec<InstalledMember>, trivial: bool) -> (r: Vec<String>)
    ensures
        views(r@) == v@.map_values(|m: InstalledMember| size_line(trivial, m)),
{
    let ghost all = v@.map_values(|m: InstalledMember| size_line(trivial, m));
    let mut r: Vec<String> = Vec::new();
    let mut i: usize = 0;
    assert(views(r@) =~= all.take(0));
    while i < v.len()
        invariant
            all == v@.map_values(|m: InstalledMember| size_line(trivial, m)),
            i <= v.len(),
            views(r@) == all.take(i as int),
        decreases v.len() - i,
    {
        let m = &v[i];
        let mut s = String::new();
        if !trivial {
            s.append(m.name.as_str());
            s.append(": ");
        }
        s.append(m.size.to_string().as_str());
        assert(s@ =~= size_line(trivial, *m));
        r.push(s);
        proof {
            crate::seqs::lemma_take_succ(all, i as int);
            assert(all[i as int] == size_line(trivial, v@[i as int]));
        }
        i = i + 1;
    }
    assert(all.take(i as int) =~= all);
    r
}

fn maintainer_texts(v: &Vec<Maintainer>) -> (r: Vec<String>)
    ensures
        views(r@) == maintainer_views(v@),
{
    let ghost all = maintainer_views(v@);
    let mut r: Vec<String> = Vec::new();
    let mut i: usize = 0;
    assert(views(r@) =~= all.take(0));
    while i < v.len()
        invariant
            all == maintainer_views(v@),
            i <= v.len(),
            views(r@) == all.take(i as int),
        decreases v.len() - i,
    {
        r.push(v[i].to_string());
        proof {
            crate::seqs::lemma_take_succ(all, i as int);
            assert(all[i as int] == v@[i as int]@);
        }
        i = i + 1;
    }
    assert(all.take(i as int) =~= all);
    r
}

fn optional_field(out: &mut String, label: Label, value: Option<&str>)
    ensures
        final(out)@ == old(out)@ + optional_spec(
            label,
            match value {
                Some(v) => Some(v@),
                None => None,
            },
        ),
{
    match value {
        Some(v) => {
            field(out, label, v);
        },
        None => {
            assert(out@ + seq![] =~= out@);
        },
    }
}

fn opt_slice<'a>(o: &'a Option<String>) -> (r: Option<&'a str>)
    ensures
        (match r {
            Some(v) => Some(v@),
            None => None,
        }) == opt_view(*o),
{
    match o {
        Some(s) => Some(s.as_str()),
        None => None,
    }
}

/// The block of an entry, with the two times in words as they are given.
pub fn info_block(
    e: &IndexEntry,
    x: &Extras,
    submitted: &Option<String>,
    updated: &Option<String>,
) -> (r: String)
    ensures
        r@ == block_spec(e@, *x, opt_view(*submitted), opt_view(*updated)),
{
    let mut out = String::new();
    field(&mut out, Label::Repository, "aur");
    field(&mut out, Label::Name, e.pkgbase.as_str());
    assert(e@.pkgnames.len() == e.pkgnames@.len());
    let trivial = e.pkgnames.len() == 1 && e.pkgbase.matches_pkgname(&e.pkgnames[0].name);
    assert(trivial == is_trivial(e@)) by {
        if e.pkgnames@.len() == 1 {
            assert(e@.pkgnames[0] == e.pkgnames@[0]@);
        }
    }
    if !trivial {
        multiline_field(&mut out, Label::SplitPkgs, &member_texts(e));
    } else {
        assert(out@ + seq![] =~= out@);
    }
    field(&mut out, Label::Version, e.version().as_str());
    optional_field(&mut out, Label::Description, e.display_desc());
    list_field(&mut out, Label::Architecture, &arch_texts(&e.arch));
    match &e.url {
        Some(u) => {
            field(&mut out, Label::Url, u.as_str());
        },
        None => {
            assert(out@ + seq![] =~= out@);
        },
    }
    list_field(&mut out, Label::Provides, &provided_texts(e));
    list_field(&mut out, Label::DependsOn, &target_texts(&e.depends));
    list_field(&mut out, Label::MakeDeps, &target_texts(&e.makedepends));
    list_field(&mut out, Label::CheckDeps, &target_texts(&e.checkdepends));
    multiline_field(&mut out, Label::OptionalDeps, &optdep_texts(&e.optdepends));
    list_field(&mut out, Label::ConflictsWith, &target_texts(&e.conflicts));
    list_field(&mut out, Label::Replaces, &target_texts(&e.replaces));
    multiline_field(&mut out, Label::InstalledSize, &size_texts(&x.installed, trivial));
    multiline_field(&mut out, Label::Maintainer, &maintainer_texts(&x.maintainers));
    optional_field(&mut out, Label::FirstSubmitted, opt_slice(submitted));
    optional_field(&mut out, Label::LastUpdated, opt_slice(updated));
    out.append("\n");
    assert(out@ =~= block_spec(e@, *x, opt_view(*submitted), opt_view(*updated)));
    out
}

/// The block of an entry. The times are shown in the machine's time zone; a time
/// that is not known has no line.
pub fn write_info(e: &IndexEntry, x: &Extras) -> (r: String)
    ensures
        exists|submitted: Option<Seq<char>>, updated: Option<Seq<char>>|
            {
                &&& r@ == #[trigger] block_spec(e@, *x, submitted, updated)
                &&& match x.first_submitted {
                    Some(t) => t.reads(submitted),
                    None => submitted is None,
                }
                &&& e.commit_time.reads(updated)
            },
{
    let submitted: Option<String> = match x.first_submitted {
        Some(t) => t.render(),
        None => None,
    };
    let updated: Option<String> = e.commit_time.render();
    let r = info_block(e, x, &submitted, &updated);
    assert(r@ == block_spec(e@, *x, opt_view(submitted), opt_view(updated)));
    r
}

/// The maintainer that a line of a `PKGBUILD` names: a comment whose key is
/// `maintainer` or `maintainers`, in any case, with a value.
pub open spec fn line_maintainer(line: Seq<char>) -> Option<Seq<char>> {
    let t = trim_start_spec(line);
    if t.len() == 0 || t[0] != '#' {
        None
    } else {
        match split_once_spec(t.skip(1), ":"@) {
            Some((key, value)) => {
                let k = trim_spec(key);
                let v = trim_spec(value);
                if (same_ascii_caseless(k, "maintainer"@) || same_ascii_caseless(
                    k,
                    "maintainers"@,
                )) && v.len() > 0 {
                    Some(v)
                } else {
                    None
                }
            },
            None => None,
        }
    }
}

/// The maintainers that lines name, in their order.
pub open spec fn maintainers_spec(ls: Seq<Seq<char>>) -> Seq<Seq<char>>
    decreases ls.len(),
{
    if ls.len() == 0 {
        seq![]
    } else {
        match line_maintainer(ls.last()) {
            Some(m) => maintainers_spec(ls.drop_last()).push(m),
            None => maintainers_spec(ls.drop_last()),
        }
    }
}

fn maintainer_of<'a>(line: &'a str) -> (r: Option<&'a str>)
    ensures
        match r {
            Some(m) => line_maintainer(line@) == Some(m@),
            None => line_maintainer(line@) is None,
        },
{
    let t = trim_start(line);
    let n: usize = t.unicode_len();
    if n == 0 || t.get_char(0) != '#' {
        return None;
    }
    match split_once(skip(t, 1), ":") {
        Some((key, value)) => {
            let k = trim(key);
            let v = trim(value);
            if (eq_ignore_ascii_case(k, "maintainer") || eq_ignore_ascii_case(k, "maintainers"))
                && !v.is_empty() {
                Some(v)
            } else {
                None
            }
        },
        None => None,
    }
}

/// The maintainers that the comments of a `PKGBUILD` name, in the order of the
/// file.
pub fn maintainers(pkgbuild: &str) -> (r: Vec<Maintainer>)
    ensures
        maintainer_views(r@) == maintainers_spec(lines_spec(pkgbuild@)),
{
    let ls = lines(pkgbuild);
    let ghost all = lines_spec(pkgbuild@);
    let mut r: Vec<Maintainer> = Vec::new();
    let mut i: usize = 0;
    assert(all.len() == ls@.len());
    assert(maintainer_views(r@) =~= maintainers_spec(all.take(0)));
    while i < ls.len()
        invariant
            str_views(ls@) == all,
            all.len() == ls@.len(),
            i <= ls.len(),
            maintainer_views(r@) == maintainers_spec(all.take(i as int)),
        decreases ls.len() - i,
    {
        proof {
            crate::seqs::lemma_take_succ(all, i as int);
            assert(all[i as int] == ls@[i as int]@);
        }
        match maintainer_of(ls[i]) {
            Some(m) => {
                r.push(Maintainer::new(m));
            },
            None => {},
        }
        i = i + 1;
    }
    assert(all.take(i as int) =~= all);
    r
}

/// Whether `t` is the least of `times`; nothing where there are none.
pub open spec fn is_earliest(times: Seq<i64>, t: Option<i64>) -> bool {
    match t {
        Some(x) => times.contains(x) && forall|i: int| 0 <= i < times.len() ==> x <= #[trigger] times[i],
        None => times.len() == 0,
    }
}

/// When a pkgbase first came to the AUR: the earliest time of its root commits.
pub fn first_submitted(roots: &Vec<i64>) -> (r: Option<UnixTime>)
    ensures
        is_earliest(
            roots@,
            match r {
                Some(t) => Some(t.0),
                None => None,
            },
        ),
{
    if roots.len() == 0 {
        return None;
    }
    let mut least: i64 = roots[0];
    let mut i: usize = 1;
    assert(roots@.contains(least));
    while i < roots.len()
        invariant
            1 <= i <= roots.len(),
            roots@.contains(least),
            forall|k: int| 0 <= k < i ==> least <= #[trigger] roots@[k],
        decreases roots.len() - i,
    {
        if roots[i] < least {
            least = roots[i];
            assert(roots@[i as int] == least);
        }
        i = i + 1;
    }
    Some(UnixTime::new(least))
}

/// Whether the commit of an entry is known: an id of all zeros stands for none.
pub fn has_commit(oid: &[u8; 20]) -> (r: bool)
    ensures
        r == exists|i: int| 0 <= i < 20 && #[trigger] oid@[i] != 0,
{
    let mut i: usize = 0;
    while i < 20
        invariant
            i <= 20,
            forall|k: int| 0 <= k < i ==> #[trigger] oid@[k] == 0,
        decreases 20 - i,
    {
        if oid[i] != 0 {
            assert(oid@[i as int] != 0);
            return true;
        }
        i = i + 1;
    }
    false
}

/// The pkgnames that are installed, with their sizes, in the order of the pkgnames. A
/// size below zero counts as none.
pub open spec fn members_spec(names: Seq<PkgnameView>, sizes: Seq<Option<i64>>) -> Seq<(Seq<char>, u64)>
    decreases sizes.len(),
{
    if sizes.len() == 0 {
        seq![]
    } else {
        match sizes.last() {
            Some(n) => members_spec(names, sizes.drop_last()).push(
                (
                    names[sizes.len() - 1].name,
                    if n < 0 {
                        0
                    } else {
                        n as u64
                    },
                ),
            ),
            None => members_spec(names, sizes.drop_last()),
        }
    }
}

/// What installed pkgnames say.
pub open spec fn member_list(v: Seq<InstalledMember>) -> Seq<(Seq<char>, u64)> {
    v.map_values(|m: InstalledMember| (m.name@, m.size.0))
}

/// The pkgnames of an entry that are installed. `sizes` holds the installed size of
/// each pkgname, nothing for one that is not installed.
pub fn installed_members(e: &IndexEntry, sizes: &Vec<Option<i64>>) -> (r: Vec<InstalledMember>)
    requires
        sizes.len() == e.pkgnames.len(),
    ensures
        member_list(r@) == members_spec(e@.pkgnames, sizes@),
{
    let mut r: Vec<InstalledMember> = Vec::new();
    let mut i: usize = 0;
    assert(member_list(r@) =~= members_spec(e@.pkgnames, sizes@.take(0)));
    while i < sizes.len()
        invariant
            sizes.len() == e.pkgnames.len(),
            i <= sizes.len(),
            member_list(r@) == members_spec(e@.pkgnames, sizes@.take(i as int)),
        decreases sizes.len() - i,
    {
        proof {
            crate::seqs::lemma_take_succ(sizes@, i as int);
            assert(e@.pkgnames[i as int] == e.pkgnames@[i as int]@);
        }
        let ghost had = member_list(r@);
        match sizes[i] {
            Some(n) => {
                let size: u64 = if n < 0 {
                    0
                } else {
                    n as u64
                };
                r.push(
                    InstalledMember {
                        name: e.pkgnames[i].name.clone(),
                        size: ByteSize::new(size),
                    },
                );
                assert(member_list(r@) =~= had.push((e.pkgnames@[i as int].name@, size)));
            },
            None => {},
        }
        i = i + 1;
    }
    assert(sizes@.take(i as int) =~= sizes@);
    r
}

/// What the user is told where there is no index to look into.
pub open spec fn unavailable_text(state: AurState) -> Option<Seq<char>> {
    match state {
        AurState::Ready => None,
        AurState::NotSetUp => Some("no AUR index; run `aurox -Sy` first"@),
        AurState::Disabled => Some("AUR info is disabled (aur = false in config.toml)"@),
    }
}

/// What the user is told where there is no index to look into; the exit code is
/// then 1.
pub fn unavailable(state: AurState) -> (r: Option<&'static str>)
    ensures
        match r {
            Some(t) => unavailable_text(state) == Some(t@),
            None => unavailable_text(state) is None,
        },
{
    match state {
        AurState::Ready => None,
        AurState::NotSetUp => Some("no AUR index; run `aurox -Sy` first"),
        AurState::Disabled => Some("AUR info is disabled (aur = false in config.toml)"),
    }
}

/// What the user is told of targets that were not found, and the exit code.
pub fn report_missing(missing: &Vec<String>) -> (r: (Option<String>, u8))
    ensures
        match r.0 {
            Some(m) => missing@.len() > 0 && r.1 == 1 && m@ == "not in AUR: "@ + join_spec(
                views(missing@),
                ", "@,
            ),
            None => missing@.len() == 0 && r.1 == 0,
        },
{
    if missing.len() == 0 {
        return (None, 0);
    }
    let mut m = "not in AUR: ".to_owned();
    m.append(join(missing, ", ").as_str());
    (Some(m), 1)
}

/// How a search lists an entry.
pub open spec fn search_line(e: EntryView) -> Seq<char> {
    "aur/"@ + e.pkgbase + " "@ + version_spec(e) + "\n"@ + match e.pkgdesc {
        Some(d) => "    "@ + d + "\n"@,
        None => seq![],
    }
}

/// Adds an entry to the result of a search.
pub fn write_search_result(out: &mut String, entry: &IndexEntry)
    ensures
        final(out)@ == old(out)@ + search_line(entry@),
{
    let ghost before = out@;
    out.append("aur/");
    out.append(entry.pkgbase.as_str());
    out.append(" ");
    out.append(entry.version().as_str());
    out.append("\n");
    match &entry.pkgdesc {
        Some(d) => {
            out.append("    ");
            out.append(d.as_str());
            out.append("\n");
        },
        None => {},
    }
    assert(out@ =~= before + search_line(entry@));
}

/// What an `info` command found.
pub struct InfoReport<'a> {
    /// The entries to describe, in this order.
    pub found: Vec<&'a IndexEntry>,
    /// What the user is told of targets that were not found.
    pub warning: Option<String>,
    /// The exit code.
    pub code: u8,
}

/// The entry that a target means.
pub open spec fn meant(idx: IndexFile, by: Secondary, target: Seq<char>) -> Option<IndexEntry> {
    entry_at(idx.entries@, by.tables.primary(bare_spec(target)))
}

/// The entries that targets mean, in their order.
pub open spec fn all_meant(idx: IndexFile, by: Secondary, targets: Seq<Seq<char>>) -> Seq<IndexEntry>
    decreases targets.len(),
{
    if targets.len() == 0 {
        seq![]
    } else {
        match meant(idx, by, targets.last()) {
            Some(e) => all_meant(idx, by, targets.drop_last()).push(e),
            None => all_meant(idx, by, targets.drop_last()),
        }
    }
}

/// The targets that mean no entry, in their order.
pub open spec fn all_missing(idx: IndexFile, by: Secondary, targets: Seq<Seq<char>>) -> Seq<Seq<char>>
    decreases targets.len(),
{
    if targets.len() == 0 {
        seq![]
    } else {
        match meant(idx, by, targets.last()) {
            Some(_) => all_missing(idx, by, targets.drop_last()),
            None => all_missing(idx, by, targets.drop_last()).push(targets.last()),
        }
    }
}

/// Looks the targets of an `info` command up.
pub fn cmd_info<'a>(idx: &'a IndexFile, by: &Secondary, targets: &Vec<PkgTarget>) -> (r: InfoReport<'a>)
    ensures
        r.found@.map_values(|e: &IndexEntry| *e) == all_meant(*idx, *by, pkgtarget_views(targets@)),
        ({
            let missing = all_missing(*idx, *by, pkgtarget_views(targets@));
            &&& r.code == (if missing.len() > 0 {
                1u8
            } else {
                0u8
            })
            &&& opt_view(r.warning) == (if missing.len() > 0 {
                Some("not in AUR: "@ + join_spec(missing, ", "@))
            } else {
                None
            })
        }),
{
    let ghost all = pkgtarget_views(targets@);
    let mut found: Vec<&'a IndexEntry> = Vec::new();
    let mut missing: Vec<String> = Vec::new();
    let mut i: usize = 0;
    assert(all.len() == targets@.len());
    assert(found@.map_values(|e: &IndexEntry| *e) =~= all_meant(*idx, *by, all.take(0)));
    assert(views(missing@) =~= all_missing(*idx, *by, all.take(0)));
    while i < targets.len()
        invariant
            all == pkgtarget_views(targets@),
            all.len() == targets@.len(),
            i <= targets.len(),
            found@.map_values(|e: &IndexEntry| *e) == all_meant(*idx, *by, all.take(i as int)),
            views(missing@) == all_missing(*idx, *by, all.take(i as int)),
        decreases targets.len() - i,
    {
        proof {
            crate::seqs::lemma_take_succ(all, i as int);
            assert(all[i as int] == targets@[i as int]@);
        }
        match by.lookup(idx, targets[i].as_str()) {
            Some(e) => {
                found.push(e);
            },
            None => {
                missing.push(targets[i].to_string());
            },
        }
        i = i + 1;
    }
    assert(all.take(i as int) =~= all);
    assert(views(missing@).len() == missing@.len());
    let (warning, code) = report_missing(&missing);
    InfoReport { found, warning, code }
}

/// Whether `res` are what the terms compile to.
pub open spec fn are_compiled(terms: Seq<Seq<char>>, res: Seq<Regex>) -> bool {
    &&& res.len() == terms.len()
    &&& forall|i: int|
        0 <= i < terms.len() ==> caseless_regex(#[trigger] terms[i]) == Ok::<Regex, RegexError>(
            res[i],
        )
}

/// The lines of a search.
pub open spec fn search_lines(entries: Seq<IndexEntry>) -> Seq<char>
    decreases entries.len(),
{
    if entries.len() == 0 {
        seq![]
    } else {
        search_lines(entries.drop_last()) + search_line(entries.last()@)
    }
}

/// The error of the first term that does not compile.
pub open spec fn first_fault(terms: Seq<Seq<char>>) -> Option<RegexError>
    decreases terms.len(),
{
    if terms.len() == 0 {
        None
    } else {
        match first_fault(terms.drop_last()) {
            Some(e) => Some(e),
            None => match caseless_regex(terms.last()) {
                Ok(_) => None,
                Err(e) => Some(e),
            },
        }
    }
}

/// Later terms do not change which is the first that does not compile.
proof fn lemma_fault_stays(terms: Seq<Seq<char>>, i: int)
    requires
        0 <= i <= terms.len(),
        first_fault(terms.take(i)) is Some,
    ensures
        first_fault(terms) == first_fault(terms.take(i)),
    decreases terms.len() - i,
{
    if i == terms.len() {
        assert(terms.take(i) =~= terms);
    } else {
        crate::seqs::lemma_take_succ(terms, i);
        lemma_fault_stays(terms, i + 1);
    }
}

/// Compiles the terms of a search, whose case does not matter.
pub fn compile_terms(terms: &Vec<SearchTerm>) -> (r: Result<Vec<Regex>, Error>)
    ensures
        ({
            let texts = terms@.map_values(|t: SearchTerm| t@);
            match r {
                Ok(res) => first_fault(texts) is None && are_compiled(texts, res@),
                Err(Error::Regex(m)) => first_fault(texts) matches Some(e) && m@ == regex_complaint(
                    e,
                ),
                Err(_) => false,
            }
        }),
{
    let ghost texts = terms@.map_values(|t: SearchTerm| t@);
    let mut res: Vec<Regex> = Vec::new();
    let mut i: usize = 0;
    assert(texts.len() == terms@.len());
    while i < terms.len()
        invariant
            texts == terms@.map_values(|t: SearchTerm| t@),
            texts.len() == terms@.len(),
            i <= terms.len(),
            first_fault(texts.take(i as int)) is None,
            are_compiled(texts.take(i as int), res@),
        decreases terms.len() - i,
    {
        proof {
            crate::seqs::lemma_take_succ(texts, i as int);
            assert(texts[i as int] == terms@[i as int]@);
        }
        let ghost had = res@;
        match terms[i].compile() {
            Ok(re) => {
                res.push(re);
                proof {
                    let now = texts.take(i as int + 1);
                    assert forall|k: int| 0 <= k < now.len() implies caseless_regex(
                        #[trigger] now[k],
                    ) == Ok::<Regex, RegexError>(res@[k]) by {
                        if k < i {
                            assert(now[k] == texts.take(i as int)[k]);
                            assert(res@[k] == had[k]);
                        }
                    }
                }
            },
            Err(e) => {
                proof {
                    lemma_fault_stays(texts, i as int + 1);
                }
                return Err(Error::Regex(regex_error_text(&e)));
            },
        }
        i = i + 1;
    }
    assert(texts.take(i as int) =~= texts);
    Ok(res)
}

/// The lines of a search for compiled terms.
pub fn cmd_search(idx: &IndexFile, by: &Secondary, regexes: &Vec<Regex>) -> (r: String)
    ensures
        r@ == search_lines(
            kept(
                idx.entries@,
                idx.entries@.map_values(|e: IndexEntry| all_plain_match(e@, regexes@)),
            ),
        ),
{
    let hits = by.search(idx, regexes);
    let ghost all = hits@.map_values(|e: &IndexEntry| *e);
    let mut out = String::new();
    let mut i: usize = 0;
    assert(out@ =~= search_lines(all.take(0)));
    while i < hits.len()
        invariant
            all == hits@.map_values(|e: &IndexEntry| *e),
            i <= hits.len(),
            out@ == search_lines(all.take(i as int)),
        decreases hits.len() - i,
    {
        proof {
            crate::seqs::lemma_take_succ(all, i as int);
            assert(all[i as int] == *hits@[i as int]);
        }
        write_search_result(&mut out, hits[i]);
        i = i + 1;
    }
    assert(all.take(i as int) =~= all);
    out
}

} // verus!
