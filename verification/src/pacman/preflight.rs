//! Trials of a transaction before pacman runs it: what is to be tried and what is
//! said of the problems that a trial finds.

use vstd::prelude::*;

use crate::error::Error;
use crate::names::{bare_spec, pkgname_views, pkgtarget_views, Arch, PkgName, PkgTarget};
use crate::pacman::alpm_db::PacmanIndex;
use crate::text::{occurs_at, same, skip, starts_with, to_chars, views};
use crate::version::Version;

verus! {

broadcast use {vstd::string::group_string_axioms, crate::seqs::lemma_map_push};

/// A problem with a transaction.
#[derive(Debug, PartialEq, Eq)]
#[allow(inconsistent_fields)]
pub enum Issue {
    /// Two packages conflict, by what one of them declares.
    Conflict {
        /// One of them.
        pkg1: PkgName,
        /// The other.
        pkg2: PkgName,
        /// What was declared.
        reason: PkgTarget,
    },
    /// A dependency would not be met any more.
    UnsatisfiedDep {
        /// Whose dependency.
        target: PkgName,
        /// Which dependency.
        depend: PkgTarget,
        /// The package whose installation does that, where there is one.
        causing: Option<PkgName>,
        /// Its version, where that is known.
        causing_ver: Option<Version>,
    },
    /// A removal would leave a dependency unmet.
    RemovalBreaks {
        /// What would be removed.
        removed: PkgName,
        /// Which dependency.
        depend: PkgTarget,
        /// Whose dependency.
        target: PkgName,
    },
    /// There is nothing of this name to remove.
    TargetNotFound {
        /// The name as it was given.
        target: PkgTarget,
    },
    /// A package is not for this machine.
    InvalidArch {
        /// Which package.
        pkg: PkgName,
        /// What it is for.
        arch: Option<Arch>,
    },
    /// A problem of which only a message is known.
    Other {
        /// The message.
        message: String,
    },
}

/// The model of an [`Issue`].
pub enum IssueView {
    /// Two packages conflict.
    Conflict { pkg1: Seq<char>, pkg2: Seq<char>, reason: Seq<char> },
    /// A dependency would not be met any more.
    UnsatisfiedDep {
        target: Seq<char>,
        depend: Seq<char>,
        causing: Option<Seq<char>>,
        causing_ver: Option<Seq<char>>,
    },
    /// A removal would leave a dependency unmet.
    RemovalBreaks { removed: Seq<char>, depend: Seq<char>, target: Seq<char> },
    /// There is nothing of this name to remove.
    TargetNotFound { target: Seq<char> },
    /// A package is not for this machine.
    InvalidArch { pkg: Seq<char>, arch: Option<Seq<char>> },
    /// A problem of which only a message is known.
    Other { message: Seq<char> },
}

impl View for Issue {
    type V = IssueView;

    open spec fn view(&self) -> IssueView {
        match *self {
            Issue::Conflict { pkg1, pkg2, reason } => IssueView::Conflict {
                pkg1: pkg1@,
                pkg2: pkg2@,
                reason: reason@,
            },
            Issue::UnsatisfiedDep { target, depend, causing, causing_ver } => IssueView::UnsatisfiedDep {
                target: target@,
                depend: depend@,
                causing: match causing {
                    Some(c) => Some(c@),
                    None => None,
                },
                causing_ver: match causing_ver {
                    Some(v) => Some(v@),
                    None => None,
                },
            },
            Issue::RemovalBreaks { removed, depend, target } => IssueView::RemovalBreaks {
                removed: removed@,
                depend: depend@,
                target: target@,
            },
            Issue::TargetNotFound { target } => IssueView::TargetNotFound { target: target@ },
            Issue::InvalidArch { pkg, arch } => IssueView::InvalidArch {
                pkg: pkg@,
                arch: match arch {
                    Some(a) => Some(a@),
                    None => None,
                },
            },
            Issue::Other { message } => IssueView::Other { message: message@ },
        }
    }
}

/// The models of the issues.
pub open spec fn issue_list(v: Seq<Issue>) -> Seq<IssueView> {
    v.map_values(|i: Issue| i@)
}

impl IssueView {
    /// The problem in pacman's words.
    pub open spec fn text(self) -> Seq<char> {
        match self {
            IssueView::Conflict { pkg1, pkg2, reason } => pkg1 + " and "@ + pkg2
                + " are in conflict"@ + if bare_spec(reason) == pkg1 || bare_spec(reason) == pkg2 {
                seq![]
            } else {
                " ("@ + reason + ")"@
            },
            IssueView::UnsatisfiedDep { target, depend, causing: Some(causing), causing_ver } => {
                "installing "@ + causing + (match causing_ver {
                    Some(v) => " ("@ + v + ")"@,
                    None => seq![],
                }) + " breaks dependency '"@ + depend + "' required by "@ + target
            },
            IssueView::UnsatisfiedDep { target, depend, causing: None, .. } => {
                "unable to satisfy dependency '"@ + depend + "' required by "@ + target
            },
            IssueView::RemovalBreaks { removed, depend, target } => "removing "@ + removed
                + " breaks dependency '"@ + depend + "' required by "@ + target,
            IssueView::TargetNotFound { target } => "target not found: "@ + target,
            IssueView::InvalidArch { pkg, arch } => "package "@ + pkg
                + " does not have a valid architecture"@ + match arch {
                Some(a) => " ("@ + a + ")"@,
                None => seq![],
            },
            IssueView::Other { message } => message,
        }
    }
}

impl Issue {
    /// The problem in pacman's words.
    pub fn to_string(&self) -> (r: String)
        ensures
            r@ == self@.text(),
    {
        let mut r = String::new();
        match self {
            Issue::Conflict { pkg1, pkg2, reason } => {
                r.append(pkg1.as_str());
                r.append(" and ");
                r.append(pkg2.as_str());
                r.append(" are in conflict");
                if !(reason.refers_to(pkg1) || reason.refers_to(pkg2)) {
                    r.append(" (");
                    r.append(reason.as_str());
                    r.append(")");
                }
            },
            Issue::UnsatisfiedDep { target, depend, causing, causing_ver } => {
                match causing {
                    Some(c) => {
                        r.append("installing ");
                        r.append(c.as_str());
                        match causing_ver {
                            Some(v) => {
                                r.append(" (");
                                r.append(v.as_str());
                                r.append(")");
                            },
                            None => {},
                        }
                        r.append(" breaks dependency '");
                    },
                    None => {
                        r.append("unable to satisfy dependency '");
                    },
                }
                r.append(depend.as_str());
                r.append("' required by ");
                r.append(target.as_str());
            },
            Issue::RemovalBreaks { removed, depend, target } => {
                r.append("removing ");
                r.append(removed.as_str());
                r.append(" breaks dependency '");
                r.append(depend.as_str());
                r.append("' required by ");
                r.append(target.as_str());
            },
            Issue::TargetNotFound { target } => {
                r.append("target not found: ");
                r.append(target.as_str());
            },
            Issue::InvalidArch { pkg, arch } => {
                r.append("package ");
                r.append(pkg.as_str());
                r.append(" does not have a valid architecture");
                match arch {
                    Some(a) => {
                        r.append(" (");
                        r.append(a.as_str());
                        r.append(")");
                    },
                    None => {},
                }
            },
            Issue::Other { message } => {
                r.append(message.as_str());
            },
        }
        assert(r@ =~= self@.text());
        r
    }
}

/// How a removal is carried out: the flags of libalpm's transaction that the
/// modifiers of `-R` stand for.
#[derive(Debug, Clone, Copy, PartialEq, Eq, Structural)]
pub struct TransFlag {
    /// Remove what depends on the targets, too.
    pub cascade: bool,
    /// Leave out what is still needed.
    pub unneeded: bool,
    /// Keep no copies of configuration files.
    pub no_save: bool,
    /// Touch the database only.
    pub db_only: bool,
    /// Run no scripts.
    pub no_scriptlet: bool,
    /// Remove dependencies that nothing needs any more.
    pub recurse: bool,
    /// Even those that were installed explicitly.
    pub recurse_all: bool,
    /// Do not look at versions of dependencies.
    pub no_dep_version: bool,
    /// Do not look at dependencies.
    pub no_deps: bool,
}

impl TransFlag {
    /// No flag.
    pub open spec fn none_spec() -> TransFlag {
        TransFlag {
            cascade: false,
            unneeded: false,
            no_save: false,
            db_only: false,
            no_scriptlet: false,
            recurse: false,
            recurse_all: false,
            no_dep_version: false,
            no_deps: false,
        }
    }

    /// No flag.
    pub fn none() -> (r: Self)
        ensures
            r == Self::none_spec(),
    {
        TransFlag {
            cascade: false,
            unneeded: false,
            no_save: false,
            db_only: false,
            no_scriptlet: false,
            recurse: false,
            recurse_all: false,
            no_dep_version: false,
            no_deps: false,
        }
    }
}

/// A removal that can be tried.
#[derive(Debug)]
pub struct RemoveRequest {
    /// What is to be removed.
    pub targets: Vec<PkgTarget>,
    /// How.
    pub flags: TransFlag,
}

/// What has been read of the arguments.
#[verifier::ext_equal]
pub struct Reading {
    /// Whether it is a removal.
    pub is_remove: bool,
    /// The flags that one mention sets.
    pub flags: TransFlag,
    /// How often recursion was asked for: never, once or more often.
    pub recursive: u8,
    /// How often dependencies were waived: never, once or more often.
    pub nodeps: u8,
    /// The targets.
    pub targets: Seq<Seq<char>>,
}

/// Once more than `n` times, where two and more are the same.
pub open spec fn once_more(n: u8) -> u8 {
    if n == 0 {
        1
    } else {
        2
    }
}

impl Reading {
    /// Nothing has been read.
    pub open spec fn start() -> Reading {
        Reading {
            is_remove: false,
            flags: TransFlag::none_spec(),
            recursive: 0,
            nodeps: 0,
            targets: seq![],
        }
    }

    /// After a long option, without its dashes; nothing for an option that is not
    /// known.
    pub open spec fn long(self, name: Seq<char>) -> Option<Reading> {
        if name == "cascade"@ {
            Some(Reading { flags: TransFlag { cascade: true, ..self.flags }, ..self })
        } else if name == "recursive"@ {
            Some(Reading { recursive: once_more(self.recursive), ..self })
        } else if name == "unneeded"@ {
            Some(Reading { flags: TransFlag { unneeded: true, ..self.flags }, ..self })
        } else if name == "nosave"@ {
            Some(Reading { flags: TransFlag { no_save: true, ..self.flags }, ..self })
        } else if name == "nodeps"@ {
            Some(Reading { nodeps: once_more(self.nodeps), ..self })
        } else if name == "dbonly"@ {
            Some(Reading { flags: TransFlag { db_only: true, ..self.flags }, ..self })
        } else if name == "noscriptlet"@ {
            Some(Reading { flags: TransFlag { no_scriptlet: true, ..self.flags }, ..self })
        } else if name == "noconfirm"@ || name == "confirm"@ || name == "noprogressbar"@ || name
            == "verbose"@ || name == "debug"@ || occurs_at(name, "color="@, 0) {
            Some(self)
        } else {
            None
        }
    }

    /// After one letter of a group of short options; nothing for a letter that is
    /// not known.
    pub open spec fn letter(self, c: char) -> Option<Reading> {
        if c == 'R' {
            Some(Reading { is_remove: true, ..self })
        } else if c == 'c' {
            Some(Reading { flags: TransFlag { cascade: true, ..self.flags }, ..self })
        } else if c == 's' {
            Some(Reading { recursive: once_more(self.recursive), ..self })
        } else if c == 'u' {
            Some(Reading { flags: TransFlag { unneeded: true, ..self.flags }, ..self })
        } else if c == 'n' {
            Some(Reading { flags: TransFlag { no_save: true, ..self.flags }, ..self })
        } else if c == 'd' {
            Some(Reading { nodeps: once_more(self.nodeps), ..self })
        } else if c == 'v' {
            Some(self)
        } else {
            None
        }
    }

    /// After a group of short options, without its dash.
    pub open spec fn cluster(self, cs: Seq<char>) -> Option<Reading>
        decreases cs.len(),
    {
        if cs.len() == 0 {
            Some(self)
        } else {
            match self.letter(cs[0]) {
                Some(next) => next.cluster(cs.skip(1)),
                None => None,
            }
        }
    }

    /// After all of `argv`; nothing where an argument is not known or a value is
    /// missing.
    pub open spec fn read(self, argv: Seq<Seq<char>>) -> Option<Reading>
        decreases argv.len(),
    {
        if argv.len() == 0 {
            Some(self)
        } else {
            let a = argv[0];
            if a == "--"@ {
                Some(Reading { targets: self.targets + argv.skip(1), ..self })
            } else if a == "--color"@ {
                if argv.len() < 2 {
                    None
                } else {
                    self.read(argv.skip(2))
                }
            } else if occurs_at(a, "--"@, 0) {
                match self.long(a.skip(2)) {
                    Some(next) => next.read(argv.skip(1)),
                    None => None,
                }
            } else if occurs_at(a, "-"@, 0) {
                match self.cluster(a.skip(1)) {
                    Some(next) => next.read(argv.skip(1)),
                    None => None,
                }
            } else {
                Reading { targets: self.targets.push(a), ..self }.read(argv.skip(1))
            }
        }
    }

    /// All the flags.
    pub open spec fn all_flags(self) -> TransFlag {
        TransFlag {
            recurse: self.recursive >= 1,
            recurse_all: self.recursive >= 2,
            no_dep_version: self.nodeps >= 1,
            no_deps: self.nodeps >= 2,
            ..self.flags
        }
    }
}

/// The removal that `argv` asks for: its targets and its flags. Nothing where it is
/// no removal, names no target or holds an argument that is not known.
pub open spec fn request_of(argv: Seq<Seq<char>>) -> Option<(Seq<Seq<char>>, TransFlag)> {
    match Reading::start().read(argv) {
        Some(s) => if s.is_remove && s.targets.len() > 0 {
            Some((s.targets, s.all_flags()))
        } else {
            None
        },
        None => None,
    }
}

struct Reader {
    is_remove: bool,
    flags: TransFlag,
    recursive: u8,
    nodeps: u8,
    targets: Vec<PkgTarget>,
}

impl View for Reader {
    type V = Reading;

    closed spec fn view(&self) -> Reading {
        Reading {
            is_remove: self.is_remove,
            flags: self.flags,
            recursive: self.recursive,
            nodeps: self.nodeps,
            targets: pkgtarget_views(self.targets@),
        }
    }
}

fn count_once_more(n: u8) -> (r: u8)
    ensures
        r == once_more(n),
{
    if n == 0 {
        1
    } else {
        2
    }
}

impl Reader {
    fn new() -> (r: Self)
        ensures
            r@ == Reading::start(),
    {
        let r = Reader {
            is_remove: false,
            flags: TransFlag::none(),
            recursive: 0,
            nodeps: 0,
            targets: Vec::new(),
        };
        assert(r@ =~= Reading::start());
        r
    }

    /// Reads a long option without its dashes; says whether it is known.
    fn long(&mut self, name: &str) -> (ok: bool)
        ensures
            ok == (old(self)@.long(name@) is Some),
            ok ==> Some(final(self)@) == old(self)@.long(name@),
    {
        if same(name, "cascade") {
            self.flags.cascade = true;
        } else if same(name, "recursive") {
            self.recursive = count_once_more(self.recursive);
        } else if same(name, "unneeded") {
            self.flags.unneeded = true;
        } else if same(name, "nosave") {
            self.flags.no_save = true;
        } else if same(name, "nodeps") {
            self.nodeps = count_once_more(self.nodeps);
        } else if same(name, "dbonly") {
            self.flags.db_only = true;
        } else if same(name, "noscriptlet") {
            self.flags.no_scriptlet = true;
        } else if same(name, "noconfirm") || same(name, "confirm") || same(name, "noprogressbar")
            || same(name, "verbose") || same(name, "debug") || starts_with(name, "color=") {
        } else {
            return false;
        }
        true
    }

    /// Reads one letter of a group; says whether it is known.
    fn letter(&mut self, c: char) -> (ok: bool)
        ensures
            ok == (old(self)@.letter(c) is Some),
            ok ==> Some(final(self)@) == old(self)@.letter(c),
    {
        if c == 'R' {
            self.is_remove = true;
        } else if c == 'c' {
            self.flags.cascade = true;
        } else if c == 's' {
            self.recursive = count_once_more(self.recursive);
        } else if c == 'u' {
            self.flags.unneeded = true;
        } else if c == 'n' {
            self.flags.no_save = true;
        } else if c == 'd' {
            self.nodeps = count_once_more(self.nodeps);
        } else if c == 'v' {
        } else {
            return false;
        }
        true
    }

    /// Reads a group of short options without its dash; says whether it is known.
    fn cluster(&mut self, group: &str) -> (ok: bool)
        ensures
            ok == (old(self)@.cluster(group@) is Some),
            ok ==> Some(final(self)@) == old(self)@.cluster(group@),
    {
        let cs = to_chars(group);
        let mut i: usize = 0;
        assert(group@.skip(0) =~= group@);
        while i < cs.len()
            invariant
                cs@ == group@,
                i <= cs.len(),
                old(self)@.cluster(group@) == self@.cluster(group@.skip(i as int)),
            decreases cs.len() - i,
        {
            assert(group@.skip(i as int)[0] == group@[i as int]);
            assert(group@.skip(i as int).skip(1) =~= group@.skip(i as int + 1));
            if !self.letter(cs[i]) {
                return false;
            }
            i = i + 1;
        }
        true
    }

    /// Takes a target.
    fn target(&mut self, name: &str)
        ensures
            final(self)@ == (Reading {
                targets: old(self)@.targets.push(name@),
                ..old(self)@
            }),
    {
        let ghost before = self.targets@;
        self.targets.push(PkgTarget::new(name));
        assert(pkgtarget_views(self.targets@) =~= pkgtarget_views(before).push(name@));
    }
}

impl RemoveRequest {
    /// Reads the arguments of a removal. Nothing where they are none, or where they
    /// hold something that a trial could not follow.
    pub fn from_argv(argv: &Vec<String>) -> (r: Option<Self>)
        ensures
            match r {
                Some(q) => request_of(views(argv@)) == Some((pkgtarget_views(q.targets@), q.flags)),
                None => request_of(views(argv@)) is None,
            },
    {
        let ghost all = views(argv@);
        let mut s = Reader::new();
        let mut i: usize = 0;
        assert(all.len() == argv@.len());
        assert(all.skip(0) =~= all);
        while i < argv.len()
            invariant_except_break
                all == views(argv@),
                all.len() == argv@.len(),
                i <= argv.len(),
                Reading::start().read(all) == s@.read(all.skip(i as int)),
            ensures
                Reading::start().read(all) == Some(s@),
            decreases argv.len() - i,
        {
            let a = argv[i].as_str();
            let ghost rest = all.skip(i as int);
            assert(rest[0] == a@);
            assert(rest.skip(1) =~= all.skip(i as int + 1));
            if same(a, "--") {
                let mut j: usize = i + 1;
                let ghost before = s@;
                assert(before.targets + rest.skip(1).take(0) =~= before.targets);
                while j < argv.len()
                    invariant
                        all == views(argv@),
                        all.len() == argv@.len(),
                        0 <= i < j <= argv.len(),
                        rest.skip(1) == all.skip(i as int + 1),
                        s@ == (Reading {
                            targets: before.targets + rest.skip(1).take(j - i - 1),
                            ..before
                        }),
                    decreases argv.len() - j,
                {
                    assert(all[j as int] == argv@[j as int]@);
                    s.target(argv[j].as_str());
                    proof {
                        crate::seqs::lemma_take_succ(rest.skip(1), j - i - 1);
                    }
                    assert(s@.targets =~= before.targets + rest.skip(1).take(j - i));
                    j = j + 1;
                }
                assert(rest.skip(1).take(j - i - 1) =~= rest.skip(1));
                assert(s@.targets =~= before.targets + rest.skip(1));
                break;
            }
            if same(a, "--color") {
                if argv.len() - i < 2 {
                    return None;
                }
                assert(rest.skip(2) =~= all.skip(i as int + 2));
                i = i + 2;
            } else if starts_with(a, "--") {
                proof {
                    reveal_strlit("--");
                }
                if !s.long(skip(a, 2)) {
                    return None;
                }
                i = i + 1;
            } else if starts_with(a, "-") {
                proof {
                    reveal_strlit("-");
                }
                if !s.cluster(skip(a, 1)) {
                    return None;
                }
                i = i + 1;
            } else {
                s.target(a);
                i = i + 1;
            }
            if i == argv.len() {
                assert(all.skip(i as int) =~= seq![]);
            }
        }
        if !s.is_remove || s.targets.len() == 0 {
            return None;
        }
        let flags = TransFlag {
            recurse: s.recursive >= 1,
            recurse_all: s.recursive >= 2,
            no_dep_version: s.nodeps >= 1,
            no_deps: s.nodeps >= 2,
            ..s.flags
        };
        Some(RemoveRequest { targets: s.targets, flags })
    }
}

/// A group of installed packages.
#[derive(Debug)]
pub struct Group {
    /// Its name.
    pub name: String,
    /// The packages.
    pub members: Vec<PkgName>,
}

/// What one target of a removal comes to.
#[derive(Debug)]
pub enum Staged {
    /// These packages are to be removed.
    Remove(Vec<PkgName>),
    /// There is nothing of that name.
    Missing(Issue),
}

/// What one target of a removal comes to, in names; nothing where it is missing.
pub open spec fn staged_names(
    target: Seq<char>,
    installed: Seq<Seq<char>>,
    groups: Seq<Group>,
) -> Option<Seq<Seq<char>>> {
    let name = plain_name(target);
    if installed.contains(name) {
        Some(seq![name])
    } else {
        group_members(groups, name)
    }
}

/// The packages of the first group called `name`.
pub open spec fn group_members(groups: Seq<Group>, name: Seq<char>) -> Option<Seq<Seq<char>>>
    decreases groups.len(),
{
    if groups.len() == 0 {
        None
    } else if groups[0].name@ == name {
        Some(pkgname_views(groups[0].members@))
    } else {
        group_members(groups.skip(1), name)
    }
}

/// A target without the name of the local database before it.
pub open spec fn plain_name(target: Seq<char>) -> Seq<char> {
    if occurs_at(target, "local/"@, 0) {
        target.skip(6)
    } else {
        target
    }
}

/// Resolves one target of a removal as pacman does: an installed package, or else
/// a group. What a package provides does not count.
pub fn stage(target: &PkgTarget, installed: &Vec<PkgName>, groups: &Vec<Group>) -> (r: Staged)
    ensures
        match r {
            Staged::Remove(names) => staged_names(target@, pkgname_views(installed@), groups@)
                == Some(pkgname_views(names@)),
            Staged::Missing(issue) => {
                &&& staged_names(target@, pkgname_views(installed@), groups@) is None
                &&& issue@ == (IssueView::TargetNotFound { target: target@ })
            },
        },
{
    let t = target.as_str();
    let name = if starts_with(t, "local/") {
        proof {
            reveal_strlit("local/");
        }
        skip(t, 6)
    } else {
        t
    };
    let ghost all = pkgname_views(installed@);
    assert(all.len() == installed@.len());
    let mut i: usize = 0;
    while i < installed.len()
        invariant
            all == pkgname_views(installed@),
            all.len() == installed@.len(),
            name@ == plain_name(target@),
            i <= installed.len(),
            forall|k: int| 0 <= k < i ==> #[trigger] all[k] != name@,
        decreases installed.len() - i,
    {
        assert(all[i as int] == installed@[i as int]@);
        if same(installed[i].as_str(), name) {
            let mut names: Vec<PkgName> = Vec::new();
            names.push(PkgName::new(name));
            assert(pkgname_views(names@) =~= seq![name@]);
            assert(all.contains(name@));
            return Staged::Remove(names);
        }
        i = i + 1;
    }
    assert(!all.contains(name@));
    let mut j: usize = 0;
    assert(groups@.skip(0) =~= groups@);
    while j < groups.len()
        invariant
            all == pkgname_views(installed@),
            name@ == plain_name(target@),
            !all.contains(name@),
            j <= groups.len(),
            group_members(groups@, name@) == group_members(groups@.skip(j as int), name@),
        decreases groups.len() - j,
    {
        assert(groups@.skip(j as int)[0] == groups@[j as int]);
        if same(groups[j].name.as_str(), name) {
            let members = &groups[j].members;
            let ghost want = pkgname_views(members@);
            let mut names: Vec<PkgName> = Vec::new();
            let mut k: usize = 0;
            assert(pkgname_views(names@) =~= want.take(0));
            while k < members.len()
                invariant
                    want == pkgname_views(members@),
                    k <= members.len(),
                    pkgname_views(names@) == want.take(k as int),
                decreases members.len() - k,
            {
                names.push(members[k].clone());
                proof {
                    crate::seqs::lemma_take_succ(want, k as int);
                    assert(want[k as int] == members@[k as int]@);
                }
                assert(pkgname_views(names@) =~= want.take(k as int + 1));
                k = k + 1;
            }
            assert(want.take(k as int) =~= want);
            return Staged::Remove(names);
        }
        assert(groups@.skip(j as int).skip(1) =~= groups@.skip(j as int + 1));
        j = j + 1;
    }
    Staged::Missing(Issue::TargetNotFound { target: target.clone() })
}

/// A problem of a removal: what the removal of a package leaves unmet is said of
/// the removal.
pub open spec fn as_removal(i: IssueView) -> IssueView {
    match i {
        IssueView::UnsatisfiedDep { target, depend, causing: Some(removed), .. } => {
            IssueView::RemovalBreaks { removed, depend, target }
        },
        other => other,
    }
}

fn reshaped(issue: Issue) -> (r: Issue)
    ensures
        r@ == as_removal(issue@),
{
    match issue {
        Issue::UnsatisfiedDep { target, depend, causing: Some(removed), causing_ver } => {
            Issue::RemovalBreaks { removed, depend, target }
        },
        other => other,
    }
}

/// The problems of a removal.
pub fn removal_issues(issues: Vec<Issue>) -> (r: Vec<Issue>)
    ensures
        issue_list(r@) == issue_list(issues@).map_values(|i: IssueView| as_removal(i)),
{
    let ghost all = issues@;
    let ghost want = issue_list(all).map_values(|i: IssueView| as_removal(i));
    let mut rest = issues;
    let total: usize = rest.len();
    let mut r: Vec<Issue> = Vec::new();
    let mut i: usize = 0;
    assert(issue_list(r@) =~= want.take(0));
    while i < total
        invariant
            want == issue_list(all).map_values(|i: IssueView| as_removal(i)),
            total == rest.len(),
            total == all.len(),
            i <= total,
            forall|j: int| i <= j < total ==> #[trigger] rest@[j] == all[j],
            issue_list(r@) == want.take(i as int),
        decreases total - i,
    {
        let mut taken = Issue::Other { message: String::new() };
        std::mem::swap(&mut rest[i], &mut taken);
        r.push(reshaped(taken));
        assert(want[i as int] == as_removal(all[i as int]@));
        assert(issue_list(r@) =~= want.take(i as int + 1));
        i = i + 1;
    }
    assert(want.take(i as int) =~= want);
    r
}

/// What came of staging one target of a removal.
#[derive(Debug)]
pub enum StageResult {
    /// Its packages are staged.
    Done,
    /// There is nothing of that name.
    Missing,
    /// It could not be staged, for this reason.
    Refused(String),
}

/// The first target that could not be staged.
pub open spec fn first_refused(results: Seq<StageResult>) -> Option<int>
    decreases results.len(),
{
    if results.len() == 0 {
        None
    } else {
        match first_refused(results.drop_last()) {
            Some(i) => Some(i),
            None => if results.last() is Refused {
                Some(results.len() - 1)
            } else {
                None
            },
        }
    }
}

/// What is said of the targets of which there is nothing.
pub open spec fn not_found(targets: Seq<Seq<char>>, results: Seq<StageResult>) -> Seq<IssueView>
    decreases results.len(),
{
    if results.len() == 0 {
        seq![]
    } else if results.last() is Missing {
        not_found(targets, results.drop_last()).push(
            IssueView::TargetNotFound { target: targets[results.len() - 1] },
        )
    } else {
        not_found(targets, results.drop_last())
    }
}

/// What the staging of a removal comes to: an error where a target could not be
/// staged, for then nothing can be said of the removal, or else the targets of which
/// there is nothing. Only where there are none of those, the removal is looked at
/// further.
pub fn staged(targets: &Vec<PkgTarget>, results: &Vec<StageResult>) -> (r: Result<Vec<Issue>, Error>)
    requires
        results.len() <= targets.len(),
    ensures
        match first_refused(results@) {
            Some(i) => {
                &&& 0 <= i < results@.len()
                &&& results@[i] matches StageResult::Refused(why)
                &&& r matches Err(Error::Other(m))
                &&& m@ == "alpm trans_remove_pkg "@ + targets@[i]@ + ": "@ + why@
            },
            None => r matches Ok(v) && issue_list(v@) == not_found(
                pkgtarget_views(targets@),
                results@,
            ),
        },
{
    let ghost names = pkgtarget_views(targets@);
    let mut v: Vec<Issue> = Vec::new();
    let mut i: usize = 0;
    assert(issue_list(v@) =~= not_found(names, results@.take(0)));
    while i < results.len()
        invariant
            names == pkgtarget_views(targets@),
            results.len() <= targets.len(),
            i <= results.len(),
            first_refused(results@.take(i as int)) is None,
            issue_list(v@) == not_found(names, results@.take(i as int)),
        decreases results.len() - i,
    {
        proof {
            crate::seqs::lemma_take_succ(results@, i as int);
            assert(names[i as int] == targets@[i as int]@);
        }
        match &results[i] {
            StageResult::Done => {},
            StageResult::Missing => {
                v.push(Issue::TargetNotFound { target: targets[i].clone() });
            },
            StageResult::Refused(why) => {
                proof {
                    lemma_refusal_stays_first(results@, i as int);
                }
                return Err(staging_error(&targets[i], why.as_str()));
            },
        }
        i = i + 1;
    }
    assert(results@.take(i as int) =~= results@);
    Ok(v)
}

/// The first refusal among the first results is the first among all.
proof fn lemma_refusal_stays_first(results: Seq<StageResult>, i: int)
    requires
        0 <= i < results.len(),
        results[i] is Refused,
        first_refused(results.take(i)) is None,
    ensures
        first_refused(results) == Some(i),
    decreases results.len(),
{
    if i == results.len() - 1 {
        assert(results.drop_last() =~= results.take(i));
    } else {
        assert(results.drop_last().take(i) =~= results.take(i));
        lemma_refusal_stays_first(results.drop_last(), i);
    }
}

/// Problems of the two kinds never mix: where a target is missing, only missing
/// targets are named.
pub proof fn law_missing_targets_stand_alone(targets: Seq<Seq<char>>, results: Seq<StageResult>)
    ensures
        forall|i: int|
            0 <= i < not_found(targets, results).len() ==> (#[trigger] not_found(
                targets,
                results,
            )[i]) is TargetNotFound,
    decreases results.len(),
{
    if results.len() > 0 {
        law_missing_targets_stand_alone(targets, results.drop_last());
    }
}

/// A problem with the version that the package which causes it would have, where
/// that is not said yet and a sync database has the package.
pub open spec fn with_version(i: IssueView, pac: PacmanIndex) -> IssueView {
    match i {
        IssueView::UnsatisfiedDep { target, depend, causing: Some(c), causing_ver: None } => {
            IssueView::UnsatisfiedDep {
                target,
                depend,
                causing: Some(c),
                causing_ver: if pac.sync_versions@.dom().contains(c) {
                    Some(pac.sync_versions@[c]@)
                } else {
                    None
                },
            }
        },
        other => other,
    }
}

/// Puts the version of the package that causes it into a problem.
pub fn name_version(issue: Issue, pac: &PacmanIndex) -> (r: Issue)
    ensures
        r@ == with_version(issue@, *pac),
{
    match issue {
        Issue::UnsatisfiedDep { target, depend, causing: Some(c), causing_ver: None } => {
            let ver: Option<Version> = match pac.sync_version(c.as_str()) {
                Some(v) => Some(v.clone()),
                None => None,
            };
            Issue::UnsatisfiedDep { target, depend, causing: Some(c), causing_ver: ver }
        },
        other => other,
    }
}

/// Puts the versions of the packages that cause them into the problems of an upgrade.
pub fn name_versions(issues: Vec<Issue>, pac: &PacmanIndex) -> (r: Vec<Issue>)
    ensures
        issue_list(r@) == issue_list(issues@).map_values(|i: IssueView| with_version(i, *pac)),
{
    let ghost all = issues@;
    let ghost want = issue_list(all).map_values(|i: IssueView| with_version(i, *pac));
    let mut rest = issues;
    let total: usize = rest.len();
    let mut r: Vec<Issue> = Vec::new();
    let mut i: usize = 0;
    assert(issue_list(r@) =~= want.take(0));
    while i < total
        invariant
            want == issue_list(all).map_values(|i: IssueView| with_version(i, *pac)),
            total == rest.len(),
            total == all.len(),
            i <= total,
            forall|j: int| i <= j < total ==> #[trigger] rest@[j] == all[j],
            issue_list(r@) == want.take(i as int),
        decreases total - i,
    {
        let mut taken = Issue::Other { message: String::new() };
        std::mem::swap(&mut rest[i], &mut taken);
        r.push(name_version(taken, pac));
        assert(want[i as int] == with_version(all[i as int]@, *pac));
        assert(issue_list(r@) =~= want.take(i as int + 1));
        i = i + 1;
    }
    assert(want.take(i as int) =~= want);
    r
}

/// The error for a target that could not be staged.
pub fn staging_error(target: &PkgTarget, error: &str) -> (r: Error)
    ensures
        r matches Error::Other(m) && m@ == "alpm trans_remove_pkg "@ + target@ + ": "@ + error@,
{
    let mut m = "alpm trans_remove_pkg ".to_owned();
    m.append(target.as_str());
    m.append(": ");
    m.append(error);
    Error::Other(m)
}

/// A line of the log: what it says and the fields that belong to it.
#[derive(Debug)]
pub struct LogRecord {
    /// What it says.
    pub message: &'static str,
    /// The names and the values of the fields.
    pub fields: Vec<(&'static str, String)>,
}

/// The model of a [`LogRecord`].
#[verifier::ext_equal]
pub struct LogView {
    /// What it says.
    pub message: Seq<char>,
    /// The names and the values of the fields.
    pub fields: Seq<(Seq<char>, Seq<char>)>,
}

impl View for LogRecord {
    type V = LogView;

    open spec fn view(&self) -> LogView {
        LogView {
            message: self.message@,
            fields: self.fields@.map_values(|f: (&'static str, String)| (f.0@, f.1@)),
        }
    }
}

/// How a problem is logged.
pub open spec fn log_spec(i: IssueView) -> LogView {
    match i {
        IssueView::Conflict { pkg1, pkg2, reason } => LogView {
            message: "pacman preflight: conflict detected"@,
            fields: seq![("pkg1"@, pkg1), ("pkg2"@, pkg2), ("reason"@, reason)],
        },
        IssueView::UnsatisfiedDep { target, depend, causing, .. } => LogView {
            message: "pacman preflight: unsatisfied dep"@,
            fields: seq![
                ("target"@, target),
                ("depend"@, depend),
                (
                    "causing_pkg"@,
                    match causing {
                        Some(c) => c,
                        None => "(none)"@,
                    },
                ),
            ],
        },
        IssueView::RemovalBreaks { removed, depend, target } => LogView {
            message: "pacman preflight: removal breaks dependency"@,
            fields: seq![("removed"@, removed), ("depend"@, depend), ("target"@, target)],
        },
        IssueView::TargetNotFound { target } => LogView {
            message: "pacman preflight: target not found"@,
            fields: seq![("target"@, target)],
        },
        IssueView::InvalidArch { pkg, arch } => LogView {
            message: "pacman preflight: invalid architecture"@,
            fields: seq![
                ("pkg"@, pkg),
                (
                    "arch"@,
                    match arch {
                        Some(a) => a,
                        None => "(unknown)"@,
                    },
                ),
            ],
        },
        IssueView::Other { message } => LogView {
            message: "pacman preflight: prepare failed without detail"@,
            fields: seq![("error"@, message)],
        },
    }
}

fn log_record(issue: &Issue) -> (r: LogRecord)
    ensures
        r@ == log_spec(issue@),
{
    let mut fields: Vec<(&'static str, String)> = Vec::new();
    let message: &'static str = match issue {
        Issue::Conflict { pkg1, pkg2, reason } => {
            fields.push(("pkg1", pkg1.to_string()));
            fields.push(("pkg2", pkg2.to_string()));
            fields.push(("reason", reason.to_string()));
            "pacman preflight: conflict detected"
        },
        Issue::UnsatisfiedDep { target, depend, causing, .. } => {
            fields.push(("target", target.to_string()));
            fields.push(("depend", depend.to_string()));
            fields.push(
                (
                    "causing_pkg",
                    match causing {
                        Some(c) => c.to_string(),
                        None => "(none)".to_owned(),
                    },
                ),
            );
            "pacman preflight: unsatisfied dep"
        },
        Issue::RemovalBreaks { removed, depend, target } => {
            fields.push(("removed", removed.to_string()));
            fields.push(("depend", depend.to_string()));
            fields.push(("target", target.to_string()));
            "pacman preflight: removal breaks dependency"
        },
        Issue::TargetNotFound { target } => {
            fields.push(("target", target.to_string()));
            "pacman preflight: target not found"
        },
        Issue::InvalidArch { pkg, arch } => {
            fields.push(("pkg", pkg.to_string()));
            fields.push(
                (
                    "arch",
                    match arch {
                        Some(a) => a.to_string(),
                        None => "(unknown)".to_owned(),
                    },
                ),
            );
            "pacman preflight: invalid architecture"
        },
        Issue::Other { message } => {
            fields.push(("error", message.clone()));
            "pacman preflight: prepare failed without detail"
        },
    };
    let r = LogRecord { message, fields };
    assert(r@ =~= log_spec(issue@));
    r
}

/// How the problems are logged, one line for each.
pub fn log_issues(issues: &Vec<Issue>) -> (r: Vec<LogRecord>)
    ensures
        r@.map_values(|l: LogRecord| l@) == issue_list(issues@).map_values(
            |i: IssueView| log_spec(i),
        ),
{
    let ghost all = issue_list(issues@).map_values(|i: IssueView| log_spec(i));
    let mut r: Vec<LogRecord> = Vec::new();
    let mut i: usize = 0;
    assert(all.len() == issues@.len());
    assert(r@.map_values(|l: LogRecord| l@) =~= all.take(0));
    while i < issues.len()
        invariant
            all == issue_list(issues@).map_values(|i: IssueView| log_spec(i)),
            all.len() == issues@.len(),
            i <= issues.len(),
            r@.map_values(|l: LogRecord| l@) == all.take(i as int),
        decreases issues.len() - i,
    {
        r.push(log_record(&issues[i]));
        proof {
            crate::seqs::lemma_take_succ(all, i as int);
            assert(all[i as int] == log_spec(issues@[i as int]@));
        }
        i = i + 1;
    }
    assert(all.take(i as int) =~= all);
    r
}

/// Short options can be written together or apart: reading one group is reading
/// its two halves after each other.
pub proof fn law_groups_split(s: Reading, a: Seq<char>, b: Seq<char>)
    ensures
        s.cluster(a + b) == (match s.cluster(a) {
            Some(t) => t.cluster(b),
            None => None,
        }),
    decreases a.len(),
{
    if a.len() == 0 {
        assert(a + b =~= b);
    } else {
        assert((a + b)[0] == a[0]);
        assert((a + b).skip(1) =~= a.skip(1) + b);
        match s.letter(a[0]) {
            Some(t) => {
                law_groups_split(t, a.skip(1), b);
            },
            None => {},
        }
    }
}

/// Everything after the end of the options is a target as it stands, whatever it
/// looks like.
pub proof fn law_all_are_targets_after_the_end(s: Reading, rest: Seq<Seq<char>>)
    ensures
        s.read(seq!["--"@] + rest) == Some(
            (Reading { targets: s.targets + rest, ..s }),
        ),
{
    let argv = seq!["--"@] + rest;
    assert(argv[0] == "--"@);
    assert(argv.skip(1) =~= rest);
}

/// An argument that is not known, at any place before the end of the options, is
/// never passed over: a trial is not made.
pub proof fn law_unknown_options_stand_aside(s: Reading, known: Seq<Seq<char>>, a: Seq<char>, rest: Seq<Seq<char>>)
    requires
        a != "--"@,
        a != "--color"@,
        occurs_at(a, "-"@, 0),
        forall|t: Reading|
            (if occurs_at(a, "--"@, 0) {
                #[trigger] t.long(a.skip(2))
            } else {
                t.cluster(a.skip(1))
            }) is None,
        forall|i: int| 0 <= i < known.len() ==> #[trigger] known[i] != "--"@ && known[i] != "--color"@,
    ensures
        s.read(known + (seq![a] + rest)) is None,
    decreases known.len(),
{
    let argv = known + (seq![a] + rest);
    if known.len() == 0 {
        assert(argv[0] == a);
        if occurs_at(a, "--"@, 0) {
            assert(s.long(a.skip(2)) is None);
        } else {
            let probe = s.long(a.skip(2));
            assert(s.cluster(a.skip(1)) is None);
        }
    } else {
        let k = known[0];
        assert(argv[0] == k);
        assert(argv.skip(1) =~= known.skip(1) + (seq![a] + rest));
        assert forall|i: int| 0 <= i < known.skip(1).len() implies #[trigger] known.skip(1)[i] != "--"@
            && known.skip(1)[i] != "--color"@ by {
            assert(known.skip(1)[i] == known[i + 1]);
        }
        if occurs_at(k, "--"@, 0) {
            if s.long(k.skip(2)) is Some {
                law_unknown_options_stand_aside(s.long(k.skip(2))->0, known.skip(1), a, rest);
            }
        } else if occurs_at(k, "-"@, 0) {
            if s.cluster(k.skip(1)) is Some {
                law_unknown_options_stand_aside(s.cluster(k.skip(1))->0, known.skip(1), a, rest);
            }
        } else {
            law_unknown_options_stand_aside(
                Reading { targets: s.targets.push(k), ..s },
                known.skip(1),
                a,
                rest,
            );
        }
    }
}

/// No problem of a removal speaks of an installation: what a removal breaks is said
/// of the removal.
pub proof fn law_removals_speak_of_removing(i: IssueView)
    ensures
        !(as_removal(i) matches IssueView::UnsatisfiedDep { causing: Some(_), .. }),
{
}

} // verus!
