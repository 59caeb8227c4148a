//! Where things lie on disk.

use vstd::prelude::*;

use crate::names::PkgBase;
use crate::text::{same, skip, to_chars};

verus! {

broadcast use vstd::string::group_string_axioms;

/// Something that lies in the directory of the state.
#[derive(Debug, Clone, Copy, PartialEq, Eq, Structural)]
pub enum StatePath {
    /// The clone of the AUR.
    AurRepo,
    /// When the clone was last fetched.
    FetchStamp,
    /// The working trees of the packages.
    Pkgs,
    /// The index.
    Index,
    /// The repository databases.
    SyncDb,
    /// The logs of the runs.
    Logs,
    /// The traces of the runs.
    Traces,
    /// How long builds took.
    Metrics,
    /// What was typed into the shell.
    ShellHistory,
}

impl StatePath {
    /// Its name.
    pub open spec fn name_spec(self) -> Seq<char> {
        match self {
            StatePath::AurRepo => "aur"@,
            StatePath::FetchStamp => "last-fetch"@,
            StatePath::Pkgs => "pkgs"@,
            StatePath::Index => "index.bin"@,
            StatePath::SyncDb => "syncdb"@,
            StatePath::Logs => "logs"@,
            StatePath::Traces => "traces"@,
            StatePath::Metrics => "metrics.db"@,
            StatePath::ShellHistory => "shell_history"@,
        }
    }

    /// Its name.
    pub fn name(self) -> (r: &'static str)
        ensures
            r@ == self.name_spec(),
    {
        match self {
            StatePath::AurRepo => "aur",
            StatePath::FetchStamp => "last-fetch",
            StatePath::Pkgs => "pkgs",
            StatePath::Index => "index.bin",
            StatePath::SyncDb => "syncdb",
            StatePath::Logs => "logs",
            StatePath::Traces => "traces",
            StatePath::Metrics => "metrics.db",
            StatePath::ShellHistory => "shell_history",
        }
    }
}

/// A path and a name below it. A name that begins with a slash stands for itself.
pub open spec fn join_spec(dir: Seq<char>, name: Seq<char>) -> Seq<char> {
    if (name.len() > 0 && name[0] == '/') || dir.len() == 0 {
        name
    } else if dir.last() == '/' {
        dir + name
    } else {
        dir + "/"@ + name
    }
}

/// A path and a name below it.
pub fn join(dir: &str, name: &str) -> (r: String)
    ensures
        r@ == join_spec(dir@, name@),
{
    let n: usize = dir.unicode_len();
    let m: usize = name.unicode_len();
    if (m > 0 && name.get_char(0) == '/') || n == 0 {
        return name.to_owned();
    }
    let mut r = dir.to_owned();
    if dir.get_char(n - 1) != '/' {
        r.append("/");
    }
    r.append(name);
    assert(r@ =~= join_spec(dir@, name@));
    r
}

/// The directory of the state: what a run was told to use, else the one below the
/// user's directory for state, else the one below the home directory.
pub fn state_dir(told: Option<&str>, user_state: Option<&str>, home: &str) -> (r: String)
    ensures
        r@ == (match (told, user_state) {
            (Some(t), _) => t@,
            (None, Some(s)) => join_spec(s@, "aurox"@),
            (None, None) => join_spec(join_spec(home@, ".local/state"@), "aurox"@),
        }),
{
    match (told, user_state) {
        (Some(t), _) => t.to_owned(),
        (None, Some(s)) => join(s, "aurox"),
        (None, None) => join(join(home, ".local/state").as_str(), "aurox"),
    }
}

/// The directory of the configuration: the one below the user's directory for
/// configurations, else the one below the home directory.
pub fn config_dir(user_config: Option<&str>, home: &str) -> (r: String)
    ensures
        r@ == (match user_config {
            Some(c) => join_spec(c@, "aurox"@),
            None => join_spec(join_spec(home@, ".config"@), "aurox"@),
        }),
{
    match user_config {
        Some(c) => join(c, "aurox"),
        None => join(join(home, ".config").as_str(), "aurox"),
    }
}

/// The configuration.
pub fn config_path(config_dir: &str) -> (r: String)
    ensures
        r@ == join_spec(config_dir@, "config.toml"@),
{
    join(config_dir, "config.toml")
}

/// The working tree of a package.
pub fn pkg_worktree(state_dir: &str, pkgbase: &PkgBase) -> (r: String)
    ensures
        r@ == join_spec(join_spec(state_dir@, "pkgs"@), pkgbase@),
{
    join(join(state_dir, "pkgs").as_str(), pkgbase.as_str())
}

/// The clone of the AUR.
pub fn aur_repo_path(state_dir: &str) -> (r: String)
    ensures
        r@ == join_spec(state_dir@, StatePath::AurRepo.name_spec()),
{
    join(state_dir, StatePath::AurRepo.name())
}

/// When the clone was last fetched.
pub fn fetch_stamp_path(state_dir: &str) -> (r: String)
    ensures
        r@ == join_spec(state_dir@, StatePath::FetchStamp.name_spec()),
{
    join(state_dir, StatePath::FetchStamp.name())
}

/// The index.
pub fn index_path(state_dir: &str) -> (r: String)
    ensures
        r@ == join_spec(state_dir@, StatePath::Index.name_spec()),
{
    join(state_dir, StatePath::Index.name())
}

/// The repository databases.
pub fn sync_db_path(state_dir: &str) -> (r: String)
    ensures
        r@ == join_spec(state_dir@, StatePath::SyncDb.name_spec()),
{
    join(state_dir, StatePath::SyncDb.name())
}

/// The logs.
pub fn logs_dir(state_dir: &str) -> (r: String)
    ensures
        r@ == join_spec(state_dir@, StatePath::Logs.name_spec()),
{
    join(state_dir, StatePath::Logs.name())
}

/// The traces.
pub fn traces_dir(state_dir: &str) -> (r: String)
    ensures
        r@ == join_spec(state_dir@, StatePath::Traces.name_spec()),
{
    join(state_dir, StatePath::Traces.name())
}

/// How long builds took.
pub fn metrics_db_path(state_dir: &str) -> (r: String)
    ensures
        r@ == join_spec(state_dir@, StatePath::Metrics.name_spec()),
{
    join(state_dir, StatePath::Metrics.name())
}

/// What was typed into the shell.
pub fn shell_history_path(state_dir: &str) -> (r: String)
    ensures
        r@ == join_spec(state_dir@, StatePath::ShellHistory.name_spec()),
{
    join(state_dir, StatePath::ShellHistory.name())
}

/// What follows the last dot of a file name that does not begin with it.
pub open spec fn extension_spec(name: Seq<char>) -> Option<Seq<char>> {
    let i = last_dot(name);
    if i <= 0 || name == ".."@ {
        None
    } else {
        Some(name.skip(i + 1))
    }
}

/// Where the last dot stands; -1 where there is none.
pub open spec fn last_dot(name: Seq<char>) -> int
    decreases name.len(),
{
    if name.len() == 0 {
        -1
    } else if name.last() == '.' {
        name.len() - 1
    } else {
        last_dot(name.drop_last())
    }
}

/// What follows the last dot of a file name that does not begin with it.
pub fn extension<'a>(name: &'a str) -> (r: Option<&'a str>)
    ensures
        match r {
            Some(e) => extension_spec(name@) == Some(e@),
            None => extension_spec(name@) is None,
        },
{
    if same(name, "..") {
        return None;
    }
    let cs = to_chars(name);
    let mut i: usize = cs.len();
    assert(name@.take(i as int) =~= name@);
    while i > 0
        invariant
            cs@ == name@,
            name@ != ".."@,
            i <= cs.len(),
            last_dot(name@.take(i as int)) == last_dot(name@),
        decreases i,
    {
        assert(name@.take(i as int).drop_last() =~= name@.take(i as int - 1));
        assert(name@.take(i as int).last() == name@[i as int - 1]);
        if cs[i - 1] == '.' {
            if i == 1 {
                return None;
            }
            return Some(skip(name, i));
        }
        i = i - 1;
    }
    None
}

} // verus!
