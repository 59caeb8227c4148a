//! The refresh of the repository databases: its lock, its link to the installed
//! packages and what its parts report.

use vstd::prelude::*;

use crate::error::Error;
use crate::pacman::dload::{basename, url_basename, FetchOutcome};
use crate::paths::{extension, extension_spec};
use crate::text::{eq_ignore_ascii_case, same, same_ascii_caseless, views};

verus! {

broadcast use vstd::string::group_string_axioms;

/// What a refresh of the repository databases did.
#[derive(Debug, Clone, Copy, PartialEq, Eq, Structural)]
pub enum SyncOutcome {
    /// At least one database is newer now.
    Refreshed,
    /// All were current.
    AlreadyCurrent,
}

/// What an attempt to take the advisory lock found.
#[derive(Debug, Clone, Copy, PartialEq, Eq, Structural)]
pub enum LockProbe {
    /// It is ours.
    Acquired,
    /// Another refresh holds it.
    Held,
    /// This file system has no such locks.
    Unsupported,
}

/// What holds while the databases are refreshed.
#[derive(Debug, Clone, Copy, PartialEq, Eq, Structural)]
pub enum RefreshLock {
    /// The lock is ours, so no other refresh is running.
    Owned,
    /// There are no locks here, so nothing is known.
    Degraded,
}

/// What the first attempt at the lock leads to; nothing where another refresh has
/// to be waited for.
pub fn acquire(probe: LockProbe) -> (r: Option<RefreshLock>)
    ensures
        r == (match probe {
            LockProbe::Acquired => Some(RefreshLock::Owned),
            LockProbe::Held => None,
            LockProbe::Unsupported => Some(RefreshLock::Degraded),
        }),
{
    match probe {
        LockProbe::Acquired => Some(RefreshLock::Owned),
        LockProbe::Held => None,
        LockProbe::Unsupported => Some(RefreshLock::Degraded),
    }
}

/// What ended a pause between two attempts.
#[derive(Debug, Clone, Copy, PartialEq, Eq, Structural)]
pub enum Pause {
    /// The user interrupted.
    Cancelled,
    /// The time was up.
    TimedOut,
    /// Nobody can interrupt any more.
    Disconnected,
}

/// How the wait for the lock goes on.
#[derive(Debug)]
pub enum Wait {
    /// The lock is ours.
    Owned,
    /// Pause, then try again.
    Pause,
    /// Try again at once.
    Probe,
    /// Wait for the lock without trying.
    Block,
    /// Give up.
    Fail(Error),
}

/// How the wait goes on after an attempt; `error` is what the system said where
/// locks do not work.
pub fn after_probe(probe: LockProbe, error: &str) -> (r: Wait)
    ensures
        match probe {
            LockProbe::Acquired => r is Owned,
            LockProbe::Held => r is Pause,
            LockProbe::Unsupported => r matches Wait::Fail(Error::Io(m)) && m@ == error@,
        },
{
    match probe {
        LockProbe::Acquired => Wait::Owned,
        LockProbe::Held => Wait::Pause,
        LockProbe::Unsupported => Wait::Fail(Error::Io(error.to_owned())),
    }
}

/// How the wait goes on after a pause.
pub fn after_pause(pause: Pause) -> (r: Wait)
    ensures
        match pause {
            Pause::Cancelled => r matches Wait::Fail(Error::Interrupted),
            Pause::TimedOut => r is Probe,
            Pause::Disconnected => r is Block,
        },
{
    match pause {
        Pause::Cancelled => Wait::Fail(Error::Interrupted),
        Pause::TimedOut => Wait::Probe,
        Pause::Disconnected => Wait::Block,
    }
}

impl RefreshLock {
    /// Whether nothing is known of other refreshes.
    pub fn is_degraded(&self) -> (r: bool)
        ensures
            r == (*self == RefreshLock::Degraded),
    {
        match self {
            RefreshLock::Owned => false,
            RefreshLock::Degraded => true,
        }
    }

    /// Whether a lock file of libalpm that lies there may be removed: only where
    /// nobody alive can have made it.
    pub fn may_clear_stale_lock(&self) -> (r: bool)
        ensures
            r == (*self == RefreshLock::Owned),
    {
        !self.is_degraded()
    }

    /// The error for an update that failed with the message `error`;
    /// `handle_lock` says that libalpm could not lock the databases.
    pub fn update_error(&self, error: &str, handle_lock: bool, lockfile: &str) -> (r: Error)
        ensures
            r matches Error::Other(m) && m@ == if *self == RefreshLock::Degraded && handle_lock {
                "sync db update: "@ + error@
                    + "; advisory locking is unavailable on this filesystem so a stale lock can't be cleared automatically — if no other aurox is refreshing, remove "@
                    + lockfile@ + " manually"@
            } else {
                "sync db update: "@ + error@
            },
    {
        let mut m = "sync db update: ".to_owned();
        m.append(error);
        if self.is_degraded() && handle_lock {
            m.append(
                "; advisory locking is unavailable on this filesystem so a stale lock can't be cleared automatically — if no other aurox is refreshing, remove ",
            );
            m.append(lockfile);
            m.append(" manually");
        }
        Error::Other(m)
    }
}

/// What an update that libalpm carried out comes to.
pub fn update_outcome(all_current: bool) -> (r: SyncOutcome)
    ensures
        r == (if all_current {
            SyncOutcome::AlreadyCurrent
        } else {
            SyncOutcome::Refreshed
        }),
{
    if all_current {
        SyncOutcome::AlreadyCurrent
    } else {
        SyncOutcome::Refreshed
    }
}

/// Whether a file whose last name is `name` is a database: its extension is `db`.
pub open spec fn is_db(name: Seq<char>) -> bool {
    extension_spec(name) == Some("db"@)
}

/// Whether one of the names is that of a database.
pub open spec fn has_db(names: Seq<Seq<char>>) -> bool {
    exists|i: int| 0 <= i < names.len() && is_db(#[trigger] names[i])
}

fn any_db(names: &Vec<String>) -> (r: bool)
    ensures
        r == has_db(views(names@)),
{
    let ghost all = views(names@);
    assert(all.len() == names@.len());
    let mut i: usize = 0;
    while i < names.len()
        invariant
            all == views(names@),
            all.len() == names@.len(),
            i <= names.len(),
            forall|k: int| 0 <= k < i ==> !is_db(#[trigger] all[k]),
        decreases names.len() - i,
    {
        assert(all[i as int] == names@[i as int]@);
        match extension(names[i].as_str()) {
            Some(e) => {
                if same(e, "db") {
                    assert(is_db(all[i as int]));
                    return true;
                }
            },
            None => {},
        }
        i = i + 1;
    }
    false
}

/// Whether the databases that were refreshed can be read: only where the link to
/// the installed packages resolves and at least one database is there. `sync`
/// holds the names in their directory, where that can be read.
pub fn synced(local_exists: bool, sync: &Option<Vec<String>>) -> (r: bool)
    ensures
        r == (local_exists && match *sync {
            Some(names) => has_db(views(names@)),
            None => false,
        }),
{
    if !local_exists {
        return false;
    }
    match sync {
        Some(names) => any_db(names),
        None => false,
    }
}

/// What stands where a link is wanted.
#[derive(Debug, Clone, Copy, PartialEq, Eq, Structural)]
pub enum LinkState {
    /// A link to the right place.
    Right,
    /// A link to another place.
    Elsewhere,
    /// Something that is no link.
    Squatter,
    /// Nothing.
    Free,
}

/// What makes the link right: whether what stands there is removed first, and
/// whether a link is made.
pub fn link_plan(state: LinkState) -> (r: (bool, bool))
    ensures
        r.0 == (state == LinkState::Elsewhere || state == LinkState::Squatter),
        r.1 == (state != LinkState::Right),
{
    match state {
        LinkState::Right => (false, false),
        LinkState::Elsewhere | LinkState::Squatter => (true, true),
        LinkState::Free => (false, true),
    }
}

/// What libalpm is told of one file.
#[derive(Debug, Clone, Copy, PartialEq, Eq, Structural)]
pub enum FetchReply {
    /// A new copy is there.
    Fetched,
    /// The copy on disk is current.
    FileExists,
    /// This server did not deliver it.
    Failed,
}

/// What libalpm is told of a download.
pub fn fetch_reply(outcome: &Result<FetchOutcome, Error>) -> (r: FetchReply)
    ensures
        r == (match *outcome {
            Ok(FetchOutcome::Downloaded) => FetchReply::Fetched,
            Ok(FetchOutcome::Unchanged) => FetchReply::FileExists,
            Err(_) => FetchReply::Failed,
        }),
{
    match outcome {
        Ok(FetchOutcome::Downloaded) => FetchReply::Fetched,
        Ok(FetchOutcome::Unchanged) => FetchReply::FileExists,
        Err(_) => FetchReply::Failed,
    }
}

/// The row that shows the download of `url`: the databases have one, their
/// signatures have none.
pub fn progress_row<'a>(url: &'a str) -> (r: Option<&'a str>)
    ensures
        r matches Some(name) ==> name@ == basename(url@),
        r is Some <==> (extension_spec(basename(url@)) matches Some(e) && same_ascii_caseless(
            e,
            "db"@,
        )),
{
    let name = url_basename(url);
    match extension(name) {
        Some(e) => {
            if eq_ignore_ascii_case(e, "db") {
                Some(name)
            } else {
                None
            }
        },
        None => None,
    }
}

} // verus!
