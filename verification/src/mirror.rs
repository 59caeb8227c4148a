//! The clone of the AUR and its refresh.

use vstd::prelude::*;

use crate::error::Error;
use crate::mirror::consent::Notice;
use crate::pacman::sync::SyncOutcome;
use crate::system::{file_count, Found};
use crate::text::{dec, dec_string, parse_u64, parse_u64_spec, trim, trim_spec};
use crate::ui::Tone;

pub mod consent;
pub mod fetch;
pub mod sideband;
pub mod worktree;

verus! {

broadcast use vstd::string::group_string_axioms;

/// When so many loose references have piled up, they are packed.
pub const LOOSE_REF_PACK_THRESHOLD: usize = 2000;

/// Where the refresh of the mirror stands.
#[derive(Debug, Clone, Copy, PartialEq, Eq, Structural)]
pub enum RefreshState {
    /// It has not begun.
    Start,
    /// What was to be removed beforehand is gone.
    Cleared,
    /// What is new has been asked for.
    Fetching,
    /// The loose references are being counted.
    Counting,
    /// It is over.
    Finished,
}

/// What has been found out for the refresh.
#[derive(Debug, Clone, Copy, PartialEq, Eq, Structural)]
pub enum RefreshEvent {
    /// Whether there is a directory at the mirror's place.
    Found {
        /// There is one.
        exists: bool,
    },
    /// The same, and whether it holds a branch.
    Inspected {
        /// There is a directory.
        exists: bool,
        /// It holds a branch.
        bootstrapped: bool,
    },
    /// How many references changed, and whether the index on disk could be read.
    Fetched {
        /// How many references changed.
        updates: u64,
        /// The index on disk could be read.
        index_loaded: bool,
    },
    /// How many loose references there are.
    Counted {
        /// How many.
        loose: usize,
    },
}

/// What is done for the refresh.
#[derive(Debug, Clone, Copy, PartialEq, Eq, Structural)]
pub enum RefreshAction {
    /// Say that the mirror is removed on request.
    WarnForced,
    /// Say that an earlier clone did not finish.
    WarnInterrupted,
    /// Say that this is the first time.
    SayFirstRun,
    /// Say that the index is being built.
    SayBuilding,
    /// Say that the index is built.
    SayBuilt,
    /// Say that the mirror is being refreshed.
    SayRefreshing,
    /// Say how many references changed.
    SayUpdated(u64),
    /// Say that none changed.
    SayUnchanged,
    /// Remove the mirror.
    RemoveMirror,
    /// Clone the mirror.
    Clone,
    /// Fetch what is new and load the index meanwhile.
    FetchAndLoad,
    /// Build the index from all branches.
    BuildIndex,
    /// Bring the index up to date with the branches that changed.
    UpdateIndex,
    /// Write the index to disk.
    SaveIndex,
    /// Write the graph of all commits.
    GraphAll,
    /// Add the new commits to the graph.
    GraphTips,
    /// Count the loose references.
    CountLoose,
    /// Pack the references.
    PackRefs,
}

impl RefreshAction {
    /// What the user is told by this action.
    pub open spec fn said(self) -> Option<(Tone, Seq<char>)> {
        match self {
            RefreshAction::WarnForced => Some(
                (Tone::Warn, "re-clone forced (-Syy); removing existing mirror"@),
            ),
            RefreshAction::WarnInterrupted => Some(
                (Tone::Warn, "previous bootstrap was interrupted; redoing clone"@),
            ),
            RefreshAction::SayFirstRun => Some(
                (Tone::Info, "first run: cloning AUR mirror (this takes a few minutes)"@),
            ),
            RefreshAction::SayBuilding => Some((Tone::Info, "building index"@)),
            RefreshAction::SayBuilt => Some((Tone::Info, "index built"@)),
            RefreshAction::SayRefreshing => Some((Tone::Info, "refreshing AUR mirror"@)),
            RefreshAction::SayUpdated(n) => Some((Tone::Note, dec(n as nat) + " ref(s) updated"@)),
            RefreshAction::SayUnchanged => Some((Tone::Note, "no ref updates"@)),
            _ => None,
        }
    }

    /// What the user is told by this action.
    pub fn message(&self) -> (r: Option<Notice>)
        ensures
            match r {
                Some(n) => self.said() == Some((n.tone, n.text@)),
                None => self.said() is None,
            },
    {
        let (tone, text): (Tone, String) = match self {
            RefreshAction::WarnForced => (
                Tone::Warn,
                "re-clone forced (-Syy); removing existing mirror".to_owned(),
            ),
            RefreshAction::WarnInterrupted => (
                Tone::Warn,
                "previous bootstrap was interrupted; redoing clone".to_owned(),
            ),
            RefreshAction::SayFirstRun => (
                Tone::Info,
                "first run: cloning AUR mirror (this takes a few minutes)".to_owned(),
            ),
            RefreshAction::SayBuilding => (Tone::Info, "building index".to_owned()),
            RefreshAction::SayBuilt => (Tone::Info, "index built".to_owned()),
            RefreshAction::SayRefreshing => (Tone::Info, "refreshing AUR mirror".to_owned()),
            RefreshAction::SayUpdated(n) => {
                let mut t = dec_string(*n);
                t.append(" ref(s) updated");
                (Tone::Note, t)
            },
            RefreshAction::SayUnchanged => (Tone::Note, "no ref updates".to_owned()),
            _ => {
                return None;
            },
        };
        Some(Notice { tone, text })
    }
}

/// The actions that build the index anew.
pub open spec fn rebuild() -> Seq<RefreshAction> {
    seq![
        RefreshAction::SayBuilding,
        RefreshAction::BuildIndex,
        RefreshAction::SaveIndex,
        RefreshAction::SayBuilt,
        RefreshAction::GraphAll,
    ]
}

/// How the refresh goes on: the next state and what is done. A mirror without a
/// branch is cloned anew; any other is fetched, and the index is brought up to date
/// or, where it cannot be read, built anew.
pub open spec fn refresh_step(
    force_reclone: bool,
    state: RefreshState,
    event: RefreshEvent,
) -> Option<(RefreshState, Seq<RefreshAction>)> {
    match (state, event) {
        (RefreshState::Start, RefreshEvent::Found { exists }) => Some(
            (
                RefreshState::Cleared,
                if force_reclone && exists {
                    seq![RefreshAction::WarnForced, RefreshAction::RemoveMirror]
                } else {
                    seq![]
                },
            ),
        ),
        (RefreshState::Cleared, RefreshEvent::Inspected { exists, bootstrapped }) => Some(
            if bootstrapped {
                (
                    RefreshState::Fetching,
                    seq![RefreshAction::SayRefreshing, RefreshAction::FetchAndLoad],
                )
            } else {
                (
                    RefreshState::Finished,
                    (if exists {
                        seq![RefreshAction::WarnInterrupted, RefreshAction::RemoveMirror]
                    } else if !force_reclone {
                        seq![RefreshAction::SayFirstRun]
                    } else {
                        seq![]
                    }) + seq![RefreshAction::Clone] + rebuild(),
                )
            },
        ),
        (RefreshState::Fetching, RefreshEvent::Fetched { updates, index_loaded }) => Some(
            if !index_loaded {
                (RefreshState::Finished, rebuild())
            } else if updates == 0 {
                (RefreshState::Finished, seq![RefreshAction::SayUnchanged])
            } else {
                (
                    RefreshState::Counting,
                    seq![
                        RefreshAction::UpdateIndex,
                        RefreshAction::SaveIndex,
                        RefreshAction::SayUpdated(updates),
                        RefreshAction::GraphTips,
                        RefreshAction::CountLoose,
                    ],
                )
            },
        ),
        (RefreshState::Counting, RefreshEvent::Counted { loose }) => Some(
            (
                RefreshState::Finished,
                if loose >= LOOSE_REF_PACK_THRESHOLD {
                    seq![RefreshAction::PackRefs]
                } else {
                    seq![]
                },
            ),
        ),
        _ => None,
    }
}

fn push_rebuild(v: &mut Vec<RefreshAction>)
    ensures
        final(v)@ == old(v)@ + rebuild(),
{
    let ghost before = v@;
    v.push(RefreshAction::SayBuilding);
    v.push(RefreshAction::BuildIndex);
    v.push(RefreshAction::SaveIndex);
    v.push(RefreshAction::SayBuilt);
    v.push(RefreshAction::GraphAll);
    assert(v@ =~= before + rebuild());
}

/// How the refresh of the mirror goes on after `event`; nothing where the event
/// does not belong to the state.
pub fn refresh_aur_mirror(force_reclone: bool, state: RefreshState, event: RefreshEvent) -> (r:
    Option<(RefreshState, Vec<RefreshAction>)>)
    ensures
        match r {
            Some((next, actions)) => refresh_step(force_reclone, state, event) == Some(
                (next, actions@),
            ),
            None => refresh_step(force_reclone, state, event) is None,
        },
{
    let mut v: Vec<RefreshAction> = Vec::new();
    match (state, event) {
        (RefreshState::Start, RefreshEvent::Found { exists }) => {
            if force_reclone && exists {
                v.push(RefreshAction::WarnForced);
                v.push(RefreshAction::RemoveMirror);
                assert(v@ =~= seq![RefreshAction::WarnForced, RefreshAction::RemoveMirror]);
            } else {
                assert(v@ =~= seq![]);
            }
            Some((RefreshState::Cleared, v))
        },
        (RefreshState::Cleared, RefreshEvent::Inspected { exists, bootstrapped }) => {
            if bootstrapped {
                v.push(RefreshAction::SayRefreshing);
                v.push(RefreshAction::FetchAndLoad);
                assert(v@ =~= seq![RefreshAction::SayRefreshing, RefreshAction::FetchAndLoad]);
                Some((RefreshState::Fetching, v))
            } else {
                if exists {
                    v.push(RefreshAction::WarnInterrupted);
                    v.push(RefreshAction::RemoveMirror);
                    assert(v@ =~= seq![RefreshAction::WarnInterrupted, RefreshAction::RemoveMirror]);
                } else if !force_reclone {
                    v.push(RefreshAction::SayFirstRun);
                    assert(v@ =~= seq![RefreshAction::SayFirstRun]);
                } else {
                    assert(v@ =~= seq![]);
                }
                let ghost before = v@;
                v.push(RefreshAction::Clone);
                assert(v@ =~= before + seq![RefreshAction::Clone]);
                push_rebuild(&mut v);
                Some((RefreshState::Finished, v))
            }
        },
        (RefreshState::Fetching, RefreshEvent::Fetched { updates, index_loaded }) => {
            if !index_loaded {
                push_rebuild(&mut v);
                assert(v@ =~= rebuild());
                Some((RefreshState::Finished, v))
            } else if updates == 0 {
                v.push(RefreshAction::SayUnchanged);
                assert(v@ =~= seq![RefreshAction::SayUnchanged]);
                Some((RefreshState::Finished, v))
            } else {
                v.push(RefreshAction::UpdateIndex);
                v.push(RefreshAction::SaveIndex);
                v.push(RefreshAction::SayUpdated(updates));
                v.push(RefreshAction::GraphTips);
                v.push(RefreshAction::CountLoose);
                assert(v@ =~= seq![
                    RefreshAction::UpdateIndex,
                    RefreshAction::SaveIndex,
                    RefreshAction::SayUpdated(updates),
                    RefreshAction::GraphTips,
                    RefreshAction::CountLoose,
                ]);
                Some((RefreshState::Counting, v))
            }
        },
        (RefreshState::Counting, RefreshEvent::Counted { loose }) => {
            if loose >= LOOSE_REF_PACK_THRESHOLD {
                v.push(RefreshAction::PackRefs);
                assert(v@ =~= seq![RefreshAction::PackRefs]);
            } else {
                assert(v@ =~= seq![]);
            }
            Some((RefreshState::Finished, v))
        },
        _ => None,
    }
}

/// A mirror that has a branch is never removed unless that was forced.
pub proof fn law_good_mirrors_stay(state: RefreshState, event: RefreshEvent)
    requires
        event matches RefreshEvent::Inspected { bootstrapped, .. } ==> bootstrapped,
    ensures
        refresh_step(false, state, event) matches Some((_, actions)) ==> !actions.contains(
            RefreshAction::RemoveMirror,
        ),
{
    match refresh_step(false, state, event) {
        Some((_, actions)) => {
            assert forall|i: int| 0 <= i < actions.len() implies #[trigger] actions[i]
                != RefreshAction::RemoveMirror by {}
        },
        None => {},
    }
}

/// An index that was changed or built is written to disk in the same step.
pub proof fn law_changed_indexes_are_saved(
    force_reclone: bool,
    state: RefreshState,
    event: RefreshEvent,
)
    ensures
        refresh_step(force_reclone, state, event) matches Some((_, actions)) ==> (actions.contains(
            RefreshAction::SaveIndex,
        ) <==> (actions.contains(RefreshAction::BuildIndex) || actions.contains(
            RefreshAction::UpdateIndex,
        ))),
{
    match (state, event) {
        (RefreshState::Cleared, RefreshEvent::Inspected { exists, bootstrapped }) => {
            if !bootstrapped {
                let (_, a) = refresh_step(force_reclone, state, event).unwrap();
                let n = a.len();
                assert(a[n - 4] == RefreshAction::BuildIndex);
                assert(a[n - 3] == RefreshAction::SaveIndex);
            }
        },
        (RefreshState::Fetching, RefreshEvent::Fetched { updates, index_loaded }) => {
            let (_, a) = refresh_step(force_reclone, state, event).unwrap();
            if !index_loaded {
                assert(a[1] == RefreshAction::BuildIndex);
                assert(a[2] == RefreshAction::SaveIndex);
            } else if updates != 0 {
                assert(a[0] == RefreshAction::UpdateIndex);
                assert(a[1] == RefreshAction::SaveIndex);
            }
        },
        _ => {},
    }
}

/// How long ago the mirror was fetched, in nanoseconds, by a stamp that holds
/// seconds since the epoch. A stamp from the future counts as just now; one that is
/// no number says nothing.
pub open spec fn age_spec(stamp: Seq<char>, now_nanos: u128) -> Option<u128> {
    match parse_u64_spec(trim_spec(stamp)) {
        Some(secs) => if now_nanos >= secs * 1_000_000_000 {
            Some((now_nanos - secs * 1_000_000_000) as u128)
        } else {
            Some(0)
        },
        None => None,
    }
}

/// How long ago the mirror was fetched, by what the stamp holds.
pub fn last_fetch_age(stamp: &str, now_nanos: u128) -> (r: Option<u128>)
    ensures
        r == age_spec(stamp@, now_nanos),
{
    match parse_u64(trim(stamp)) {
        Some(secs) => {
            let at: u128 = secs as u128 * 1_000_000_000;
            if now_nanos >= at {
                Some(now_nanos - at)
            } else {
                Some(0)
            }
        },
        None => None,
    }
}

/// What the stamp holds after a fetch at this second.
pub fn fetch_stamp(now_secs: u64) -> (r: String)
    ensures
        r@ == dec(now_secs as nat),
{
    dec_string(now_secs)
}

/// A stamp is read as it was written: the age of a fetch is the time since then.
pub proof fn law_stamps_read_back(secs: u64, now_nanos: u128)
    requires
        now_nanos >= secs * 1_000_000_000,
    ensures
        age_spec(dec(secs as nat), now_nanos) == Some(
            (now_nanos - secs * 1_000_000_000) as u128,
        ),
{
    crate::text::lemma_dec_reads_back(secs as nat);
}

/// How the refresh of the repository databases that ran beside ended, in words; no
/// result means that its thread did not end well.
pub fn report_repo_sync(joined: &Option<Result<SyncOutcome, Error>>) -> (r: Notice)
    ensures
        match *joined {
            Some(Ok(SyncOutcome::Refreshed)) => r.tone == Tone::Note && r.text@
                == "official package databases refreshed"@,
            Some(Ok(SyncOutcome::AlreadyCurrent)) => r.tone == Tone::Note && r.text@
                == "official package databases up to date"@,
            Some(Err(e)) => r.tone == Tone::Warn && r.text@ == "official-repo refresh failed: "@
                + e.text(),
            None => r.tone == Tone::Warn && r.text@ == "official-repo refresh thread panicked"@,
        },
{
    match joined {
        Some(Ok(SyncOutcome::Refreshed)) => Notice {
            tone: Tone::Note,
            text: "official package databases refreshed".to_owned(),
        },
        Some(Ok(SyncOutcome::AlreadyCurrent)) => Notice {
            tone: Tone::Note,
            text: "official package databases up to date".to_owned(),
        },
        Some(Err(e)) => {
            let mut text = "official-repo refresh failed: ".to_owned();
            text.append(e.to_string().as_str());
            Notice { tone: Tone::Warn, text }
        },
        None => Notice {
            tone: Tone::Warn,
            text: "official-repo refresh thread panicked".to_owned(),
        },
    }
}

/// How many loose branches there are, by what is found below `refs/heads`; no
/// machine holds more than its numbers count.
pub open spec fn loose_branches(heads: Found) -> nat {
    match heads {
        Found::Dir(v) => if file_count(v@) <= usize::MAX {
            file_count(v@)
        } else {
            usize::MAX as nat
        },
        _ => 0,
    }
}

fn add_files(found: &Found, before: usize) -> (r: usize)
    ensures
        r == (if before + found.files() <= usize::MAX {
            before + found.files()
        } else {
            usize::MAX as int
        }),
    decreases found,
{
    match found {
        Found::Nothing => before,
        Found::File(_) => if before < usize::MAX {
            before + 1
        } else {
            before
        },
        Found::Dir(v) => {
            let mut n: usize = before;
            let mut i: usize = 0;
            assert(v@.take(0) =~= Seq::<Found>::empty());
            while i < v.len()
                invariant
                    *found == Found::Dir(*v),
                    i <= v.len(),
                    n == (if before + file_count(v@.take(i as int)) <= usize::MAX {
                        before + file_count(v@.take(i as int))
                    } else {
                        usize::MAX as int
                    }),
                decreases v.len() - i,
            {
                proof {
                    crate::seqs::lemma_take_succ(v@, i as int);
                }
                assert(decreases_to!(*found => found->Dir_0));
                assert(decreases_to!(*v => v@));
                assert(decreases_to!(v@ => v@[i as int]));
                n = add_files(&v[i], n);
                i = i + 1;
            }
            assert(v@.take(i as int) =~= v@);
            n
        },
    }
}

/// Counts the loose branches by what is found below `refs/heads`. Packed branches lie
/// in one file elsewhere and are not counted.
pub fn loose_branch_ref_count(heads: &Found) -> (r: usize)
    ensures
        r == loose_branches(*heads),
{
    match heads {
        Found::Dir(_) => add_files(heads, 0),
        _ => 0,
    }
}

/// What the transport is told about silence: the bytes per second below which the
/// server counts as silent, and for how many seconds. Nothing where the wait is
/// not limited.
pub fn low_speed(idle_timeout_secs: u64) -> (r: Option<(u32, u64)>)
    ensures
        r == (if idle_timeout_secs > 0 {
            Some((1u32, idle_timeout_secs))
        } else {
            None
        }),
{
    if idle_timeout_secs > 0 {
        Some((1, idle_timeout_secs))
    } else {
        None
    }
}

} // verus!
