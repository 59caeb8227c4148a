//! What a fetch of the mirror changed.

use vstd::prelude::*;

use crate::text::{occurs_at, opt_view, skip, starts_with};

verus! {

broadcast use {vstd::string::group_string_axioms, crate::seqs::lemma_map_push};

/// A branch that a fetch changed.
#[derive(Debug)]
pub struct RefUpdate {
    /// Its name, without `refs/heads/`.
    pub refname: String,
    /// What it pointed to, unless it is new.
    pub old_oid: Option<String>,
    /// What it points to, unless it is gone.
    pub new_oid: Option<String>,
}

/// The model of a [`RefUpdate`].
pub struct RefUpdateView {
    /// Its name, without `refs/heads/`.
    pub refname: Seq<char>,
    /// What it pointed to.
    pub old_oid: Option<Seq<char>>,
    /// What it points to.
    pub new_oid: Option<Seq<char>>,
}

impl View for RefUpdate {
    type V = RefUpdateView;

    open spec fn view(&self) -> RefUpdateView {
        RefUpdateView {
            refname: self.refname@,
            old_oid: opt_view(self.old_oid),
            new_oid: opt_view(self.new_oid),
        }
    }
}

/// The models of the updates.
pub open spec fn update_list(v: Seq<RefUpdate>) -> Seq<RefUpdateView> {
    v.map_values(|u: RefUpdate| u@)
}

/// How a reference was updated.
#[derive(Debug, Clone, Copy, PartialEq, Eq, Structural)]
pub enum Mode {
    /// It is new.
    New,
    /// It moved forward.
    FastForward,
    /// It moved elsewhere.
    Forced,
    /// It did not change.
    Unchanged,
}

/// What the fetch reports of one reference of the remote.
#[derive(Debug)]
pub struct RefReport {
    /// How it was updated.
    pub mode: Mode,
    /// Its name on the remote, where it has one.
    pub remote: Option<String>,
    /// Which edit it led to.
    pub edit: Option<usize>,
}

/// An edit of a reference: what it pointed to and what it points to, where those
/// are objects.
#[derive(Debug)]
pub struct RefEdit {
    /// What it pointed to.
    pub previous: Option<String>,
    /// What it points to.
    pub new: Option<String>,
}

/// The change that a report comes to: one of a branch that did change, which goes by
/// its own name. The previous value of a new reference means nothing.
pub open spec fn change_of(report: RefReport, edits: Seq<RefEdit>) -> Option<RefUpdateView> {
    match (report.remote, report.edit) {
        (Some(name), Some(i)) => if report.mode != Mode::Unchanged && occurs_at(
            name@,
            "refs/heads/"@,
            0,
        ) && i < edits.len() {
            Some(
                RefUpdateView {
                    refname: name@.skip("refs/heads/"@.len() as int),
                    old_oid: if report.mode == Mode::New {
                        None
                    } else {
                        opt_view(edits[i as int].previous)
                    },
                    new_oid: opt_view(edits[i as int].new),
                },
            )
        } else {
            None
        },
        _ => None,
    }
}

/// The changes that the reports come to, in their order.
pub open spec fn changes_of(reports: Seq<RefReport>, edits: Seq<RefEdit>) -> Seq<RefUpdateView>
    decreases reports.len(),
{
    if reports.len() == 0 {
        seq![]
    } else {
        match change_of(reports.last(), edits) {
            Some(c) => changes_of(reports.drop_last(), edits).push(c),
            None => changes_of(reports.drop_last(), edits),
        }
    }
}

fn copy(o: &Option<String>) -> (r: Option<String>)
    ensures
        opt_view(r) == opt_view(*o),
{
    match o {
        Some(s) => Some(s.clone()),
        None => None,
    }
}

fn update_of(report: &RefReport, edits: &Vec<RefEdit>) -> (r: Option<RefUpdate>)
    ensures
        match r {
            Some(u) => change_of(*report, edits@) == Some(u@),
            None => change_of(*report, edits@) is None,
        },
{
    match report.mode {
        Mode::Unchanged => {
            return None;
        },
        _ => {},
    }
    match (&report.remote, report.edit) {
        (Some(name), Some(i)) => {
            if !starts_with(name.as_str(), "refs/heads/") || i >= edits.len() {
                return None;
            }
            let old_oid = match report.mode {
                Mode::New => None,
                _ => copy(&edits[i].previous),
            };
            let refname = skip(name.as_str(), "refs/heads/".unicode_len()).to_owned();
            Some(RefUpdate { refname, old_oid, new_oid: copy(&edits[i].new) })
        },
        _ => None,
    }
}

/// The branches that a fetch changed.
pub fn extract_branch_updates(reports: &Vec<RefReport>, edits: &Vec<RefEdit>) -> (r: Vec<RefUpdate>)
    ensures
        update_list(r@) == changes_of(reports@, edits@),
{
    let mut r: Vec<RefUpdate> = Vec::new();
    let mut i: usize = 0;
    assert(update_list(r@) =~= changes_of(reports@.take(0), edits@));
    while i < reports.len()
        invariant
            i <= reports.len(),
            update_list(r@) == changes_of(reports@.take(i as int), edits@),
        decreases reports.len() - i,
    {
        proof {
            crate::seqs::lemma_take_succ(reports@, i as int);
        }
        match update_of(&reports[i], edits) {
            Some(u) => {
                r.push(u);
            },
            None => {},
        }
        i = i + 1;
    }
    assert(reports@.take(i as int) =~= reports@);
    r
}

/// The tips that the updates left, for the graph of commits.
pub open spec fn tips_of(updates: Seq<RefUpdateView>) -> Seq<Seq<char>>
    decreases updates.len(),
{
    if updates.len() == 0 {
        seq![]
    } else {
        match updates.last().new_oid {
            Some(t) => tips_of(updates.drop_last()).push(t),
            None => tips_of(updates.drop_last()),
        }
    }
}

/// The tips that the updates left.
pub fn tips(updates: &Vec<RefUpdate>) -> (r: Vec<String>)
    ensures
        crate::text::views(r@) == tips_of(update_list(updates@)),
{
    let ghost all = update_list(updates@);
    let mut r: Vec<String> = Vec::new();
    let mut i: usize = 0;
    assert(crate::text::views(r@) =~= tips_of(all.take(0)));
    while i < updates.len()
        invariant
            all == update_list(updates@),
            i <= updates.len(),
            crate::text::views(r@) == tips_of(all.take(i as int)),
        decreases updates.len() - i,
    {
        proof {
            crate::seqs::lemma_take_succ(all, i as int);
            assert(all[i as int] == updates@[i as int]@);
        }
        match &updates[i].new_oid {
            Some(t) => {
                r.push(t.clone());
            },
            None => {},
        }
        i = i + 1;
    }
    assert(all.take(i as int) =~= all);
    r
}

} // verus!
