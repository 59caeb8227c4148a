//! Working trees of single packages, which link back to the mirror.

use vstd::prelude::*;

use crate::names::PkgBase;
use crate::text::{occurs_at, skip, starts_with, trim, trim_spec, views};

verus! {

broadcast use vstd::string::group_string_axioms;

/// The directory to which the `.git` file of a linked working tree points.
pub open spec fn gitdir_spec(content: Seq<char>) -> Option<Seq<char>> {
    if occurs_at(content, "gitdir:"@, 0) {
        Some(trim_spec(content.skip(7)))
    } else {
        None
    }
}

/// The directory to which the `.git` file of a linked working tree points. Where
/// that directory exists, the tree is in order.
pub fn gitdir<'a>(content: &'a str) -> (r: Option<&'a str>)
    ensures
        match r {
            Some(d) => gitdir_spec(content@) == Some(d@),
            None => gitdir_spec(content@) is None,
        },
{
    if starts_with(content, "gitdir:") {
        proof {
            reveal_strlit("gitdir:");
        }
        Some(trim(skip(content, 7)))
    } else {
        None
    }
}

/// What is done to a working tree.
#[derive(Debug, Clone, Copy, PartialEq, Eq, Structural)]
pub enum TreeStep {
    /// Set the files that git knows to the tip of the branch; leave all others.
    Reset,
    /// Forget trees that are gone.
    Prune,
    /// Remove what is in the way.
    Remove,
    /// Make the tree.
    Add,
}

/// How a working tree comes to hold the tip of its branch: one that is in order is
/// reset; any other is made anew.
pub open spec fn tree_steps(linked: bool, dest_exists: bool) -> Seq<TreeStep> {
    if linked {
        seq![TreeStep::Reset]
    } else if dest_exists {
        seq![TreeStep::Prune, TreeStep::Remove, TreeStep::Add]
    } else {
        seq![TreeStep::Prune, TreeStep::Add]
    }
}

/// How a working tree comes to hold the tip of its branch.
pub fn add_or_reset(linked: bool, dest_exists: bool) -> (r: Vec<TreeStep>)
    ensures
        r@ == tree_steps(linked, dest_exists),
{
    let mut r: Vec<TreeStep> = Vec::new();
    if linked {
        r.push(TreeStep::Reset);
    } else {
        r.push(TreeStep::Prune);
        if dest_exists {
            r.push(TreeStep::Remove);
        }
        r.push(TreeStep::Add);
    }
    assert(r@ =~= tree_steps(linked, dest_exists));
    r
}

/// How a working tree is removed: its files first, which git would leave where it
/// may not write, and then what git knows of it.
pub open spec fn removal_steps(dest_exists: bool) -> Seq<TreeStep> {
    if dest_exists {
        seq![TreeStep::Remove, TreeStep::Prune]
    } else {
        seq![TreeStep::Prune]
    }
}

/// How a working tree is removed.
pub fn prune(dest_exists: bool) -> (r: Vec<TreeStep>)
    ensures
        r@ == removal_steps(dest_exists),
{
    let mut r: Vec<TreeStep> = Vec::new();
    if dest_exists {
        r.push(TreeStep::Remove);
    }
    r.push(TreeStep::Prune);
    r
}

/// Whether the failure of a step is passed over. Forgetting trees that are gone only
/// prepares for making one, which shows what is really wrong; where a tree is removed, it
/// is the point.
pub open spec fn is_passed_over(step: TreeStep, preparing: bool) -> bool {
    preparing && step == TreeStep::Prune
}

/// Whether a step may fail without ending the work.
pub fn may_fail(step: TreeStep, preparing: bool) -> (r: bool)
    ensures
        r == is_passed_over(step, preparing),
{
    match step {
        TreeStep::Prune => preparing,
        _ => false,
    }
}

/// How far the work gets where `failed` says of each step whether it would fail: the
/// number of steps that are tried, and whether the work succeeds.
pub open spec fn run_of(steps: Seq<TreeStep>, preparing: bool, failed: Seq<bool>) -> (nat, bool)
    decreases steps.len(),
{
    if steps.len() == 0 {
        (0, true)
    } else if failed[0] && !is_passed_over(steps[0], preparing) {
        (1, false)
    } else {
        let (n, ok) = run_of(steps.skip(1), preparing, failed.skip(1));
        (1 + n, ok)
    }
}

/// Whether a tree comes to hold its branch does not depend on whether trees that are
/// gone could be forgotten.
pub proof fn law_a_failed_preparation_is_passed_over(
    dest_exists: bool,
    failed: Seq<bool>,
    other: Seq<bool>,
)
    requires
        failed.len() == tree_steps(false, dest_exists).len(),
        other.len() == failed.len(),
        failed.skip(1) == other.skip(1),
    ensures
        run_of(tree_steps(false, dest_exists), true, failed) == run_of(
            tree_steps(false, dest_exists),
            true,
            other,
        ),
{
}

/// Where a tree is removed, any failure is reported.
pub proof fn law_a_failed_removal_is_reported(dest_exists: bool, failed: Seq<bool>)
    requires
        failed.len() == removal_steps(dest_exists).len(),
        exists|i: int| 0 <= i < failed.len() && #[trigger] failed[i],
    ensures
        !run_of(removal_steps(dest_exists), false, failed).1,
{
    reveal_with_fuel(run_of, 3);
    let i = choose|i: int| 0 <= i < failed.len() && #[trigger] failed[i];
    assert(failed.len() > 1 ==> failed.skip(1)[0] == failed[1]);
}

/// A tree that is in order is never removed, so what a build left in it stays.
pub proof fn law_good_trees_stay(dest_exists: bool)
    ensures
        !tree_steps(true, dest_exists).contains(TreeStep::Remove),
{
    assert(tree_steps(true, dest_exists)[0] == TreeStep::Reset);
}

/// The arguments of git for a step; nothing where git is not run.
pub open spec fn step_args(
    step: TreeStep,
    mirror: Seq<char>,
    dest: Seq<char>,
    branch: Seq<char>,
) -> Option<Seq<Seq<char>>> {
    let refname = "refs/heads/"@ + branch;
    match step {
        TreeStep::Reset => Some(seq!["-C"@, dest, "reset"@, "--hard"@, refname]),
        TreeStep::Prune => Some(seq!["-C"@, mirror, "worktree"@, "prune"@]),
        TreeStep::Remove => None,
        TreeStep::Add => Some(
            seq!["-C"@, mirror, "worktree"@, "add"@, "--detach"@, dest, refname],
        ),
    }
}

/// The full name of a branch.
pub fn branch_ref(branch: &PkgBase) -> (r: String)
    ensures
        r@ == "refs/heads/"@ + branch@,
{
    let mut r = "refs/heads/".to_owned();
    r.append(branch.as_str());
    r
}

/// The arguments of git for a step.
pub fn git_args(step: TreeStep, mirror: &str, dest: &str, branch: &PkgBase) -> (r: Option<
    Vec<String>,
>)
    ensures
        match r {
            Some(args) => step_args(step, mirror@, dest@, branch@) == Some(views(args@)),
            None => step_args(step, mirror@, dest@, branch@) is None,
        },
{
    let mut r: Vec<String> = Vec::new();
    r.push("-C".to_owned());
    match step {
        TreeStep::Reset => {
            r.push(dest.to_owned());
            r.push("reset".to_owned());
            r.push("--hard".to_owned());
            r.push(branch_ref(branch));
        },
        TreeStep::Prune => {
            r.push(mirror.to_owned());
            r.push("worktree".to_owned());
            r.push("prune".to_owned());
        },
        TreeStep::Remove => {
            return None;
        },
        TreeStep::Add => {
            r.push(mirror.to_owned());
            r.push("worktree".to_owned());
            r.push("add".to_owned());
            r.push("--detach".to_owned());
            r.push(dest.to_owned());
            r.push(branch_ref(branch));
        },
    }
    assert(views(r@) =~= step_args(step, mirror@, dest@, branch@)->0);
    Some(r)
}

} // verus!
