//! Options of one run that are needed deep inside.

use vstd::prelude::*;

use crate::pacman::invoke::{has_flag, holds};
use crate::text::views;

verus! {

/// The options.
#[derive(Debug, Clone, Copy, PartialEq, Eq, Structural)]
pub struct RunOpts {
    /// Ask nothing.
    pub noconfirm: bool,
    /// Do not build an index again that cannot be read.
    pub noresync: bool,
}

impl Default for RunOpts {
    fn default() -> (r: Self)
        ensures
            !r.noconfirm,
            !r.noresync,
    {
        RunOpts { noconfirm: false, noresync: false }
    }
}

/// The options that stand after `o` is set where `before` stood: there is no stack.
pub open spec fn installed(before: RunOpts, o: RunOpts) -> RunOpts {
    o
}

/// Sets the options of the run.
pub fn set(slot: &mut RunOpts, o: RunOpts)
    ensures
        *final(slot) == installed(*old(slot), o),
{
    *slot = o;
}

/// The options of the run.
pub fn get(slot: &RunOpts) -> (r: RunOpts)
    ensures
        r == *slot,
{
    *slot
}

/// Who sets the options last decides: nothing of what was set before stays.
pub proof fn law_the_last_writer_wins(before: RunOpts, a: RunOpts, b: RunOpts)
    ensures
        installed(installed(before, a), b).noconfirm == b.noconfirm,
        installed(installed(before, a), b).noresync == b.noresync,
{
}

/// Whether nothing is asked.
pub fn noconfirm(opts: &RunOpts) -> (r: bool)
    ensures
        r == opts.noconfirm,
{
    opts.noconfirm
}

/// Whether an index that cannot be read stays as it is.
pub fn noresync(opts: &RunOpts) -> (r: bool)
    ensures
        r == opts.noresync,
{
    opts.noresync
}

/// Whether the arguments ask for no questions. Only the whole word counts.
pub fn argv_has_noconfirm(argv: &Vec<String>) -> (r: bool)
    ensures
        r == holds(views(argv@), "--noconfirm"@),
{
    has_flag(argv, "--noconfirm")
}

/// Whether the arguments forbid to build the index again. Only the whole word
/// counts.
pub fn argv_has_noresync(argv: &Vec<String>) -> (r: bool)
    ensures
        r == holds(views(argv@), "--noresync"@),
{
    has_flag(argv, "--noresync")
}

} // verus!
