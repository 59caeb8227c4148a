//! Operations that Ctrl+C ends.

use vstd::prelude::*;

use crate::error::Error;

verus! {

/// What an operation comes to that the user may have interrupted. An interrupt
/// counts whatever the operation itself says.
pub fn cancel_on_sigint<T>(interrupted: bool, outcome: Result<T, Error>) -> (r: Result<T, Error>)
    ensures
        interrupted ==> r matches Err(Error::Interrupted),
        !interrupted ==> r == outcome,
{
    if interrupted {
        return Err(Error::Interrupted);
    }
    outcome
}

} // verus!
