//! Which of two versions is newer.

use std::cmp::Ordering;
use vstd::prelude::*;

verus! {

/// Whether an installed version that compares so with an available one is older.
pub fn is_outdated(installed_to_available: Ordering) -> (r: bool)
    ensures
        r == (installed_to_available == Ordering::Less),
{
    match installed_to_available {
        Ordering::Less => true,
        Ordering::Equal => false,
        Ordering::Greater => false,
    }
}

} // verus!
