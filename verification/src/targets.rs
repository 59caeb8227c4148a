//! What the user asks to be built or installed.

use vstd::prelude::*;

use crate::names::PkgName;

verus! {

broadcast use vstd::string::group_string_axioms;

/// Something to install: what the user typed, and the installed package that they
/// mean by it where that is known.
#[derive(Debug)]
pub struct Target {
    /// What the user typed.
    pub spec: String,
    /// The installed package that they mean.
    pub hint: Option<PkgName>,
}

impl Target {
    /// What the user typed, with nothing more known.
    pub fn bare(spec: &str) -> (r: Self)
        ensures
            r.spec@ == spec@,
            r.hint is None,
    {
        Target { spec: spec.to_owned(), hint: None }
    }

    /// What the user typed, and the installed package that they mean.
    pub fn with_hint(spec: &str, hint: PkgName) -> (r: Self)
        ensures
            r.spec@ == spec@,
            r.hint == Some(hint),
    {
        Target { spec: spec.to_owned(), hint: Some(hint) }
    }
}

} // verus!
