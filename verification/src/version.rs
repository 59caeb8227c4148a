//! Package versions.

use vstd::prelude::*;

verus! {

broadcast use vstd::string::group_string_axioms;

/// A version, `[epoch:]pkgver-pkgrel`, as pacman writes it. It is modelled by its
/// text; which of two versions is newer only libalpm tells.
#[derive(Debug, Hash, PartialEq, Eq)]
pub struct Version(String);

impl View for Version {
    type V = Seq<char>;

    closed spec fn view(&self) -> Seq<char> {
        self.0@
    }
}

impl Clone for Version {
    fn clone(&self) -> (r: Self)
        ensures
            r@ == self@,
    {
        Version(self.0.clone())
    }
}

impl Version {
    /// Wraps `s`.
    pub fn new(s: &str) -> (r: Self)
        ensures
            r@ == s@,
    {
        Version(s.to_owned())
    }

    /// The version as a string slice.
    pub fn as_str(&self) -> (r: &str)
        ensures
            r@ == self@,
    {
        self.0.as_str()
    }

    /// The version as a string of its own.
    pub fn to_string(&self) -> (r: String)
        ensures
            r@ == self@,
    {
        self.0.clone()
    }
}

} // verus!
