//! The library's error.

use vstd::prelude::*;

use crate::text::{dec_int, dec_int_string};

verus! {

broadcast use vstd::string::group_string_axioms;

/// What can go wrong. The texts are what the user is shown.
#[derive(Debug, PartialEq, Eq)]
pub enum Error {
    /// Reading or writing failed.
    Io(String),
    /// The git library reported an error.
    Gix(String),
    /// libalpm reported an error.
    Alpm(String),
    /// The configuration is not TOML.
    Toml(String),
    /// A search pattern does not compile.
    Regex(String),
    /// An archive could not be written or read.
    Rkyv(String),
    /// This build cannot read the index on disk.
    IndexIncompatible(String),
    /// A `.SRCINFO` does not parse.
    SrcInfo(String),
    /// The dependencies cannot be resolved.
    Resolve(String),
    /// A build failed.
    Build(String),
    /// pacman ended with this status.
    PacmanExit(i32),
    /// The user said no.
    UserAbort,
    /// The user pressed Ctrl+C.
    Interrupted,
    /// Some targets are not known anywhere.
    UnknownTargets(String),
    /// Anything else.
    Other(String),
}

impl Error {
    /// The message that the user is shown.
    pub open spec fn text(self) -> Seq<char> {
        match self {
            Error::Io(m) => "io: "@ + m@,
            Error::Gix(m) => "git: "@ + m@,
            Error::Alpm(m) => "alpm: "@ + m@,
            Error::Toml(m) => "toml: "@ + m@,
            Error::Regex(m) => "regex: "@ + m@,
            Error::Rkyv(m) => "rkyv: "@ + m@,
            Error::IndexIncompatible(m) => "index incompatible: "@ + m@,
            Error::SrcInfo(m) => "srcinfo parse: "@ + m@,
            Error::Resolve(m) => "resolve: "@ + m@,
            Error::Build(m) => "build: "@ + m@,
            Error::PacmanExit(n) => "pacman exited with status "@ + dec_int(n as int),
            Error::UserAbort => "user aborted"@,
            Error::Interrupted => "interrupted"@,
            Error::UnknownTargets(m) => "unknown target(s): "@ + m@,
            Error::Other(m) => m@,
        }
    }

    /// An error that is only a message.
    pub fn other(msg: &str) -> (r: Self)
        ensures
            r matches Error::Other(m) && m@ == msg@,
    {
        Error::Other(msg.to_owned())
    }

    /// The message that the user is shown.
    pub fn to_string(&self) -> (r: String)
        ensures
            r@ == self.text(),
    {
        let mut r = String::new();
        match self {
            Error::Io(m) => {
                r.append("io: ");
                r.append(m.as_str());
            },
            Error::Gix(m) => {
                r.append("git: ");
                r.append(m.as_str());
            },
            Error::Alpm(m) => {
                r.append("alpm: ");
                r.append(m.as_str());
            },
            Error::Toml(m) => {
                r.append("toml: ");
                r.append(m.as_str());
            },
            Error::Regex(m) => {
                r.append("regex: ");
                r.append(m.as_str());
            },
            Error::Rkyv(m) => {
                r.append("rkyv: ");
                r.append(m.as_str());
            },
            Error::IndexIncompatible(m) => {
                r.append("index incompatible: ");
                r.append(m.as_str());
            },
            Error::SrcInfo(m) => {
                r.append("srcinfo parse: ");
                r.append(m.as_str());
            },
            Error::Resolve(m) => {
                r.append("resolve: ");
                r.append(m.as_str());
            },
            Error::Build(m) => {
                r.append("build: ");
                r.append(m.as_str());
            },
            Error::PacmanExit(n) => {
                r.append("pacman exited with status ");
                r.append(dec_int_string(*n as i64).as_str());
            },
            Error::UserAbort => {
                r.append("user aborted");
            },
            Error::Interrupted => {
                r.append("interrupted");
            },
            Error::UnknownTargets(m) => {
                r.append("unknown target(s): ");
                r.append(m.as_str());
            },
            Error::Other(m) => {
                r.append(m.as_str());
            },
        }
        assert(r@ =~= self.text());
        r
    }
}

} // verus!
