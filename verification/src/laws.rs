//! What the operations are for.
//!
//! The laws speak of what goes in and what comes out: of lines and words, of the lists of
//! an entry, of names and positions.

pub mod answers;
pub mod expanding;
pub mod forwarding;
pub mod keeping;
pub mod lists;
pub mod mirroring;
pub mod naming;
pub mod operations;
pub mod packages;
pub mod planning;
pub mod removing;
pub mod resolving;
pub mod searching;
pub mod settings;
pub mod showing;
pub mod srcinfo;
pub mod steps;
pub mod texts;
pub mod tracing;
pub mod updating;
pub mod versions;
pub mod wording;
