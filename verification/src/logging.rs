//! What a run writes down, and where.

use vstd::prelude::*;

use crate::paths::StatePath;
use crate::rotate::RotationPolicy;
use crate::text::{split, split_spec, str_views, to_chars, trim, trim_spec};

pub mod chrome;

verus! {

broadcast use vstd::string::group_string_axioms;

/// What goes into the file of a run: everything down to details, except of the
/// libraries that would drown the rest.
pub const FILE_LOG_FILTER: &'static str = "debug,h2=info,hyper=info,hyper_util=info,reqwest=info,rustls=info,rustls_platform_verifier=info";

/// The logs.
pub fn logs() -> (r: RotationPolicy)
    ensures
        r.dir == StatePath::Logs,
        r.ext@ == "log"@,
        r.keep == 10,
{
    RotationPolicy { dir: StatePath::Logs, ext: "log", keep: 10 }
}

/// The traces.
pub fn traces() -> (r: RotationPolicy)
    ensures
        r.dir == StatePath::Traces,
        r.ext@ == "json"@,
        r.keep == 10,
{
    RotationPolicy { dir: StatePath::Traces, ext: "json", keep: 10 }
}

/// What the environment says about the console's filter.
#[derive(Debug)]
pub enum FilterVar {
    /// Nothing.
    Unset,
    /// Something that is no text.
    NotUnicode,
    /// This.
    Given(String),
}

/// What `EnvFilter::try_new` has against a text; nothing where it takes it.
pub uninterp spec fn filter_fault(directives: Seq<char>) -> Option<Seq<char>>;

/// How many bytes UTF-8 has for a character.
pub open spec fn width(c: char) -> nat {
    if c <= '\u{7f}' {
        1
    } else if c <= '\u{7ff}' {
        2
    } else if c <= '\u{ffff}' {
        3
    } else {
        4
    }
}

/// How many bytes UTF-8 has for a text.
pub open spec fn byte_len(s: Seq<char>) -> nat
    decreases s.len(),
{
    if s.len() == 0 {
        0
    } else {
        byte_len(s.drop_last()) + width(s.last())
    }
}

/// A character of `s` begins at the byte `at`, or `s` ends there.
pub open spec fn is_boundary(s: Seq<char>, at: nat) -> bool {
    exists|i: int| 0 <= i <= s.len() && byte_len(#[trigger] s.take(i)) == at
}

/// One of the characters between the parts of a directive.
pub open spec fn is_mark(c: char) -> bool {
    c == '=' || c == '[' || c == ']' || c == '{' || c == '}'
}

/// A directive can be cut before and after its marks, though their places are
/// counted without the white space at its beginning.
pub open spec fn can_be_cut(directive: Seq<char>) -> bool {
    let inner = trim_spec(directive);
    forall|i: int|
        0 <= i < inner.len() && is_mark(#[trigger] inner[i]) ==> is_boundary(
            directive,
            byte_len(inner.take(i)),
        ) && is_boundary(directive, byte_len(inner.take(i)) + 1)
}

/// Every directive of a list can be cut so.
pub open spec fn all_can_be_cut(directives: Seq<char>) -> bool {
    let pieces = split_spec(directives, ',');
    forall|i: int| 0 <= i < pieces.len() ==> can_be_cut(#[trigger] pieces[i])
}

/// Asks `tracing_subscriber::EnvFilter::try_new` whether a text is a list of
/// directives. Its answer, and the message of its error, are only named. It counts
/// positions in a directive without the white space around that, and cuts the
/// directive at them with the white space; a cut inside a character would panic.
#[verifier::external_body]
fn check_directives(directives: &str) -> (r: Result<(), String>)
    requires
        all_can_be_cut(directives@),
    ensures
        r is Ok <==> filter_fault(directives@) is None,
        r matches Err(m) ==> filter_fault(directives@) == Some(m@),
{
    tracing_subscriber::EnvFilter::try_new(directives).map(|_| ()).map_err(|e| e.to_string())
}

/// The console's filter, and what the user is told about it.
#[derive(Debug)]
pub struct ConsoleFilter {
    /// The directives.
    pub directives: String,
    /// What the user is told.
    pub diagnostic: Option<String>,
}

/// The filter for what the environment says, where `fault` is what is wrong with
/// that.
pub open spec fn filter_spec(var: FilterVar, fault: Option<Seq<char>>) -> (Seq<char>, Option<Seq<char>>) {
    match var {
        FilterVar::Unset => ("warn"@, None),
        FilterVar::NotUnicode => (
            "warn"@,
            Some("gitaur: RUST_LOG is not valid UTF-8; falling back to RUST_LOG=warn"@),
        ),
        FilterVar::Given(raw) => match fault {
            None => (raw@, None),
            Some(e) => (
                "warn"@,
                Some(
                    "gitaur: ignoring malformed RUST_LOG='"@ + raw@ + "' ("@ + e
                        + "); falling back to RUST_LOG=warn"@,
                ),
            ),
        },
    }
}

/// The model of a [`ConsoleFilter`].
pub open spec fn filter_view(f: ConsoleFilter) -> (Seq<char>, Option<Seq<char>>) {
    (f.directives@, crate::text::opt_view(f.diagnostic))
}

/// The filter for what the environment says, where `fault` is what is wrong with
/// that. What cannot be used is told to the user; only where nothing is said, nothing
/// is told.
pub fn choose_filter(var: FilterVar, fault: Option<String>) -> (r: ConsoleFilter)
    ensures
        filter_view(r) == filter_spec(var, crate::text::opt_view(fault)),
{
    match var {
        FilterVar::Unset => ConsoleFilter { directives: "warn".to_owned(), diagnostic: None },
        FilterVar::NotUnicode => ConsoleFilter {
            directives: "warn".to_owned(),
            diagnostic: Some(
                "gitaur: RUST_LOG is not valid UTF-8; falling back to RUST_LOG=warn".to_owned(),
            ),
        },
        FilterVar::Given(raw) => match fault {
            None => ConsoleFilter { directives: raw, diagnostic: None },
            Some(e) => {
                let mut m = "gitaur: ignoring malformed RUST_LOG='".to_owned();
                m.append(raw.as_str());
                m.append("' (");
                m.append(e.as_str());
                m.append("); falling back to RUST_LOG=warn");
                ConsoleFilter { directives: "warn".to_owned(), diagnostic: Some(m) }
            },
        },
    }
}

fn char_width(c: char) -> (r: u128)
    ensures
        r == width(c),
{
    if c <= '\u{7f}' {
        1
    } else if c <= '\u{7ff}' {
        2
    } else if c <= '\u{ffff}' {
        3
    } else {
        4
    }
}

fn test_boundary(s: &Vec<char>, at: u128) -> (r: bool)
    ensures
        r == is_boundary(s@, at as nat),
{
    let mut i: usize = 0;
    let mut here: u128 = 0;
    assert(byte_len(s@.take(0)) == 0);
    while i < s.len() && here != at
        invariant
            i <= s.len(),
            here == byte_len(s@.take(i as int)),
            here <= 4 * i,
            forall|k: int| 0 <= k < i ==> byte_len(#[trigger] s@.take(k)) != at,
        decreases s.len() - i,
    {
        proof {
            crate::seqs::lemma_take_succ(s@, i as int);
        }
        here = here + char_width(s[i]);
        i = i + 1;
    }
    if here == at {
        return true;
    }
    assert forall|k: int| 0 <= k <= s@.len() implies byte_len(#[trigger] s@.take(k)) != at by {}
    false
}

fn test_cut(directive: &str) -> (r: bool)
    ensures
        r == can_be_cut(directive@),
{
    let whole = to_chars(directive);
    let inner = to_chars(trim(directive));
    let mut i: usize = 0;
    let mut here: u128 = 0;
    assert(byte_len(inner@.take(0)) == 0);
    while i < inner.len()
        invariant
            whole@ == directive@,
            inner@ == trim_spec(directive@),
            i <= inner.len(),
            here == byte_len(inner@.take(i as int)),
            here <= 4 * i,
            forall|k: int|
                0 <= k < i && is_mark(#[trigger] inner@[k]) ==> is_boundary(
                    directive@,
                    byte_len(inner@.take(k)),
                ) && is_boundary(directive@, byte_len(inner@.take(k)) + 1),
        decreases inner.len() - i,
    {
        proof {
            crate::seqs::lemma_take_succ(inner@, i as int);
        }
        let c = inner[i];
        if c == '=' || c == '[' || c == ']' || c == '{' || c == '}' {
            if !test_boundary(&whole, here) || !test_boundary(&whole, here + 1) {
                assert(is_mark(inner@[i as int]));
                return false;
            }
        }
        here = here + char_width(c);
        i = i + 1;
    }
    true
}

fn test_cuts(directives: &str) -> (r: bool)
    ensures
        r == all_can_be_cut(directives@),
{
    let pieces = split(directives, ',');
    let ghost all = split_spec(directives@, ',');
    let mut i: usize = 0;
    while i < pieces.len()
        invariant
            str_views(pieces@) == all,
            all == split_spec(directives@, ','),
            i <= pieces.len(),
            forall|k: int| 0 <= k < i ==> can_be_cut(#[trigger] all[k]),
        decreases pieces.len() - i,
    {
        assert(all[i as int] == pieces@[i as int]@);
        if !test_cut(pieces[i]) {
            return false;
        }
        i = i + 1;
    }
    true
}

/// What is wrong with a list of directives. One that cannot be cut is malformed
/// without being asked about.
pub open spec fn fault_of(directives: Seq<char>) -> Option<Seq<char>> {
    if all_can_be_cut(directives) {
        filter_fault(directives)
    } else {
        Some("invalid filter directive"@)
    }
}

/// The console's filter for what the environment says.
pub fn parse_console_filter(var: FilterVar) -> (r: ConsoleFilter)
    ensures
        filter_view(r) == filter_spec(
            var,
            match var {
                FilterVar::Given(raw) => fault_of(raw@),
                _ => None,
            },
        ),
{
    let fault: Option<String> = match &var {
        FilterVar::Given(raw) => {
            if test_cuts(raw.as_str()) {
                match check_directives(raw.as_str()) {
                    Ok(_) => None,
                    Err(e) => Some(e),
                }
            } else {
                Some("invalid filter directive".to_owned())
            }
        },
        _ => None,
    };
    choose_filter(var, fault)
}

} // verus!
