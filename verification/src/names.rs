//! The name-shaped strings of the package world, one type for each meaning.
//!
//! For most packages pkgname and pkgbase read the same, which is exactly when
//! passing one for the other goes unnoticed. The wrappers keep them apart. All of
//! them are modelled by the sequence of their characters.

use regex::{Error as RegexError, Regex, RegexBuilder};
use vstd::prelude::*;
use vstd::std_specs::convert::FromSpecImpl;

use crate::maps::{NameKey, NameSet};
use crate::text::{
    ends_with, find, opt_view, same, split_once, starts_with, take, trim, trim_end_char,
};

verus! {

broadcast use vstd::string::group_string_axioms;

/// A compiled regular expression.
#[verifier::external_type_specification]
#[verifier::external_body]
pub struct ExRegex(regex::Regex);

/// Why a pattern did not compile.
#[verifier::external_type_specification]
#[verifier::external_body]
pub struct ExRegexError(RegexError);

/// What `regex::Regex::is_match` answers for a regular expression and a text.
pub uninterp spec fn regex_matches(re: regex::Regex, text: Seq<char>) -> bool;

/// Calls `regex::Regex::is_match`. Claims only that the answer is a function of
/// the expression and the text.
#[verifier::external_body]
pub(crate) fn regex_is_match(re: &Regex, text: &str) -> (r: bool)
    ensures
        r == regex_matches(*re, text@),
{
    re.is_match(text)
}

/// The byte at which the leftmost match that `regex::Regex::find` reports starts.
pub uninterp spec fn regex_match_start(re: regex::Regex, text: Seq<char>) -> Option<usize>;

/// Calls `regex::Regex::find` and keeps the start of the match. Claims only that
/// it is a function of the expression and the text.
#[verifier::external_body]
pub(crate) fn regex_find_start(re: &Regex, text: &str) -> (r: Option<usize>)
    ensures
        r == regex_match_start(*re, text@),
{
    re.find(text).map(|m| m.start())
}

/// What `regex::RegexBuilder::build` makes of a pattern, case ignored.
pub uninterp spec fn caseless_regex(pattern: Seq<char>) -> Result<regex::Regex, RegexError>;

/// Calls `regex::RegexBuilder::build` with `case_insensitive(true)`. Claims only
/// that the outcome is a function of the pattern.
#[verifier::external_body]
fn compile_caseless(pattern: &str) -> (r: Result<Regex, RegexError>)
    ensures
        r == caseless_regex(pattern@),
{
    RegexBuilder::new(pattern).case_insensitive(true).build()
}

/// The message of an error of the `regex` crate.
pub uninterp spec fn regex_complaint(e: RegexError) -> Seq<char>;

/// Calls `to_string` of `regex::Error`. Claims only that the message is a function
/// of the error.
#[verifier::external_body]
pub(crate) fn regex_error_text(e: &RegexError) -> (r: String)
    ensures
        r@ == regex_complaint(*e),
{
    e.to_string()
}

/// Where a search regex matched a name. A search ranks a match at the start of a
/// name above one inside it.
#[derive(Debug, Clone, Copy, PartialEq, Eq, Structural)]
pub enum NameMatch {
    /// The match starts at the first character.
    Prefix,
    /// The match starts later.
    Inside,
}

/// How a match that starts at `start` is anchored.
pub open spec fn anchor_spec(start: Option<usize>) -> Option<NameMatch> {
    match start {
        Some(i) => Some(if i == 0 { NameMatch::Prefix } else { NameMatch::Inside }),
        None => None,
    }
}

/// Turns the start of a match into its anchor.
pub fn anchor_of(start: Option<usize>) -> (r: Option<NameMatch>)
    ensures
        r == anchor_spec(start),
{
    match start {
        Some(i) => if i == 0 {
            Some(NameMatch::Prefix)
        } else {
            Some(NameMatch::Inside)
        },
        None => None,
    }
}

/// One pacman package name: what `pacman -Q` reports. A split pkgbase produces
/// several; for the others pkgname and pkgbase read the same.
#[derive(Debug, Hash, PartialEq, Eq, PartialOrd, Ord)]
pub struct PkgName(String);

impl View for PkgName {
    type V = Seq<char>;

    closed spec fn view(&self) -> Seq<char> {
        self.0@
    }
}

impl Clone for PkgName {
    fn clone(&self) -> (r: Self)
        ensures
            r@ == self@,
    {
        PkgName(self.0.clone())
    }
}

impl Default for PkgName {
    fn default() -> (r: Self)
        ensures
            r@ == Seq::<char>::empty(),
    {
        PkgName(String::new())
    }
}

impl NameKey for PkgName {
    fn as_key(&self) -> (r: &str) {
        self.0.as_str()
    }

    fn dup(&self) -> (r: Self) {
        self.clone()
    }
}

impl FromSpecImpl<&str> for PkgName {
    open spec fn obeys_from_spec() -> bool {
        false
    }

    open spec fn from_spec(s: &str) -> Self {
        arbitrary()
    }
}

impl From<&str> for PkgName {
    fn from(s: &str) -> (r: Self)
        ensures
            r@ == s@,
    {
        PkgName(s.to_owned())
    }
}

impl FromSpecImpl<String> for PkgName {
    open spec fn obeys_from_spec() -> bool {
        false
    }

    open spec fn from_spec(s: String) -> Self {
        arbitrary()
    }
}

impl From<String> for PkgName {
    fn from(s: String) -> (r: Self)
        ensures
            r@ == s@,
    {
        PkgName(s)
    }
}

impl PkgName {
    /// Wraps `s`.
    pub fn new(s: &str) -> (r: Self)
        ensures
            r@ == s@,
    {
        PkgName(s.to_owned())
    }

    /// Unwraps the string.
    pub fn into_inner(self) -> (r: String)
        ensures
            r@ == self@,
    {
        self.0
    }

    /// The name as a string slice.
    pub fn as_str(&self) -> (r: &str)
        ensures
            r@ == self@,
    {
        self.0.as_str()
    }

    /// The name as a string of its own.
    pub fn to_string(&self) -> (r: String)
        ensures
            r@ == self@,
    {
        self.0.clone()
    }

    /// Tests whether the name is empty.
    pub fn is_empty(&self) -> (r: bool)
        ensures
            r == (self@.len() == 0),
    {
        self.0.as_str().is_empty()
    }

    /// The length of the name in bytes.
    pub fn len(&self) -> (r: usize)
        ensures
            r as int == vstd::utf8::encode_utf8(self@).len(),
    {
        self.0.as_str().as_bytes().len()
    }

    /// Tests whether the name starts with `prefix`.
    pub fn starts_with(&self, prefix: &str) -> (r: bool)
        ensures
            r == prefix@.is_prefix_of(self@),
    {
        starts_with(self.0.as_str(), prefix)
    }

    /// Tests whether `r` matches somewhere in the name.
    pub fn matches_regex(&self, r: &Regex) -> (m: bool)
        ensures
            m == regex_matches(*r, self@),
    {
        regex_is_match(r, self.0.as_str())
    }

    /// Where `r` matches the name: at its start, inside it, or nowhere.
    pub fn regex_anchor(&self, r: &Regex) -> (m: Option<NameMatch>)
        ensures
            m == anchor_spec(regex_match_start(*r, self@)),
    {
        anchor_of(regex_find_start(r, self.0.as_str()))
    }

    /// Tests whether two names read the same.
    pub fn same_as(&self, other: &Self) -> (r: bool)
        ensures
            r == (self@ == other@),
    {
        same(self.0.as_str(), other.0.as_str())
    }
}

/// The views of a list of names.
pub open spec fn pkgname_views(v: Seq<PkgName>) -> Seq<Seq<char>> {
    v.map_values(|n: PkgName| n@)
}

/// One AUR pkgbase: a branch of the mirror, the unit that `makepkg` builds.
#[derive(Debug, Hash, PartialEq, Eq, PartialOrd, Ord)]
pub struct PkgBase(String);

impl View for PkgBase {
    type V = Seq<char>;

    closed spec fn view(&self) -> Seq<char> {
        self.0@
    }
}

impl Clone for PkgBase {
    fn clone(&self) -> (r: Self)
        ensures
            r@ == self@,
    {
        PkgBase(self.0.clone())
    }
}

impl Default for PkgBase {
    fn default() -> (r: Self)
        ensures
            r@ == Seq::<char>::empty(),
    {
        PkgBase(String::new())
    }
}

impl NameKey for PkgBase {
    fn as_key(&self) -> (r: &str) {
        self.0.as_str()
    }

    fn dup(&self) -> (r: Self) {
        self.clone()
    }
}

impl FromSpecImpl<&str> for PkgBase {
    open spec fn obeys_from_spec() -> bool {
        false
    }

    open spec fn from_spec(s: &str) -> Self {
        arbitrary()
    }
}

impl From<&str> for PkgBase {
    fn from(s: &str) -> (r: Self)
        ensures
            r@ == s@,
    {
        PkgBase(s.to_owned())
    }
}

impl FromSpecImpl<String> for PkgBase {
    open spec fn obeys_from_spec() -> bool {
        false
    }

    open spec fn from_spec(s: String) -> Self {
        arbitrary()
    }
}

impl From<String> for PkgBase {
    fn from(s: String) -> (r: Self)
        ensures
            r@ == s@,
    {
        PkgBase(s)
    }
}

impl PkgBase {
    /// Wraps `s`.
    pub fn new(s: &str) -> (r: Self)
        ensures
            r@ == s@,
    {
        PkgBase(s.to_owned())
    }

    /// Unwraps the string.
    pub fn into_inner(self) -> (r: String)
        ensures
            r@ == self@,
    {
        self.0
    }

    /// The name as a string slice.
    pub fn as_str(&self) -> (r: &str)
        ensures
            r@ == self@,
    {
        self.0.as_str()
    }

    /// The name as a string of its own.
    pub fn to_string(&self) -> (r: String)
        ensures
            r@ == self@,
    {
        self.0.clone()
    }

    /// Tests whether the name is empty.
    pub fn is_empty(&self) -> (r: bool)
        ensures
            r == (self@.len() == 0),
    {
        self.0.as_str().is_empty()
    }

    /// The length of the name in bytes.
    pub fn len(&self) -> (r: usize)
        ensures
            r as int == vstd::utf8::encode_utf8(self@).len(),
    {
        self.0.as_str().as_bytes().len()
    }

    /// Tests whether the name starts with `prefix`.
    pub fn starts_with(&self, prefix: &str) -> (r: bool)
        ensures
            r == prefix@.is_prefix_of(self@),
    {
        starts_with(self.0.as_str(), prefix)
    }

    /// Tests whether `r` matches somewhere in the name.
    pub fn matches_regex(&self, r: &Regex) -> (m: bool)
        ensures
            m == regex_matches(*r, self@),
    {
        regex_is_match(r, self.0.as_str())
    }

    /// Where `r` matches the name: at its start, inside it, or nowhere.
    pub fn regex_anchor(&self, r: &Regex) -> (m: Option<NameMatch>)
        ensures
            m == anchor_spec(regex_match_start(*r, self@)),
    {
        anchor_of(regex_find_start(r, self.0.as_str()))
    }

    /// Tests whether two names read the same.
    pub fn same_as(&self, other: &Self) -> (r: bool)
        ensures
            r == (self@ == other@),
    {
        same(self.0.as_str(), other.0.as_str())
    }
}

/// The views of a list of names.
pub open spec fn pkgbase_views(v: Seq<PkgBase>) -> Seq<Seq<char>> {
    v.map_values(|n: PkgBase| n@)
}

/// A name that nobody has classified yet: a pkgname, a pkgbase or a virtual name,
/// with or without a version constraint (`foo>=1.2`).
#[derive(Debug, Hash, PartialEq, Eq, PartialOrd, Ord)]
pub struct PkgTarget(String);

impl View for PkgTarget {
    type V = Seq<char>;

    closed spec fn view(&self) -> Seq<char> {
        self.0@
    }
}

impl Clone for PkgTarget {
    fn clone(&self) -> (r: Self)
        ensures
            r@ == self@,
    {
        PkgTarget(self.0.clone())
    }
}

impl Default for PkgTarget {
    fn default() -> (r: Self)
        ensures
            r@ == Seq::<char>::empty(),
    {
        PkgTarget(String::new())
    }
}

impl NameKey for PkgTarget {
    fn as_key(&self) -> (r: &str) {
        self.0.as_str()
    }

    fn dup(&self) -> (r: Self) {
        self.clone()
    }
}

impl FromSpecImpl<&str> for PkgTarget {
    open spec fn obeys_from_spec() -> bool {
        false
    }

    open spec fn from_spec(s: &str) -> Self {
        arbitrary()
    }
}

impl From<&str> for PkgTarget {
    fn from(s: &str) -> (r: Self)
        ensures
            r@ == s@,
    {
        PkgTarget(s.to_owned())
    }
}

impl FromSpecImpl<String> for PkgTarget {
    open spec fn obeys_from_spec() -> bool {
        false
    }

    open spec fn from_spec(s: String) -> Self {
        arbitrary()
    }
}

impl From<String> for PkgTarget {
    fn from(s: String) -> (r: Self)
        ensures
            r@ == s@,
    {
        PkgTarget(s)
    }
}

impl PkgTarget {
    /// Wraps `s`.
    pub fn new(s: &str) -> (r: Self)
        ensures
            r@ == s@,
    {
        PkgTarget(s.to_owned())
    }

    /// Unwraps the string.
    pub fn into_inner(self) -> (r: String)
        ensures
            r@ == self@,
    {
        self.0
    }

    /// The name as a string slice.
    pub fn as_str(&self) -> (r: &str)
        ensures
            r@ == self@,
    {
        self.0.as_str()
    }

    /// The name as a string of its own.
    pub fn to_string(&self) -> (r: String)
        ensures
            r@ == self@,
    {
        self.0.clone()
    }

    /// Tests whether the name is empty.
    pub fn is_empty(&self) -> (r: bool)
        ensures
            r == (self@.len() == 0),
    {
        self.0.as_str().is_empty()
    }

    /// The length of the name in bytes.
    pub fn len(&self) -> (r: usize)
        ensures
            r as int == vstd::utf8::encode_utf8(self@).len(),
    {
        self.0.as_str().as_bytes().len()
    }

    /// Tests whether the name starts with `prefix`.
    pub fn starts_with(&self, prefix: &str) -> (r: bool)
        ensures
            r == prefix@.is_prefix_of(self@),
    {
        starts_with(self.0.as_str(), prefix)
    }

    /// Tests whether `r` matches somewhere in the name.
    pub fn matches_regex(&self, r: &Regex) -> (m: bool)
        ensures
            m == regex_matches(*r, self@),
    {
        regex_is_match(r, self.0.as_str())
    }

    /// Where `r` matches the name: at its start, inside it, or nowhere.
    pub fn regex_anchor(&self, r: &Regex) -> (m: Option<NameMatch>)
        ensures
            m == anchor_spec(regex_match_start(*r, self@)),
    {
        anchor_of(regex_find_start(r, self.0.as_str()))
    }

    /// Tests whether two names read the same.
    pub fn same_as(&self, other: &Self) -> (r: bool)
        ensures
            r == (self@ == other@),
    {
        same(self.0.as_str(), other.0.as_str())
    }
}

/// The views of a list of names.
pub open spec fn pkgtarget_views(v: Seq<PkgTarget>) -> Seq<Seq<char>> {
    v.map_values(|n: PkgTarget| n@)
}

/// A name that a package claims to satisfy through `provides`.
#[derive(Debug, Hash, PartialEq, Eq, PartialOrd, Ord)]
pub struct VirtualName(String);

impl View for VirtualName {
    type V = Seq<char>;

    closed spec fn view(&self) -> Seq<char> {
        self.0@
    }
}

impl Clone for VirtualName {
    fn clone(&self) -> (r: Self)
        ensures
            r@ == self@,
    {
        VirtualName(self.0.clone())
    }
}

impl Default for VirtualName {
    fn default() -> (r: Self)
        ensures
            r@ == Seq::<char>::empty(),
    {
        VirtualName(String::new())
    }
}

impl NameKey for VirtualName {
    fn as_key(&self) -> (r: &str) {
        self.0.as_str()
    }

    fn dup(&self) -> (r: Self) {
        self.clone()
    }
}

impl FromSpecImpl<&str> for VirtualName {
    open spec fn obeys_from_spec() -> bool {
        false
    }

    open spec fn from_spec(s: &str) -> Self {
        arbitrary()
    }
}

impl From<&str> for VirtualName {
    fn from(s: &str) -> (r: Self)
        ensures
            r@ == s@,
    {
        VirtualName(s.to_owned())
    }
}

impl FromSpecImpl<String> for VirtualName {
    open spec fn obeys_from_spec() -> bool {
        false
    }

    open spec fn from_spec(s: String) -> Self {
        arbitrary()
    }
}

impl From<String> for VirtualName {
    fn from(s: String) -> (r: Self)
        ensures
            r@ == s@,
    {
        VirtualName(s)
    }
}

impl VirtualName {
    /// Wraps `s`.
    pub fn new(s: &str) -> (r: Self)
        ensures
            r@ == s@,
    {
        VirtualName(s.to_owned())
    }

    /// Unwraps the string.
    pub fn into_inner(self) -> (r: String)
        ensures
            r@ == self@,
    {
        self.0
    }

    /// The name as a string slice.
    pub fn as_str(&self) -> (r: &str)
        ensures
            r@ == self@,
    {
        self.0.as_str()
    }

    /// The name as a string of its own.
    pub fn to_string(&self) -> (r: String)
        ensures
            r@ == self@,
    {
        self.0.clone()
    }

    /// Tests whether the name is empty.
    pub fn is_empty(&self) -> (r: bool)
        ensures
            r == (self@.len() == 0),
    {
        self.0.as_str().is_empty()
    }

    /// The length of the name in bytes.
    pub fn len(&self) -> (r: usize)
        ensures
            r as int == vstd::utf8::encode_utf8(self@).len(),
    {
        self.0.as_str().as_bytes().len()
    }

    /// Tests whether the name starts with `prefix`.
    pub fn starts_with(&self, prefix: &str) -> (r: bool)
        ensures
            r == prefix@.is_prefix_of(self@),
    {
        starts_with(self.0.as_str(), prefix)
    }

    /// Tests whether `r` matches somewhere in the name.
    pub fn matches_regex(&self, r: &Regex) -> (m: bool)
        ensures
            m == regex_matches(*r, self@),
    {
        regex_is_match(r, self.0.as_str())
    }

    /// Where `r` matches the name: at its start, inside it, or nowhere.
    pub fn regex_anchor(&self, r: &Regex) -> (m: Option<NameMatch>)
        ensures
            m == anchor_spec(regex_match_start(*r, self@)),
    {
        anchor_of(regex_find_start(r, self.0.as_str()))
    }

    /// Tests whether two names read the same.
    pub fn same_as(&self, other: &Self) -> (r: bool)
        ensures
            r == (self@ == other@),
    {
        same(self.0.as_str(), other.0.as_str())
    }
}

/// The name of a sync repository, or `aur` for what comes from the AUR.
#[derive(Debug, Hash, PartialEq, Eq, PartialOrd, Ord)]
pub struct RepoName(String);

impl View for RepoName {
    type V = Seq<char>;

    closed spec fn view(&self) -> Seq<char> {
        self.0@
    }
}

impl Clone for RepoName {
    fn clone(&self) -> (r: Self)
        ensures
            r@ == self@,
    {
        RepoName(self.0.clone())
    }
}

impl Default for RepoName {
    fn default() -> (r: Self)
        ensures
            r@ == Seq::<char>::empty(),
    {
        RepoName(String::new())
    }
}

impl NameKey for RepoName {
    fn as_key(&self) -> (r: &str) {
        self.0.as_str()
    }

    fn dup(&self) -> (r: Self) {
        self.clone()
    }
}

impl FromSpecImpl<&str> for RepoName {
    open spec fn obeys_from_spec() -> bool {
        false
    }

    open spec fn from_spec(s: &str) -> Self {
        arbitrary()
    }
}

impl From<&str> for RepoName {
    fn from(s: &str) -> (r: Self)
        ensures
            r@ == s@,
    {
        RepoName(s.to_owned())
    }
}

impl FromSpecImpl<String> for RepoName {
    open spec fn obeys_from_spec() -> bool {
        false
    }

    open spec fn from_spec(s: String) -> Self {
        arbitrary()
    }
}

impl From<String> for RepoName {
    fn from(s: String) -> (r: Self)
        ensures
            r@ == s@,
    {
        RepoName(s)
    }
}

impl RepoName {
    /// Wraps `s`.
    pub fn new(s: &str) -> (r: Self)
        ensures
            r@ == s@,
    {
        RepoName(s.to_owned())
    }

    /// Unwraps the string.
    pub fn into_inner(self) -> (r: String)
        ensures
            r@ == self@,
    {
        self.0
    }

    /// The name as a string slice.
    pub fn as_str(&self) -> (r: &str)
        ensures
            r@ == self@,
    {
        self.0.as_str()
    }

    /// The name as a string of its own.
    pub fn to_string(&self) -> (r: String)
        ensures
            r@ == self@,
    {
        self.0.clone()
    }

    /// Tests whether the name is empty.
    pub fn is_empty(&self) -> (r: bool)
        ensures
            r == (self@.len() == 0),
    {
        self.0.as_str().is_empty()
    }

    /// The length of the name in bytes.
    pub fn len(&self) -> (r: usize)
        ensures
            r as int == vstd::utf8::encode_utf8(self@).len(),
    {
        self.0.as_str().as_bytes().len()
    }

    /// Tests whether the name starts with `prefix`.
    pub fn starts_with(&self, prefix: &str) -> (r: bool)
        ensures
            r == prefix@.is_prefix_of(self@),
    {
        starts_with(self.0.as_str(), prefix)
    }

    /// Tests whether `r` matches somewhere in the name.
    pub fn matches_regex(&self, r: &Regex) -> (m: bool)
        ensures
            m == regex_matches(*r, self@),
    {
        regex_is_match(r, self.0.as_str())
    }

    /// Where `r` matches the name: at its start, inside it, or nowhere.
    pub fn regex_anchor(&self, r: &Regex) -> (m: Option<NameMatch>)
        ensures
            m == anchor_spec(regex_match_start(*r, self@)),
    {
        anchor_of(regex_find_start(r, self.0.as_str()))
    }

    /// Tests whether two names read the same.
    pub fn same_as(&self, other: &Self) -> (r: bool)
        ensures
            r == (self@ == other@),
    {
        same(self.0.as_str(), other.0.as_str())
    }
}

/// A search pattern as the user typed it: a regex fragment, not a package name.
#[derive(Debug, Hash, PartialEq, Eq)]
pub struct SearchTerm(String);

impl View for SearchTerm {
    type V = Seq<char>;

    closed spec fn view(&self) -> Seq<char> {
        self.0@
    }
}

impl Clone for SearchTerm {
    fn clone(&self) -> (r: Self)
        ensures
            r@ == self@,
    {
        SearchTerm(self.0.clone())
    }
}

impl SearchTerm {
    /// Wraps `s`.
    pub fn new(s: &str) -> (r: Self)
        ensures
            r@ == s@,
    {
        SearchTerm(s.to_owned())
    }

    /// The text as a string slice.
    pub fn as_str(&self) -> (r: &str)
        ensures
            r@ == self@,
    {
        self.0.as_str()
    }

    /// The text as a string of its own.
    pub fn to_string(&self) -> (r: String)
        ensures
            r@ == self@,
    {
        self.0.clone()
    }

    /// Unwraps the string.
    pub fn into_inner(self) -> (r: String)
        ensures
            r@ == self@,
    {
        self.0
    }

    /// Compiles the pattern. A search ignores case, whoever asks for it.
    pub fn compile(&self) -> (r: Result<Regex, RegexError>)
        ensures
            r == caseless_regex(self@),
    {
        compile_caseless(self.0.as_str())
    }
}

/// A package's one-line description.
#[derive(Debug, Hash, PartialEq, Eq)]
pub struct PkgDesc(String);

impl View for PkgDesc {
    type V = Seq<char>;

    closed spec fn view(&self) -> Seq<char> {
        self.0@
    }
}

impl Clone for PkgDesc {
    fn clone(&self) -> (r: Self)
        ensures
            r@ == self@,
    {
        PkgDesc(self.0.clone())
    }
}

impl PkgDesc {
    /// Wraps `s`.
    pub fn new(s: &str) -> (r: Self)
        ensures
            r@ == s@,
    {
        PkgDesc(s.to_owned())
    }

    /// The text as a string slice.
    pub fn as_str(&self) -> (r: &str)
        ensures
            r@ == self@,
    {
        self.0.as_str()
    }

    /// The text as a string of its own.
    pub fn to_string(&self) -> (r: String)
        ensures
            r@ == self@,
    {
        self.0.clone()
    }
}

/// A machine architecture (`x86_64`, `any`) as a package declares it.
#[derive(Debug, Hash, PartialEq, Eq)]
pub struct Arch(String);

impl View for Arch {
    type V = Seq<char>;

    closed spec fn view(&self) -> Seq<char> {
        self.0@
    }
}

impl Clone for Arch {
    fn clone(&self) -> (r: Self)
        ensures
            r@ == self@,
    {
        Arch(self.0.clone())
    }
}

impl Arch {
    /// Wraps `s`.
    pub fn new(s: &str) -> (r: Self)
        ensures
            r@ == s@,
    {
        Arch(s.to_owned())
    }

    /// The text as a string slice.
    pub fn as_str(&self) -> (r: &str)
        ensures
            r@ == self@,
    {
        self.0.as_str()
    }

    /// The text as a string of its own.
    pub fn to_string(&self) -> (r: String)
        ensures
            r@ == self@,
    {
        self.0.clone()
    }
}

/// The address of a package's upstream.
#[derive(Debug, Hash, PartialEq, Eq)]
pub struct Url(String);

impl View for Url {
    type V = Seq<char>;

    closed spec fn view(&self) -> Seq<char> {
        self.0@
    }
}

impl Clone for Url {
    fn clone(&self) -> (r: Self)
        ensures
            r@ == self@,
    {
        Url(self.0.clone())
    }
}

impl Url {
    /// Wraps `s`.
    pub fn new(s: &str) -> (r: Self)
        ensures
            r@ == s@,
    {
        Url(s.to_owned())
    }

    /// The text as a string slice.
    pub fn as_str(&self) -> (r: &str)
        ensures
            r@ == self@,
    {
        self.0.as_str()
    }

    /// The text as a string of its own.
    pub fn to_string(&self) -> (r: String)
        ensures
            r@ == self@,
    {
        self.0.clone()
    }
}

/// A maintainer as a PKGBUILD comment names them.
#[derive(Debug, Hash, PartialEq, Eq)]
pub struct Maintainer(String);

impl View for Maintainer {
    type V = Seq<char>;

    closed spec fn view(&self) -> Seq<char> {
        self.0@
    }
}

impl Clone for Maintainer {
    fn clone(&self) -> (r: Self)
        ensures
            r@ == self@,
    {
        Maintainer(self.0.clone())
    }
}

impl Maintainer {
    /// Wraps `s`.
    pub fn new(s: &str) -> (r: Self)
        ensures
            r@ == s@,
    {
        Maintainer(s.to_owned())
    }

    /// The text as a string slice.
    pub fn as_str(&self) -> (r: &str)
        ensures
            r@ == self@,
    {
        self.0.as_str()
    }

    /// The text as a string of its own.
    pub fn to_string(&self) -> (r: String)
        ensures
            r@ == self@,
    {
        self.0.clone()
    }
}

/// The constraint operators, in the order in which they are looked for.
pub open spec fn constraint_ops() -> Seq<Seq<char>> {
    seq![">="@, "<="@, "=="@, ">"@, "<"@, "="@]
}

/// `s` cut before the first of `ops` that stands in it, without the white space
/// at both ends.
pub open spec fn cut_at_ops(s: Seq<char>, ops: Seq<Seq<char>>) -> Seq<char>
    decreases ops.len(),
{
    if ops.len() == 0 {
        crate::text::trim_spec(s)
    } else {
        match crate::text::find_spec(s, ops[0]) {
            Some(i) => crate::text::trim_spec(s.take(i)),
            None => cut_at_ops(s, ops.drop_first()),
        }
    }
}

/// The name in a dependency expression: what stands before the constraint.
pub open spec fn bare_spec(s: Seq<char>) -> Seq<char> {
    cut_at_ops(s, constraint_ops())
}

/// No part of a constraint operator stands in `s`.
pub open spec fn is_plain(s: Seq<char>) -> bool {
    forall|i: int|
        0 <= i < s.len() ==> (#[trigger] s[i]) != '<' && s[i] != '>' && s[i] != '='
}

/// What is cut where the operators before the `k`th do not occur.
proof fn lemma_cut_at(s: Seq<char>, ops: Seq<Seq<char>>, k: int, at: int)
    requires
        0 <= k < ops.len(),
        forall|j: int| 0 <= j < k ==> !crate::text::occurs(s, #[trigger] ops[j]),
        crate::text::first_at(s, ops[k], at),
    ensures
        cut_at_ops(s, ops) == crate::text::trim_spec(s.take(at)),
    decreases k,
{
    if k == 0 {
        crate::text::lemma_find_is(s, ops[0], at);
    } else {
        assert(!crate::text::occurs(s, ops[0]));
        assert forall|j: int| 0 <= j < k - 1 implies !crate::text::occurs(
            s,
            #[trigger] ops.drop_first()[j],
        ) by {
            assert(ops.drop_first()[j] == ops[j + 1]);
        }
        lemma_cut_at(s, ops.drop_first(), k - 1, at);
    }
}

/// What is left where no operator occurs.
proof fn lemma_cut_nowhere(s: Seq<char>, ops: Seq<Seq<char>>)
    requires
        forall|j: int| 0 <= j < ops.len() ==> !crate::text::occurs(s, #[trigger] ops[j]),
    ensures
        cut_at_ops(s, ops) == crate::text::trim_spec(s),
    decreases ops.len(),
{
    if ops.len() > 0 {
        assert(!crate::text::occurs(s, ops[0]));
        assert forall|j: int| 0 <= j < ops.drop_first().len() implies !crate::text::occurs(
            s,
            #[trigger] ops.drop_first()[j],
        ) by {
            assert(ops.drop_first()[j] == ops[j + 1]);
        }
        lemma_cut_nowhere(s, ops.drop_first());
    }
}

/// A constraint is stripped from the name before it, whichever operator it has. A name
/// without a constraint stays as it is, but for the white space around it.
pub proof fn law_constraints_are_stripped(name: Seq<char>, k: int, version: Seq<char>)
    requires
        is_plain(name),
        is_plain(version),
        0 <= k < constraint_ops().len(),
    ensures
        bare_spec(name + constraint_ops()[k] + version) == crate::text::trim_spec(name),
        bare_spec(name) == crate::text::trim_spec(name),
{
    reveal_strlit(">=");
    reveal_strlit("<=");
    reveal_strlit("==");
    reveal_strlit(">");
    reveal_strlit("<");
    reveal_strlit("=");
    let ops = constraint_ops();
    let op = ops[k];
    let n = name.len() as int;
    let s = name + op + version;
    assert forall|j: int| 0 <= j < k implies !crate::text::occurs(s, #[trigger] ops[j]) by {
        let p = ops[j];
        assert forall|i: int| !crate::text::occurs_at(s, p, i) by {
            if crate::text::occurs_at(s, p, i) {
                assert(s.subrange(i, i + p.len())[0] == s[i]);
                assert(s.subrange(i, i + p.len())[p.len() - 1] == s[i + p.len() - 1]);
                assert(i >= n) by {
                    if i < n {
                        assert(s[i] == name[i]);
                    }
                }
                assert(i + p.len() <= n + op.len()) by {
                    let last = i + p.len() - 1;
                    if last >= n + op.len() {
                        assert(s[last] == version[last - n - op.len()]);
                    }
                }
            }
        }
    }
    assert(crate::text::first_at(s, op, n)) by {
        assert(s.subrange(n, n + op.len()) =~= op);
        assert forall|j: int| 0 <= j < n implies !crate::text::occurs_at(s, op, j) by {
            if crate::text::occurs_at(s, op, j) {
                assert(s.subrange(j, j + op.len())[0] == s[j]);
                assert(s[j] == name[j]);
            }
        }
    }
    lemma_cut_at(s, ops, k, n);
    assert(s.take(n) =~= name);
    assert forall|j: int| 0 <= j < ops.len() implies !crate::text::occurs(
        name,
        #[trigger] ops[j],
    ) by {
        let p = ops[j];
        assert forall|i: int| !crate::text::occurs_at(name, p, i) by {
            if crate::text::occurs_at(name, p, i) {
                assert(name.subrange(i, i + p.len())[0] == name[i]);
            }
        }
    }
    lemma_cut_nowhere(name, ops);
}

/// Strips a version constraint.
pub fn bare_name<'a>(dep: &'a str) -> (r: &'a str)
    ensures
        r@ == bare_spec(dep@),
{
    let ops: Vec<&str> = vec![">=", "<=", "==", ">", "<", "="];
    let mut i: usize = 0;
    assert(constraint_ops().skip(0) =~= constraint_ops());
    while i < ops.len()
        invariant
            crate::text::str_views(ops@) == constraint_ops(),
            i <= ops.len(),
            cut_at_ops(dep@, constraint_ops().skip(i as int)) == bare_spec(dep@),
        decreases ops.len() - i,
    {
        assert(ops@[i as int]@ == constraint_ops()[i as int]);
        assert(constraint_ops().skip(i as int).drop_first() =~= constraint_ops().skip(i as int + 1));
        match find(dep, ops[i]) {
            Some(at) => {
                return trim(take(dep, at));
            },
            None => {},
        }
        i = i + 1;
    }
    trim(dep)
}

impl PkgTarget {
    /// The name without its version constraint.
    pub fn bare(&self) -> (r: &str)
        ensures
            r@ == bare_spec(self@),
    {
        bare_name(self.0.as_str())
    }

    /// Tests whether the name, without its constraint, is `name`.
    pub fn refers_to<N: NameKey>(&self, name: &N) -> (r: bool)
        ensures
            r == (bare_spec(self@) == name@),
    {
        same(self.bare(), name.as_key())
    }

    /// A pkgbase as a target.
    pub fn from_pkgbase(b: &PkgBase) -> (r: Self)
        ensures
            r@ == b@,
    {
        PkgTarget(b.0.clone())
    }

    /// A pkgname as a target.
    pub fn from_pkgname(n: &PkgName) -> (r: Self)
        ensures
            r@ == n@,
    {
        PkgTarget(n.0.clone())
    }
}

/// One `optdepends` line: a dependency and, as a rule, what it is good for.
#[derive(Debug, Hash, PartialEq, Eq)]
pub struct OptDep {
    dep: PkgTarget,
    reason: Option<String>,
}

/// What an `optdepends` line says.
pub struct OptDepView {
    /// The dependency.
    pub dep: Seq<char>,
    /// What it is good for.
    pub reason: Option<Seq<char>>,
}

/// The reading of an `optdepends` line. The separator is `: `, since a lone colon
/// may belong to an epoch.
pub open spec fn optdep_spec(line: Seq<char>) -> OptDepView {
    match crate::text::split_once_spec(line, ": "@) {
        Some((dep, reason)) => OptDepView {
            dep: crate::text::trim_spec(dep),
            reason: Some(crate::text::trim_spec(reason)),
        },
        None => OptDepView {
            dep: crate::text::trim_end_char_spec(crate::text::trim_spec(line), ':'),
            reason: None,
        },
    }
}

/// How an optional dependency is shown.
pub open spec fn optdep_text(v: OptDepView) -> Seq<char> {
    match v.reason {
        Some(r) => v.dep + ": "@ + r,
        None => v.dep,
    }
}

/// Nothing is trimmed off an `optdepends` line when it is read.
pub open spec fn optdep_is_tidy(line: Seq<char>) -> bool {
    match crate::text::split_once_spec(line, ": "@) {
        Some((dep, reason)) => crate::text::trim_spec(dep) == dep && crate::text::trim_spec(reason)
            == reason,
        None => crate::text::trim_spec(line) == line && (line.len() > 0 ==> line.last() != ':'),
    }
}

/// An `optdepends` line with no stray blank or colon in it is shown as it was read.
pub proof fn law_optdeps_round_trip(line: Seq<char>)
    requires
        optdep_is_tidy(line),
    ensures
        optdep_text(optdep_spec(line)) == line,
{
    let sep = ": "@;
    if crate::text::occurs(line, sep) {
        let i = crate::text::lemma_first_exists(line, sep);
        crate::text::lemma_find_is(line, sep, i);
        assert(line.subrange(i, i + sep.len()) == sep);
        assert(line.take(i) + sep + line.skip(i + sep.len()) =~= line);
    }
}

impl View for OptDep {
    type V = OptDepView;

    closed spec fn view(&self) -> OptDepView {
        OptDepView { dep: self.dep@, reason: opt_view(self.reason) }
    }
}

impl Clone for OptDep {
    fn clone(&self) -> (r: Self)
        ensures
            r@ == self@,
    {
        let reason = match &self.reason {
            Some(x) => Some(x.clone()),
            None => None,
        };
        OptDep { dep: self.dep.clone(), reason }
    }
}

impl FromSpecImpl<&str> for OptDep {
    open spec fn obeys_from_spec() -> bool {
        false
    }

    open spec fn from_spec(s: &str) -> Self {
        arbitrary()
    }
}

impl From<&str> for OptDep {
    fn from(line: &str) -> (r: Self)
        ensures
            r@ == optdep_spec(line@),
    {
        match split_once(line, ": ") {
            Some((dep, reason)) => OptDep {
                dep: PkgTarget::new(trim(dep)),
                reason: Some(trim(reason).to_owned()),
            },
            None => OptDep { dep: PkgTarget::new(trim_end_char(trim(line), ':')), reason: None },
        }
    }
}

impl OptDep {
    /// The dependency, which can be resolved like any other.
    pub fn dep(&self) -> (r: &PkgTarget)
        ensures
            r@ == self@.dep,
    {
        &self.dep
    }

    /// The line as it is shown.
    pub fn to_string(&self) -> (r: String)
        ensures
            r@ == optdep_text(self@),
    {
        let mut out = self.dep.to_string();
        match &self.reason {
            Some(x) => {
                out.append(": ");
                out.append(x.as_str());
            },
            None => {},
        }
        out
    }

    /// Tests whether two lines say the same.
    pub fn same_as(&self, other: &Self) -> (r: bool)
        ensures
            r == (self@ == other@),
    {
        let reasons = match (&self.reason, &other.reason) {
            (Some(a), Some(b)) => same(a.as_str(), b.as_str()),
            (None, None) => true,
            _ => false,
        };
        reasons && self.dep.same_as(&other.dep)
    }
}

/// Where a repository's rows go in a table. The order of the variants is the
/// order of the rows.
#[derive(Debug, Clone, Copy, PartialEq, Eq, PartialOrd, Ord, Structural)]
pub enum RepoRank {
    Core,
    Extra,
    Multilib,
    /// Any other sync repository.
    Other,
    /// What comes from the AUR goes last.
    Aur,
}

/// The rank of the repository called `name`.
pub open spec fn rank_spec(name: Seq<char>) -> RepoRank {
    if name == "core"@ {
        RepoRank::Core
    } else if name == "extra"@ {
        RepoRank::Extra
    } else if name == "multilib"@ {
        RepoRank::Multilib
    } else if name == "aur"@ {
        RepoRank::Aur
    } else {
        RepoRank::Other
    }
}

impl RepoName {
    /// The repository's rank.
    pub fn rank(&self) -> (r: RepoRank)
        ensures
            r == rank_spec(self@),
    {
        let s = self.0.as_str();
        if same(s, "core") {
            RepoRank::Core
        } else if same(s, "extra") {
            RepoRank::Extra
        } else if same(s, "multilib") {
            RepoRank::Multilib
        } else if same(s, "aur") {
            RepoRank::Aur
        } else {
            RepoRank::Other
        }
    }
}

impl PkgName {
    /// Tests for the `-debug` packages that makepkg splits off by itself. They
    /// are never in the AUR.
    pub fn is_makepkg_debug_split(&self) -> (r: bool)
        ensures
            r == "-debug"@.is_suffix_of(self@),
    {
        ends_with(self.0.as_str(), "-debug")
    }
}

/// Membership of a name of one kind in a set of names of another.
pub trait PkgTargetSetExt {
    /// The texts of the targets.
    spec fn target_texts(&self) -> Set<Seq<char>>;

    /// Tests whether some target reads like `pkgname`.
    fn contains_pkgname(&self, pkgname: &PkgName) -> (r: bool)
        ensures
            r == self.target_texts().contains(pkgname@),
    ;
}

impl PkgTargetSetExt for NameSet<PkgTarget> {
    open spec fn target_texts(&self) -> Set<Seq<char>> {
        self@
    }

    fn contains_pkgname(&self, pkgname: &PkgName) -> (r: bool) {
        self.contains(pkgname.as_str())
    }
}

/// A pkgbase that follows a version control system.
pub open spec fn vcs_spec(s: Seq<char>) -> bool {
    ||| "-git"@.is_suffix_of(s)
    ||| "-svn"@.is_suffix_of(s)
    ||| "-hg"@.is_suffix_of(s)
    ||| "-bzr"@.is_suffix_of(s)
}

impl PkgBase {
    /// Tests for a pkgbase that follows a version control system, whose `pkgver`
    /// says nothing before the build.
    pub fn is_vcs(&self) -> (r: bool)
        ensures
            r == vcs_spec(self@),
    {
        let s = self.0.as_str();
        ends_with(s, "-git") || ends_with(s, "-svn") || ends_with(s, "-hg") || ends_with(s, "-bzr")
    }

    /// Tests whether the pkgbase reads like `pkgname`.
    pub fn matches_pkgname(&self, pkgname: &PkgName) -> (r: bool)
        ensures
            r == (self@ == pkgname@),
    {
        same(self.0.as_str(), pkgname.0.as_str())
    }

    /// The pkgname of a pkgbase that declares none.
    pub fn canonical_pkgname(&self) -> (r: PkgName)
        ensures
            r@ == self@,
    {
        PkgName(self.0.clone())
    }
}

} // verus!
