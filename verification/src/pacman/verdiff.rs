//! How two versions differ, for the table of upgrades.

use vstd::prelude::*;

use crate::text::{same, skip, split, split_once, split_once_spec, split_spec, str_views, take, to_chars};
use crate::version::Version;

verus! {

broadcast use vstd::string::group_string_axioms;

/// How much of a version changed; what changes more comes first.
#[derive(Debug, Clone, Copy, PartialEq, Eq, PartialOrd, Ord, Structural)]
pub enum BumpKind {
    /// The epoch.
    Epoch,
    /// The first component.
    Major,
    /// The second component.
    Minor,
    /// A later component, or how many there are.
    Patch,
    /// Only the release of the package.
    PkgRel,
    /// Nothing.
    Other,
}

/// Where the last `c` stands; -1 where there is none.
pub open spec fn last_index(s: Seq<char>, c: char) -> int
    decreases s.len(),
{
    if s.len() == 0 {
        -1
    } else if s.last() == c {
        s.len() - 1
    } else {
        last_index(s.drop_last(), c)
    }
}

/// What stands before the last `c` and what stands after it.
pub open spec fn rsplit_once_spec(s: Seq<char>, c: char) -> Option<(Seq<char>, Seq<char>)> {
    let i = last_index(s, c);
    if i < 0 {
        None
    } else {
        Some((s.take(i), s.skip(i + 1)))
    }
}

/// What stands before the last `c` and what stands after it.
fn rsplit_once<'a>(s: &'a str, c: char) -> (r: Option<(&'a str, &'a str)>)
    ensures
        match r {
            Some((a, b)) => rsplit_once_spec(s@, c) == Some((a@, b@)),
            None => rsplit_once_spec(s@, c) is None,
        },
{
    let cs = to_chars(s);
    let mut i: usize = cs.len();
    assert(s@.take(i as int) =~= s@);
    while i > 0
        invariant
            cs@ == s@,
            i <= cs.len(),
            last_index(s@.take(i as int), c) == last_index(s@, c),
        decreases i,
    {
        assert(s@.take(i as int).drop_last() =~= s@.take(i as int - 1));
        assert(s@.take(i as int).last() == s@[i as int - 1]);
        if cs[i - 1] == c {
            return Some((take(s, i - 1), skip(s, i)));
        }
        i = i - 1;
    }
    None
}

/// The epoch, the version proper and the release of `[epoch:]pkgver[-pkgrel]`.
#[verifier::ext_equal]
pub struct VersionParts {
    /// What stands before the first colon.
    pub epoch: Option<Seq<char>>,
    /// What stands between.
    pub pkgver: Seq<char>,
    /// What stands after the last dash.
    pub pkgrel: Option<Seq<char>>,
}

/// The parts of a version.
pub open spec fn version_parts(v: Seq<char>) -> VersionParts {
    let (epoch, rest) = match split_once_spec(v, ":"@) {
        Some((e, r)) => (Some(e), r),
        None => (None, v),
    };
    match rsplit_once_spec(rest, '-') {
        Some((pv, pr)) => VersionParts { epoch, pkgver: pv, pkgrel: Some(pr) },
        None => VersionParts { epoch, pkgver: rest, pkgrel: None },
    }
}

/// The text of an optional slice.
pub open spec fn opt_str(o: Option<&str>) -> Option<Seq<char>> {
    match o {
        Some(s) => Some(s@),
        None => None,
    }
}

/// Splits `[epoch:]pkgver[-pkgrel]` into its parts.
pub fn split_ver<'a>(v: &'a str) -> (r: (Option<&'a str>, &'a str, Option<&'a str>))
    ensures
        version_parts(v@) == (VersionParts {
            epoch: opt_str(r.0),
            pkgver: r.1@,
            pkgrel: opt_str(r.2),
        }),
{
    let (epoch, rest): (Option<&'a str>, &'a str) = match split_once(v, ":") {
        Some((e, r)) => (Some(e), r),
        None => (None, v),
    };
    match rsplit_once(rest, '-') {
        Some((pv, pr)) => (epoch, pv, Some(pr)),
        None => (epoch, rest, None),
    }
}

/// The first position at which two lists differ, or where the shorter one ends.
pub open spec fn first_difference(a: Seq<Seq<char>>, b: Seq<Seq<char>>) -> int
    decreases a.len(),
{
    if a.len() == 0 || b.len() == 0 || a[0] != b[0] {
        0
    } else {
        1 + first_difference(a.skip(1), b.skip(1))
    }
}

/// How much changed from one version to another: the epoch, then the components of
/// the version proper, then the release.
pub open spec fn bump_spec(old: Seq<char>, new: Seq<char>) -> BumpKind {
    let o = version_parts(old);
    let n = version_parts(new);
    if o.epoch != n.epoch {
        BumpKind::Epoch
    } else if o.pkgver != n.pkgver {
        let a = split_spec(o.pkgver, '.');
        let b = split_spec(n.pkgver, '.');
        let i = first_difference(a, b);
        if i < a.len() && i < b.len() && i == 0 {
            BumpKind::Major
        } else if i < a.len() && i < b.len() && i == 1 {
            BumpKind::Minor
        } else {
            BumpKind::Patch
        }
    } else if o.pkgrel != n.pkgrel {
        BumpKind::PkgRel
    } else {
        BumpKind::Other
    }
}

fn same_opt(a: Option<&str>, b: Option<&str>) -> (r: bool)
    ensures
        r == (opt_str(a) == opt_str(b)),
{
    match (a, b) {
        (Some(x), Some(y)) => same(x, y),
        (None, None) => true,
        _ => false,
    }
}

/// How much changed from one version to another.
pub fn classify_bump(old: &Version, new: &Version) -> (r: BumpKind)
    ensures
        r == bump_spec(old@, new@),
{
    let (o_ep, o_pv, o_pr) = split_ver(old.as_str());
    let (n_ep, n_pv, n_pr) = split_ver(new.as_str());
    if !same_opt(o_ep, n_ep) {
        return BumpKind::Epoch;
    }
    if !same(o_pv, n_pv) {
        let a = split(o_pv, '.');
        let b = split(n_pv, '.');
        let ghost av = split_spec(o_pv@, '.');
        let ghost bv = split_spec(n_pv@, '.');
        assert(av.len() == a@.len() && bv.len() == b@.len());
        let mut i: usize = 0;
        assert(av.skip(0) =~= av);
        assert(bv.skip(0) =~= bv);
        while i < a.len() && i < b.len()
            invariant
                av == str_views(a@),
                bv == str_views(b@),
                av.len() == a@.len(),
                bv.len() == b@.len(),
                i <= a.len(),
                i <= b.len(),
                first_difference(av, bv) == i + first_difference(av.skip(i as int), bv.skip(i as int)),
                bump_spec(old@, new@) == (if first_difference(av, bv) < av.len() && first_difference(
                    av,
                    bv,
                ) < bv.len() && first_difference(av, bv) == 0 {
                    BumpKind::Major
                } else if first_difference(av, bv) < av.len() && first_difference(av, bv) < bv.len()
                    && first_difference(av, bv) == 1 {
                    BumpKind::Minor
                } else {
                    BumpKind::Patch
                }),
            decreases a.len() - i,
        {
            assert(av[i as int] == a@[i as int]@);
            assert(bv[i as int] == b@[i as int]@);
            assert(av.skip(i as int)[0] == av[i as int]);
            assert(bv.skip(i as int)[0] == bv[i as int]);
            if !same(a[i], b[i]) {
                return if i == 0 {
                    BumpKind::Major
                } else if i == 1 {
                    BumpKind::Minor
                } else {
                    BumpKind::Patch
                };
            }
            assert(av.skip(i as int).skip(1) =~= av.skip(i as int + 1));
            assert(bv.skip(i as int).skip(1) =~= bv.skip(i as int + 1));
            i = i + 1;
        }
        return BumpKind::Patch;
    }
    if !same_opt(o_pr, n_pr) {
        return BumpKind::PkgRel;
    }
    BumpKind::Other
}

/// What `char::is_alphanumeric` says of a character.
pub uninterp spec fn alphanumeric(c: char) -> bool;

/// Whether `c` is one of the letters and digits of ASCII.
pub open spec fn is_ascii_word(c: char) -> bool {
    'a' <= c <= 'z' || 'A' <= c <= 'Z' || '0' <= c <= '9'
}

/// Asks `char::is_alphanumeric`, which goes by the Unicode tables. Of an ASCII
/// character it says whether that is a letter or a digit; of others the answer is
/// only named.
#[verifier::external_body]
fn is_alphanumeric(c: char) -> (r: bool)
    ensures
        r == alphanumeric(c),
        c <= '\u{7f}' ==> r == is_ascii_word(c),
{
    c.is_alphanumeric()
}

/// How many characters two texts begin with in common.
pub open spec fn common(a: Seq<char>, b: Seq<char>) -> int
    decreases a.len(),
{
    if a.len() == 0 || b.len() == 0 || a[0] != b[0] {
        0
    } else {
        1 + common(a.skip(1), b.skip(1))
    }
}

/// The end of the last separator among the first `n` characters; `inner[i]` says
/// that the `i`th character belongs to a component.
pub open spec fn last_boundary(inner: Seq<bool>, n: int) -> int
    decreases n,
{
    if n <= 0 || !inner[n - 1] {
        n
    } else {
        last_boundary(inner, n - 1)
    }
}

/// How many characters two versions share up to a boundary between components. If
/// one is the beginning of the other, all of it is shared.
pub open spec fn shared(old: Seq<char>, new: Seq<char>, inner: Seq<bool>) -> int {
    let n = common(old, new);
    if n == old.len() || n == new.len() {
        n
    } else {
        last_boundary(inner, n)
    }
}

/// What two texts have in common is a beginning of both.
proof fn lemma_common(a: Seq<char>, b: Seq<char>)
    ensures
        0 <= common(a, b) <= a.len(),
        common(a, b) <= b.len(),
        a.take(common(a, b)) == b.take(common(a, b)),
    decreases a.len(),
{
    if a.len() == 0 || b.len() == 0 || a[0] != b[0] {
        assert(a.take(0) =~= b.take(0));
    } else {
        lemma_common(a.skip(1), b.skip(1));
        let n = common(a.skip(1), b.skip(1));
        assert forall|i: int| 0 <= i < n + 1 implies a[i] == b[i] by {
            if i > 0 {
                assert(a.skip(1).take(n)[i - 1] == b.skip(1).take(n)[i - 1]);
            }
        }
        assert(a.take(n + 1) =~= b.take(n + 1));
    }
}

/// How many characters two versions share up to a boundary, where `inner` says
/// which characters of the old one belong to a component.
pub fn shared_prefix(old: &str, new: &str, inner: &Vec<bool>) -> (r: usize)
    requires
        inner.len() == old@.len(),
    ensures
        r == shared(old@, new@, inner@),
        r <= old@.len(),
        r <= new@.len(),
        old@.take(r as int) == new@.take(r as int),
{
    let a = to_chars(old);
    let b = to_chars(new);
    let mut i: usize = 0;
    let mut last: usize = 0;
    proof {
        lemma_common(old@, new@);
        assert(old@.skip(0) =~= old@);
        assert(new@.skip(0) =~= new@);
    }
    while i < a.len() && i < b.len()
        invariant
            a@ == old@,
            b@ == new@,
            inner.len() == a.len(),
            i <= a.len(),
            i <= b.len(),
            last <= i,
            last == last_boundary(inner@, i as int),
            common(old@, new@) == i + common(old@.skip(i as int), new@.skip(i as int)),
            common(old@, new@) <= old@.len(),
            common(old@, new@) <= new@.len(),
            old@.take(common(old@, new@)) == new@.take(common(old@, new@)),
        decreases a.len() - i,
    {
        assert(old@.skip(i as int)[0] == old@[i as int]);
        assert(new@.skip(i as int)[0] == new@[i as int]);
        if a[i] != b[i] {
            assert(old@.take(last as int) =~= old@.take(i as int).take(last as int));
            assert(new@.take(last as int) =~= new@.take(i as int).take(last as int));
            return last;
        }
        assert(old@.skip(i as int).skip(1) =~= old@.skip(i as int + 1));
        assert(new@.skip(i as int).skip(1) =~= new@.skip(i as int + 1));
        if !inner[i] {
            last = i + 1;
        }
        i = i + 1;
    }
    i
}

/// For each character whether it belongs to a component.
pub open spec fn inner_of(s: Seq<char>) -> Seq<bool> {
    s.map_values(|c: char| alphanumeric(c))
}

/// The byte at which the new version begins to differ: after the last separator in
/// what both have in common, or after all of the shorter one if the other begins
/// with it.
pub fn common_prefix_at_boundary(old: &Version, new: &Version) -> (r: usize)
    ensures
        ({
            let n = shared(old@, new@, inner_of(old@));
            &&& 0 <= n <= new@.len()
            &&& old@.take(n) == new@.take(n)
            &&& r == vstd::utf8::encode_utf8(new@.take(n)).len()
        }),
{
    let o = old.as_str();
    let a = to_chars(o);
    let mut inner: Vec<bool> = Vec::new();
    let mut i: usize = 0;
    while i < a.len()
        invariant
            a@ == old@,
            i <= a.len(),
            inner.len() == i,
            forall|k: int| 0 <= k < i ==> #[trigger] inner@[k] == alphanumeric(old@[k]),
        decreases a.len() - i,
    {
        inner.push(is_alphanumeric(a[i]));
        i = i + 1;
    }
    assert(inner@ =~= inner_of(old@));
    let n = shared_prefix(o, new.as_str(), &inner);
    let head = take(new.as_str(), n);
    head.as_bytes().len()
}

/// There is no bump exactly when the epoch, the version proper and the release are
/// the same.
pub proof fn law_no_bump_means_same_parts(old: Seq<char>, new: Seq<char>)
    ensures
        bump_spec(old, new) == BumpKind::Other <==> version_parts(old) == version_parts(new),
{
    assert(version_parts(old) == version_parts(new) <==> version_parts(old) =~= version_parts(new));
}

/// A version does not differ from itself.
pub proof fn law_same_version_has_no_suffix(v: Seq<char>, inner: Seq<bool>)
    ensures
        bump_spec(v, v) == BumpKind::Other,
        shared(v, v, inner) == v.len(),
{
    lemma_common_self(v);
}

/// A text has all of itself in common with itself.
proof fn lemma_common_self(v: Seq<char>)
    ensures
        common(v, v) == v.len(),
    decreases v.len(),
{
    if v.len() > 0 {
        lemma_common_self(v.skip(1));
    }
}

} // verus!
