//! How versions are written, come apart and differ.

use vstd::prelude::*;

use crate::index::schema::{
    canonical_desc, display_desc_spec, first_desc, version_spec, EntryView, PkgnameView,
};
use crate::laws::texts::{is_without, law_separators_end_pieces};
use crate::pacman::verdiff::{
    bump_spec, common, first_difference, last_boundary, last_index, shared, version_parts, BumpKind,
    VersionParts,
};
use crate::text::{find_spec, occurs, occurs_at, split_spec};

verus! {

proof fn lemma_last_index(s: Seq<char>, c: char, r: Seq<char>)
    requires
        is_without(r, c),
    ensures
        last_index(s + seq![c] + r, c) == s.len(),
        last_index(r, c) == -1,
    decreases r.len(),
{
    let all = s + seq![c] + r;
    if r.len() > 0 {
        let q = r.drop_last();
        assert forall|i: int| 0 <= i < q.len() implies #[trigger] q[i] != c by {
            assert(q[i] == r[i]);
        }
        lemma_last_index(s, c, q);
        assert(all.drop_last() =~= s + seq![c] + q);
        assert(all.last() == r[r.len() - 1]);
    } else {
        assert(all.last() == c);
    }
}

proof fn lemma_colon(e: Seq<char>, r: Seq<char>)
    requires
        is_without(e, ':'),
    ensures
        find_spec(e + ":"@ + r, ":"@) == Some(e.len() as int),
        find_spec(e, ":"@) is None,
{
    reveal_strlit(":");
    let s = e + ":"@ + r;
    let at = e.len() as int;
    assert(s.subrange(at, at + 1) =~= ":"@);
    assert forall|j: int| 0 <= j < at implies !occurs_at(s, ":"@, j) by {
        if occurs_at(s, ":"@, j) {
            assert(s.subrange(j, j + 1)[0] == e[j]);
        }
    }
    assert(crate::text::first_at(s, ":"@, at));
    crate::text::lemma_find_is(s, ":"@, at);
    if occurs(e, ":"@) {
        let j = choose|j: int| occurs_at(e, ":"@, j);
        assert(e.subrange(j, j + 1)[0] == e[j]);
    }
}

/// The epoch is what stands before the first colon and the release what stands behind
/// the last dash; the version proper is what is left.
pub proof fn law_versions_come_apart(e: Seq<char>, v: Seq<char>, r: Seq<char>)
    requires
        is_without(e, ':'),
        is_without(r, '-'),
    ensures
        version_parts(e + ":"@ + (v + "-"@ + r)) == (VersionParts {
            epoch: Some(e),
            pkgver: v,
            pkgrel: Some(r),
        }),
        is_without(v + "-"@ + r, ':') ==> version_parts(v + "-"@ + r) == (VersionParts {
            epoch: None,
            pkgver: v,
            pkgrel: Some(r),
        }),
        is_without(v, '-') ==> version_parts(e + ":"@ + v) == (VersionParts {
            epoch: Some(e),
            pkgver: v,
            pkgrel: None,
        }),
        is_without(v, '-') && is_without(v, ':') ==> version_parts(v) == (VersionParts {
            epoch: None,
            pkgver: v,
            pkgrel: None,
        }),
{
    reveal_strlit(":");
    reveal_strlit("-");
    let rest = v + "-"@ + r;
    assert(rest =~= v + seq!['-'] + r);
    lemma_last_index(v, '-', r);
    assert(rest.take(v.len() as int) =~= v);
    assert(rest.skip(v.len() as int + 1) =~= r);
    let s = e + ":"@ + rest;
    lemma_colon(e, rest);
    assert(s.take(e.len() as int) =~= e);
    assert(s.skip(e.len() as int + 1) =~= rest);
    if is_without(rest, ':') {
        lemma_colon(rest, rest);
    }
    let t = e + ":"@ + v;
    lemma_colon(e, v);
    assert(t.take(e.len() as int) =~= e);
    assert(t.skip(e.len() as int + 1) =~= v);
    if is_without(v, '-') {
        lemma_last_index(v, '-', v);
    }
    if is_without(v, ':') {
        lemma_colon(v, v);
    }
}

/// A change of the epoch is that, whatever else changed.
pub proof fn law_the_epoch_counts_first(old: Seq<char>, new: Seq<char>)
    ensures
        version_parts(old).epoch != version_parts(new).epoch ==> bump_spec(old, new)
            == BumpKind::Epoch,
        version_parts(old).epoch == version_parts(new).epoch && version_parts(old).pkgver
            == version_parts(new).pkgver && version_parts(old).pkgrel != version_parts(new).pkgrel
            ==> bump_spec(old, new) == BumpKind::PkgRel,
        version_parts(old).epoch == version_parts(new).epoch && version_parts(old).pkgver
            == version_parts(new).pkgver && version_parts(old).pkgrel == version_parts(new).pkgrel
            ==> bump_spec(old, new) == BumpKind::Other,
{
}

/// A tail of a version proper: nothing, or a dot and more.
pub open spec fn is_tail(t: Seq<char>) -> bool {
    t.len() == 0 || t[0] == '.'
}

proof fn lemma_components(p: Seq<char>, t: Seq<char>)
    requires
        is_without(p, '.'),
        is_tail(t),
    ensures
        split_spec(p + t, '.').len() > 0,
        split_spec(p + t, '.')[0] == p,
        t.len() > 0 ==> split_spec(p + t, '.') == seq![p] + split_spec(t.skip(1), '.'),
        t.len() == 0 ==> split_spec(p + t, '.') == seq![p],
{
    if t.len() == 0 {
        assert(p + t =~= p);
        law_separators_end_pieces(p, '.', t);
    } else {
        let r = t.skip(1);
        assert(p + t =~= p + seq!['.'] + r);
        law_separators_end_pieces(p, '.', r);
    }
}

/// Where the epoch stays and the first component of the version proper differs, the
/// change is a major one. Where the first stays and the second differs, it is a minor
/// one.
pub proof fn law_which_component_changed(
    old: Seq<char>,
    new: Seq<char>,
    c: Seq<char>,
    p: Seq<char>,
    q: Seq<char>,
    t: Seq<char>,
    u: Seq<char>,
)
    requires
        version_parts(old).epoch == version_parts(new).epoch,
        is_without(c, '.'),
        is_without(p, '.'),
        is_without(q, '.'),
        p != q,
        is_tail(t),
        is_tail(u),
    ensures
        version_parts(old).pkgver == p + t && version_parts(new).pkgver == q + u ==> bump_spec(
            old,
            new,
        ) == BumpKind::Major,
        version_parts(old).pkgver == c + "."@ + (p + t) && version_parts(new).pkgver == c + "."@ + (
        q + u) ==> bump_spec(old, new) == BumpKind::Minor,
{
    reveal_strlit(".");
    lemma_components(p, t);
    lemma_components(q, u);
    let a = version_parts(old).pkgver;
    let b = version_parts(new).pkgver;
    if a == p + t && b == q + u {
        assert(split_spec(a, '.')[0] != split_spec(b, '.')[0]);
        assert(first_difference(split_spec(a, '.'), split_spec(b, '.')) == 0);
    }
    if a == c + "."@ + (p + t) && b == c + "."@ + (q + u) {
        assert(a =~= c + seq!['.'] + (p + t));
        assert(b =~= c + seq!['.'] + (q + u));
        law_separators_end_pieces(c, '.', p + t);
        law_separators_end_pieces(c, '.', q + u);
        let sa = split_spec(a, '.');
        let sb = split_spec(b, '.');
        assert(sa.skip(1) =~= split_spec(p + t, '.'));
        assert(sb.skip(1) =~= split_spec(q + u, '.'));
        assert(first_difference(sa.skip(1), sb.skip(1)) == 0);
        assert(first_difference(sa, sb) == 1);
        assert(sa != sb);
    }
}

/// Where two components stay and the version proper still differs, or where one is the
/// beginning of the other, the change is a patch.
pub proof fn law_what_else_changes_is_a_patch(
    old: Seq<char>,
    new: Seq<char>,
    c: Seq<char>,
    d: Seq<char>,
    t: Seq<char>,
    u: Seq<char>,
)
    requires
        version_parts(old).epoch == version_parts(new).epoch,
        version_parts(old).pkgver != version_parts(new).pkgver,
        is_without(c, '.'),
        is_without(d, '.'),
        is_tail(t),
        is_tail(u),
    ensures
        version_parts(old).pkgver == c + "."@ + (d + t) && version_parts(new).pkgver == c + "."@ + (
        d + u) ==> bump_spec(old, new) == BumpKind::Patch,
        version_parts(old).pkgver == c && version_parts(new).pkgver == c + u ==> bump_spec(old, new)
            == BumpKind::Patch,
        version_parts(old).pkgver == c + t && version_parts(new).pkgver == c ==> bump_spec(old, new)
            == BumpKind::Patch,
{
    reveal_strlit(".");
    lemma_components(d, t);
    lemma_components(d, u);
    lemma_components(c, t);
    lemma_components(c, u);
    law_separators_end_pieces(c, '.', c);
    let a = version_parts(old).pkgver;
    let b = version_parts(new).pkgver;
    let sa = split_spec(a, '.');
    let sb = split_spec(b, '.');
    if a == c + "."@ + (d + t) && b == c + "."@ + (d + u) {
        assert(a =~= c + seq!['.'] + (d + t));
        assert(b =~= c + seq!['.'] + (d + u));
        law_separators_end_pieces(c, '.', d + t);
        law_separators_end_pieces(c, '.', d + u);
        assert(sa.skip(1) =~= split_spec(d + t, '.'));
        assert(sb.skip(1) =~= split_spec(d + u, '.'));
        lemma_difference_within(sa.skip(1).skip(1), sb.skip(1).skip(1));
        assert(first_difference(sa.skip(1), sb.skip(1)) >= 1);
        assert(first_difference(sa, sb) >= 2);
    } else if (a == c && b == c + u) || (a == c + t && b == c) {
        lemma_difference_within(sa.skip(1), sb.skip(1));
        assert(sa[0] == sb[0]);
        assert(first_difference(sa.skip(1), sb.skip(1)) == 0);
        assert(first_difference(sa, sb) == 1);
    }
}

proof fn lemma_difference_within(a: Seq<Seq<char>>, b: Seq<Seq<char>>)
    ensures
        0 <= first_difference(a, b) <= a.len(),
        first_difference(a, b) <= b.len(),
    decreases a.len(),
{
    if !(a.len() == 0 || b.len() == 0 || a[0] != b[0]) {
        lemma_difference_within(a.skip(1), b.skip(1));
    }
}

proof fn lemma_common(a: Seq<char>, b: Seq<char>)
    ensures
        0 <= common(a, b) <= a.len(),
        common(a, b) <= b.len(),
        a.take(common(a, b)) == b.take(common(a, b)),
        common(a, b) < a.len() && common(a, b) < b.len() ==> a[common(a, b)] != b[common(a, b)],
    decreases a.len(),
{
    if !(a.len() == 0 || b.len() == 0 || a[0] != b[0]) {
        let n = common(a.skip(1), b.skip(1));
        lemma_common(a.skip(1), b.skip(1));
        assert forall|i: int| 0 <= i < n + 1 implies #[trigger] a[i] == b[i] by {
            if i > 0 {
                assert(a.skip(1).take(n)[i - 1] == b.skip(1).take(n)[i - 1]);
            }
        }
        assert(a.take(n + 1) =~= b.take(n + 1));
    } else {
        assert(a.take(0) =~= b.take(0));
    }
}

proof fn lemma_boundary(inner: Seq<bool>, n: int)
    requires
        0 <= n <= inner.len(),
    ensures
        0 <= last_boundary(inner, n) <= n,
        last_boundary(inner, n) > 0 ==> !inner[last_boundary(inner, n) - 1],
        forall|i: int| last_boundary(inner, n) <= i < n ==> #[trigger] inner[i],
    decreases n,
{
    if n > 0 && inner[n - 1] {
        lemma_boundary(inner, n - 1);
    }
}

/// What two versions share they both begin with. It ends where one of them ends, or
/// behind the last separator that both have before they differ.
pub proof fn law_what_versions_share(old: Seq<char>, new: Seq<char>, inner: Seq<bool>)
    requires
        inner.len() == old.len(),
    ensures
        ({
            let n = shared(old, new, inner);
            &&& 0 <= n <= old.len() && n <= new.len()
            &&& old.take(n) == new.take(n)
            &&& old.is_prefix_of(new) ==> n == old.len()
            &&& new.is_prefix_of(old) ==> n == new.len()
            &&& n == old.len() || n == new.len() || n == 0 || !inner[n - 1]
            &&& forall|m: int|
                n < m <= old.len() && m <= new.len() && #[trigger] old.take(m) == new.take(m)
                    ==> inner[m - 1]
        }),
{
    let k = common(old, new);
    lemma_common(old, new);
    lemma_boundary(inner, k);
    let n = shared(old, new, inner);
    assert(old.take(n) =~= new.take(n)) by {
        assert(old.take(n) =~= old.take(k).take(n));
        assert(new.take(n) =~= new.take(k).take(n));
    }
    if old.is_prefix_of(new) && k < old.len() {
        assert(old =~= new.subrange(0, old.len() as int));
        assert(old[k] == new[k]);
    }
    if new.is_prefix_of(old) && k < new.len() {
        assert(new =~= old.subrange(0, new.len() as int));
        assert(old[k] == new[k]);
    }
    assert forall|m: int|
        n < m <= old.len() && m <= new.len() && #[trigger] old.take(m) == new.take(m) implies inner[m
        - 1] by {
        if m > k {
            assert(old.take(m)[k] == new.take(m)[k]);
        }
    }
}

/// An entry's version is its version proper and its release, with the epoch and a colon
/// before them where it has an epoch that is not empty.
pub proof fn law_how_a_version_is_written(e: EntryView)
    ensures
        e.epoch is None ==> version_spec(e) == e.pkgver + "-"@ + e.pkgrel,
        e.epoch matches Some(n) ==> (n.len() == 0 ==> version_spec(e) == e.pkgver + "-"@ + e.pkgrel),
        e.epoch matches Some(n) ==> (n.len() > 0 ==> version_spec(e) == n + ":"@ + e.pkgver + "-"@
            + e.pkgrel),
{
    let none = Seq::<char>::empty();
    assert(none + e.pkgver =~= e.pkgver);
}

/// The version of an entry comes apart into what it was put together from.
pub proof fn law_entry_versions_come_apart(e: EntryView)
    requires
        is_without(e.pkgrel, '-'),
        match e.epoch {
            Some(n) => n.len() > 0 && is_without(n, ':'),
            None => is_without(e.pkgver + "-"@ + e.pkgrel, ':'),
        },
    ensures
        version_parts(version_spec(e)) == (VersionParts {
            epoch: e.epoch,
            pkgver: e.pkgver,
            pkgrel: Some(e.pkgrel),
        }),
{
    law_how_a_version_is_written(e);
    match e.epoch {
        Some(n) => {
            law_versions_come_apart(n, e.pkgver, e.pkgrel);
            assert(version_spec(e) =~= n + ":"@ + (e.pkgver + "-"@ + e.pkgrel));
        },
        None => {
            law_versions_come_apart(Seq::empty(), e.pkgver, e.pkgrel);
        },
    }
}

/// `d` is there and says something.
pub open spec fn says_something(d: Option<Seq<char>>) -> bool {
    d matches Some(s) && s.len() > 0
}

proof fn lemma_first_desc(p: Seq<PkgnameView>)
    ensures
        match first_desc(p) {
            Some(d) => exists|i: int|
                0 <= i < p.len() && (#[trigger] p[i]).pkgdesc == Some(d) && d.len() > 0 && (forall|
                    j: int,
                |
                    0 <= j < i ==> !says_something((#[trigger] p[j]).pkgdesc)),
            None => forall|i: int| 0 <= i < p.len() ==> !says_something((#[trigger] p[i]).pkgdesc),
        },
    decreases p.len(),
{
    if p.len() > 0 {
        let r = p.drop_first();
        lemma_first_desc(r);
        if says_something(p[0].pkgdesc) {
            assert(p[0].pkgdesc == first_desc(p));
        } else {
            match first_desc(r) {
                Some(d) => {
                    let i = choose|i: int|
                        0 <= i < r.len() && (#[trigger] r[i]).pkgdesc == Some(d) && d.len() > 0 && (
                        forall|j: int| 0 <= j < i ==> !says_something((#[trigger] r[j]).pkgdesc));
                    assert(p[i + 1] == r[i]);
                    assert forall|j: int| 0 <= j < i + 1 implies !says_something(
                        (#[trigger] p[j]).pkgdesc,
                    ) by {
                        if j > 0 {
                            assert(r[j - 1] == p[j]);
                        }
                    }
                },
                None => {
                    assert forall|j: int| 0 <= j < p.len() implies !says_something(
                        (#[trigger] p[j]).pkgdesc,
                    ) by {
                        if j > 0 {
                            assert(r[j - 1] == p[j]);
                        }
                    }
                },
            }
        }
    }
}

proof fn lemma_canonical_desc(b: Seq<char>, p: Seq<PkgnameView>, i: int)
    requires
        0 <= i < p.len(),
        p[i].name == b,
        forall|j: int| 0 <= j < i ==> (#[trigger] p[j]).name != b,
    ensures
        says_something(p[i].pkgdesc) ==> canonical_desc(b, p) == p[i].pkgdesc,
        !says_something(p[i].pkgdesc) ==> canonical_desc(b, p) is None,
    decreases p.len(),
{
    if i > 0 {
        let r = p.drop_first();
        assert(r[i - 1] == p[i]);
        assert forall|j: int| 0 <= j < i - 1 implies (#[trigger] r[j]).name != b by {
            assert(r[j] == p[j + 1]);
        }
        lemma_canonical_desc(b, r, i - 1);
    }
}

/// The description of a pkgbase is its own if that says something; else that of the
/// pkgname that reads like the pkgbase; else the first of a pkgname that says something.
pub proof fn law_which_description_is_shown(e: EntryView)
    ensures
        says_something(e.pkgdesc) ==> display_desc_spec(e) == e.pkgdesc,
        !says_something(e.pkgdesc) ==> {
            &&& forall|i: int|
                0 <= i < e.pkgnames.len() && (#[trigger] e.pkgnames[i]).name == e.pkgbase && (
                forall|j: int| 0 <= j < i ==> (#[trigger] e.pkgnames[j]).name != e.pkgbase)
                    && says_something(e.pkgnames[i].pkgdesc) ==> display_desc_spec(e)
                    == e.pkgnames[i].pkgdesc
            &&& (forall|i: int|
                0 <= i < e.pkgnames.len() && (#[trigger] e.pkgnames[i]).name == e.pkgbase
                    ==> !says_something(e.pkgnames[i].pkgdesc)) ==> forall|i: int|
                0 <= i < e.pkgnames.len() && says_something((#[trigger] e.pkgnames[i]).pkgdesc) && (
                forall|j: int|
                    0 <= j < i ==> !says_something((#[trigger] e.pkgnames[j]).pkgdesc))
                    ==> display_desc_spec(e) == e.pkgnames[i].pkgdesc
            &&& (forall|i: int|
                0 <= i < e.pkgnames.len() ==> !says_something((#[trigger] e.pkgnames[i]).pkgdesc))
                ==> display_desc_spec(e) is None
        },
{
    let p = e.pkgnames;
    lemma_first_desc(p);
    assert forall|i: int|
        0 <= i < p.len() && (#[trigger] p[i]).name == e.pkgbase && (forall|j: int|
            0 <= j < i ==> (#[trigger] p[j]).name != e.pkgbase) implies canonical_desc(e.pkgbase, p)
        == (if says_something(p[i].pkgdesc) {
        p[i].pkgdesc
    } else {
        None
    }) by {
        lemma_canonical_desc(e.pkgbase, p, i);
    }
    lemma_canonical_from(e.pkgbase, p);
}

proof fn lemma_canonical_from(b: Seq<char>, p: Seq<PkgnameView>)
    ensures
        canonical_desc(b, p) matches Some(d) ==> d.len() > 0 && exists|i: int|
            0 <= i < p.len() && (#[trigger] p[i]).name == b && p[i].pkgdesc == Some(d),
    decreases p.len(),
{
    if p.len() > 0 {
        if p[0].name == b {
        } else {
            let r = p.drop_first();
            lemma_canonical_from(b, r);
            if canonical_desc(b, p) is Some {
                let d = canonical_desc(b, p)->0;
                let i = choose|i: int|
                    0 <= i < r.len() && (#[trigger] r[i]).name == b && r[i].pkgdesc == Some(d);
                assert(p[i + 1] == r[i]);
            }
        }
    }
}

} // verus!
