//! What the lines of a `.SRCINFO` say of a package.

use vstd::prelude::*;

use crate::index::schema::{EntryView, PkgnameView};
use crate::index::srcinfo::{
    canonical_spec, dedup_names_spec, dedup_spec, is_array_key, parse_spec, read_lines, speaks,
    tidy_pkgname,
};
use crate::names::{optdep_spec, OptDepView};
use crate::seqs::lemma_take_succ;
use crate::text::{
    first_at, lemma_find_is, lemma_first_exists, lines_spec, occurs, occurs_at, split_once_spec,
    trim_spec,
};

verus! {

/// The line reads `key = v`: neither blank nor a comment, `key` before its first `=` and
/// `v` after it, both without the white space around them.
pub open spec fn says(line: Seq<char>, key: Seq<char>, v: Seq<char>) -> bool {
    let t = trim_spec(line);
    &&& t.len() > 0
    &&& t[0] != '#'
    &&& exists|i: int|
        0 <= i < t.len() && #[trigger] t[i] == '=' && (forall|j: int|
            0 <= j < i ==> #[trigger] t[j] != '=') && trim_spec(t.take(i)) == key && trim_spec(
            t.skip(i + 1),
        ) == v
}

/// The line gives `v` to a key, or, where it may, to that key for one architecture.
pub open spec fn gives(line: Seq<char>, key: Seq<char>, any_arch: bool, v: Seq<char>) -> bool {
    ||| says(line, key, v)
    ||| any_arch && exists|k: Seq<char>| #[trigger] says(line, k, v) && (key + "_"@).is_prefix_of(k)
}

/// The line gives something to a key.
pub open spec fn sets(line: Seq<char>, key: Seq<char>, any_arch: bool) -> bool {
    exists|v: Seq<char>| #[trigger] gives(line, key, any_arch, v)
}

/// A section begins at the line.
pub open spec fn is_section(line: Seq<char>) -> bool {
    sets(line, "pkgbase"@, false) || sets(line, "pkgname"@, false)
}

/// The line `i` stands in the section that begins at the line `s`.
pub open spec fn in_section(ls: Seq<Seq<char>>, s: int, i: int) -> bool {
    &&& 0 <= s < i
    &&& is_section(ls[s])
    &&& forall|m: int| s < m < i ==> !is_section(#[trigger] ls[m])
}

/// The line `i` stands in the section of a pkgname.
pub open spec fn in_member(ls: Seq<Seq<char>>, i: int) -> bool {
    exists|s: int| #[trigger] in_section(ls, s, i) && sets(ls[s], "pkgname"@, false)
}

/// Which lines are looked at.
pub enum Place {
    /// All.
    Anywhere,
    /// Those that stand in no section of a pkgname.
    Header,
    /// Those of the section that begins at this line.
    Under(int),
}

/// The line `i` is looked at.
pub open spec fn is_there(ls: Seq<Seq<char>>, place: Place, i: int) -> bool {
    match place {
        Place::Anywhere => true,
        Place::Header => !in_member(ls, i),
        Place::Under(s) => in_section(ls, s, i),
    }
}

/// What the first `n` lines give to a key, in their order.
pub open spec fn said(
    ls: Seq<Seq<char>>,
    key: Seq<char>,
    any_arch: bool,
    place: Place,
    n: int,
) -> Seq<Seq<char>>
    decreases n,
{
    if n <= 0 {
        Seq::empty()
    } else if is_there(ls, place, n - 1) && sets(ls[n - 1], key, any_arch) {
        said(ls, key, any_arch, place, n - 1).push(
            choose|v: Seq<char>| #[trigger] gives(ls[n - 1], key, any_arch, v),
        )
    } else {
        said(ls, key, any_arch, place, n - 1)
    }
}

/// The last of several values.
pub open spec fn last_of(s: Seq<Seq<char>>) -> Option<Seq<char>> {
    if s.len() > 0 {
        Some(s.last())
    } else {
        None
    }
}

/// The first of several values.
pub open spec fn first_of(s: Seq<Seq<char>>) -> Option<Seq<char>> {
    if s.len() > 0 {
        Some(s[0])
    } else {
        None
    }
}

/// A text that may be missing, which is then empty.
pub open spec fn or_empty(o: Option<Seq<char>>) -> Seq<char> {
    match o {
        Some(t) => t,
        None => Seq::empty(),
    }
}

proof fn lemma_first_equals(t: Seq<char>, i: int)
    requires
        0 <= i < t.len(),
        t[i] == '=',
        forall|j: int| 0 <= j < i ==> #[trigger] t[j] != '=',
    ensures
        split_once_spec(t, "="@) == Some((t.take(i), t.skip(i + 1))),
{
    reveal_strlit("=");
    let p = "="@;
    assert(t.subrange(i, i + 1) =~= p);
    assert(first_at(t, p, i)) by {
        assert forall|j: int| 0 <= j < i implies !occurs_at(t, p, j) by {
            if occurs_at(t, p, j) {
                assert(t.subrange(j, j + 1)[0] == t[j]);
            }
        }
    }
    lemma_find_is(t, p, i);
}

/// What the reader makes of a line is what it says.
proof fn lemma_says(line: Seq<char>)
    ensures
        match split_once_spec(trim_spec(line), "="@) {
            Some((k, w)) => speaks(line) ==> forall|key: Seq<char>, v: Seq<char>| #[trigger]
                says(line, key, v) <==> key == trim_spec(k) && v == trim_spec(w),
            None => forall|key: Seq<char>, v: Seq<char>| !#[trigger] says(line, key, v),
        },
        !speaks(line) ==> forall|key: Seq<char>, v: Seq<char>| !#[trigger] says(line, key, v),
{
    reveal_strlit("=");
    let t = trim_spec(line);
    let p = "="@;
    if occurs(t, p) {
        let i = lemma_first_exists(t, p);
        assert(t.subrange(i, i + 1)[0] == t[i]);
        assert forall|j: int| 0 <= j < i implies #[trigger] t[j] != '=' by {
            if t[j] == '=' {
                assert(t.subrange(j, j + 1) =~= p);
                assert(occurs_at(t, p, j));
            }
        }
        lemma_first_equals(t, i);
        assert forall|key: Seq<char>, v: Seq<char>| speaks(line) implies (#[trigger] says(
            line,
            key,
            v,
        ) <==> key == trim_spec(t.take(i)) && v == trim_spec(t.skip(i + 1))) by {
            if says(line, key, v) {
                let m = choose|m: int|
                    0 <= m < t.len() && #[trigger] t[m] == '=' && (forall|j: int|
                        0 <= j < m ==> #[trigger] t[j] != '=') && trim_spec(t.take(m)) == key
                        && trim_spec(t.skip(m + 1)) == v;
                lemma_first_equals(t, m);
                assert(m == i) by {
                    if m < i {
                        assert(t[m] != '=');
                    }
                    if i < m {
                        assert(t[i] != '=');
                    }
                }
            }
        }
    } else {
        assert forall|key: Seq<char>, v: Seq<char>| !#[trigger] says(line, key, v) by {
            if says(line, key, v) {
                let m = choose|m: int| 0 <= m < t.len() && #[trigger] t[m] == '=';
                assert(t.subrange(m, m + 1) =~= p);
                assert(occurs_at(t, p, m));
            }
        }
    }
}

/// A key that holds no `_` is meant by itself or, where it is a list, by a key that
/// begins with it and goes on with `_`.
proof fn lemma_canonical(x: Seq<char>, key: Seq<char>)
    requires
        forall|i: int| 0 <= i < key.len() ==> #[trigger] key[i] != '_',
    ensures
        canonical_spec(x) == key <==> x == key || (is_array_key(key) && (key + "_"@).is_prefix_of(x)),
{
    reveal_strlit("_");
    let p = "_"@;
    let n = key.len() as int;
    if (key + p).is_prefix_of(x) {
        assert(x.subrange(0, n + 1) =~= key + p);
        assert(x[n] == (key + p)[n]);
        assert(x.subrange(n, n + 1) =~= p);
        assert(first_at(x, p, n)) by {
            assert forall|j: int| 0 <= j < n implies !occurs_at(x, p, j) by {
                if occurs_at(x, p, j) {
                    assert(x.subrange(j, j + 1)[0] == x[j]);
                    assert((key + p)[j] == key[j]);
                    assert(x[j] == (key + p)[j]);
                }
            }
        }
        lemma_find_is(x, p, n);
        assert(x.take(n) =~= key);
    }
    if occurs(x, p) {
        let i = lemma_first_exists(x, p);
        lemma_find_is(x, p, i);
        assert(x.subrange(i, i + 1)[0] == x[i]);
        if x.take(i) == key {
            assert(i == n);
            assert((key + p) =~= x.take(n + 1));
        }
        if x == key {
            assert(key[i] == '_');
        }
    }
}

/// The keys, told apart by their length and a character.
proof fn lemma_keys()
    ensures
        "pkgbase"@.len() == 7 && "pkgbase"@[3] == 'b',
        "pkgname"@.len() == 7 && "pkgname"@[3] == 'n',
        "pkgdesc"@.len() == 7 && "pkgdesc"@[3] == 'd',
        "depends"@.len() == 7 && "depends"@[3] == 'e',
        "pkgver"@.len() == 6 && "pkgver"@[3] == 'v',
        "pkgrel"@.len() == 6 && "pkgrel"@[3] == 'r',
        "epoch"@.len() == 5,
        "url"@.len() == 3,
        "arch"@.len() == 4,
        "provides"@.len() == 8 && "provides"@[0] == 'p',
        "replaces"@.len() == 8 && "replaces"@[0] == 'r',
        "conflicts"@.len() == 9,
        "makedepends"@.len() == 11,
        "checkdepends"@.len() == 12,
        "optdepends"@.len() == 10,
{
    reveal_strlit("pkgbase");
    reveal_strlit("pkgname");
    reveal_strlit("pkgver");
    reveal_strlit("pkgrel");
    reveal_strlit("epoch");
    reveal_strlit("pkgdesc");
    reveal_strlit("url");
    reveal_strlit("arch");
    reveal_strlit("provides");
    reveal_strlit("conflicts");
    reveal_strlit("replaces");
    reveal_strlit("depends");
    reveal_strlit("makedepends");
    reveal_strlit("checkdepends");
    reveal_strlit("optdepends");
}

/// No key holds a `_`.
proof fn lemma_no_underscore()
    ensures
        forall|i: int| 0 <= i < "pkgbase"@.len() ==> #[trigger] "pkgbase"@[i] != '_',
        forall|i: int| 0 <= i < "pkgname"@.len() ==> #[trigger] "pkgname"@[i] != '_',
        forall|i: int| 0 <= i < "pkgdesc"@.len() ==> #[trigger] "pkgdesc"@[i] != '_',
        forall|i: int| 0 <= i < "depends"@.len() ==> #[trigger] "depends"@[i] != '_',
        forall|i: int| 0 <= i < "pkgver"@.len() ==> #[trigger] "pkgver"@[i] != '_',
        forall|i: int| 0 <= i < "pkgrel"@.len() ==> #[trigger] "pkgrel"@[i] != '_',
        forall|i: int| 0 <= i < "epoch"@.len() ==> #[trigger] "epoch"@[i] != '_',
        forall|i: int| 0 <= i < "url"@.len() ==> #[trigger] "url"@[i] != '_',
        forall|i: int| 0 <= i < "arch"@.len() ==> #[trigger] "arch"@[i] != '_',
        forall|i: int| 0 <= i < "provides"@.len() ==> #[trigger] "provides"@[i] != '_',
        forall|i: int| 0 <= i < "replaces"@.len() ==> #[trigger] "replaces"@[i] != '_',
        forall|i: int| 0 <= i < "conflicts"@.len() ==> #[trigger] "conflicts"@[i] != '_',
        forall|i: int| 0 <= i < "makedepends"@.len() ==> #[trigger] "makedepends"@[i] != '_',
        forall|i: int| 0 <= i < "checkdepends"@.len() ==> #[trigger] "checkdepends"@[i] != '_',
        forall|i: int| 0 <= i < "optdepends"@.len() ==> #[trigger] "optdepends"@[i] != '_',
{
    reveal_strlit("pkgbase");
    reveal_strlit("pkgname");
    reveal_strlit("pkgver");
    reveal_strlit("pkgrel");
    reveal_strlit("epoch");
    reveal_strlit("pkgdesc");
    reveal_strlit("url");
    reveal_strlit("arch");
    reveal_strlit("provides");
    reveal_strlit("conflicts");
    reveal_strlit("replaces");
    reveal_strlit("depends");
    reveal_strlit("makedepends");
    reveal_strlit("checkdepends");
    reveal_strlit("optdepends");
}

/// What the reader gathers from one line under a key.
proof fn lemma_gives(line: Seq<char>, key: Seq<char>)
    requires
        forall|i: int| 0 <= i < key.len() ==> #[trigger] key[i] != '_',
    ensures
        match split_once_spec(trim_spec(line), "="@) {
            Some((k, w)) if speaks(line) => {
                let v = trim_spec(w);
                let hit = canonical_spec(trim_spec(k)) == key;
                &&& sets(line, key, is_array_key(key)) <==> hit
                &&& hit ==> (choose|x: Seq<char>| #[trigger]
                    gives(line, key, is_array_key(key), x)) == v
            },
            _ => !sets(line, key, is_array_key(key)),
        },
{
    lemma_says(line);
    match split_once_spec(trim_spec(line), "="@) {
        Some((k, w)) => {
            if speaks(line) {
                let v = trim_spec(w);
                let name = trim_spec(k);
                lemma_canonical(name, key);
                assert(says(line, name, v));
                if canonical_spec(name) == key {
                    assert(gives(line, key, is_array_key(key), v));
                    let x = choose|x: Seq<char>| #[trigger] gives(line, key, is_array_key(key), x);
                    assert(gives(line, key, is_array_key(key), x));
                    if says(line, key, x) {
                    } else {
                        let z = choose|z: Seq<char>| #[trigger]
                            says(line, z, x) && (key + "_"@).is_prefix_of(z);
                        assert(says(line, z, x));
                    }
                }
                if sets(line, key, is_array_key(key)) {
                    let x = choose|x: Seq<char>| #[trigger] gives(line, key, is_array_key(key), x);
                    assert(gives(line, key, is_array_key(key), x));
                    if says(line, key, x) {
                    } else {
                        let z = choose|z: Seq<char>| #[trigger]
                            says(line, z, x) && (key + "_"@).is_prefix_of(z);
                        assert(says(line, z, x));
                    }
                }
            }
        },
        None => {},
    }
}

/// Whether the key of a line is `key`, as the reader sees it, and what it gives.
spec fn hit(line: Seq<char>, key: Seq<char>) -> Option<Seq<char>> {
    match split_once_spec(trim_spec(line), "="@) {
        Some((k, w)) if speaks(line) && canonical_spec(trim_spec(k)) == key => Some(trim_spec(w)),
        _ => None,
    }
}

proof fn lemma_said_step(ls: Seq<Seq<char>>, key: Seq<char>, place: Place, n: int)
    requires
        0 < n <= ls.len(),
        forall|i: int| 0 <= i < key.len() ==> #[trigger] key[i] != '_',
    ensures
        said(ls, key, is_array_key(key), place, n) == (match hit(ls[n - 1], key) {
            Some(v) if is_there(ls, place, n - 1) => said(
                ls,
                key,
                is_array_key(key),
                place,
                n - 1,
            ).push(v),
            _ => said(ls, key, is_array_key(key), place, n - 1),
        }),
        sets(ls[n - 1], key, is_array_key(key)) <==> hit(ls[n - 1], key) is Some,
{
    lemma_gives(ls[n - 1], key);
}

proof fn lemma_plain_keys()
    ensures
        !is_array_key("pkgbase"@),
        !is_array_key("pkgname"@),
        !is_array_key("pkgver"@),
        !is_array_key("pkgrel"@),
        !is_array_key("epoch"@),
        !is_array_key("pkgdesc"@),
        !is_array_key("url"@),
        !is_array_key("arch"@),
{
    lemma_keys();
}

/// The section of a line follows the one before it.
proof fn lemma_member_step(ls: Seq<Seq<char>>, n: int)
    requires
        0 < n <= ls.len(),
    ensures
        in_member(ls, n) <==> {
            ||| sets(ls[n - 1], "pkgname"@, false)
            ||| !is_section(ls[n - 1]) && in_member(ls, n - 1)
        },
        forall|s: int| #[trigger]
            in_section(ls, s, n) <==> (s == n - 1 && 0 <= s && is_section(ls[s])) || (in_section(
                ls,
                s,
                n - 1,
            ) && !is_section(ls[n - 1])),
{
    assert forall|s: int| #[trigger]
        in_section(ls, s, n) <==> (s == n - 1 && 0 <= s && is_section(ls[s])) || (in_section(
            ls,
            s,
            n - 1,
        ) && !is_section(ls[n - 1])) by {
        if in_section(ls, s, n) && s < n - 1 {
            assert(!is_section(ls[n - 1]));
            assert(in_section(ls, s, n - 1));
        }
        if in_section(ls, s, n - 1) && !is_section(ls[n - 1]) {
            assert(in_section(ls, s, n));
        }
    }
    if in_member(ls, n) {
        let s = choose|s: int| #[trigger] in_section(ls, s, n) && sets(ls[s], "pkgname"@, false);
        assert(in_section(ls, s, n));
        if s < n - 1 {
            assert(in_section(ls, s, n - 1));
        }
    }
    if sets(ls[n - 1], "pkgname"@, false) {
        assert(in_section(ls, n - 1, n));
    }
    if !is_section(ls[n - 1]) && in_member(ls, n - 1) {
        let s = choose|s: int| #[trigger]
            in_section(ls, s, n - 1) && sets(ls[s], "pkgname"@, false);
        assert(in_section(ls, s, n));
    }
}

/// The lists of the whole pkgbase.
proof fn lemma_lists(ls: Seq<Seq<char>>, n: int)
    requires
        0 <= n <= ls.len(),
    ensures
        read_lines(ls.take(n)) matches Ok(r) ==> {
            &&& r.entry.depends == said(ls, "depends"@, true, Place::Anywhere, n)
            &&& r.entry.makedepends == said(ls, "makedepends"@, true, Place::Anywhere, n)
            &&& r.entry.checkdepends == said(ls, "checkdepends"@, true, Place::Anywhere, n)
            &&& r.entry.conflicts == said(ls, "conflicts"@, true, Place::Anywhere, n)
            &&& r.entry.replaces == said(ls, "replaces"@, true, Place::Anywhere, n)
            &&& r.entry.arch == said(ls, "arch"@, false, Place::Anywhere, n)
            &&& r.entry.optdepends == said(ls, "optdepends"@, true, Place::Anywhere, n).map_values(
                |t: Seq<char>| optdep_spec(t),
            )
        },
    decreases n,
{
    let f = |t: Seq<char>| optdep_spec(t);
    if n == 0 {
        assert(ls.take(0) =~= Seq::<Seq<char>>::empty());
        assert(said(ls, "optdepends"@, true, Place::Anywhere, 0).map_values(f) =~= Seq::<
            OptDepView,
        >::empty());
    } else {
        lemma_lists(ls, n - 1);
        lemma_take_succ(ls, n - 1);
        lemma_keys();
        lemma_no_underscore();
        lemma_plain_keys();
        let all = Place::Anywhere;
        lemma_said_step(ls, "depends"@, all, n);
        lemma_said_step(ls, "makedepends"@, all, n);
        lemma_said_step(ls, "checkdepends"@, all, n);
        lemma_said_step(ls, "conflicts"@, all, n);
        lemma_said_step(ls, "replaces"@, all, n);
        lemma_said_step(ls, "arch"@, all, n);
        lemma_said_step(ls, "optdepends"@, all, n);
        let opts = said(ls, "optdepends"@, true, all, n - 1);
        match hit(ls[n - 1], "optdepends"@) {
            Some(v) => {
                assert(opts.push(v).map_values(f) =~= opts.map_values(f).push(f(v)));
            },
            None => {},
        }
    }
}

/// What belongs to the header, and what belongs to the whole.
proof fn lemma_header(ls: Seq<Seq<char>>, n: int)
    requires
        0 <= n <= ls.len(),
    ensures
        read_lines(ls.take(n)) matches Ok(r) ==> {
            &&& r.in_pkgname <==> in_member(ls, n)
            &&& r.entry.pkgver == or_empty(last_of(said(ls, "pkgver"@, false, Place::Header, n)))
            &&& r.entry.pkgrel == or_empty(last_of(said(ls, "pkgrel"@, false, Place::Header, n)))
            &&& r.entry.epoch == last_of(said(ls, "epoch"@, false, Place::Header, n))
            &&& r.entry.pkgdesc == last_of(said(ls, "pkgdesc"@, false, Place::Header, n))
            &&& r.entry.provides == said(ls, "provides"@, true, Place::Header, n)
            &&& r.entry.url == first_of(said(ls, "url"@, false, Place::Anywhere, n))
            &&& r.entry.pkgbase == or_empty(
                last_of(said(ls, "pkgbase"@, false, Place::Anywhere, n)),
            )
        },
    decreases n,
{
    if n == 0 {
        assert(ls.take(0) =~= Seq::<Seq<char>>::empty());
    } else {
        lemma_header(ls, n - 1);
        lemma_take_succ(ls, n - 1);
        lemma_keys();
        lemma_no_underscore();
        lemma_plain_keys();
        let all = Place::Anywhere;
        let top = Place::Header;
        lemma_said_step(ls, "pkgver"@, top, n);
        lemma_said_step(ls, "pkgrel"@, top, n);
        lemma_said_step(ls, "epoch"@, top, n);
        lemma_said_step(ls, "pkgdesc"@, top, n);
        lemma_said_step(ls, "provides"@, top, n);
        lemma_said_step(ls, "url"@, all, n);
        lemma_said_step(ls, "pkgbase"@, all, n);
        lemma_said_step(ls, "pkgname"@, all, n);
        lemma_member_step(ls, n);
    }
}

/// The lines among the first `n` at which the section of a pkgname begins.
pub open spec fn members_at(ls: Seq<Seq<char>>, n: int) -> Seq<int>
    decreases n,
{
    if n <= 0 {
        Seq::empty()
    } else if sets(ls[n - 1], "pkgname"@, false) {
        members_at(ls, n - 1).push(n - 1)
    } else {
        members_at(ls, n - 1)
    }
}

proof fn lemma_members_at(ls: Seq<Seq<char>>, n: int)
    requires
        0 <= n <= ls.len(),
    ensures
        forall|k: int|
            0 <= k < members_at(ls, n).len() ==> 0 <= #[trigger] members_at(ls, n)[k] < n && sets(
                ls[members_at(ls, n)[k]],
                "pkgname"@,
                false,
            ),
        forall|k: int, l: int|
            0 <= k < l < members_at(ls, n).len() ==> members_at(ls, n)[k] < members_at(ls, n)[l],
        in_member(ls, n) ==> members_at(ls, n).len() > 0 && in_section(
            ls,
            members_at(ls, n).last(),
            n,
        ),
    decreases n,
{
    if n > 0 {
        lemma_members_at(ls, n - 1);
        lemma_member_step(ls, n);
        let all = members_at(ls, n);
        let less = members_at(ls, n - 1);
        assert forall|k: int| 0 <= k < all.len() implies 0 <= #[trigger] all[k] < n && sets(
            ls[all[k]],
            "pkgname"@,
            false,
        ) by {
            if k < less.len() {
                assert(all[k] == less[k]);
            }
        }
        assert forall|k: int, l: int| 0 <= k < l < all.len() implies all[k] < all[l] by {
            assert(all[k] == less[k]);
            if l < less.len() {
                assert(all[l] == less[l]);
            }
        }
        if sets(ls[n - 1], "pkgname"@, false) {
            assert(in_section(ls, n - 1, n));
        }
    }
}

proof fn lemma_every_member(ls: Seq<Seq<char>>, n: int, i: int) -> (k: int)
    requires
        0 <= i < n <= ls.len(),
        sets(ls[i], "pkgname"@, false),
    ensures
        0 <= k < members_at(ls, n).len(),
        members_at(ls, n)[k] == i,
    decreases n,
{
    if i < n - 1 {
        lemma_every_member(ls, n - 1, i)
    } else {
        members_at(ls, n - 1).len() as int
    }
}

proof fn lemma_one_section(ls: Seq<Seq<char>>, s: int, t: int, i: int)
    requires
        in_section(ls, s, i),
        in_section(ls, t, i),
    ensures
        s == t,
{
    if s < t {
        assert(is_section(ls[t]));
    }
    if t < s {
        assert(is_section(ls[s]));
    }
}

proof fn lemma_nothing_yet(ls: Seq<Seq<char>>, key: Seq<char>, any_arch: bool, s: int, n: int)
    requires
        n <= s + 1,
    ensures
        said(ls, key, any_arch, Place::Under(s), n) == Seq::<Seq<char>>::empty(),
    decreases n,
{
    if n > 0 {
        lemma_nothing_yet(ls, key, any_arch, s, n - 1);
    }
}

/// The pkgname whose section begins at the line `s`.
pub open spec fn member_is(ls: Seq<Seq<char>>, s: int, n: int, p: PkgnameView) -> bool {
    &&& gives(ls[s], "pkgname"@, false, p.name)
    &&& p.provides == said(ls, "provides"@, true, Place::Under(s), n)
    &&& p.pkgdesc == last_of(said(ls, "pkgdesc"@, false, Place::Under(s), n))
}

proof fn lemma_members(ls: Seq<Seq<char>>, n: int)
    requires
        0 <= n <= ls.len(),
    ensures
        read_lines(ls.take(n)) matches Ok(r) ==> {
            &&& r.entry.pkgnames.len() == members_at(ls, n).len()
            &&& forall|k: int|
                0 <= k < r.entry.pkgnames.len() ==> member_is(
                    ls,
                    members_at(ls, n)[k],
                    n,
                    #[trigger] r.entry.pkgnames[k],
                )
        },
    decreases n,
{
    if n == 0 {
        assert(ls.take(0) =~= Seq::<Seq<char>>::empty());
    } else {
        lemma_members(ls, n - 1);
        lemma_header(ls, n - 1);
        lemma_take_succ(ls, n - 1);
        lemma_keys();
        lemma_no_underscore();
        lemma_plain_keys();
        lemma_said_step(ls, "pkgname"@, Place::Anywhere, n);
        lemma_gives(ls[n - 1], "pkgname"@);
        lemma_members_at(ls, n - 1);
        let at = members_at(ls, n - 1);
        let now = members_at(ls, n);
        match read_lines(ls.take(n)) {
            Ok(r2) => {
                let r = read_lines(ls.take(n - 1))->Ok_0;
                assert forall|k: int| 0 <= k < r2.entry.pkgnames.len() implies member_is(
                    ls,
                    now[k],
                    n,
                    #[trigger] r2.entry.pkgnames[k],
                ) by {
                    if k < at.len() {
                        let s = at[k];
                        assert(now[k] == s);
                        assert(member_is(ls, s, n - 1, r.entry.pkgnames[k]));
                        lemma_said_step(ls, "provides"@, Place::Under(s), n);
                        lemma_said_step(ls, "pkgdesc"@, Place::Under(s), n);
                        if in_section(ls, s, n - 1) {
                            assert(in_member(ls, n - 1));
                            lemma_one_section(ls, s, at.last(), n - 1);
                            if k < at.len() - 1 {
                                assert(at[k] < at[at.len() - 1]);
                            }
                        }
                        if in_member(ls, n - 1) && k == at.len() - 1 {
                            assert(in_section(ls, at.last(), n - 1));
                        }
                    } else {
                        lemma_nothing_yet(ls, "provides"@, true, n - 1, n);
                        lemma_nothing_yet(ls, "pkgdesc"@, false, n - 1, n);
                        assert(now[k] == n - 1);
                        let v = r2.entry.pkgnames[k].name;
                        let x = choose|x: Seq<char>| #[trigger]
                            gives(ls[n - 1], "pkgname"@, false, x);
                        assert(gives(ls[n - 1], "pkgname"@, false, x));
                    }
                }
            },
            Err(_) => {},
        }
    }
}

proof fn lemma_read_whole(text: Seq<char>)
    ensures
        lines_spec(text).take(lines_spec(text).len() as int) == lines_spec(text),
{
    let ls = lines_spec(text);
    assert(ls.take(ls.len() as int) =~= ls);
}

/// The version, the description and the claims of a pkgbase are what the lines outside
/// the sections of its pkgnames say: of several versions or descriptions the last. Of all
/// addresses, wherever they stand, the first counts.
pub proof fn law_what_the_header_says(text: Seq<char>, e: EntryView)
    requires
        parse_spec(text) == Ok::<EntryView, Seq<char>>(e),
    ensures
        ({
            let ls = lines_spec(text);
            let n = ls.len() as int;
            &&& e.epoch == last_of(said(ls, "epoch"@, false, Place::Header, n))
            &&& e.pkgver == or_empty(last_of(said(ls, "pkgver"@, false, Place::Header, n)))
            &&& e.pkgrel == or_empty(last_of(said(ls, "pkgrel"@, false, Place::Header, n)))
            &&& e.pkgdesc == last_of(said(ls, "pkgdesc"@, false, Place::Header, n))
            &&& e.provides == dedup_spec(said(ls, "provides"@, true, Place::Header, n))
            &&& e.url == first_of(said(ls, "url"@, false, Place::Anywhere, n))
            &&& Some(e.pkgbase) == last_of(said(ls, "pkgbase"@, false, Place::Anywhere, n))
        }),
{
    let ls = lines_spec(text);
    lemma_read_whole(text);
    lemma_header(ls, ls.len() as int);
}

/// Whatever section a line stands in, and whatever architecture its key names, what it
/// gives is in the one list of the pkgbase, once.
pub proof fn law_what_the_lists_hold(text: Seq<char>, e: EntryView)
    requires
        parse_spec(text) == Ok::<EntryView, Seq<char>>(e),
    ensures
        ({
            let ls = lines_spec(text);
            let n = ls.len() as int;
            let all = Place::Anywhere;
            &&& e.depends == dedup_spec(said(ls, "depends"@, true, all, n))
            &&& e.makedepends == dedup_spec(said(ls, "makedepends"@, true, all, n))
            &&& e.checkdepends == dedup_spec(said(ls, "checkdepends"@, true, all, n))
            &&& e.conflicts == dedup_spec(said(ls, "conflicts"@, true, all, n))
            &&& e.replaces == dedup_spec(said(ls, "replaces"@, true, all, n))
            &&& e.arch == dedup_spec(said(ls, "arch"@, false, all, n))
            &&& e.optdepends == dedup_spec(
                said(ls, "optdepends"@, true, all, n).map_values(|t: Seq<char>| optdep_spec(t)),
            )
        }),
{
    let ls = lines_spec(text);
    lemma_read_whole(text);
    lemma_lists(ls, ls.len() as int);
}

proof fn lemma_said_contains(
    ls: Seq<Seq<char>>,
    key: Seq<char>,
    any_arch: bool,
    place: Place,
    n: int,
    v: Seq<char>,
)
    requires
        0 <= n <= ls.len(),
    ensures
        said(ls, key, any_arch, place, n).contains(v) <==> exists|i: int|
            0 <= i < n && is_there(ls, place, i) && #[trigger] gives(ls[i], key, any_arch, v),
    decreases n,
{
    if n > 0 {
        lemma_said_contains(ls, key, any_arch, place, n - 1, v);
        let all = said(ls, key, any_arch, place, n);
        let less = said(ls, key, any_arch, place, n - 1);
        let line = ls[n - 1];
        if all.contains(v) {
            let k = choose|k: int| 0 <= k < all.len() && all[k] == v;
            if k < less.len() {
                assert(less[k] == v);
                let i = choose|i: int|
                    0 <= i < n - 1 && is_there(ls, place, i) && #[trigger] gives(
                        ls[i],
                        key,
                        any_arch,
                        v,
                    );
                assert(gives(ls[i], key, any_arch, v));
            } else {
                assert(gives(ls[n - 1], key, any_arch, v));
            }
        }
        if exists|i: int|
            0 <= i < n && is_there(ls, place, i) && #[trigger] gives(ls[i], key, any_arch, v) {
            let i = choose|i: int|
                0 <= i < n && is_there(ls, place, i) && #[trigger] gives(ls[i], key, any_arch, v);
            if i < n - 1 {
                assert(less.contains(v));
                let k = choose|k: int| 0 <= k < less.len() && less[k] == v;
                assert(all[k] == v);
            } else {
                assert(sets(line, key, any_arch));
                let x = choose|x: Seq<char>| #[trigger] gives(line, key, any_arch, x);
                assert(gives(line, key, any_arch, x));
                lemma_gives_once(line, key, any_arch, v, x);
                assert(all[less.len() as int] == v);
            }
        }
    }
}

proof fn lemma_gives_once(
    line: Seq<char>,
    key: Seq<char>,
    any_arch: bool,
    a: Seq<char>,
    b: Seq<char>,
)
    requires
        gives(line, key, any_arch, a),
        gives(line, key, any_arch, b),
    ensures
        a == b,
{
    lemma_says(line);
    let x = if says(line, key, a) {
        key
    } else {
        choose|k: Seq<char>| #[trigger] says(line, k, a) && (key + "_"@).is_prefix_of(k)
    };
    let y = if says(line, key, b) {
        key
    } else {
        choose|k: Seq<char>| #[trigger] says(line, k, b) && (key + "_"@).is_prefix_of(k)
    };
    assert(says(line, x, a));
    assert(says(line, y, b));
}

/// A dependency, a conflict or a replacement is in the list of the pkgbase exactly if a
/// line says so.
pub proof fn law_lists_hold_what_lines_give(text: Seq<char>, e: EntryView, v: Seq<char>)
    requires
        parse_spec(text) == Ok::<EntryView, Seq<char>>(e),
    ensures
        ({
            let ls = lines_spec(text);
            &&& e.depends.contains(v) <==> exists|i: int|
                0 <= i < ls.len() && #[trigger] gives(ls[i], "depends"@, true, v)
            &&& e.makedepends.contains(v) <==> exists|i: int|
                0 <= i < ls.len() && #[trigger] gives(ls[i], "makedepends"@, true, v)
            &&& e.checkdepends.contains(v) <==> exists|i: int|
                0 <= i < ls.len() && #[trigger] gives(ls[i], "checkdepends"@, true, v)
            &&& e.conflicts.contains(v) <==> exists|i: int|
                0 <= i < ls.len() && #[trigger] gives(ls[i], "conflicts"@, true, v)
            &&& e.replaces.contains(v) <==> exists|i: int|
                0 <= i < ls.len() && #[trigger] gives(ls[i], "replaces"@, true, v)
            &&& e.arch.contains(v) <==> exists|i: int|
                0 <= i < ls.len() && #[trigger] gives(ls[i], "arch"@, false, v)
            &&& e.provides.contains(v) <==> exists|i: int|
                0 <= i < ls.len() && !in_member(ls, i) && #[trigger] gives(
                    ls[i],
                    "provides"@,
                    true,
                    v,
                )
        }),
{
    let ls = lines_spec(text);
    let n = ls.len() as int;
    let all = Place::Anywhere;
    law_what_the_lists_hold(text, e);
    law_what_the_header_says(text, e);
    lemma_said_contains(ls, "depends"@, true, all, n, v);
    lemma_said_contains(ls, "makedepends"@, true, all, n, v);
    lemma_said_contains(ls, "checkdepends"@, true, all, n, v);
    lemma_said_contains(ls, "conflicts"@, true, all, n, v);
    lemma_said_contains(ls, "replaces"@, true, all, n, v);
    lemma_said_contains(ls, "arch"@, false, all, n, v);
    lemma_said_contains(ls, "provides"@, true, Place::Header, n, v);
    crate::index::srcinfo::law_dedup(said(ls, "depends"@, true, all, n));
    crate::index::srcinfo::law_dedup(said(ls, "makedepends"@, true, all, n));
    crate::index::srcinfo::law_dedup(said(ls, "checkdepends"@, true, all, n));
    crate::index::srcinfo::law_dedup(said(ls, "conflicts"@, true, all, n));
    crate::index::srcinfo::law_dedup(said(ls, "replaces"@, true, all, n));
    crate::index::srcinfo::law_dedup(said(ls, "arch"@, false, all, n));
    crate::index::srcinfo::law_dedup(said(ls, "provides"@, true, Place::Header, n));
}

proof fn lemma_said_last(ls: Seq<Seq<char>>, key: Seq<char>, n: int, i: int, v: Seq<char>)
    requires
        0 <= i < n <= ls.len(),
        says(ls[i], key, v),
        !in_member(ls, i),
        forall|j: int| i < j < n && sets(#[trigger] ls[j], key, false) ==> in_member(ls, j),
    ensures
        last_of(said(ls, key, false, Place::Header, n)) == Some(v),
    decreases n,
{
    if i == n - 1 {
        assert(gives(ls[i], key, false, v));
        let x = choose|x: Seq<char>| #[trigger] gives(ls[i], key, false, x);
        assert(gives(ls[i], key, false, x));
        lemma_gives_once(ls[i], key, false, v, x);
    } else {
        lemma_said_last(ls, key, n - 1, i, v);
        assert(sets(ls[n - 1], key, false) ==> in_member(ls, n - 1));
    }
}

proof fn lemma_said_none(ls: Seq<Seq<char>>, key: Seq<char>, n: int)
    requires
        0 <= n <= ls.len(),
        forall|j: int| 0 <= j < n && sets(#[trigger] ls[j], key, false) ==> in_member(ls, j),
    ensures
        last_of(said(ls, key, false, Place::Header, n)) is None,
    decreases n,
{
    if n > 0 {
        lemma_said_none(ls, key, n - 1);
        assert(sets(ls[n - 1], key, false) ==> in_member(ls, n - 1));
    }
}

/// Where the last line outside the sections of the pkgnames that sets the epoch, the
/// version, the release or the description stands at `i` and gives `v`, that is what the
/// pkgbase has.
pub proof fn law_the_last_line_of_the_header_counts(
    text: Seq<char>,
    e: EntryView,
    key: Seq<char>,
    i: int,
    v: Seq<char>,
)
    requires
        parse_spec(text) == Ok::<EntryView, Seq<char>>(e),
        0 <= i < lines_spec(text).len(),
        says(lines_spec(text)[i], key, v),
        !in_member(lines_spec(text), i),
        forall|j: int|
            i < j < lines_spec(text).len() && sets(#[trigger] lines_spec(text)[j], key, false)
                ==> in_member(lines_spec(text), j),
    ensures
        key == "epoch"@ ==> e.epoch == Some(v),
        key == "pkgver"@ ==> e.pkgver == v,
        key == "pkgrel"@ ==> e.pkgrel == v,
        key == "pkgdesc"@ ==> e.pkgdesc == Some(v),
{
    let ls = lines_spec(text);
    law_what_the_header_says(text, e);
    lemma_said_last(ls, key, ls.len() as int, i, v);
}

/// What no line outside the sections of the pkgnames sets, the pkgbase does not have.
pub proof fn law_what_no_line_sets_is_missing(text: Seq<char>, e: EntryView, key: Seq<char>)
    requires
        parse_spec(text) == Ok::<EntryView, Seq<char>>(e),
        forall|j: int|
            0 <= j < lines_spec(text).len() && sets(#[trigger] lines_spec(text)[j], key, false)
                ==> in_member(lines_spec(text), j),
    ensures
        key == "epoch"@ ==> e.epoch is None,
        key == "pkgver"@ ==> e.pkgver.len() == 0,
        key == "pkgrel"@ ==> e.pkgrel.len() == 0,
        key == "pkgdesc"@ ==> e.pkgdesc is None,
{
    let ls = lines_spec(text);
    law_what_the_header_says(text, e);
    lemma_said_none(ls, key, ls.len() as int);
}

/// Where in `s` each name stands first.
spec fn firsts(s: Seq<PkgnameView>) -> Seq<int>
    decreases s.len(),
{
    if s.len() == 0 {
        Seq::empty()
    } else {
        let r = s.drop_last();
        if exists|i: int| 0 <= i < r.len() && (#[trigger] r[i]).name == s.last().name {
            firsts(r)
        } else {
            firsts(r).push(s.len() - 1)
        }
    }
}

proof fn lemma_firsts_cover(s: Seq<PkgnameView>, j: int) -> (k: int)
    requires
        0 <= j < s.len(),
    ensures
        0 <= k < firsts(s).len(),
        firsts(s)[k] <= j,
        s[firsts(s)[k]].name == s[j].name,
    decreases s.len(),
{
    let r = s.drop_last();
    lemma_firsts(r);
    if j < s.len() - 1 {
        let k = lemma_firsts_cover(r, j);
        assert(firsts(s)[k] == firsts(r)[k]);
        k
    } else if exists|i: int| 0 <= i < r.len() && (#[trigger] r[i]).name == s.last().name {
        let i = choose|i: int| 0 <= i < r.len() && (#[trigger] r[i]).name == s.last().name;
        lemma_firsts_cover(r, i)
    } else {
        firsts(r).len() as int
    }
}

proof fn lemma_firsts(s: Seq<PkgnameView>)
    ensures
        firsts(s).len() == dedup_names_spec(s).len(),
        forall|k: int|
            0 <= k < firsts(s).len() ==> 0 <= #[trigger] firsts(s)[k] < s.len()
                && dedup_names_spec(s)[k] == s[firsts(s)[k]],
        forall|k: int, l: int| 0 <= k < l < firsts(s).len() ==> firsts(s)[k] < firsts(s)[l],
    decreases s.len(),
{
    if s.len() > 0 {
        let r = s.drop_last();
        let d = dedup_names_spec(r);
        lemma_firsts(r);
        if exists|i: int| 0 <= i < r.len() && (#[trigger] r[i]).name == s.last().name {
            let i = choose|i: int| 0 <= i < r.len() && (#[trigger] r[i]).name == s.last().name;
            let k = lemma_firsts_cover(r, i);
            assert(d[k].name == s.last().name);
        } else if exists|i: int| 0 <= i < d.len() && (#[trigger] d[i]).name == s.last().name {
            let i = choose|i: int| 0 <= i < d.len() && (#[trigger] d[i]).name == s.last().name;
            assert(r[firsts(r)[i]].name == s.last().name);
        }
    }
}

/// The pkgnames as they are read, each without repetitions.
spec fn tidied(ls: Seq<Seq<char>>) -> Seq<PkgnameView> {
    read_lines(ls)->Ok_0.entry.pkgnames.map_values(|p: PkgnameView| tidy_pkgname(p))
}

/// The lines that name a pkgname for the first time.
spec fn first_members(ls: Seq<Seq<char>>) -> Seq<int> {
    firsts(tidied(ls)).map_values(|k: int| members_at(ls, ls.len() as int)[k])
}

/// `p` is described by the section that starts at line `s`.
pub open spec fn described(ls: Seq<Seq<char>>, s: int, p: PkgnameView) -> bool {
    let n = ls.len() as int;
    &&& 0 <= s < n
    &&& gives(ls[s], "pkgname"@, false, p.name)
    &&& p.provides == dedup_spec(said(ls, "provides"@, true, Place::Under(s), n))
    &&& p.pkgdesc == last_of(said(ls, "pkgdesc"@, false, Place::Under(s), n))
}

proof fn lemma_described(ls: Seq<Seq<char>>, k: int)
    requires
        read_lines(ls) is Ok,
        0 <= k < first_members(ls).len(),
    ensures
        first_members(ls).len() == dedup_names_spec(tidied(ls)).len(),
        described(ls, first_members(ls)[k], dedup_names_spec(tidied(ls))[k]),
{
    let n = ls.len() as int;
    assert(ls.take(n) =~= ls);
    lemma_firsts(tidied(ls));
    let m = firsts(tidied(ls))[k];
    assert(first_members(ls)[k] == members_at(ls, n)[m]);
    let raw = read_lines(ls)->Ok_0.entry.pkgnames;
    assert(tidied(ls)[m] == tidy_pkgname(raw[m]));
    assert(member_is(ls, members_at(ls, n)[m], n, raw[m])) by {
        lemma_members(ls, n);
    }
    assert(0 <= members_at(ls, n)[m] < n) by {
        lemma_members(ls, n);
        lemma_members_at(ls, n);
    }
}

proof fn lemma_members_in_order(ls: Seq<Seq<char>>, k: int, l: int)
    requires
        read_lines(ls) is Ok,
        0 <= k < l < first_members(ls).len(),
    ensures
        first_members(ls)[k] < first_members(ls)[l],
{
    let n = ls.len() as int;
    assert(ls.take(n) =~= ls);
    lemma_firsts(tidied(ls));
    lemma_members(ls, n);
    lemma_members_at(ls, n);
    assert(firsts(tidied(ls))[k] < firsts(tidied(ls))[l]);
}

proof fn lemma_member_found(ls: Seq<Seq<char>>, i: int, v: Seq<char>) -> (k: int)
    requires
        read_lines(ls) is Ok,
        0 <= i < ls.len(),
        gives(ls[i], "pkgname"@, false, v),
    ensures
        0 <= k < first_members(ls).len(),
        first_members(ls)[k] <= i,
        dedup_names_spec(tidied(ls))[k].name == v,
{
    let n = ls.len() as int;
    assert(ls.take(n) =~= ls);
    assert(sets(ls[i], "pkgname"@, false));
    let j = lemma_every_member(ls, n, i);
    let raw = read_lines(ls)->Ok_0.entry.pkgnames;
    assert(raw.len() == members_at(ls, n).len() && member_is(ls, i, n, raw[j])) by {
        lemma_members(ls, n);
    }
    lemma_gives_once(ls[i], "pkgname"@, false, v, raw[j].name);
    assert(tidied(ls)[j] == tidy_pkgname(raw[j]));
    let k = lemma_firsts_cover(tidied(ls), j);
    lemma_firsts(tidied(ls));
    let m = firsts(tidied(ls))[k];
    assert(first_members(ls)[k] == members_at(ls, n)[m]);
    assert(members_at(ls, n)[m] <= i) by {
        lemma_members_at(ls, n);
    }
    k
}

proof fn lemma_no_member(ls: Seq<Seq<char>>, n: int)
    requires
        0 <= n <= ls.len(),
        forall|i: int| 0 <= i < n ==> !sets(#[trigger] ls[i], "pkgname"@, false),
    ensures
        members_at(ls, n).len() == 0,
    decreases n,
{
    if n > 0 {
        lemma_no_member(ls, n - 1);
    }
}

proof fn lemma_only_pkgname(only: PkgnameView)
    requires
        only.provides.len() == 0,
    ensures
        dedup_names_spec(seq![only].map_values(|p: PkgnameView| tidy_pkgname(p))) == seq![only],
{
    let named = seq![only].map_values(|p: PkgnameView| tidy_pkgname(p));
    assert(only.provides =~= Seq::empty());
    assert(tidy_pkgname(only) == only);
    assert(named =~= seq![only]);
    assert(named.drop_last() =~= Seq::<PkgnameView>::empty());
    assert(dedup_names_spec(Seq::<PkgnameView>::empty()) == Seq::<PkgnameView>::empty());
    assert(dedup_names_spec(named) =~= seq![only]);
}

/// The pkgnames of a pkgbase are those that lines name, in their order, each as the first
/// section of its name describes it.
pub proof fn law_each_pkgname_has_its_section(text: Seq<char>, e: EntryView) -> (at: Seq<int>)
    requires
        parse_spec(text) == Ok::<EntryView, Seq<char>>(e),
        exists|i: int|
            0 <= i < lines_spec(text).len() && sets(
                #[trigger] lines_spec(text)[i],
                "pkgname"@,
                false,
            ),
    ensures
        at.len() == e.pkgnames.len(),
        forall|k: int, l: int| 0 <= k < l < at.len() ==> at[k] < at[l],
        forall|k: int|
            0 <= k < at.len() ==> described(lines_spec(text), #[trigger] at[k], e.pkgnames[k]),
        forall|i: int, v: Seq<char>|
            0 <= i < lines_spec(text).len() && #[trigger] gives(
                lines_spec(text)[i],
                "pkgname"@,
                false,
                v,
            ) ==> exists|k: int|
                0 <= k < at.len() && #[trigger] at[k] <= i && e.pkgnames[k].name == v,
{
    let ls = lines_spec(text);
    let at = first_members(ls);
    let i = choose|i: int| 0 <= i < ls.len() && sets(#[trigger] ls[i], "pkgname"@, false);
    let v = choose|v: Seq<char>| #[trigger] gives(ls[i], "pkgname"@, false, v);
    let first = lemma_member_found(ls, i, v);
    lemma_described(ls, first);
    assert(read_lines(ls)->Ok_0.entry.pkgnames.len() > 0) by {
        if tidied(ls).len() == 0 {
            lemma_firsts(tidied(ls));
        }
    }
    assert(e.pkgnames == dedup_names_spec(tidied(ls)));
    assert forall|k: int, l: int| 0 <= k < l < at.len() implies at[k] < at[l] by {
        lemma_members_in_order(ls, k, l);
    }
    assert forall|k: int| 0 <= k < at.len() implies described(ls, #[trigger] at[k], e.pkgnames[k]) by {
        lemma_described(ls, k);
    }
    assert forall|i: int, v: Seq<char>|
        0 <= i < ls.len() && #[trigger] gives(ls[i], "pkgname"@, false, v) implies exists|k: int|
        0 <= k < at.len() && #[trigger] at[k] <= i && e.pkgnames[k].name == v by {
        let k = lemma_member_found(ls, i, v);
        assert(at[k] <= i);
    }
    at
}

/// Where no line names a pkgname, the only pkgname reads like the pkgbase.
pub proof fn law_a_pkgbase_is_its_own_pkgname(text: Seq<char>, e: EntryView)
    requires
        parse_spec(text) == Ok::<EntryView, Seq<char>>(e),
        forall|i: int|
            0 <= i < lines_spec(text).len() ==> !sets(
                #[trigger] lines_spec(text)[i],
                "pkgname"@,
                false,
            ),
    ensures
        e.pkgnames == seq![
            PkgnameView { name: e.pkgbase, provides: Seq::empty(), pkgdesc: None },
        ],
{
    let ls = lines_spec(text);
    lemma_read_whole(text);
    lemma_no_member(ls, ls.len() as int);
    lemma_members(ls, ls.len() as int);
    lemma_only_pkgname(PkgnameView { name: e.pkgbase, provides: Seq::empty(), pkgdesc: None });
}

/// A line is a comment or blank.
pub open spec fn says_nothing(line: Seq<char>) -> bool {
    trim_spec(line).len() == 0 || trim_spec(line)[0] == '#'
}

proof fn lemma_when_read(ls: Seq<Seq<char>>, n: int)
    requires
        0 <= n <= ls.len(),
    ensures
        read_lines(ls.take(n)) is Ok <==> forall|i: int|
            0 <= i < n ==> says_nothing(#[trigger] ls[i]) || trim_spec(ls[i]).contains('='),
        read_lines(ls.take(n)) matches Ok(r) ==> (r.saw_anything <==> exists|i: int|
            0 <= i < n && !says_nothing(#[trigger] ls[i])),
        read_lines(ls.take(n)) matches Err(m) ==> {
            &&& m < n
            &&& !says_nothing(ls[m as int]) && !trim_spec(ls[m as int]).contains('=')
            &&& forall|i: int|
                0 <= i < m ==> says_nothing(#[trigger] ls[i]) || trim_spec(ls[i]).contains('=')
        },
    decreases n,
{
    reveal_strlit("=");
    if n == 0 {
        assert(ls.take(0) =~= Seq::<Seq<char>>::empty());
    } else {
        lemma_when_read(ls, n - 1);
        lemma_take_succ(ls, n - 1);
        let line = ls[n - 1];
        let t = trim_spec(line);
        assert(occurs(t, "="@) <==> t.contains('=')) by {
            if occurs(t, "="@) {
                let i = lemma_first_exists(t, "="@);
                assert(t.subrange(i, i + 1)[0] == t[i]);
                assert(t[i] == '=');
            }
            if t.contains('=') {
                let i = choose|i: int| 0 <= i < t.len() && t[i] == '=';
                assert(t.subrange(i, i + 1) =~= "="@);
                assert(occurs_at(t, "="@, i));
            }
        }
    }
}

/// A text is read exactly if some line says something, every such line has a `=`, and
/// the last line for the pkgbase names it. Otherwise the error tells the first line
/// without a `=`, or that there is nothing, or that the pkgbase is missing.
pub proof fn law_when_a_text_is_read(text: Seq<char>)
    ensures
        ({
            let ls = lines_spec(text);
            let base = or_empty(
                last_of(said(ls, "pkgbase"@, false, Place::Anywhere, ls.len() as int)),
            );
            let sound = forall|i: int|
                0 <= i < ls.len() ==> says_nothing(#[trigger] ls[i]) || trim_spec(ls[i]).contains(
                    '=',
                );
            let filled = exists|i: int| 0 <= i < ls.len() && !says_nothing(#[trigger] ls[i]);
            &&& parse_spec(text) is Ok <==> sound && filled && base.len() > 0
            &&& sound && !filled ==> parse_spec(text) == Err::<EntryView, Seq<char>>(
                "empty .SRCINFO"@,
            )
            &&& sound && filled && base.len() == 0 ==> parse_spec(text) == Err::<
                EntryView,
                Seq<char>,
            >("missing pkgbase"@)
            &&& forall|m: nat|
                m < ls.len() && !says_nothing(ls[m as int]) && !trim_spec(ls[m as int]).contains('=')
                    && (forall|i: int|
                    0 <= i < m ==> says_nothing(#[trigger] ls[i]) || trim_spec(ls[i]).contains('='))
                    ==> parse_spec(text) == Err::<EntryView, Seq<char>>(
                    "line "@ + #[trigger] crate::text::dec(m + 1) + ": no `=`"@,
                )
        }),
{
    let ls = lines_spec(text);
    let n = ls.len() as int;
    lemma_read_whole(text);
    lemma_when_read(ls, n);
    lemma_header(ls, n);
    assert forall|m: nat|
        m < ls.len() && !says_nothing(ls[m as int]) && !trim_spec(ls[m as int]).contains('=') && (
        forall|i: int|
            0 <= i < m ==> says_nothing(#[trigger] ls[i]) || trim_spec(ls[i]).contains('=')) implies parse_spec(
        text,
    ) == Err::<EntryView, Seq<char>>(
        "line "@ + #[trigger] crate::text::dec(m + 1) + ": no `=`"@,
    ) by {
        assert(read_lines(ls) is Err);
        let k = read_lines(ls)->Err_0;
        if k < m {
            assert(says_nothing(ls[k as int]) || trim_spec(ls[k as int]).contains('='));
        }
        if m < k {
            assert(says_nothing(ls[m as int]) || trim_spec(ls[m as int]).contains('='));
        }
    }
}

} // verus!
