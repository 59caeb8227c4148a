//! Reading `.SRCINFO`, the flat list of `key = value` lines that
//! `makepkg --printsrcinfo` writes.
//!
//! A list key may name an architecture (`depends_x86_64`); the index does not
//! tell architectures apart, so such a key counts as the plain one.

use vstd::prelude::*;

use crate::error::Error;
use crate::index::schema::{
    arch_list, blank_entry, optdep_list, pkgname_list, EntryView, IndexEntry, Pkgname,
    PkgnameView,
};
use crate::maps::NameSet;
use crate::names::{
    optdep_spec, pkgtarget_views, Arch, OptDep, OptDepView, PkgBase, PkgName, PkgTarget, Url,
};
use crate::seqs::lemma_take_succ;
use crate::text::{
    dec, dec_string, find, find_spec, lines, lines_spec, same, split_once, split_once_spec,
    str_views, take, trim, trim_spec,
};

verus! {

broadcast use {vstd::string::group_string_axioms, crate::seqs::lemma_map_push};

/// The keys whose values form a list and which may name an architecture.
pub open spec fn is_array_key(k: Seq<char>) -> bool {
    ||| k == "depends"@
    ||| k == "makedepends"@
    ||| k == "checkdepends"@
    ||| k == "optdepends"@
    ||| k == "provides"@
    ||| k == "conflicts"@
    ||| k == "replaces"@
}

/// A key without its architecture.
pub open spec fn canonical_spec(k: Seq<char>) -> Seq<char> {
    match find_spec(k, "_"@) {
        Some(i) if is_array_key(k.take(i)) => k.take(i),
        _ => k,
    }
}

/// `s` with only the first of each group of equal elements left.
pub open spec fn dedup_spec<A>(s: Seq<A>) -> Seq<A>
    decreases s.len(),
{
    if s.len() == 0 {
        s
    } else {
        let d = dedup_spec(s.drop_last());
        if d.contains(s.last()) {
            d
        } else {
            d.push(s.last())
        }
    }
}

/// The pkgnames with only the first of each name left.
pub open spec fn dedup_names_spec(s: Seq<PkgnameView>) -> Seq<PkgnameView>
    decreases s.len(),
{
    if s.len() == 0 {
        s
    } else {
        let d = dedup_names_spec(s.drop_last());
        if exists|i: int| 0 <= i < d.len() && (#[trigger] d[i]).name == s.last().name {
            d
        } else {
            d.push(s.last())
        }
    }
}

/// How far a reader has come.
pub struct Reading {
    /// What the lines said so far.
    pub entry: EntryView,
    /// The last section is that of a pkgname: the last one of the entry.
    pub in_pkgname: bool,
    /// Some line said something.
    pub saw_anything: bool,
}

/// A reader at the start of a file.
pub open spec fn fresh() -> Reading {
    Reading { entry: blank_entry(), in_pkgname: false, saw_anything: false }
}

/// The list with its last pkgname replaced.
pub open spec fn with_last(p: Seq<PkgnameView>, x: PkgnameView) -> Seq<PkgnameView> {
    p.update(p.len() - 1, x)
}

/// What a reader makes of `key = v`, the key without its architecture.
///
/// `provides` and `pkgdesc` belong to the section that they stand in; the version
/// is read before the first pkgname only; of several addresses the first counts.
/// Every other list is one list for the whole pkgbase. Unknown keys are skipped.
pub open spec fn assign_spec(r: Reading, key: Seq<char>, v: Seq<char>) -> Reading {
    let e = r.entry;
    if key == "pkgbase"@ {
        Reading { entry: EntryView { pkgbase: v, ..e }, in_pkgname: false, ..r }
    } else if key == "pkgname"@ {
        let fresh = PkgnameView { name: v, provides: Seq::empty(), pkgdesc: None };
        Reading {
            entry: EntryView { pkgnames: e.pkgnames.push(fresh), ..e },
            in_pkgname: true,
            ..r
        }
    } else if key == "pkgver"@ && !r.in_pkgname {
        Reading { entry: EntryView { pkgver: v, ..e }, ..r }
    } else if key == "pkgrel"@ && !r.in_pkgname {
        Reading { entry: EntryView { pkgrel: v, ..e }, ..r }
    } else if key == "epoch"@ && !r.in_pkgname {
        Reading { entry: EntryView { epoch: Some(v), ..e }, ..r }
    } else if key == "pkgdesc"@ && !r.in_pkgname {
        Reading { entry: EntryView { pkgdesc: Some(v), ..e }, ..r }
    } else if key == "pkgdesc"@ {
        let last = PkgnameView { pkgdesc: Some(v), ..e.pkgnames.last() };
        Reading { entry: EntryView { pkgnames: with_last(e.pkgnames, last), ..e }, ..r }
    } else if key == "url"@ && e.url is None {
        Reading { entry: EntryView { url: Some(v), ..e }, ..r }
    } else if key == "arch"@ {
        Reading { entry: EntryView { arch: e.arch.push(v), ..e }, ..r }
    } else if key == "provides"@ && !r.in_pkgname {
        Reading { entry: EntryView { provides: e.provides.push(v), ..e }, ..r }
    } else if key == "provides"@ {
        let own = e.pkgnames.last();
        let last = PkgnameView { provides: own.provides.push(v), ..own };
        Reading { entry: EntryView { pkgnames: with_last(e.pkgnames, last), ..e }, ..r }
    } else if key == "conflicts"@ {
        Reading { entry: EntryView { conflicts: e.conflicts.push(v), ..e }, ..r }
    } else if key == "replaces"@ {
        Reading { entry: EntryView { replaces: e.replaces.push(v), ..e }, ..r }
    } else if key == "depends"@ {
        Reading { entry: EntryView { depends: e.depends.push(v), ..e }, ..r }
    } else if key == "makedepends"@ {
        Reading { entry: EntryView { makedepends: e.makedepends.push(v), ..e }, ..r }
    } else if key == "checkdepends"@ {
        Reading { entry: EntryView { checkdepends: e.checkdepends.push(v), ..e }, ..r }
    } else if key == "optdepends"@ {
        Reading { entry: EntryView { optdepends: e.optdepends.push(optdep_spec(v)), ..e }, ..r }
    } else {
        r
    }
}

/// A line that says something: neither blank nor a comment.
pub open spec fn speaks(line: Seq<char>) -> bool {
    trim_spec(line).len() > 0 && trim_spec(line)[0] != '#'
}

/// A reader after the lines, or the number of the first line that has no `=`,
/// counted from 0.
pub open spec fn read_lines(ls: Seq<Seq<char>>) -> Result<Reading, nat>
    decreases ls.len(),
{
    if ls.len() == 0 {
        Ok(fresh())
    } else {
        match read_lines(ls.drop_last()) {
            Err(n) => Err(n),
            Ok(r) => if !speaks(ls.last()) {
                Ok(r)
            } else {
                match split_once_spec(trim_spec(ls.last()), "="@) {
                    None => Err((ls.len() - 1) as nat),
                    Some((k, v)) => Ok(
                        assign_spec(
                            Reading { saw_anything: true, ..r },
                            canonical_spec(trim_spec(k)),
                            trim_spec(v),
                        ),
                    ),
                }
            },
        }
    }
}

/// A pkgname without repetitions among its own `provides`.
pub open spec fn tidy_pkgname(p: PkgnameView) -> PkgnameView {
    PkgnameView { provides: dedup_spec(p.provides), ..p }
}

/// An entry with a pkgname at least, and without repetitions.
pub open spec fn tidy(e: EntryView) -> EntryView {
    let named = if e.pkgnames.len() == 0 {
        seq![PkgnameView { name: e.pkgbase, provides: Seq::empty(), pkgdesc: None }]
    } else {
        e.pkgnames
    };
    EntryView {
        depends: dedup_spec(e.depends),
        makedepends: dedup_spec(e.makedepends),
        checkdepends: dedup_spec(e.checkdepends),
        provides: dedup_spec(e.provides),
        conflicts: dedup_spec(e.conflicts),
        replaces: dedup_spec(e.replaces),
        optdepends: dedup_spec(e.optdepends),
        arch: dedup_spec(e.arch),
        pkgnames: dedup_names_spec(
            named.map_values(|p: PkgnameView| tidy_pkgname(p)),
        ),
        ..e
    }
}

/// What a `.SRCINFO` says, or what is wrong with it.
pub open spec fn parse_spec(text: Seq<char>) -> Result<EntryView, Seq<char>> {
    match read_lines(lines_spec(text)) {
        Err(n) => Err("line "@ + dec(n + 1) + ": no `=`"@),
        Ok(r) => if !r.saw_anything {
            Err("empty .SRCINFO"@)
        } else if r.entry.pkgbase.len() == 0 {
            Err("missing pkgbase"@)
        } else {
            Ok(tidy(r.entry))
        },
    }
}

fn array_key(k: &str) -> (r: bool)
    ensures
        r == is_array_key(k@),
{
    same(k, "depends") || same(k, "makedepends") || same(k, "checkdepends") || same(k, "optdepends")
        || same(k, "provides") || same(k, "conflicts") || same(k, "replaces")
}

fn canonical<'a>(k: &'a str) -> (r: &'a str)
    ensures
        r@ == canonical_spec(k@),
{
    match find(k, "_") {
        Some(i) => {
            let base = take(k, i);
            if array_key(base) {
                base
            } else {
                k
            }
        },
        None => k,
    }
}

/// The part of an [`Reading`] that an entry under construction shows.
spec fn reads(e: IndexEntry, in_pkgname: bool, saw_anything: bool) -> Reading {
    Reading { entry: e@, in_pkgname, saw_anything }
}

fn assign(e: &mut IndexEntry, in_pkgname: &mut bool, key: &str, v: &str, Ghost(saw): Ghost<bool>)
    requires
        *old(in_pkgname) ==> old(e).pkgnames.len() > 0,
    ensures
        *final(in_pkgname) ==> final(e).pkgnames.len() > 0,
        reads(*final(e), *final(in_pkgname), saw) == assign_spec(
            reads(*old(e), *old(in_pkgname), saw),
            key@,
            v@,
        ),
{
    let ghost before = e@;
    if same(key, "pkgbase") {
        e.pkgbase = PkgBase::new(v);
        *in_pkgname = false;
    } else if same(key, "pkgname") {
        let fresh = Pkgname { name: PkgName::new(v), provides: Vec::new(), pkgdesc: None };
        assert(fresh@.provides =~= Seq::<Seq<char>>::empty());
        e.pkgnames.push(fresh);
        *in_pkgname = true;
    } else if same(key, "pkgver") && !*in_pkgname {
        e.pkgver = v.to_owned();
    } else if same(key, "pkgrel") && !*in_pkgname {
        e.pkgrel = v.to_owned();
    } else if same(key, "epoch") && !*in_pkgname {
        e.epoch = Some(v.to_owned());
    } else if same(key, "pkgdesc") {
        if *in_pkgname {
            let last: usize = e.pkgnames.len() - 1;
            e.pkgnames[last].pkgdesc = Some(v.to_owned());
            assert(e@.pkgnames =~= with_last(
                before.pkgnames,
                PkgnameView { pkgdesc: Some(v@), ..before.pkgnames.last() },
            ));
        } else {
            e.pkgdesc = Some(v.to_owned());
        }
    } else if same(key, "url") && e.url.is_none() {
        e.url = Some(Url::new(v));
    } else if same(key, "arch") {
        e.arch.push(Arch::new(v));
    } else if same(key, "provides") {
        if *in_pkgname {
            let last: usize = e.pkgnames.len() - 1;
            e.pkgnames[last].provides.push(PkgTarget::new(v));
            assert(e@.pkgnames =~= with_last(
                before.pkgnames,
                PkgnameView {
                    provides: before.pkgnames.last().provides.push(v@),
                    ..before.pkgnames.last()
                },
            ));
        } else {
            e.provides.push(PkgTarget::new(v));
        }
    } else if same(key, "conflicts") {
        e.conflicts.push(PkgTarget::new(v));
    } else if same(key, "replaces") {
        e.replaces.push(PkgTarget::new(v));
    } else if same(key, "depends") {
        e.depends.push(PkgTarget::new(v));
    } else if same(key, "makedepends") {
        e.makedepends.push(PkgTarget::new(v));
    } else if same(key, "checkdepends") {
        e.checkdepends.push(PkgTarget::new(v));
    } else if same(key, "optdepends") {
        e.optdepends.push(OptDep::from(v));
    }
}

/// Keeps the first of each group of equal targets.
fn dedup(v: &Vec<PkgTarget>) -> (r: Vec<PkgTarget>)
    ensures
        pkgtarget_views(r@) == dedup_spec(pkgtarget_views(v@)),
{
    let ghost all = pkgtarget_views(v@);
    let mut seen: NameSet<PkgTarget> = NameSet::new();
    let mut r: Vec<PkgTarget> = Vec::new();
    let mut i: usize = 0;
    assert(all.take(0) =~= Seq::<Seq<char>>::empty());
    while i < v.len()
        invariant
            all == pkgtarget_views(v@),
            i <= v.len(),
            pkgtarget_views(r@) == dedup_spec(all.take(i as int)),
            forall|x: Seq<char>| #[trigger] seen@.contains(x) <==> pkgtarget_views(r@).contains(x),
        decreases v.len() - i,
    {
        proof {
            lemma_take_succ(all, i as int);
        }
        let ghost before = pkgtarget_views(r@);
        if !seen.contains(v[i].as_str()) {
            let _ = seen.insert(v[i].clone());
            r.push(v[i].clone());
            proof {
                let after = pkgtarget_views(r@);
                let x = v@[i as int]@;
                assert(after == before.push(x));
                assert(after[before.len() as int] == x);
                assert forall|y: Seq<char>| #[trigger] seen@.contains(y) <==> after.contains(y) by {
                    if before.contains(y) {
                        let w = choose|w: int| 0 <= w < before.len() && before[w] == y;
                        assert(after[w] == y);
                    }
                    if after.contains(y) && y != x {
                        let w = choose|w: int| 0 <= w < after.len() && after[w] == y;
                        assert(before[w] == y);
                    }
                }
            }
        }
        i = i + 1;
    }
    assert(all.take(i as int) =~= all);
    r
}

fn dedup_optdeps(v: &Vec<OptDep>) -> (r: Vec<OptDep>)
    ensures
        optdep_list(r@) == dedup_spec(optdep_list(v@)),
{
    let ghost all = optdep_list(v@);
    let mut r: Vec<OptDep> = Vec::new();
    let mut i: usize = 0;
    assert(all.take(0) =~= Seq::<OptDepView>::empty());
    while i < v.len()
        invariant
            all == optdep_list(v@),
            i <= v.len(),
            optdep_list(r@) == dedup_spec(all.take(i as int)),
        decreases v.len() - i,
    {
        proof {
            lemma_take_succ(all, i as int);
        }
        let mut known = false;
        let mut k: usize = 0;
        while k < r.len()
            invariant
                i < v.len(),
                k <= r.len(),
                known == exists|w: int| 0 <= w < k && optdep_list(r@)[w] == v@[i as int]@,
            decreases r.len() - k,
        {
            assert(optdep_list(r@)[k as int] == r@[k as int]@);
            if r[k].same_as(&v[i]) {
                known = true;
            }
            k = k + 1;
        }
        if !known {
            r.push(v[i].clone());
        }
        i = i + 1;
    }
    assert(all.take(i as int) =~= all);
    r
}

fn dedup_arch(v: &Vec<Arch>) -> (r: Vec<Arch>)
    ensures
        arch_list(r@) == dedup_spec(arch_list(v@)),
{
    let ghost all = arch_list(v@);
    let mut r: Vec<Arch> = Vec::new();
    let mut i: usize = 0;
    assert(all.take(0) =~= Seq::<Seq<char>>::empty());
    while i < v.len()
        invariant
            all == arch_list(v@),
            i <= v.len(),
            arch_list(r@) == dedup_spec(all.take(i as int)),
        decreases v.len() - i,
    {
        proof {
            lemma_take_succ(all, i as int);
        }
        let mut known = false;
        let mut k: usize = 0;
        while k < r.len()
            invariant
                i < v.len(),
                k <= r.len(),
                known == exists|w: int| 0 <= w < k && arch_list(r@)[w] == v@[i as int]@,
            decreases r.len() - k,
        {
            assert(arch_list(r@)[k as int] == r@[k as int]@);
            if same(r[k].as_str(), v[i].as_str()) {
                known = true;
            }
            k = k + 1;
        }
        if !known {
            r.push(v[i].clone());
        }
        i = i + 1;
    }
    assert(all.take(i as int) =~= all);
    r
}

/// Keeps the first pkgname of each name, and the first of its equal `provides`.
fn dedup_pkgnames(v: &Vec<Pkgname>) -> (r: Vec<Pkgname>)
    ensures
        pkgname_list(r@) == dedup_names_spec(
            pkgname_list(v@).map_values(|p: PkgnameView| tidy_pkgname(p)),
        ),
{
    let ghost all = pkgname_list(v@).map_values(|p: PkgnameView| tidy_pkgname(p));
    let mut seen: NameSet<PkgName> = NameSet::new();
    let mut r: Vec<Pkgname> = Vec::new();
    let mut i: usize = 0;
    assert(all.take(0) =~= Seq::<PkgnameView>::empty());
    while i < v.len()
        invariant
            all == pkgname_list(v@).map_values(|p: PkgnameView| tidy_pkgname(p)),
            i <= v.len(),
            pkgname_list(r@) == dedup_names_spec(all.take(i as int)),
            forall|x: Seq<char>| #[trigger]
                seen@.contains(x) <==> exists|w: int|
                    0 <= w < r.len() && (#[trigger] pkgname_list(r@)[w]).name == x,
        decreases v.len() - i,
    {
        proof {
            lemma_take_succ(all, i as int);
        }
        let ghost before = pkgname_list(r@);
        let ghost x = v@[i as int].name@;
        if !seen.contains(v[i].name.as_str()) {
            let _ = seen.insert(v[i].name.clone());
            let pkgdesc = match &v[i].pkgdesc {
                Some(d) => Some(d.clone()),
                None => None,
            };
            let kept = Pkgname {
                name: v[i].name.clone(),
                provides: dedup(&v[i].provides),
                pkgdesc,
            };
            assert(kept@ == all[i as int]);
            r.push(kept);
            proof {
                let after = pkgname_list(r@);
                assert(after == before.push(all[i as int]));
                assert(after[before.len() as int].name == x);
                assert forall|y: Seq<char>| #[trigger]
                    seen@.contains(y) <==> exists|w: int|
                        0 <= w < r.len() && (#[trigger] after[w]).name == y by {
                    if exists|w: int| 0 <= w < before.len() && (#[trigger] before[w]).name == y {
                        let w = choose|w: int| 0 <= w < before.len() && (#[trigger] before[w]).name == y;
                        assert(after[w].name == y);
                    }
                    if y != x && exists|w: int| 0 <= w < r.len() && (#[trigger] after[w]).name == y {
                        let w = choose|w: int| 0 <= w < r.len() && (#[trigger] after[w]).name == y;
                        assert(before[w].name == y);
                    }
                }
            }
        }
        i = i + 1;
    }
    assert(all.take(i as int) =~= all);
    r
}

/// Reads a `.SRCINFO`. The caller adds the commit and the blob that it came from.
pub fn parse(text: &str) -> (r: Result<IndexEntry, Error>)
    ensures
        match r {
            Ok(e) => parse_spec(text@) == Ok::<EntryView, Seq<char>>(e@),
            Err(Error::SrcInfo(m)) => parse_spec(text@) == Err::<EntryView, Seq<char>>(m@),
            Err(_) => false,
        },
{
    let ls = lines(text);
    let ghost all = lines_spec(text@);
    let mut e = IndexEntry::default();
    let mut in_pkgname = false;
    let mut saw_anything = false;
    let mut i: usize = 0;
    assert(all.take(0) =~= Seq::<Seq<char>>::empty());
    while i < ls.len()
        invariant
            all == str_views(ls@),
            all == lines_spec(text@),
            i <= ls.len(),
            in_pkgname ==> e.pkgnames.len() > 0,
            read_lines(all.take(i as int)) == Ok::<Reading, nat>(reads(e, in_pkgname, saw_anything)),
        decreases ls.len() - i,
    {
        proof {
            lemma_take_succ(all, i as int);
        }
        assert(all[i as int] == ls@[i as int]@);
        let line = trim(ls[i]);
        if !line.is_empty() && line.get_char(0) != '#' {
            match split_once(line, "=") {
                Some((k, v)) => {
                    saw_anything = true;
                    assign(&mut e, &mut in_pkgname, canonical(trim(k)), trim(v), Ghost(true));
                },
                None => {
                    proof {
                        lemma_read_stops(all, i as int + 1);
                    }
                    let mut m = String::new();
                    m.append("line ");
                    m.append(dec_string(i as u64 + 1).as_str());
                    m.append(": no `=`");
                    assert(m@ =~= "line "@ + dec((i + 1) as nat) + ": no `=`"@);
                    return Err(Error::SrcInfo(m));
                },
            }
        }
        i = i + 1;
    }
    assert(all.take(i as int) =~= all);
    if !saw_anything {
        return Err(Error::SrcInfo("empty .SRCINFO".to_owned()));
    }
    if e.pkgbase.is_empty() {
        return Err(Error::SrcInfo("missing pkgbase".to_owned()));
    }
    let ghost read = e@;
    if e.pkgnames.len() == 0 {
        let only = Pkgname {
            name: e.pkgbase.canonical_pkgname(),
            provides: Vec::new(),
            pkgdesc: None,
        };
        assert(only@.provides =~= Seq::<Seq<char>>::empty());
        e.pkgnames.push(only);
        assert(e@.pkgnames =~= seq![
            PkgnameView { name: read.pkgbase, provides: Seq::empty(), pkgdesc: None },
        ]);
    }
    let tidied = IndexEntry {
        pkgnames: dedup_pkgnames(&e.pkgnames),
        depends: dedup(&e.depends),
        makedepends: dedup(&e.makedepends),
        checkdepends: dedup(&e.checkdepends),
        provides: dedup(&e.provides),
        conflicts: dedup(&e.conflicts),
        replaces: dedup(&e.replaces),
        optdepends: dedup_optdeps(&e.optdepends),
        arch: dedup_arch(&e.arch),
        pkgbase: e.pkgbase,
        pkgver: e.pkgver,
        pkgrel: e.pkgrel,
        epoch: e.epoch,
        pkgdesc: e.pkgdesc,
        url: e.url,
        commit_oid: e.commit_oid,
        srcinfo_blob_oid: e.srcinfo_blob_oid,
        commit_time: e.commit_time,
    };
    Ok(tidied)
}

/// Once a line has stopped a reader, later lines change nothing.
proof fn lemma_read_stops(ls: Seq<Seq<char>>, n: int)
    requires
        0 <= n <= ls.len(),
        read_lines(ls.take(n)) is Err,
    ensures
        read_lines(ls) == read_lines(ls.take(n)),
    decreases ls.len() - n,
{
    if n == ls.len() {
        assert(ls.take(n) =~= ls);
    } else {
        lemma_take_succ(ls, n);
        lemma_read_stops(ls, n + 1);
    }
}

/// Removing repetitions leaves each element once and loses none.
pub proof fn law_dedup<A>(s: Seq<A>)
    ensures
        dedup_spec(s).no_duplicates(),
        forall|x: A| dedup_spec(s).contains(x) <==> s.contains(x),
        s.no_duplicates() ==> dedup_spec(s) == s,
    decreases s.len(),
{
    if s.len() > 0 {
        let rest = s.drop_last();
        let d = dedup_spec(rest);
        law_dedup(rest);
        assert(s =~= rest.push(s.last()));
        assert forall|x: A| dedup_spec(s).contains(x) <==> s.contains(x) by {
            if s.contains(x) {
                let i = choose|i: int| 0 <= i < s.len() && s[i] == x;
                if i < rest.len() {
                    assert(rest[i] == x);
                    assert(rest.contains(x));
                    assert(d.contains(x));
                    let j = choose|j: int| 0 <= j < d.len() && d[j] == x;
                    assert(dedup_spec(s)[j] == x);
                } else if !d.contains(x) {
                    assert(dedup_spec(s)[d.len() as int] == x);
                }
            }
            if dedup_spec(s).contains(x) {
                let j = choose|j: int| 0 <= j < dedup_spec(s).len() && dedup_spec(s)[j] == x;
                if j < d.len() {
                    assert(d[j] == x);
                    assert(d.contains(x) && rest.contains(x));
                    let i = choose|i: int| 0 <= i < rest.len() && rest[i] == x;
                    assert(s[i] == x);
                } else {
                    assert(s[s.len() - 1] == x);
                }
            }
        }
        if s.no_duplicates() {
            assert(rest.no_duplicates());
            assert(!rest.contains(s.last())) by {
                if rest.contains(s.last()) {
                    let i = choose|i: int| 0 <= i < rest.len() && rest[i] == s.last();
                    assert(s[i] == s[s.len() - 1]);
                }
            }
        }
    }
}

/// The values of a key in the order of the lines, the architecture ignored.
pub open spec fn values_of(ls: Seq<Seq<char>>, key: Seq<char>) -> Seq<Seq<char>>
    decreases ls.len(),
{
    if ls.len() == 0 {
        Seq::empty()
    } else {
        let before = values_of(ls.drop_last(), key);
        match split_once_spec(trim_spec(ls.last()), "="@) {
            Some((k, v)) if speaks(ls.last()) && canonical_spec(trim_spec(k)) == key => before.push(
                trim_spec(v),
            ),
            _ => before,
        }
    }
}

proof fn lemma_lists_gather(ls: Seq<Seq<char>>)
    ensures
        read_lines(ls) matches Ok(r) ==> {
            &&& r.entry.depends == values_of(ls, "depends"@)
            &&& r.entry.makedepends == values_of(ls, "makedepends"@)
            &&& r.entry.checkdepends == values_of(ls, "checkdepends"@)
            &&& r.entry.conflicts == values_of(ls, "conflicts"@)
            &&& r.entry.replaces == values_of(ls, "replaces"@)
            &&& r.entry.arch == values_of(ls, "arch"@)
        },
    decreases ls.len(),
{
    if ls.len() > 0 {
        lemma_lists_gather(ls.drop_last());
        lemma_keys_differ();
        match read_lines(ls.drop_last()) {
            Ok(r) => if speaks(ls.last()) {
                match split_once_spec(trim_spec(ls.last()), "="@) {
                    Some((k, v)) => {
                        let key = canonical_spec(trim_spec(k));
                        let after = assign_spec(
                            Reading { saw_anything: true, ..r },
                            key,
                            trim_spec(v),
                        );
                        assert(read_lines(ls) == Ok::<Reading, nat>(after));
                        assert(after.entry.depends == values_of(ls, "depends"@));
                        assert(after.entry.makedepends == values_of(ls, "makedepends"@));
                        assert(after.entry.checkdepends == values_of(ls, "checkdepends"@));
                        assert(after.entry.conflicts == values_of(ls, "conflicts"@));
                        assert(after.entry.replaces == values_of(ls, "replaces"@));
                        assert(after.entry.arch == values_of(ls, "arch"@));
                    },
                    None => {},
                }
            },
            Err(_) => {},
        }
    }
}

/// The keys of the lists read otherwise than those that are tried before them.
proof fn lemma_keys_differ()
    ensures
        "pkgbase"@ != "arch"@,
        "pkgname"@ != "arch"@,
        "pkgver"@ != "arch"@,
        "pkgrel"@ != "arch"@,
        "epoch"@ != "arch"@,
        "pkgdesc"@ != "arch"@,
        "url"@ != "arch"@,
        "pkgbase"@ != "conflicts"@,
        "pkgname"@ != "conflicts"@,
        "pkgver"@ != "conflicts"@,
        "pkgrel"@ != "conflicts"@,
        "epoch"@ != "conflicts"@,
        "pkgdesc"@ != "conflicts"@,
        "url"@ != "conflicts"@,
        "arch"@ != "conflicts"@,
        "provides"@ != "conflicts"@,
        "pkgbase"@ != "replaces"@,
        "pkgname"@ != "replaces"@,
        "pkgver"@ != "replaces"@,
        "pkgrel"@ != "replaces"@,
        "epoch"@ != "replaces"@,
        "pkgdesc"@ != "replaces"@,
        "url"@ != "replaces"@,
        "arch"@ != "replaces"@,
        "provides"@ != "replaces"@,
        "conflicts"@ != "replaces"@,
        "pkgbase"@ != "depends"@,
        "pkgname"@ != "depends"@,
        "pkgver"@ != "depends"@,
        "pkgrel"@ != "depends"@,
        "epoch"@ != "depends"@,
        "pkgdesc"@ != "depends"@,
        "url"@ != "depends"@,
        "arch"@ != "depends"@,
        "provides"@ != "depends"@,
        "conflicts"@ != "depends"@,
        "replaces"@ != "depends"@,
        "pkgbase"@ != "makedepends"@,
        "pkgname"@ != "makedepends"@,
        "pkgver"@ != "makedepends"@,
        "pkgrel"@ != "makedepends"@,
        "epoch"@ != "makedepends"@,
        "pkgdesc"@ != "makedepends"@,
        "url"@ != "makedepends"@,
        "arch"@ != "makedepends"@,
        "provides"@ != "makedepends"@,
        "conflicts"@ != "makedepends"@,
        "replaces"@ != "makedepends"@,
        "depends"@ != "makedepends"@,
        "pkgbase"@ != "checkdepends"@,
        "pkgname"@ != "checkdepends"@,
        "pkgver"@ != "checkdepends"@,
        "pkgrel"@ != "checkdepends"@,
        "epoch"@ != "checkdepends"@,
        "pkgdesc"@ != "checkdepends"@,
        "url"@ != "checkdepends"@,
        "arch"@ != "checkdepends"@,
        "provides"@ != "checkdepends"@,
        "conflicts"@ != "checkdepends"@,
        "replaces"@ != "checkdepends"@,
        "depends"@ != "checkdepends"@,
        "makedepends"@ != "checkdepends"@,
{
    reveal_strlit("pkgbase");
    reveal_strlit("pkgname");
    reveal_strlit("pkgver");
    reveal_strlit("pkgrel");
    reveal_strlit("epoch");
    reveal_strlit("pkgdesc");
    reveal_strlit("url");
    reveal_strlit("arch");
    reveal_strlit("provides");
    reveal_strlit("conflicts");
    reveal_strlit("replaces");
    reveal_strlit("depends");
    reveal_strlit("makedepends");
    reveal_strlit("checkdepends");
    assert("pkgbase"@.len() == 7);
    assert("pkgname"@.len() == 7);
    assert("pkgver"@.len() == 6);
    assert("pkgrel"@.len() == 6);
    assert("epoch"@.len() == 5);
    assert("pkgdesc"@.len() == 7);
    assert("url"@.len() == 3);
    assert("arch"@.len() == 4);
    assert("provides"@.len() == 8);
    assert("conflicts"@.len() == 9);
    assert("replaces"@.len() == 8);
    assert("depends"@.len() == 7);
    assert("makedepends"@.len() == 11);
    assert("checkdepends"@.len() == 12);
    assert("pkgbase"@[0] == 'p' && "pkgname"@[0] == 'p' && "pkgdesc"@[0] == 'p');
    assert("provides"@[0] == 'p' && "replaces"@[0] == 'r' && "depends"@[0] == 'd');
}

/// Whatever section a line stands in, and whatever architecture its key names, its
/// value is in the one list of the pkgbase, once.
pub proof fn law_lists_are_flat(text: Seq<char>)
    ensures
        parse_spec(text) matches Ok(e) ==> {
            let ls = lines_spec(text);
            &&& e.depends == dedup_spec(values_of(ls, "depends"@))
            &&& e.makedepends == dedup_spec(values_of(ls, "makedepends"@))
            &&& e.checkdepends == dedup_spec(values_of(ls, "checkdepends"@))
            &&& e.conflicts == dedup_spec(values_of(ls, "conflicts"@))
            &&& e.replaces == dedup_spec(values_of(ls, "replaces"@))
            &&& e.arch == dedup_spec(values_of(ls, "arch"@))
        },
{
    lemma_lists_gather(lines_spec(text));
}

proof fn lemma_dedup_names(s: Seq<PkgnameView>)
    ensures
        s.len() > 0 ==> dedup_names_spec(s).len() > 0,
        forall|i: int, j: int|
            0 <= i < j < dedup_names_spec(s).len() ==> (#[trigger] dedup_names_spec(s)[i]).name != (
            #[trigger] dedup_names_spec(s)[j]).name,
    decreases s.len(),
{
    if s.len() > 0 {
        lemma_dedup_names(s.drop_last());
    }
}

/// A pkgbase that was read has a name and at least one pkgname, and no two of its
/// pkgnames read the same.
pub proof fn law_parsed_entry_is_named(text: Seq<char>)
    ensures
        parse_spec(text) matches Ok(e) ==> {
            &&& e.pkgbase.len() > 0
            &&& e.pkgnames.len() > 0
            &&& forall|i: int, j: int|
                0 <= i < j < e.pkgnames.len() ==> (#[trigger] e.pkgnames[i]).name != (
                #[trigger] e.pkgnames[j]).name
        },
{
    match read_lines(lines_spec(text)) {
        Ok(r) => {
            let e = r.entry;
            let named = if e.pkgnames.len() == 0 {
                seq![PkgnameView { name: e.pkgbase, provides: Seq::empty(), pkgdesc: None }]
            } else {
                e.pkgnames
            };
            lemma_dedup_names(named.map_values(|p: PkgnameView| tidy_pkgname(p)));
        },
        Err(_) => {},
    }
}

} // verus!
