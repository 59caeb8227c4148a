//! Bringing the index up to date with the branches of the mirror.

use vstd::prelude::*;
use vstd::utf8::{decode_utf8, valid_utf8};

use crate::error::Error;
use crate::index::schema::{entry_list, EntryView, IndexEntry, IndexFile};
use crate::index::srcinfo::{parse, parse_spec};
use crate::maps::NameMap;
use crate::names::PkgBase;
use crate::order::{goes_first, is_sort_order, lex_lt, sort_order};
use crate::seqs::lemma_take_succ;
use crate::text::{from_utf8, skip, starts_with, utf8_complaint, views};
use crate::units::UnixTime;

verus! {

broadcast use {vstd::string::group_string_axioms, crate::seqs::lemma_map_push};

/// What happened to a branch of the mirror.
pub enum BranchChange {
    /// The branch of this reference is gone.
    Deleted(String),
    /// The branch holds this entry now.
    Updated(IndexEntry),
    /// The branch holds nothing that can be read.
    Unreadable,
}

/// What a [`BranchChange`] says.
pub enum ChangeView {
    Deleted(Seq<char>),
    Updated(EntryView),
    Unreadable,
}

impl View for BranchChange {
    type V = ChangeView;

    open spec fn view(&self) -> ChangeView {
        match *self {
            BranchChange::Deleted(r) => ChangeView::Deleted(r@),
            BranchChange::Updated(e) => ChangeView::Updated(e@),
            BranchChange::Unreadable => ChangeView::Unreadable,
        }
    }
}

/// The views of a list of changes.
pub open spec fn change_views(v: Seq<BranchChange>) -> Seq<ChangeView> {
    v.map_values(|c: BranchChange| c@)
}

/// How many entries an update touched.
#[derive(Debug, Clone, Copy, PartialEq, Eq, Structural)]
pub struct UpdateCounts {
    pub deleted: u64,
    pub upserted: u64,
}

/// The branch of a reference.
pub open spec fn branch_of(refname: Seq<char>) -> Seq<char> {
    if "refs/heads/"@.is_prefix_of(refname) {
        refname.skip("refs/heads/"@.len() as int)
    } else {
        refname
    }
}

/// The last entry of a pkgbase.
pub open spec fn last_of_base(rows: Seq<EntryView>, b: Seq<char>) -> Option<int>
    decreases rows.len(),
{
    if rows.len() == 0 {
        None
    } else if rows.last().pkgbase == b {
        Some(rows.len() - 1)
    } else {
        last_of_base(rows.drop_last(), b)
    }
}

/// The list without its `i`th element, whose place the last one takes.
pub open spec fn swap_removed<A>(s: Seq<A>, i: int) -> Seq<A> {
    if i == s.len() - 1 {
        s.drop_last()
    } else {
        s.update(i, s.last()).drop_last()
    }
}

/// The entries after one change.
pub open spec fn apply_change(rows: Seq<EntryView>, c: ChangeView) -> Seq<EntryView> {
    match c {
        ChangeView::Deleted(r) => match last_of_base(rows, branch_of(r)) {
            Some(i) => swap_removed(rows, i),
            None => rows,
        },
        ChangeView::Updated(e) => match last_of_base(rows, e.pkgbase) {
            Some(i) => rows.update(i, e),
            None => rows.push(e),
        },
        ChangeView::Unreadable => rows,
    }
}

/// The entries after the changes, one after the other.
pub open spec fn apply_changes(rows: Seq<EntryView>, cs: Seq<ChangeView>) -> Seq<EntryView>
    decreases cs.len(),
{
    if cs.len() == 0 {
        rows
    } else {
        apply_change(apply_changes(rows, cs.drop_last()), cs.last())
    }
}

/// The pkgbases of entries.
pub open spec fn bases(rows: Seq<EntryView>) -> Seq<Seq<char>> {
    rows.map_values(|e: EntryView| e.pkgbase)
}

/// `sorted` is `rows` after a stable sort by pkgbase.
pub open spec fn is_sorted_from(rows: Seq<EntryView>, sorted: Seq<EntryView>) -> bool {
    exists|order: Seq<usize>| #[trigger]
        is_sort_order(bases(rows), order) && sorted == order.map_values(|i: usize| rows[i as int])
}

proof fn lemma_last_of_base(rows: Seq<EntryView>, b: Seq<char>)
    ensures
        match last_of_base(rows, b) {
            Some(i) => 0 <= i < rows.len() && rows[i].pkgbase == b && forall|j: int|
                i < j < rows.len() ==> (#[trigger] rows[j]).pkgbase != b,
            None => forall|j: int| 0 <= j < rows.len() ==> (#[trigger] rows[j]).pkgbase != b,
        },
    decreases rows.len(),
{
    if rows.len() > 0 && rows.last().pkgbase != b {
        lemma_last_of_base(rows.drop_last(), b);
        assert forall|j: int| 0 <= j < rows.len() - 1 implies rows[j] == rows.drop_last()[j] by {}
    }
}

/// `m` leads each pkgbase to its last entry.
spec fn tracks(rows: Seq<EntryView>, m: Map<Seq<char>, usize>) -> bool {
    forall|b: Seq<char>|
        match last_of_base(rows, b) {
            Some(i) => #[trigger] m.dom().contains(b) && m[b] == i,
            None => !m.dom().contains(b),
        }
}

fn track(entries: &Vec<IndexEntry>) -> (m: NameMap<PkgBase, usize>)
    ensures
        tracks(entry_list(entries@), m@),
{
    let ghost rows = entry_list(entries@);
    let mut m: NameMap<PkgBase, usize> = NameMap::new();
    let mut i: usize = 0;
    assert(rows.take(0) =~= Seq::<EntryView>::empty());
    while i < entries.len()
        invariant
            rows == entry_list(entries@),
            i <= entries.len(),
            tracks(rows.take(i as int), m@),
        decreases entries.len() - i,
    {
        proof {
            lemma_take_succ(rows, i as int);
        }
        assert(rows[i as int] == entries@[i as int]@);
        let ghost before = m@;
        m.insert(entries[i].pkgbase.clone(), i);
        proof {
            let next = rows.take(i as int + 1);
            assert forall|b: Seq<char>|
                match last_of_base(next, b) {
                    Some(k) => #[trigger] m@.dom().contains(b) && m@[b] == k,
                    None => !m@.dom().contains(b),
                } by {
                if b != rows[i as int].pkgbase {
                    assert(m@.dom().contains(b) <==> before.dom().contains(b));
                }
            }
        }
        i = i + 1;
    }
    assert(rows.take(i as int) =~= rows);
    m
}

/// Sorts the entries by pkgbase, stably.
pub(crate) fn sort_entries(entries: &mut Vec<IndexEntry>)
    ensures
        is_sorted_from(entry_list(old(entries)@), entry_list(final(entries)@)),
{
    let ghost rows = entry_list(entries@);
    let n: usize = entries.len();
    let mut keys: Vec<String> = Vec::new();
    let mut i: usize = 0;
    assert(views(keys@) =~= bases(rows).take(0));
    while i < n
        invariant
            rows == entry_list(entries@),
            n == entries.len(),
            i <= n,
            views(keys@) == bases(rows).take(i as int),
        decreases n - i,
    {
        proof {
            lemma_take_succ(bases(rows), i as int);
        }
        keys.push(entries[i].pkgbase.to_string());
        assert(bases(rows)[i as int] == entries@[i as int].pkgbase@);
        i = i + 1;
    }
    assert(bases(rows).take(i as int) =~= bases(rows));
    let order = sort_order(&keys);
    let mut out: Vec<IndexEntry> = Vec::new();
    let mut k: usize = 0;
    while k < n
        invariant
            n == entries.len(),
            n == rows.len(),
            is_sort_order(bases(rows), order@),
            k <= n,
            out.len() == k,
            forall|j: int| 0 <= j < k ==> (#[trigger] out@[j])@ == rows[order@[j] as int],
            forall|j: int|
                k <= j < n ==> entries@[#[trigger] order@[j] as int]@ == rows[order@[j] as int],
        decreases n - k,
    {
        let at: usize = order[k];
        let mut taken = IndexEntry::default();
        std::mem::swap(&mut entries[at], &mut taken);
        out.push(taken);
        proof {
            assert forall|j: int| k + 1 <= j < n implies entries@[#[trigger] order@[j] as int]@
                == rows[order@[j] as int] by {
                assert(goes_first(bases(rows), order@[k as int] as int, order@[j] as int));
                crate::order::lemma_lex_irreflexive(bases(rows)[at as int]);
                assert(order@[j] != at);
            }
        }
        k = k + 1;
    }
    *entries = out;
    proof {
        assert(entry_list(entries@) =~= order@.map_values(|i: usize| rows[i as int]));
    }
}

/// Applies what happened to the branches, in order, and sorts the entries. What
/// cannot be read is left as it was.
pub fn incremental_update(changes: Vec<BranchChange>, idx: &mut IndexFile) -> (r: UpdateCounts)
    ensures
        is_sorted_from(
            apply_changes(old(idx).rows(), change_views(changes@)),
            final(idx).rows(),
        ),
        final(idx).format_version == old(idx).format_version,
        final(idx).mirror_head_oid == old(idx).mirror_head_oid,
        final(idx).built_at_unix == old(idx).built_at_unix,
        r.upserted as int == count_updated(change_views(changes@)),
        r.deleted as int == count_deleted(old(idx).rows(), change_views(changes@)),
{
    let ghost cs = change_views(changes@);
    let ghost start = idx.rows();
    let total: usize = changes.len();
    let mut rest = changes;
    let mut todo: Vec<BranchChange> = Vec::new();
    let ghost all = rest@;
    while rest.len() > 0
        invariant
            rest.len() + todo.len() == all.len(),
            forall|k: int| 0 <= k < rest.len() ==> #[trigger] rest@[k] == all[k],
            forall|k: int|
                0 <= k < todo.len() ==> #[trigger] todo@[k] == all[all.len() - 1 - k],
        decreases rest.len(),
    {
        let c = rest.pop().unwrap();
        todo.push(c);
    }
    let mut by_base = track(&idx.entries);
    let mut deleted: u64 = 0;
    let mut upserted: u64 = 0;
    let ghost mut done: int = 0;
    assert(cs.take(0) =~= Seq::<ChangeView>::empty());
    while todo.len() > 0
        invariant
            all.len() == total,
            cs == change_views(all),
            done + todo.len() == all.len(),
            forall|k: int|
                0 <= k < todo.len() ==> #[trigger] todo@[k] == all[all.len() - 1 - k],
            0 <= done,
            tracks(idx.rows(), by_base@),
            idx.rows() == apply_changes(start, cs.take(done)),
            idx.format_version == old(idx).format_version,
            idx.mirror_head_oid == old(idx).mirror_head_oid,
            idx.built_at_unix == old(idx).built_at_unix,
            upserted as int == count_updated(cs.take(done)),
            deleted as int == count_deleted(start, cs.take(done)),
            upserted <= done,
            deleted <= done,
        decreases todo.len(),
    {
        let ghost rows = idx.rows();
        let c = todo.pop().unwrap();
        proof {
            lemma_take_succ(cs, done);
            assert(cs[done] == all[done]@);
            assert(c == all[done]);
        }
        match c {
            BranchChange::Deleted(refname) => {
                let branch = if starts_with(refname.as_str(), "refs/heads/") {
                    skip(refname.as_str(), "refs/heads/".unicode_len())
                } else {
                    refname.as_str()
                };
                proof {
                    lemma_last_of_base(rows, branch@);
                }
                let known = match by_base.get(branch) {
                    Some(i) => Some(*i),
                    None => None,
                };
                match known {
                    Some(i) => {
                        let _ = idx.entries.swap_remove(i);
                        assert(idx.rows() =~= swap_removed(rows, i as int));
                        deleted = deleted + 1;
                        by_base = track(&idx.entries);
                    },
                    None => {},
                }
            },
            BranchChange::Updated(e) => {
                let ghost entry = e@;
                proof {
                    lemma_last_of_base(rows, entry.pkgbase);
                }
                upserted = upserted + 1;
                let known = match by_base.get(e.pkgbase.as_str()) {
                    Some(i) => Some(*i),
                    None => None,
                };
                match known {
                    Some(i) => {
                        idx.entries.set(i, e);
                        proof {
                            assert(idx.rows() =~= rows.update(i as int, entry));
                            lemma_update_keeps_tracks(rows, by_base@, i as int, entry);
                        }
                    },
                    None => {
                        let n: usize = idx.entries.len();
                        by_base.insert(e.pkgbase.clone(), n);
                        idx.entries.push(e);
                        proof {
                            assert(idx.rows() =~= rows.push(entry));
                            assert(idx.rows().drop_last() =~= rows);
                        }
                    },
                }
            },
            BranchChange::Unreadable => {},
        }
        proof {
            done = done + 1;
        }
    }
    assert(cs.take(done) =~= cs);
    sort_entries(&mut idx.entries);
    UpdateCounts { deleted, upserted }
}

/// How many of the changes bring an entry.
pub open spec fn count_updated(cs: Seq<ChangeView>) -> int
    decreases cs.len(),
{
    if cs.len() == 0 {
        0
    } else {
        count_updated(cs.drop_last()) + (if cs.last() is Updated {
            1int
        } else {
            0int
        })
    }
}

/// How many of the changes take an entry away.
pub open spec fn count_deleted(rows: Seq<EntryView>, cs: Seq<ChangeView>) -> int
    decreases cs.len(),
{
    if cs.len() == 0 {
        0
    } else {
        let hit = match cs.last() {
            ChangeView::Deleted(r) => last_of_base(
                apply_changes(rows, cs.drop_last()),
                branch_of(r),
            ) is Some,
            _ => false,
        };
        count_deleted(rows, cs.drop_last()) + (if hit {
            1int
        } else {
            0int
        })
    }
}

proof fn lemma_update_keeps_tracks(
    rows: Seq<EntryView>,
    m: Map<Seq<char>, usize>,
    i: int,
    e: EntryView,
)
    requires
        tracks(rows, m),
        0 <= i < rows.len(),
        rows[i].pkgbase == e.pkgbase,
    ensures
        tracks(rows.update(i, e), m),
{
    let next = rows.update(i, e);
    assert forall|b: Seq<char>|
        match last_of_base(next, b) {
            Some(k) => #[trigger] m.dom().contains(b) && m[b] == k,
            None => !m.dom().contains(b),
        } by {
        lemma_last_of_base(next, b);
        lemma_last_of_base(rows, b);
        assert forall|j: int| 0 <= j < rows.len() implies (#[trigger] next[j]).pkgbase
            == rows[j].pkgbase by {}
        match (last_of_base(next, b), last_of_base(rows, b)) {
            (Some(x), Some(y)) => {
                if x < y {
                    assert(next[y].pkgbase != b);
                } else if y < x {
                    assert(rows[x].pkgbase != b);
                }
            },
            (Some(x), None) => {
                assert(rows[x].pkgbase != b);
            },
            (None, Some(y)) => {
                assert(next[y].pkgbase != b);
            },
            (None, None) => {},
        }
    }
}

/// No two entries have the same pkgbase.
pub open spec fn bases_differ(rows: Seq<EntryView>) -> bool {
    forall|i: int, j: int|
        0 <= i < j < rows.len() ==> (#[trigger] rows[i]).pkgbase != (#[trigger] rows[j]).pkgbase
}

/// The entries by pkgbase.
pub open spec fn by_pkgbase(rows: Seq<EntryView>) -> Map<Seq<char>, EntryView> {
    Map::new(
        |b: Seq<char>| last_of_base(rows, b) is Some,
        |b: Seq<char>| rows[last_of_base(rows, b)->0],
    )
}

/// A table of entries after one change.
pub open spec fn change_table(m: Map<Seq<char>, EntryView>, c: ChangeView) -> Map<
    Seq<char>,
    EntryView,
> {
    match c {
        ChangeView::Deleted(r) => m.remove(branch_of(r)),
        ChangeView::Updated(e) => m.insert(e.pkgbase, e),
        ChangeView::Unreadable => m,
    }
}

/// A table of entries after the changes.
pub open spec fn change_tables(m: Map<Seq<char>, EntryView>, cs: Seq<ChangeView>) -> Map<
    Seq<char>,
    EntryView,
>
    decreases cs.len(),
{
    if cs.len() == 0 {
        m
    } else {
        change_table(change_tables(m, cs.drop_last()), cs.last())
    }
}

/// The entries by pkgbase, of entries that no two have the same.
pub proof fn lemma_by_pkgbase(rows: Seq<EntryView>)
    requires
        bases_differ(rows),
    ensures
        forall|b: Seq<char>| #[trigger]
            by_pkgbase(rows).dom().contains(b) <==> exists|i: int|
                0 <= i < rows.len() && (#[trigger] rows[i]).pkgbase == b,
        forall|i: int|
            0 <= i < rows.len() ==> by_pkgbase(rows)[(#[trigger] rows[i]).pkgbase] == rows[i],
{
    assert forall|b: Seq<char>| #[trigger]
        by_pkgbase(rows).dom().contains(b) <==> exists|i: int|
            0 <= i < rows.len() && (#[trigger] rows[i]).pkgbase == b by {
        lemma_last_of_base(rows, b);
    }
    assert forall|i: int| 0 <= i < rows.len() implies by_pkgbase(rows)[(
    #[trigger] rows[i]).pkgbase] == rows[i] by {
        let b = rows[i].pkgbase;
        lemma_last_of_base(rows, b);
        let k = last_of_base(rows, b)->0;
        if i < k {
            assert(rows[i].pkgbase != rows[k].pkgbase);
        }
    }
}

proof fn lemma_change(rows: Seq<EntryView>, c: ChangeView)
    requires
        bases_differ(rows),
    ensures
        bases_differ(apply_change(rows, c)),
        by_pkgbase(apply_change(rows, c)) == change_table(by_pkgbase(rows), c),
{
    let next = apply_change(rows, c);
    let m = by_pkgbase(rows);
    lemma_by_pkgbase(rows);
    match c {
        ChangeView::Deleted(r) => {
            let b = branch_of(r);
            lemma_last_of_base(rows, b);
            match last_of_base(rows, b) {
                Some(i) => {
                    assert(bases_differ(next));
                    lemma_by_pkgbase(next);
                    assert forall|n: Seq<char>| #[trigger]
                        by_pkgbase(next).dom().contains(n) <==> m.remove(b).dom().contains(n) by {
                        if by_pkgbase(next).dom().contains(n) {
                            let k = choose|k: int|
                                0 <= k < next.len() && (#[trigger] next[k]).pkgbase == n;
                            if k == i {
                                assert(rows[rows.len() - 1].pkgbase == n);
                            } else {
                                assert(rows[k].pkgbase == n);
                            }
                        }
                        if m.remove(b).dom().contains(n) {
                            let k = choose|k: int|
                                0 <= k < rows.len() && (#[trigger] rows[k]).pkgbase == n;
                            if k == rows.len() - 1 {
                                assert(next[i].pkgbase == n);
                            } else {
                                assert(next[k].pkgbase == n);
                            }
                        }
                    }
                    assert forall|n: Seq<char>| #[trigger]
                        by_pkgbase(next).dom().contains(n) implies by_pkgbase(next)[n]
                        == m.remove(b)[n] by {
                        let k = choose|k: int|
                            0 <= k < next.len() && (#[trigger] next[k]).pkgbase == n;
                        if k == i {
                            assert(next[k] == rows[rows.len() - 1]);
                        } else {
                            assert(next[k] == rows[k]);
                        }
                    }
                    assert(by_pkgbase(next) =~= m.remove(b));
                },
                None => {
                    assert(!m.dom().contains(b));
                    assert(m.remove(b) =~= m);
                },
            }
        },
        ChangeView::Updated(e) => {
            let b = e.pkgbase;
            lemma_last_of_base(rows, b);
            assert(bases_differ(next));
            lemma_by_pkgbase(next);
            let at = match last_of_base(rows, b) {
                Some(i) => i,
                None => rows.len() as int,
            };
            assert(next[at] == e);
            assert forall|n: Seq<char>| #[trigger]
                by_pkgbase(next).dom().contains(n) <==> m.insert(b, e).dom().contains(n) by {
                if by_pkgbase(next).dom().contains(n) {
                    let k = choose|k: int| 0 <= k < next.len() && (#[trigger] next[k]).pkgbase == n;
                    if k != at {
                        assert(rows[k].pkgbase == n);
                    }
                }
                if m.insert(b, e).dom().contains(n) && n != b {
                    let k = choose|k: int| 0 <= k < rows.len() && (#[trigger] rows[k]).pkgbase == n;
                    assert(next[k].pkgbase == n);
                }
            }
            assert forall|n: Seq<char>| #[trigger]
                by_pkgbase(next).dom().contains(n) implies by_pkgbase(next)[n] == m.insert(
                b,
                e,
            )[n] by {
                let k = choose|k: int| 0 <= k < next.len() && (#[trigger] next[k]).pkgbase == n;
                if k != at {
                    assert(next[k] == rows[k]);
                }
            }
            assert(by_pkgbase(next) =~= m.insert(b, e));
        },
        ChangeView::Unreadable => {},
    }
}

proof fn lemma_changes(rows: Seq<EntryView>, cs: Seq<ChangeView>)
    requires
        bases_differ(rows),
    ensures
        bases_differ(apply_changes(rows, cs)),
        by_pkgbase(apply_changes(rows, cs)) == change_tables(by_pkgbase(rows), cs),
    decreases cs.len(),
{
    if cs.len() > 0 {
        lemma_changes(rows, cs.drop_last());
        lemma_change(apply_changes(rows, cs.drop_last()), cs.last());
    }
}

/// A sort loses nothing and repeats nothing.
pub proof fn lemma_sorted_same_table(rows: Seq<EntryView>, sorted: Seq<EntryView>)
    requires
        bases_differ(rows),
        is_sorted_from(rows, sorted),
    ensures
        bases_differ(sorted),
        by_pkgbase(sorted) == by_pkgbase(rows),
        crate::order::strictly_sorted(bases(sorted)),
{
    let ks = bases(rows);
    let order = choose|order: Seq<usize>| #[trigger]
        is_sort_order(ks, order) && sorted == order.map_values(|i: usize| rows[i as int]);
    assert forall|i: int, j: int| 0 <= i < j < sorted.len() implies lex_lt(
        #[trigger] bases(sorted)[i],
        #[trigger] bases(sorted)[j],
    ) by {
        assert(goes_first(ks, order[i] as int, order[j] as int));
        assert(bases(sorted)[i] == ks[order[i] as int]);
        assert(bases(sorted)[j] == ks[order[j] as int]);
        crate::order::lemma_lex_irreflexive(ks[order[i] as int]);
        if ks[order[i] as int] == ks[order[j] as int] {
            assert(rows[order[i] as int].pkgbase != rows[order[j] as int].pkgbase);
        }
    }
    assert forall|i: int, j: int| 0 <= i < j < sorted.len() implies (
    #[trigger] sorted[i]).pkgbase != (#[trigger] sorted[j]).pkgbase by {
        assert(lex_lt(bases(sorted)[i], bases(sorted)[j]));
        crate::order::lemma_lex_asymmetric(bases(sorted)[i], bases(sorted)[j]);
    }
    lemma_by_pkgbase(rows);
    lemma_by_pkgbase(sorted);
    let a = by_pkgbase(sorted);
    let b = by_pkgbase(rows);
    assert forall|n: Seq<char>| #[trigger] a.dom().contains(n) <==> b.dom().contains(n) by {
        if a.dom().contains(n) {
            let k = choose|k: int| 0 <= k < sorted.len() && (#[trigger] sorted[k]).pkgbase == n;
            assert(rows[order[k] as int].pkgbase == n);
        }
        if b.dom().contains(n) {
            let k = choose|k: int| 0 <= k < rows.len() && (#[trigger] rows[k]).pkgbase == n;
            assert(crate::order::is_listed(order, k));
            let p = choose|p: int| 0 <= p < order.len() && #[trigger] order[p] == k;
            assert(sorted[p].pkgbase == n);
        }
    }
    assert forall|n: Seq<char>| #[trigger] a.dom().contains(n) implies a[n] == b[n] by {
        let k = choose|k: int| 0 <= k < sorted.len() && (#[trigger] sorted[k]).pkgbase == n;
        assert(sorted[k] == rows[order[k] as int]);
        assert(rows[order[k] as int].pkgbase == n);
    }
    assert(a =~= b);
}

/// An update of an index in which no two entries have the same pkgbase leaves such an
/// index, sorted. It holds what was there, without the branches that are gone and with
/// the last entry that each branch brought.
pub proof fn law_update_is_by_pkgbase(
    before: Seq<EntryView>,
    cs: Seq<ChangeView>,
    after: Seq<EntryView>,
)
    requires
        bases_differ(before),
        is_sorted_from(apply_changes(before, cs), after),
    ensures
        bases_differ(after),
        crate::order::strictly_sorted(bases(after)),
        by_pkgbase(after) == change_tables(by_pkgbase(before), cs),
{
    lemma_changes(before, cs);
    lemma_sorted_same_table(apply_changes(before, cs), after);
}

/// The entry that the text of a `.SRCINFO` describes, stamped with the commit and the
/// blob that it comes from, or what is wrong with the text.
pub open spec fn stamped_spec(text: Seq<char>, commit: Seq<u8>, blob_oid: Seq<u8>, time: int) -> Result<
    EntryView,
    Seq<char>,
> {
    match parse_spec(text) {
        Ok(e) => Ok(
            EntryView {
                commit_oid: commit,
                srcinfo_blob_oid: blob_oid,
                commit_time: time,
                ..e
            },
        ),
        Err(m) => Err(m),
    }
}

/// Whether `r` is what `want` says.
pub open spec fn is_entry(r: Result<IndexEntry, Error>, want: Result<EntryView, Seq<char>>) -> bool {
    match r {
        Ok(e) => want == Ok::<EntryView, Seq<char>>(e@),
        Err(Error::SrcInfo(m)) => want == Err::<EntryView, Seq<char>>(m@),
        Err(_) => false,
    }
}

/// Reads the text of a `.SRCINFO` and stamps the entry.
pub(crate) fn parse_stamped(
    text: &str,
    commit_oid: [u8; 20],
    blob_oid: [u8; 20],
    commit_time: i64,
) -> (r: Result<IndexEntry, Error>)
    ensures
        is_entry(r, stamped_spec(text@, commit_oid@, blob_oid@, commit_time as int)),
{
    match parse(text) {
        Ok(e) => {
            let mut entry = e;
            entry.commit_oid = commit_oid;
            entry.srcinfo_blob_oid = blob_oid;
            entry.commit_time = UnixTime::new(commit_time);
            Ok(entry)
        },
        Err(e) => Err(e),
    }
}

/// The entry of a branch, or what is wrong with it. `blob` holds the bytes of its
/// `.SRCINFO`, where it has one.
pub open spec fn branch_spec(
    branch: Seq<char>,
    blob: Option<Seq<u8>>,
    commit: Seq<u8>,
    blob_oid: Seq<u8>,
    time: int,
) -> Result<EntryView, Seq<char>> {
    match blob {
        None => Err(branch + ": no .SRCINFO"@),
        Some(bytes) => if !valid_utf8(bytes) {
            Err(branch + ": utf8: "@ + utf8_complaint(bytes))
        } else {
            stamped_spec(decode_utf8(bytes), commit, blob_oid, time)
        },
    }
}

/// Reads the entry of a branch that changed and stamps it with the commit and the
/// blob that it comes from. A time of 0 is one that is not known.
pub fn parse_branch(
    branch: &str,
    blob: Option<&[u8]>,
    commit_oid: [u8; 20],
    blob_oid: [u8; 20],
    commit_time: i64,
) -> (r: Result<IndexEntry, Error>)
    ensures
        is_entry(
            r,
            branch_spec(
                branch@,
                match blob {
                    Some(b) => Some(b@),
                    None => None,
                },
                commit_oid@,
                blob_oid@,
                commit_time as int,
            ),
        ),
{
    match blob {
        None => {
            let mut m = branch.to_owned();
            m.append(": no .SRCINFO");
            Err(Error::SrcInfo(m))
        },
        Some(bytes) => match from_utf8(bytes) {
            Err(what) => {
                let mut m = branch.to_owned();
                m.append(": utf8: ");
                m.append(what.as_str());
                Err(Error::SrcInfo(m))
            },
            Ok(text) => parse_stamped(text, commit_oid, blob_oid, commit_time),
        },
    }
}

} // verus!
