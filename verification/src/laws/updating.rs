//! How an index follows its branches, and how lists are sorted.

use vstd::prelude::*;

use crate::error::Error;
use crate::index::fresh::{readable, unreadable};
use crate::index::schema::{EntryView, IndexEntry};
use crate::index::srcinfo::parse_spec;
use crate::index::update::{
    apply_changes, branch_of, branch_spec, change_tables, count_deleted, count_updated,
    last_of_base, stamped_spec, ChangeView,
};
use crate::order::{
    is_key_order, is_sort_order, key_lt, lex_lt, SortKey,
};

verus! {

/// The branch of a reference is what stands behind `refs/heads/`; any other name stands
/// for itself.
pub proof fn law_references_name_branches(b: Seq<char>)
    ensures
        branch_of("refs/heads/"@ + b) == b,
        !("refs/heads/"@).is_prefix_of(b) ==> branch_of(b) == b,
{
    reveal_strlit("refs/heads/");
    let s = "refs/heads/"@ + b;
    assert("refs/heads/"@ =~= s.subrange(0, 11));
    assert(s.skip(11) =~= b);
}

/// The change is about the branch `b`.
pub open spec fn is_about(c: ChangeView, b: Seq<char>) -> bool {
    match c {
        ChangeView::Deleted(r) => branch_of(r) == b,
        ChangeView::Updated(e) => e.pkgbase == b,
        ChangeView::Unreadable => false,
    }
}

/// The last change of a branch decides what is left of it: the entry that it brought, or
/// nothing where it took the branch away.
pub proof fn law_the_last_change_counts(
    m: Map<Seq<char>, EntryView>,
    cs: Seq<ChangeView>,
    b: Seq<char>,
    i: int,
)
    requires
        0 <= i < cs.len(),
        is_about(cs[i], b),
        forall|j: int| i < j < cs.len() ==> !is_about(#[trigger] cs[j], b),
    ensures
        match cs[i] {
            ChangeView::Updated(e) => change_tables(m, cs).dom().contains(b) && change_tables(
                m,
                cs,
            )[b] == e,
            _ => !change_tables(m, cs).dom().contains(b),
        },
    decreases cs.len(),
{
    if i < cs.len() - 1 {
        let r = cs.drop_last();
        assert(!is_about(cs[cs.len() - 1], b));
        assert forall|j: int| i < j < r.len() implies !is_about(#[trigger] r[j], b) by {
            assert(r[j] == cs[j]);
        }
        law_the_last_change_counts(m, r, b, i);
    }
}

/// A branch that no change is about stays as it was.
pub proof fn law_other_branches_stay(
    m: Map<Seq<char>, EntryView>,
    cs: Seq<ChangeView>,
    b: Seq<char>,
)
    requires
        forall|j: int| 0 <= j < cs.len() ==> !is_about(#[trigger] cs[j], b),
    ensures
        change_tables(m, cs).dom().contains(b) <==> m.dom().contains(b),
        m.dom().contains(b) ==> change_tables(m, cs)[b] == m[b],
    decreases cs.len(),
{
    if cs.len() > 0 {
        let r = cs.drop_last();
        assert(!is_about(cs[cs.len() - 1], b));
        assert forall|j: int| 0 <= j < r.len() implies !is_about(#[trigger] r[j], b) by {
            assert(r[j] == cs[j]);
        }
        law_other_branches_stay(m, r, b);
    }
}

/// The last entry of a pkgbase is found, if there is any.
pub proof fn law_the_last_entry_is_found(rows: Seq<EntryView>, b: Seq<char>)
    ensures
        match last_of_base(rows, b) {
            Some(i) => 0 <= i < rows.len() && rows[i].pkgbase == b && (forall|j: int|
                i < j < rows.len() ==> (#[trigger] rows[j]).pkgbase != b),
            None => forall|j: int| 0 <= j < rows.len() ==> (#[trigger] rows[j]).pkgbase != b,
        },
    decreases rows.len(),
{
    if rows.len() > 0 && rows.last().pkgbase != b {
        let r = rows.drop_last();
        law_the_last_entry_is_found(r, b);
        assert forall|j: int| 0 <= j < r.len() implies r[j] == #[trigger] rows[j] by {}
    }
}

/// Every entry that a branch brought counts once.
pub proof fn law_every_update_counts_once(a: Seq<ChangeView>, b: Seq<ChangeView>, c: ChangeView)
    ensures
        count_updated(Seq::empty()) == 0,
        count_updated(seq![c]) == (if c is Updated {
            1int
        } else {
            0int
        }),
        count_updated(a + b) == count_updated(a) + count_updated(b),
    decreases b.len(),
{
    assert(seq![c].drop_last() =~= Seq::<ChangeView>::empty());
    assert(count_updated(Seq::<ChangeView>::empty()) == 0);
    if b.len() == 0 {
        assert(a + b =~= a);
    } else {
        law_every_update_counts_once(a, b.drop_last(), c);
        assert((a + b).drop_last() =~= a + b.drop_last());
        assert((a + b).last() == b.last());
    }
}

/// A branch that is gone counts exactly if there was an entry of it when it went.
pub proof fn law_a_deletion_counts_where_it_took_away(
    rows: Seq<EntryView>,
    cs: Seq<ChangeView>,
    r: Seq<char>,
    c: ChangeView,
)
    ensures
        count_deleted(rows, Seq::empty()) == 0,
        count_deleted(rows, cs.push(ChangeView::Deleted(r))) == count_deleted(rows, cs) + (if exists|
            i: int,
        |
            0 <= i < apply_changes(rows, cs).len() && (#[trigger] apply_changes(rows, cs)[i]).pkgbase
                == branch_of(r) {
            1int
        } else {
            0int
        }),
        !(c is Deleted) ==> count_deleted(rows, cs.push(c)) == count_deleted(rows, cs),
{
    assert(cs.push(ChangeView::Deleted(r)).drop_last() =~= cs);
    assert(cs.push(c).drop_last() =~= cs);
    law_the_last_entry_is_found(apply_changes(rows, cs), branch_of(r));
}

/// A deletion makes the list shorter by one where it takes something away. A change that
/// brings an entry makes it longer by one where there was none of that pkgbase.
pub proof fn law_how_long_the_index_gets(rows: Seq<EntryView>, cs: Seq<ChangeView>, c: ChangeView)
    ensures
        apply_changes(rows, Seq::empty()) == rows,
        ({
            let before = apply_changes(rows, cs);
            let after = apply_changes(rows, cs.push(c));
            match c {
                ChangeView::Deleted(r) => after.len() == before.len() - (if exists|i: int|
                    0 <= i < before.len() && (#[trigger] before[i]).pkgbase == branch_of(r) {
                    1int
                } else {
                    0int
                }),
                ChangeView::Updated(e) => after.len() == before.len() + (if exists|i: int|
                    0 <= i < before.len() && (#[trigger] before[i]).pkgbase == e.pkgbase {
                    0int
                } else {
                    1int
                }) && after.contains(e),
                ChangeView::Unreadable => after == before,
            }
        }),
{
    assert(cs.push(c).drop_last() =~= cs);
    let before = apply_changes(rows, cs);
    match c {
        ChangeView::Deleted(r) => {
            law_the_last_entry_is_found(before, branch_of(r));
        },
        ChangeView::Updated(e) => {
            law_the_last_entry_is_found(before, e.pkgbase);
            let after = apply_changes(rows, cs.push(c));
            match last_of_base(before, e.pkgbase) {
                Some(i) => {
                    assert(after[i] == e);
                },
                None => {
                    assert(after[before.len() as int] == e);
                },
            }
        },
        ChangeView::Unreadable => {},
    }
}

/// The entry of a branch says what its `.SRCINFO` says, and which commit, which blob and
/// which time it comes from.
pub proof fn law_entries_are_stamped(
    text: Seq<char>,
    commit: Seq<u8>,
    blob: Seq<u8>,
    time: int,
)
    ensures
        match parse_spec(text) {
            Ok(p) => stamped_spec(text, commit, blob, time) matches Ok(e) && {
                &&& e.commit_oid == commit
                &&& e.srcinfo_blob_oid == blob
                &&& e.commit_time == time
                &&& e.pkgbase == p.pkgbase
                &&& e.pkgnames == p.pkgnames
                &&& e.pkgver == p.pkgver
                &&& e.pkgrel == p.pkgrel
                &&& e.epoch == p.epoch
                &&& e.pkgdesc == p.pkgdesc
                &&& e.url == p.url
                &&& e.depends == p.depends
                &&& e.makedepends == p.makedepends
                &&& e.checkdepends == p.checkdepends
                &&& e.optdepends == p.optdepends
                &&& e.provides == p.provides
                &&& e.conflicts == p.conflicts
                &&& e.replaces == p.replaces
                &&& e.arch == p.arch
            },
            Err(m) => stamped_spec(text, commit, blob, time) == Err::<EntryView, Seq<char>>(m),
        },
{
}

/// A branch without a `.SRCINFO`, or with one that is no text, is named with what is
/// wrong with it.
pub proof fn law_what_is_wrong_with_a_branch(
    branch: Seq<char>,
    bytes: Seq<u8>,
    commit: Seq<u8>,
    blob: Seq<u8>,
    time: int,
)
    ensures
        branch_spec(branch, None, commit, blob, time) == Err::<EntryView, Seq<char>>(
            branch + ": no .SRCINFO"@,
        ),
        crate::index::fresh::branch_spec(branch, None, commit, blob, time) == Err::<
            EntryView,
            Seq<char>,
        >("no .SRCINFO on "@ + branch),
        !vstd::utf8::valid_utf8(bytes) ==> branch_spec(branch, Some(bytes), commit, blob, time) == Err::<
            EntryView,
            Seq<char>,
        >(branch + ": utf8: "@ + crate::text::utf8_complaint(bytes)),
        !vstd::utf8::valid_utf8(bytes) ==> crate::index::fresh::branch_spec(
            branch,
            Some(bytes),
            commit,
            blob,
            time,
        ) == Err::<EntryView, Seq<char>>(
            branch + ": invalid utf8: "@ + crate::text::utf8_complaint(bytes),
        ),
        vstd::utf8::valid_utf8(bytes) ==> branch_spec(branch, Some(bytes), commit, blob, time)
            == stamped_spec(vstd::utf8::decode_utf8(bytes), commit, blob, time)
            && crate::index::fresh::branch_spec(branch, Some(bytes), commit, blob, time)
            == stamped_spec(vstd::utf8::decode_utf8(bytes), commit, blob, time),
{
}

/// Every branch is either read or counted as unreadable, and what was read is kept in
/// order.
pub proof fn law_branches_are_read_or_counted(
    a: Seq<Result<IndexEntry, Error>>,
    b: Seq<Result<IndexEntry, Error>>,
    x: Result<IndexEntry, Error>,
)
    ensures
        readable(a).len() + unreadable(a) == a.len(),
        readable(seq![x]) == (match x {
            Ok(e) => seq![e@],
            Err(_) => Seq::<EntryView>::empty(),
        }),
        readable(a + b) == readable(a) + readable(b),
    decreases a.len() + b.len(),
{
    let none = Seq::<Result<IndexEntry, Error>>::empty();
    assert(seq![x].drop_last() =~= none);
    assert(readable(none) =~= Seq::<EntryView>::empty());
    if b.len() == 0 {
        assert(a + b =~= a);
        assert(readable(a) + readable(b) =~= readable(a));
        if a.len() > 0 {
            law_branches_are_read_or_counted(a.drop_last(), none, x);
        }
    } else {
        law_branches_are_read_or_counted(a, b.drop_last(), x);
        assert((a + b).drop_last() =~= a + b.drop_last());
        assert((a + b).last() == b.last());
        assert(readable(a + b) =~= readable(a) + readable(b));
    }
}

/// A text comes before another one exactly if it is a beginning of that one, or has the
/// smaller character where the two differ first.
pub proof fn law_texts_are_ordered_by_characters(a: Seq<char>, b: Seq<char>, p: Seq<char>)
    ensures
        !lex_lt(a, a),
        b.len() > 0 ==> lex_lt(p, p + b),
        !lex_lt(p + b, p),
        a.len() > 0 && b.len() > 0 && a[0] < b[0] ==> lex_lt(p + a, p + b) && !lex_lt(p + b, p + a),
    decreases p.len() + a.len(),
{
    let none = Seq::<char>::empty();
    if p.len() > 0 {
        let q = p.drop_first();
        law_texts_are_ordered_by_characters(a, b, q);
        assert((p + a).drop_first() =~= q + a);
        assert((p + b).drop_first() =~= q + b);
        assert((p + a)[0] == p[0] && (p + b)[0] == p[0]);
    } else {
        assert(p + a =~= a);
        assert(p + b =~= b);
        if a.len() > 0 {
            law_texts_are_ordered_by_characters(a.drop_first(), none, none);
        }
    }
}

proof fn lemma_lex_total(a: Seq<char>, b: Seq<char>)
    ensures
        !(lex_lt(a, b) && lex_lt(b, a)),
        a != b ==> lex_lt(a, b) || lex_lt(b, a),
        lex_lt(a, b) ==> a != b,
    decreases a.len(),
{
    if a.len() > 0 && b.len() > 0 && a[0] == b[0] {
        lemma_lex_total(a.drop_first(), b.drop_first());
        if a != b && a.drop_first() == b.drop_first() {
            assert(a =~= seq![a[0]] + a.drop_first());
            assert(b =~= seq![b[0]] + b.drop_first());
        }
    } else if a.len() == 0 && b.len() == 0 {
        assert(a =~= b);
    }
}

/// A sorted list never goes down, and what reads the same stays in its order.
pub proof fn law_sorting_is_stable(keys: Seq<Seq<char>>, order: Seq<usize>, i: int, j: int)
    requires
        is_sort_order(keys, order),
        0 <= i < j < order.len(),
    ensures
        !lex_lt(keys[order[j] as int], keys[order[i] as int]),
        keys[order[i] as int] == keys[order[j] as int] ==> order[i] < order[j],
{
    let a = keys[order[i] as int];
    let b = keys[order[j] as int];
    assert(crate::order::goes_first(keys, order[i] as int, order[j] as int));
    lemma_lex_total(a, b);
}

/// Keys are sorted by their first number, then by the second, then by the third, and
/// equal ones stay in their order.
pub proof fn law_keys_are_sorted_by_their_numbers(
    keys: Seq<SortKey>,
    order: Seq<usize>,
    i: int,
    j: int,
    a: SortKey,
    b: SortKey,
)
    requires
        is_key_order(keys, order),
        0 <= i < j < order.len(),
        a == keys[order[i] as int],
        b == keys[order[j] as int],
    ensures
        a.major <= b.major,
        a.major == b.major ==> a.minor <= b.minor,
        a.major == b.major && a.minor == b.minor ==> a.least <= b.least,
        a == b ==> order[i] < order[j],
{
    assert(crate::order::key_goes_first(keys, order[i] as int, order[j] as int));
    assert(key_lt(a, b) || a == b);
}

} // verus!
