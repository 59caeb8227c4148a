//! Building the index from all branches of the mirror.

use vstd::prelude::*;
use vstd::utf8::{decode_utf8, valid_utf8};

use crate::error::Error;
use crate::index::schema::{entry_list, EntryView, IndexEntry, IndexFile, FORMAT_VERSION};
use crate::index::update::{
    apply_changes, bases, bases_differ, by_pkgbase, change_tables, is_entry, is_sorted_from,
    law_update_is_by_pkgbase, lemma_by_pkgbase, parse_stamped, sort_entries, stamped_spec,
    ChangeView,
};
use crate::order::strictly_sorted;
use crate::seqs::lemma_take_succ;
use crate::text::{from_utf8, utf8_complaint};

verus! {

broadcast use {vstd::string::group_string_axioms, crate::seqs::lemma_map_push};

/// The entries of the branches that could be read.
pub open spec fn readable(parsed: Seq<Result<IndexEntry, Error>>) -> Seq<EntryView>
    decreases parsed.len(),
{
    if parsed.len() == 0 {
        seq![]
    } else {
        match parsed.last() {
            Ok(e) => readable(parsed.drop_last()).push(e@),
            Err(_) => readable(parsed.drop_last()),
        }
    }
}

/// How many branches could not be read.
pub open spec fn unreadable(parsed: Seq<Result<IndexEntry, Error>>) -> nat
    decreases parsed.len(),
{
    if parsed.len() == 0 {
        0
    } else {
        unreadable(parsed.drop_last()) + (if parsed.last() is Err {
            1nat
        } else {
            0nat
        })
    }
}

/// Makes an index of what the branches hold, sorted by pkgbase, and counts the
/// branches that are left out because they could not be read. A head that is not
/// known is all zeros.
pub fn full_build(parsed: Vec<Result<IndexEntry, Error>>, head: Option<[u8; 20]>, now_unix: u64) -> (r:
    (IndexFile, u64))
    ensures
        r.0.format_version == FORMAT_VERSION,
        r.0.mirror_head_oid@ == (match head {
            Some(h) => h@,
            None => Seq::new(20, |i: int| 0u8),
        }),
        r.0.built_at_unix == now_unix,
        is_sorted_from(readable(parsed@), r.0.rows()),
        r.1 == unreadable(parsed@),
{
    let ghost all = parsed@;
    let mut rest = parsed;
    let total: usize = rest.len();
    let mut entries: Vec<IndexEntry> = Vec::new();
    let mut skipped: u64 = 0;
    let mut i: usize = 0;
    assert(entry_list(entries@) =~= readable(all.take(0)));
    while i < total
        invariant
            total == rest.len(),
            total == all.len(),
            i <= total,
            forall|j: int| i <= j < total ==> #[trigger] rest@[j] == all[j],
            entry_list(entries@) == readable(all.take(i as int)),
            skipped == unreadable(all.take(i as int)),
            skipped <= i,
        decreases total - i,
    {
        proof {
            lemma_take_succ(all, i as int);
        }
        let mut taken: Result<IndexEntry, Error> = Err(Error::UserAbort);
        std::mem::swap(&mut rest[i], &mut taken);
        match taken {
            Ok(e) => {
                entries.push(e);
            },
            Err(_) => {
                skipped = skipped + 1;
            },
        }
        i = i + 1;
    }
    assert(all.take(i as int) =~= all);
    sort_entries(&mut entries);
    let mut idx = IndexFile::empty();
    match head {
        Some(h) => {
            idx.mirror_head_oid = h;
        },
        None => {},
    }
    idx.built_at_unix = now_unix;
    idx.entries = entries;
    (idx, skipped)
}

/// An index built from branches of which no two hold the same pkgbase has its entries
/// in strictly rising order and holds exactly what could be read.
pub proof fn law_builds_are_sorted(parsed: Seq<Result<IndexEntry, Error>>, rows: Seq<EntryView>)
    requires
        bases_differ(readable(parsed)),
        is_sorted_from(readable(parsed), rows),
    ensures
        strictly_sorted(bases(rows)),
        bases_differ(rows),
        by_pkgbase(rows) == by_pkgbase(readable(parsed)),
{
    crate::index::update::lemma_sorted_same_table(readable(parsed), rows);
}

/// An index that is brought up to date with the branches that changed is the index that
/// would be built anew from all branches.
pub proof fn law_updates_match_builds(
    before: Seq<EntryView>,
    cs: Seq<ChangeView>,
    after: Seq<EntryView>,
    parsed: Seq<Result<IndexEntry, Error>>,
    built: Seq<EntryView>,
)
    requires
        bases_differ(before),
        is_sorted_from(apply_changes(before, cs), after),
        bases_differ(readable(parsed)),
        is_sorted_from(readable(parsed), built),
        by_pkgbase(readable(parsed)) == change_tables(by_pkgbase(before), cs),
    ensures
        after == built,
{
    law_update_is_by_pkgbase(before, cs, after);
    law_builds_are_sorted(parsed, built);
    let table = by_pkgbase(built);
    lemma_by_pkgbase(after);
    lemma_by_pkgbase(built);
    assert forall|b: Seq<char>| #[trigger]
        bases(after).contains(b) <==> table.dom().contains(b) by {
        if bases(after).contains(b) {
            let i = choose|i: int| 0 <= i < bases(after).len() && bases(after)[i] == b;
            assert(after[i].pkgbase == b);
        }
        if table.dom().contains(b) {
            let i = choose|i: int| 0 <= i < after.len() && (#[trigger] after[i]).pkgbase == b;
            assert(bases(after)[i] == b);
        }
    }
    assert forall|b: Seq<char>| #[trigger]
        bases(built).contains(b) <==> table.dom().contains(b) by {
        if bases(built).contains(b) {
            let i = choose|i: int| 0 <= i < bases(built).len() && bases(built)[i] == b;
            assert(built[i].pkgbase == b);
        }
        if table.dom().contains(b) {
            let i = choose|i: int| 0 <= i < built.len() && (#[trigger] built[i]).pkgbase == b;
            assert(bases(built)[i] == b);
        }
    }
    crate::order::law_sorted_list_is_unique(bases(after), bases(built), table.dom());
    assert(after.len() == bases(after).len());
    assert forall|i: int| 0 <= i < after.len() implies after[i] == built[i] by {
        assert(bases(after)[i] == after[i].pkgbase);
        assert(bases(built)[i] == built[i].pkgbase);
        assert(table[after[i].pkgbase] == after[i]);
        assert(table[built[i].pkgbase] == built[i]);
    }
    assert(after =~= built);
}

/// The entry of a branch, or what is wrong with it. `blob` holds the bytes of its
/// `.SRCINFO`, where it has one.
pub open spec fn branch_spec(
    branch: Seq<char>,
    blob: Option<Seq<u8>>,
    commit: Seq<u8>,
    blob_oid: Seq<u8>,
    time: int,
) -> Result<EntryView, Seq<char>> {
    match blob {
        None => Err("no .SRCINFO on "@ + branch),
        Some(bytes) => if !valid_utf8(bytes) {
            Err(branch + ": invalid utf8: "@ + utf8_complaint(bytes))
        } else {
            stamped_spec(decode_utf8(bytes), commit, blob_oid, time)
        },
    }
}

/// Reads the entry of a branch and stamps it with the commit and the blob that it
/// comes from. A time of 0 is one that is not known.
pub fn parse_branch(
    branch: &str,
    blob: Option<&[u8]>,
    commit_oid: [u8; 20],
    blob_oid: [u8; 20],
    commit_time: i64,
) -> (r: Result<IndexEntry, Error>)
    ensures
        is_entry(
            r,
            branch_spec(
                branch@,
                match blob {
                    Some(b) => Some(b@),
                    None => None,
                },
                commit_oid@,
                blob_oid@,
                commit_time as int,
            ),
        ),
{
    match blob {
        None => {
            let mut m = "no .SRCINFO on ".to_owned();
            m.append(branch);
            Err(Error::SrcInfo(m))
        },
        Some(bytes) => match from_utf8(bytes) {
            Err(what) => {
                let mut m = branch.to_owned();
                m.append(": invalid utf8: ");
                m.append(what.as_str());
                Err(Error::SrcInfo(m))
            },
            Ok(text) => parse_stamped(text, commit_oid, blob_oid, commit_time),
        },
    }
}

} // verus!
