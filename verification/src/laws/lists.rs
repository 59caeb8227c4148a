//! What is left of lists, and in which order.

use vstd::prelude::*;

use crate::index::lookup::kept;
use crate::index::srcinfo::dedup_spec;
use crate::resolver::pkgbase_expand::merged;

verus! {

/// Of what a list repeats, the first stays, and what stays keeps its order: `at` says
/// where it stood.
pub proof fn law_the_first_of_a_kind_stays<A>(s: Seq<A>) -> (at: Seq<int>)
    ensures
        at.len() == dedup_spec(s).len(),
        forall|k: int|
            0 <= k < at.len() ==> 0 <= #[trigger] at[k] < s.len() && dedup_spec(s)[k] == s[at[k]],
        forall|k: int, l: int| 0 <= k < l < at.len() ==> at[k] < at[l],
        forall|k: int, j: int|
            #![trigger at[k], s[j]]
            0 <= k < at.len() && 0 <= j < at[k] ==> s[j] != s[at[k]],
    decreases s.len(),
{
    if s.len() == 0 {
        Seq::empty()
    } else {
        let r = s.drop_last();
        let d = dedup_spec(r);
        let a = law_the_first_of_a_kind_stays(r);
        if d.contains(s.last()) {
            assert forall|k: int, j: int|
                #![trigger a[k], s[j]]
                0 <= k < a.len() && 0 <= j < a[k] implies s[j] != s[a[k]] by {
                assert(r[j] == s[j]);
            }
            a
        } else {
            let at = a.push(s.len() - 1);
            crate::index::srcinfo::law_dedup(r);
            assert forall|k: int| 0 <= k < at.len() implies 0 <= #[trigger] at[k] < s.len()
                && dedup_spec(s)[k] == s[at[k]] by {
                if k < a.len() {
                    assert(at[k] == a[k]);
                }
            }
            assert forall|k: int, l: int| 0 <= k < l < at.len() implies at[k] < at[l] by {
                assert(at[k] == a[k]);
                if l < a.len() {
                    assert(at[l] == a[l]);
                }
            }
            assert forall|k: int, j: int|
                #![trigger at[k], s[j]]
                0 <= k < at.len() && 0 <= j < at[k] implies s[j] != s[at[k]] by {
                assert(r[j] == s[j]);
                if k < a.len() {
                    assert(at[k] == a[k]);
                } else {
                    assert(r.contains(r[j]));
                    assert(d.contains(r[j]));
                }
            }
            at
        }
    }
}

/// What is kept of a list keeps its order: `at` says where it stood.
pub proof fn law_what_is_kept_stays_in_order<A>(s: Seq<A>, keep: Seq<bool>) -> (at: Seq<int>)
    requires
        keep.len() >= s.len(),
    ensures
        at.len() == kept(s, keep).len(),
        forall|k: int|
            0 <= k < at.len() ==> 0 <= #[trigger] at[k] < s.len() && keep[at[k]] && kept(s, keep)[k]
                == s[at[k]],
        forall|k: int, l: int| 0 <= k < l < at.len() ==> at[k] < at[l],
    decreases s.len(),
{
    if s.len() == 0 {
        Seq::empty()
    } else {
        let a = law_what_is_kept_stays_in_order(s.drop_last(), keep);
        if keep[s.len() - 1] {
            let at = a.push(s.len() - 1);
            assert forall|k: int| 0 <= k < at.len() implies 0 <= #[trigger] at[k] < s.len()
                && keep[at[k]] && kept(s, keep)[k] == s[at[k]] by {
                if k < a.len() {
                    assert(at[k] == a[k]);
                }
            }
            assert forall|k: int, l: int| 0 <= k < l < at.len() implies at[k] < at[l] by {
                assert(at[k] == a[k]);
                if l < a.len() {
                    assert(at[l] == a[l]);
                }
            }
            at
        } else {
            a
        }
    }
}

/// Nothing that is to be kept gets lost.
pub proof fn law_all_is_kept<A>(s: Seq<A>, keep: Seq<bool>, i: int)
    requires
        keep.len() >= s.len(),
        0 <= i < s.len(),
        keep[i],
    ensures
        kept(s, keep).contains(s[i]),
    decreases s.len(),
{
    let rest = kept(s.drop_last(), keep);
    if i < s.len() - 1 {
        law_all_is_kept(s.drop_last(), keep, i);
        let k = choose|k: int| 0 <= k < rest.len() && rest[k] == s[i];
        assert(kept(s, keep)[k] == s[i]);
    } else {
        assert(kept(s, keep)[rest.len() as int] == s[i]);
    }
}

/// A list that takes up another one begins as before, holds what either held, and
/// gains no repetition.
pub proof fn law_merging_adds_what_is_new(old: Seq<Seq<char>>, more: Seq<Seq<char>>)
    ensures
        old.is_prefix_of(merged(old, more)),
        forall|x: Seq<char>| #[trigger]
            merged(old, more).contains(x) <==> old.contains(x) || more.contains(x),
        old.no_duplicates() ==> merged(old, more).no_duplicates(),
    decreases more.len(),
{
    let all = merged(old, more);
    if more.len() > 0 {
        let r = more.drop_last();
        let m = merged(old, r);
        law_merging_adds_what_is_new(old, r);
        assert(more =~= r.push(more.last()));
        assert(old.is_prefix_of(all)) by {
            assert(old =~= m.subrange(0, old.len() as int));
            assert(old =~= all.subrange(0, old.len() as int));
        }
        assert forall|x: Seq<char>| #[trigger] all.contains(x) <==> old.contains(x)
            || more.contains(x) by {
            if all.contains(x) {
                let k = choose|k: int| 0 <= k < all.len() && all[k] == x;
                if k < m.len() {
                    assert(m[k] == x);
                    assert(m.contains(x));
                    if r.contains(x) {
                        let j = choose|j: int| 0 <= j < r.len() && r[j] == x;
                        assert(more[j] == x);
                    }
                } else {
                    assert(more[more.len() - 1] == x);
                }
            }
            if old.contains(x) || more.contains(x) {
                if !old.contains(x) {
                    let j = choose|j: int| 0 <= j < more.len() && more[j] == x;
                    if j < r.len() {
                        assert(r[j] == x);
                        assert(r.contains(x));
                    }
                }
                if m.contains(x) {
                    let k = choose|k: int| 0 <= k < m.len() && m[k] == x;
                    assert(all[k] == x);
                } else {
                    assert(all[m.len() as int] == x);
                }
            }
        }
    } else {
        assert(old =~= old.subrange(0, old.len() as int));
    }
}

} // verus!
