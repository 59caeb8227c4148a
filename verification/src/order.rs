//! The order of strings, and sorting by it.
//!
//! Strings are ordered character by character, by code point. That is also the
//! order of their UTF-8 bytes.

use vstd::prelude::*;

use crate::maps::NameSet;
use crate::text::{to_chars, views};

verus! {

broadcast use {vstd::string::group_string_axioms, crate::seqs::lemma_map_push};

/// `a` comes strictly before `b`.
pub open spec fn lex_lt(a: Seq<char>, b: Seq<char>) -> bool
    decreases a.len(),
{
    if b.len() == 0 {
        false
    } else if a.len() == 0 {
        true
    } else if a[0] != b[0] {
        a[0] < b[0]
    } else {
        lex_lt(a.drop_first(), b.drop_first())
    }
}

/// Nothing comes before itself.
pub proof fn lemma_lex_irreflexive(a: Seq<char>)
    ensures
        !lex_lt(a, a),
    decreases a.len(),
{
    if a.len() > 0 {
        lemma_lex_irreflexive(a.drop_first());
    }
}

/// The order is transitive.
pub proof fn lemma_lex_transitive(a: Seq<char>, b: Seq<char>, c: Seq<char>)
    requires
        lex_lt(a, b),
        lex_lt(b, c),
    ensures
        lex_lt(a, c),
    decreases a.len(),
{
    if a.len() > 0 && a[0] == b[0] && b[0] == c[0] {
        lemma_lex_transitive(a.drop_first(), b.drop_first(), c.drop_first());
    }
}

/// Two strings are equal, or one comes before the other.
pub proof fn lemma_lex_total(a: Seq<char>, b: Seq<char>)
    ensures
        a == b || lex_lt(a, b) || lex_lt(b, a),
    decreases a.len(),
{
    if a.len() == 0 && b.len() == 0 {
        assert(a =~= b);
    } else if a.len() > 0 && b.len() > 0 && a[0] == b[0] {
        lemma_lex_total(a.drop_first(), b.drop_first());
        if a.drop_first() == b.drop_first() {
            assert(a =~= seq![a[0]] + a.drop_first());
            assert(b =~= seq![b[0]] + b.drop_first());
        }
    }
}

/// Of two strings at most one comes before the other.
pub proof fn lemma_lex_asymmetric(a: Seq<char>, b: Seq<char>)
    requires
        lex_lt(a, b),
    ensures
        !lex_lt(b, a),
        a != b,
{
    if lex_lt(b, a) {
        lemma_lex_transitive(a, b, a);
    }
    lemma_lex_irreflexive(a);
}

/// Tests whether `a` comes strictly before `b`.
pub fn str_lt(a: &str, b: &str) -> (r: bool)
    ensures
        r == lex_lt(a@, b@),
{
    let x = to_chars(a);
    let y = to_chars(b);
    let mut i: usize = 0;
    assert(a@.skip(0) =~= a@);
    assert(b@.skip(0) =~= b@);
    while i < x.len() && i < y.len() && x[i] == y[i]
        invariant
            x@ == a@,
            y@ == b@,
            i <= x.len(),
            i <= y.len(),
            lex_lt(a@, b@) == lex_lt(a@.skip(i as int), b@.skip(i as int)),
        decreases x.len() - i,
    {
        assert(a@.skip(i as int).drop_first() =~= a@.skip(i as int + 1));
        assert(b@.skip(i as int).drop_first() =~= b@.skip(i as int + 1));
        i = i + 1;
    }
    if i == y.len() {
        false
    } else if i == x.len() {
        true
    } else {
        x[i] < y[i]
    }
}

/// Of the keys at `i` and `j`, the one at `i` goes first in a stable sort.
pub open spec fn goes_first(keys: Seq<Seq<char>>, i: int, j: int) -> bool {
    lex_lt(keys[i], keys[j]) || (keys[i] == keys[j] && i < j)
}

/// `order` lists each of `0..keys.len()` once, in the order in which a stable
/// sort leaves the keys.
pub open spec fn is_sort_order(keys: Seq<Seq<char>>, order: Seq<usize>) -> bool {
    &&& order.len() == keys.len()
    &&& forall|i: int| 0 <= i < order.len() ==> 0 <= #[trigger] order[i] < keys.len()
    &&& forall|i: int, j: int|
        0 <= i < j < order.len() ==> goes_first(keys, order[i] as int, order[j] as int)
    &&& forall|k: int| 0 <= k < keys.len() ==> #[trigger] is_listed(order, k)
}

/// `k` is one of the positions in `order`.
pub open spec fn is_listed(order: Seq<usize>, k: int) -> bool {
    exists|p: int| 0 <= p < order.len() && #[trigger] order[p] == k
}

proof fn lemma_goes_first_transitive(keys: Seq<Seq<char>>, i: int, j: int, k: int)
    requires
        goes_first(keys, i, j),
        goes_first(keys, j, k),
    ensures
        goes_first(keys, i, k),
{
    if lex_lt(keys[i], keys[j]) && lex_lt(keys[j], keys[k]) {
        lemma_lex_transitive(keys[i], keys[j], keys[k]);
    }
}

/// What a merge sort has made of the keys at `lo..hi`.
spec fn sorted_run(keys: Seq<Seq<char>>, run: Seq<usize>, lo: int, hi: int) -> bool {
    &&& run.len() == hi - lo
    &&& forall|i: int| 0 <= i < run.len() ==> lo <= #[trigger] run[i] < hi
    &&& forall|i: int, j: int|
        0 <= i < j < run.len() ==> goes_first(keys, run[i] as int, run[j] as int)
    &&& forall|k: usize| lo <= k < hi ==> run.contains(k)
}

fn merge(keys: &Vec<String>, left: &Vec<usize>, right: &Vec<usize>, Ghost(lo): Ghost<int>, Ghost(
    mid,
): Ghost<int>, Ghost(hi): Ghost<int>) -> (out: Vec<usize>)
    requires
        0 <= lo <= mid <= hi <= keys.len(),
        sorted_run(views(keys@), left@, lo, mid),
        sorted_run(views(keys@), right@, mid, hi),
    ensures
        sorted_run(views(keys@), out@, lo, hi),
{
    let ghost ks = views(keys@);
    let mut out: Vec<usize> = Vec::new();
    let mut i: usize = 0;
    let mut j: usize = 0;
    while i < left.len() || j < right.len()
        invariant
            ks == views(keys@),
            0 <= lo <= mid <= hi <= keys.len(),
            sorted_run(ks, left@, lo, mid),
            sorted_run(ks, right@, mid, hi),
            i <= left.len(),
            j <= right.len(),
            out.len() == i + j,
            forall|p: int| 0 <= p < out.len() ==> lo <= #[trigger] out@[p] < hi,
            forall|p: int, q: int|
                0 <= p < q < out.len() ==> goes_first(ks, out@[p] as int, out@[q] as int),
            forall|p: int, q: int|
                0 <= p < out.len() && i <= q < left.len() ==> goes_first(
                    ks,
                    #[trigger] out@[p] as int,
                    #[trigger] left@[q] as int,
                ),
            forall|p: int, q: int|
                0 <= p < out.len() && j <= q < right.len() ==> goes_first(
                    ks,
                    #[trigger] out@[p] as int,
                    #[trigger] right@[q] as int,
                ),
            forall|p: int| 0 <= p < i ==> out@.contains(#[trigger] left@[p]),
            forall|p: int| 0 <= p < j ==> out@.contains(#[trigger] right@[p]),
        decreases left.len() - i + right.len() - j,
    {
        let from_left = if i == left.len() {
            false
        } else if j == right.len() {
            true
        } else {
            let a: usize = left[i];
            let b: usize = right[j];
            assert(ks[a as int] == keys@[a as int]@);
            assert(ks[b as int] == keys@[b as int]@);
            !str_lt(keys[b].as_str(), keys[a].as_str())
        };
        let ghost before = out@;
        let ghost (oi, oj) = (i as int, j as int);
        if from_left {
            let a: usize = left[i];
            proof {
                if j < right.len() {
                    let b = right@[j as int];
                    lemma_lex_total(ks[a as int], ks[b as int]);
                    assert(goes_first(ks, a as int, b as int));
                    assert forall|q: int| j <= q < right.len() implies goes_first(
                        ks,
                        a as int,
                        #[trigger] right@[q] as int,
                    ) by {
                        if q > j {
                            lemma_goes_first_transitive(ks, a as int, b as int, right@[q] as int);
                        }
                    }
                }
            }
            out.push(a);
            i = i + 1;
        } else {
            let b: usize = right[j];
            proof {
                if i < left.len() {
                    let a = left@[i as int];
                    assert(goes_first(ks, b as int, a as int));
                    assert forall|q: int| i <= q < left.len() implies goes_first(
                        ks,
                        b as int,
                        #[trigger] left@[q] as int,
                    ) by {
                        if q > i {
                            lemma_goes_first_transitive(ks, b as int, a as int, left@[q] as int);
                        }
                    }
                }
            }
            out.push(b);
            j = j + 1;
        }
        proof {
            assert(out@.last() == out@[before.len() as int]);
            assert forall|p: int| 0 <= p < i implies out@.contains(#[trigger] left@[p]) by {
                if p < oi {
                    let w = choose|w: int| 0 <= w < before.len() && before[w] == left@[p];
                    assert(before.contains(left@[p]));
                    assert(out@[w] == left@[p]);
                }
            }
            assert forall|p: int| 0 <= p < j implies out@.contains(#[trigger] right@[p]) by {
                if p < oj {
                    assert(before.contains(right@[p]));
                    let w = choose|w: int| 0 <= w < before.len() && before[w] == right@[p];
                    assert(out@[w] == right@[p]);
                }
            }
        }
    }
    proof {
        assert forall|k: usize| lo <= k < hi implies out@.contains(k) by {
            if k < mid {
                assert(left@.contains(k));
                let p = choose|p: int| 0 <= p < left@.len() && left@[p] == k;
                assert(out@.contains(left@[p]));
            } else {
                assert(right@.contains(k));
                let p = choose|p: int| 0 <= p < right@.len() && right@[p] == k;
                assert(out@.contains(right@[p]));
            }
        }
    }
    out
}

fn sort_run(keys: &Vec<String>, lo: usize, hi: usize) -> (out: Vec<usize>)
    requires
        lo <= hi <= keys.len(),
    ensures
        sorted_run(views(keys@), out@, lo as int, hi as int),
    decreases hi - lo,
{
    let mut out: Vec<usize> = Vec::new();
    if hi - lo == 0 {
        out
    } else if hi - lo == 1 {
        out.push(lo);
        assert(out@[0] == lo);
        out
    } else {
        let mid: usize = lo + (hi - lo) / 2;
        let left = sort_run(keys, lo, mid);
        let right = sort_run(keys, mid, hi);
        merge(keys, &left, &right, Ghost(lo as int), Ghost(mid as int), Ghost(hi as int))
    }
}

/// Sorts `keys` stably; the answer lists their positions in sorted order.
pub fn sort_order(keys: &Vec<String>) -> (order: Vec<usize>)
    ensures
        is_sort_order(views(keys@), order@),
{
    let order = sort_run(keys, 0, keys.len());
    assert forall|k: int| 0 <= k < views(keys@).len() implies #[trigger] is_listed(order@, k) by {
        assert(order@.contains(k as usize));
        let p = choose|p: int| 0 <= p < order@.len() && order@[p] == k as usize;
        assert(order@[p] == k);
    }
    order
}

/// Each of `s` comes before all that follow it.
pub open spec fn strictly_sorted(s: Seq<Seq<char>>) -> bool {
    forall|i: int, j: int| 0 <= i < j < s.len() ==> lex_lt(#[trigger] s[i], #[trigger] s[j])
}

/// `s` lists the members of `set`, sorted.
pub open spec fn sorted_list_of(s: Seq<Seq<char>>, set: Set<Seq<char>>) -> bool {
    &&& strictly_sorted(s)
    &&& forall|n: Seq<char>| #[trigger] s.contains(n) <==> set.contains(n)
}

/// Lists the members of a set in sorted order.
pub fn sorted_names(set: &NameSet<String>) -> (r: Vec<String>)
    ensures
        sorted_list_of(views(r@), set@),
        r.len() == set.order().len(),
{
    let n: usize = set.len();
    let mut keys: Vec<String> = Vec::new();
    let mut i: usize = 0;
    while i < n
        invariant
            n == set.order().len(),
            i <= n,
            views(keys@) == set.order().take(i as int),
        decreases n - i,
    {
        keys.push(set.name_at(i).clone());
        i = i + 1;
        assert(views(keys@) =~= set.order().take(i as int));
    }
    let ghost ks = set.order();
    assert(views(keys@) =~= ks);
    let by = sort_order(&keys);
    let mut r: Vec<String> = Vec::new();
    let mut k: usize = 0;
    while k < by.len()
        invariant
            ks == views(keys@),
            ks == set.order(),
            ks.no_duplicates(),
            is_sort_order(ks, by@),
            k <= by.len(),
            r.len() == k,
            forall|j: int| 0 <= j < k ==> #[trigger] views(r@)[j] == ks[by@[j] as int],
        decreases by.len() - k,
    {
        let at: usize = by[k];
        assert(ks[at as int] == keys@[at as int]@);
        let ghost before = views(r@);
        r.push(keys[at].clone());
        assert(views(r@) =~= before.push(ks[at as int]));
        k = k + 1;
    }
    proof {
        let out = views(r@);
        assert forall|a: int, b: int| 0 <= a < b < out.len() implies lex_lt(
            #[trigger] out[a],
            #[trigger] out[b],
        ) by {
            assert(out[a] == ks[by@[a] as int]);
            assert(out[b] == ks[by@[b] as int]);
            assert(goes_first(ks, by@[a] as int, by@[b] as int));
        }
        assert forall|x: Seq<char>| #[trigger] out.contains(x) <==> set@.contains(x) by {
            if out.contains(x) {
                let j = choose|j: int| 0 <= j < out.len() && out[j] == x;
                assert(out[j] == ks[by@[j] as int]);
                assert(ks.contains(x));
            }
            if set@.contains(x) {
                assert(ks.contains(x));
                let p = choose|p: int| 0 <= p < ks.len() && ks[p] == x;
                assert(is_listed(by@, p));
                let j = choose|j: int| 0 <= j < by@.len() && #[trigger] by@[j] == p;
                assert(out[j] == ks[by@[j] as int]);
            }
        }
    }
    r
}

/// Sorts `v` and keeps one of each group of equal strings.
pub fn sort_dedup(v: &Vec<String>) -> (r: Vec<String>)
    ensures
        sorted_list_of(views(r@), views(v@).to_set()),
{
    let mut set: NameSet<String> = NameSet::new();
    let mut i: usize = 0;
    assert(views(v@).take(0).to_set() =~= Set::<Seq<char>>::empty());
    while i < v.len()
        invariant
            i <= v.len(),
            set@ == views(v@).take(i as int).to_set(),
        decreases v.len() - i,
    {
        let ghost before = views(v@).take(i as int);
        assert(views(v@)[i as int] == v@[i as int]@);
        let _ = set.insert(v[i].clone());
        proof {
            let after = views(v@).take(i as int + 1);
            let x = v@[i as int]@;
            assert(after =~= before.push(x));
            assert forall|y: Seq<char>| after.contains(y) <==> before.contains(y) || y == x by {
                if before.contains(y) {
                    let w = choose|w: int| 0 <= w < before.len() && before[w] == y;
                    assert(after[w] == y);
                }
                assert(after[before.len() as int] == x);
                if after.contains(y) && y != x {
                    let w = choose|w: int| 0 <= w < after.len() && after[w] == y;
                    assert(before[w] == y);
                }
            }
            assert(before.to_set().insert(x) =~= after.to_set());
        }
        i = i + 1;
    }
    assert(views(v@).take(i as int) =~= views(v@));
    let r = sorted_names(&set);
    r
}

/// A set has only one sorted list.
pub proof fn law_sorted_list_is_unique(a: Seq<Seq<char>>, b: Seq<Seq<char>>, set: Set<Seq<char>>)
    requires
        sorted_list_of(a, set),
        sorted_list_of(b, set),
    ensures
        a == b,
    decreases a.len(),
{
    if a.len() == 0 {
        if b.len() > 0 {
            assert(b.contains(b[0]));
            assert(a.contains(b[0]));
        }
        assert(a =~= b);
    } else {
        assert(a.contains(a[0]));
        assert(b.contains(a[0]));
        let p = choose|p: int| 0 <= p < b.len() && b[p] == a[0];
        assert(b.contains(b[0]));
        assert(a.contains(b[0]));
        let q = choose|q: int| 0 <= q < a.len() && a[q] == b[0];
        if p > 0 {
            assert(lex_lt(b[0], b[p]));
            if q > 0 {
                assert(lex_lt(a[0], a[q]));
                lemma_lex_asymmetric(a[0], b[0]);
            } else {
                lemma_lex_irreflexive(a[0]);
            }
        }
        assert(a[0] == b[0]);
        let a1 = a.drop_first();
        let b1 = b.drop_first();
        assert forall|n: Seq<char>| #[trigger] a1.contains(n) <==> set.remove(a[0]).contains(n) by {
            lemma_rest_contains(a, n);
        }
        assert forall|n: Seq<char>| #[trigger] b1.contains(n) <==> set.remove(a[0]).contains(n) by {
            lemma_rest_contains(b, n);
        }
        law_sorted_list_is_unique(a1, b1, set.remove(a[0]));
        assert(a =~= seq![a[0]] + a1);
        assert(b =~= seq![b[0]] + b1);
    }
}

proof fn lemma_rest_contains(s: Seq<Seq<char>>, n: Seq<char>)
    requires
        s.len() > 0,
        strictly_sorted(s),
    ensures
        s.drop_first().contains(n) <==> s.contains(n) && n != s[0],
{
    let rest = s.drop_first();
    if rest.contains(n) {
        let i = choose|i: int| 0 <= i < rest.len() && rest[i] == n;
        assert(s[i + 1] == n);
        assert(lex_lt(s[0], s[i + 1]));
        lemma_lex_asymmetric(s[0], n);
    }
    if s.contains(n) && n != s[0] {
        let i = choose|i: int| 0 <= i < s.len() && s[i] == n;
        assert(rest[i - 1] == n);
    }
}

/// A key of three numbers, the first of which counts most.
#[derive(Debug, Clone, Copy, PartialEq, Eq, Structural)]
pub struct SortKey {
    /// What counts most.
    pub major: i128,
    /// What counts where the first is the same.
    pub minor: i128,
    /// What counts where the first two are the same.
    pub least: i128,
}

/// Whether `a` comes before `b`.
pub open spec fn key_lt(a: SortKey, b: SortKey) -> bool {
    a.major < b.major || (a.major == b.major && (a.minor < b.minor || (a.minor == b.minor && a.least
        < b.least)))
}

/// Of the keys at `i` and `j`, the one at `i` goes first in a stable sort.
pub open spec fn key_goes_first(keys: Seq<SortKey>, i: int, j: int) -> bool {
    key_lt(keys[i], keys[j]) || (keys[i] == keys[j] && i < j)
}

/// `order` lists each of `0..keys.len()` once, in the order in which a stable sort
/// leaves the keys.
pub open spec fn is_key_order(keys: Seq<SortKey>, order: Seq<usize>) -> bool {
    &&& order.len() == keys.len()
    &&& forall|i: int| 0 <= i < order.len() ==> 0 <= #[trigger] order[i] < keys.len()
    &&& forall|i: int, j: int|
        0 <= i < j < order.len() ==> key_goes_first(
            keys,
            #[trigger] order[i] as int,
            #[trigger] order[j] as int,
        )
    &&& forall|k: int| 0 <= k < keys.len() ==> #[trigger] is_listed(order, k)
}

/// What stands at the positions that `order` lists, in its order.
pub open spec fn arranged<A>(s: Seq<A>, order: Seq<usize>) -> Seq<A> {
    order.map_values(|i: usize| s[i as int])
}

fn key_less(a: SortKey, b: SortKey) -> (r: bool)
    ensures
        r == key_lt(a, b),
{
    a.major < b.major || (a.major == b.major && (a.minor < b.minor || (a.minor == b.minor && a.least
        < b.least)))
}

/// Sorts `keys` stably; the answer lists their positions in sorted order.
pub fn sort_keys(keys: &Vec<SortKey>) -> (order: Vec<usize>)
    ensures
        is_key_order(keys@, order@),
{
    let mut order: Vec<usize> = Vec::new();
    let mut i: usize = 0;
    while i < keys.len()
        invariant
            i <= keys.len(),
            order.len() == i,
            forall|p: int| 0 <= p < order.len() ==> 0 <= #[trigger] order@[p] < i,
            forall|p: int, q: int|
                0 <= p < q < order.len() ==> key_goes_first(
                    keys@,
                    #[trigger] order@[p] as int,
                    #[trigger] order@[q] as int,
                ),
            forall|k: int| 0 <= k < i ==> #[trigger] is_listed(order@, k),
        decreases keys.len() - i,
    {
        let mut at: usize = order.len();
        while at > 0 && key_less(keys[i], keys[order[at - 1]])
            invariant
                i < keys.len(),
                at <= order.len(),
                order.len() == i,
                forall|p: int| 0 <= p < order.len() ==> 0 <= #[trigger] order@[p] < i,
                forall|q: int|
                    at <= q < order.len() ==> key_lt(
                        keys@[i as int],
                        keys@[#[trigger] order@[q] as int],
                    ),
            decreases at,
        {
            at = at - 1;
        }
        let ghost before = order@;
        proof {
            if at > 0 {
                let top = before[at - 1];
                assert(key_goes_first(keys@, top as int, i as int));
                assert forall|p: int| 0 <= p < at implies key_goes_first(
                    keys@,
                    #[trigger] before[p] as int,
                    i as int,
                ) by {
                    if p < at - 1 {
                        assert(key_goes_first(keys@, before[p] as int, top as int));
                    }
                }
            }
        }
        order.insert(at, i);
        proof {
            assert forall|p: int, q: int| 0 <= p < q < order.len() implies key_goes_first(
                keys@,
                #[trigger] order@[p] as int,
                #[trigger] order@[q] as int,
            ) by {
                let bp = if p < at {
                    p
                } else {
                    p - 1
                };
                let bq = if q < at {
                    q
                } else {
                    q - 1
                };
                if p != at && q != at {
                    assert(order@[p] == before[bp]);
                    assert(order@[q] == before[bq]);
                } else if p == at {
                    assert(order@[q] == before[bq]);
                } else {
                    assert(order@[p] == before[bp]);
                }
            }
            assert forall|k: int| 0 <= k < i + 1 implies #[trigger] is_listed(order@, k) by {
                if k < i {
                    assert(is_listed(before, k));
                    let w = choose|w: int| 0 <= w < before.len() && #[trigger] before[w] == k;
                    if w < at {
                        assert(order@[w] == k);
                    } else {
                        assert(order@[w + 1] == k);
                    }
                } else {
                    assert(order@[at as int] == k);
                }
            }
        }
        i = i + 1;
    }
    order
}

/// Keys can be sorted stably in one way only.
pub proof fn law_sort_order_is_unique(keys: Seq<Seq<char>>, a: Seq<usize>, b: Seq<usize>)
    requires
        is_sort_order(keys, a),
        is_sort_order(keys, b),
    ensures
        a == b,
{
    assert forall|p: int| 0 <= p < a.len() implies a[p] == b[p] by {
        lemma_same_position(keys, a, b, p);
    }
    assert(a =~= b);
}

/// Of two keys only one goes first.
proof fn lemma_goes_first_asymmetric(keys: Seq<Seq<char>>, i: int, j: int)
    requires
        goes_first(keys, i, j),
    ensures
        !goes_first(keys, j, i),
        i != j,
{
    if lex_lt(keys[i], keys[j]) {
        lemma_lex_asymmetric(keys[i], keys[j]);
    } else {
        lemma_lex_irreflexive(keys[i]);
    }
}

proof fn lemma_same_position(keys: Seq<Seq<char>>, a: Seq<usize>, b: Seq<usize>, p: int)
    requires
        is_sort_order(keys, a),
        is_sort_order(keys, b),
        0 <= p < a.len(),
    ensures
        a[p] == b[p],
    decreases p,
{
    assert forall|k: int| 0 <= k < p implies #[trigger] a[k] == b[k] by {
        lemma_same_position(keys, a, b, k);
    }
    if a[p] != b[p] {
        assert(is_listed(b, a[p] as int));
        assert(is_listed(a, b[p] as int));
        let q = choose|q: int| 0 <= q < b.len() && #[trigger] b[q] == a[p];
        let r = choose|r: int| 0 <= r < a.len() && #[trigger] a[r] == b[p];
        if q < p {
            assert(a[q] == b[q]);
            lemma_goes_first_asymmetric(keys, a[q] as int, a[p] as int);
        }
        if r < p {
            assert(a[r] == b[r]);
            lemma_goes_first_asymmetric(keys, b[r] as int, b[p] as int);
        }
        assert(goes_first(keys, b[p] as int, b[q] as int));
        assert(goes_first(keys, a[p] as int, a[r] as int));
        lemma_goes_first_asymmetric(keys, a[p] as int, b[p] as int);
    }
}

/// The same of sort keys.
pub proof fn law_key_order_is_unique(keys: Seq<SortKey>, a: Seq<usize>, b: Seq<usize>)
    requires
        is_key_order(keys, a),
        is_key_order(keys, b),
    ensures
        a == b,
{
    assert forall|p: int| 0 <= p < a.len() implies a[p] == b[p] by {
        lemma_same_key_position(keys, a, b, p);
    }
    assert(a =~= b);
}

proof fn lemma_same_key_position(keys: Seq<SortKey>, a: Seq<usize>, b: Seq<usize>, p: int)
    requires
        is_key_order(keys, a),
        is_key_order(keys, b),
        0 <= p < a.len(),
    ensures
        a[p] == b[p],
    decreases p,
{
    assert forall|k: int| 0 <= k < p implies #[trigger] a[k] == b[k] by {
        lemma_same_key_position(keys, a, b, k);
    }
    if a[p] != b[p] {
        assert(is_listed(b, a[p] as int));
        assert(is_listed(a, b[p] as int));
        let q = choose|q: int| 0 <= q < b.len() && #[trigger] b[q] == a[p];
        let r = choose|r: int| 0 <= r < a.len() && #[trigger] a[r] == b[p];
        if q < p {
            assert(a[q] == b[q]);
        }
        if r < p {
            assert(a[r] == b[r]);
        }
        assert(key_goes_first(keys, b[p] as int, b[q] as int));
        assert(key_goes_first(keys, a[p] as int, a[r] as int));
    }
}

} // verus!
