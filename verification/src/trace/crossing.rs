//! What holds of the events that a viewer leaves out, and of those that it keeps.

use vstd::prelude::*;

use crate::order::{arranged, is_key_order, is_listed, key_goes_first, law_key_order_is_unique};
use crate::trace::{
    are_overlaps, crosses, dropped_of, finish, is_dropped, is_over, is_tracked, law_overlaps_cross,
    lemma_open, lemma_still_open, open_after, still_open, viewing_keys, EventView, OverlapView,
};

verus! {

/// Whether a viewer leaves out the event at `j`.
pub open spec fn left_out(s: Seq<EventView>, j: int) -> bool {
    is_dropped(s, still_open(s, open_after(s, j), j), j)
}

/// The positions of those of the first `n` events that a viewer leaves out.
pub open spec fn left_out_at(s: Seq<EventView>, n: int) -> Seq<int>
    decreases n,
{
    if n <= 0 {
        seq![]
    } else if left_out(s, n - 1) {
        left_out_at(s, n - 1).push(n - 1)
    } else {
        left_out_at(s, n - 1)
    }
}

/// Whether one of the events between `i` and `n` began when the one at `i` was over.
spec fn is_past(s: Seq<EventView>, i: int, n: int) -> bool {
    exists|p: int| i < p < n && is_over(s[i], #[trigger] s[p])
}

/// Whether the open events lie inside one another, and every event that was kept is
/// open or past.
spec fn is_nest(s: Seq<EventView>, open: Seq<int>, n: int) -> bool {
    &&& forall|q: int| 0 <= q < open.len() ==> 0 <= #[trigger] open[q] < n
    &&& forall|q: int, t: int|
        0 <= q < t < open.len() ==> s[#[trigger] open[q]].tid == s[#[trigger] open[t]].tid
            && finish(s[open[t]]) <= finish(s[open[q]])
    &&& forall|i: int|
        0 <= i < n && !#[trigger] left_out(s, i) ==> open.contains(i) || is_past(s, i, n)
}

proof fn lemma_popped(s: Seq<EventView>, open: Seq<int>, j: int)
    ensures
        forall|q: int|
            still_open(s, open, j).len() <= q < open.len() ==> is_over(s[#[trigger] open[q]], s[j]),
    decreases open.len(),
{
    if open.len() > 0 && is_over(s[open.last()], s[j]) {
        let d = open.drop_last();
        lemma_popped(s, d, j);
        assert forall|q: int| still_open(s, open, j).len() <= q < open.len() implies is_over(
            s[#[trigger] open[q]],
            s[j],
        ) by {
            if q < d.len() {
                assert(d[q] == open[q]);
            }
        }
    }
}

/// What is kept while another event is open ends no later than that.
proof fn lemma_ends_within(top: EventView, e: EventView)
    requires
        !is_over(top, e),
        !crosses(top, e),
    ensures
        top.tid == e.tid,
        finish(e) <= finish(top),
{
}

proof fn lemma_nest(s: Seq<EventView>, n: int)
    requires
        0 <= n <= s.len(),
    ensures
        is_nest(s, open_after(s, n), n),
    decreases n,
{
    if n > 0 {
        let j = n - 1;
        lemma_nest(s, j);
        let was = open_after(s, j);
        let open = still_open(s, was, j);
        let now = open_after(s, n);
        lemma_still_open(s, was, j);
        lemma_popped(s, was, j);
        assert forall|q: int| 0 <= q < now.len() implies 0 <= #[trigger] now[q] < n by {
            if q < open.len() {
                assert(now[q] == was[q]);
            }
        }
        assert forall|q: int, t: int| 0 <= q < t < now.len() implies s[#[trigger] now[q]].tid
            == s[#[trigger] now[t]].tid && finish(s[now[t]]) <= finish(s[now[q]]) by {
            assert(now[q] == was[q]);
            if t < open.len() {
                assert(now[t] == was[t]);
            } else {
                let top = open.last();
                assert(top == was[open.len() - 1]);
                assert(now[t] == j);
                lemma_ends_within(s[top], s[j]);
                if q < open.len() - 1 {
                    assert(s[was[q]].tid == s[was[open.len() - 1]].tid);
                }
            }
        }
        assert forall|i: int| 0 <= i < n && !#[trigger] left_out(s, i) implies now.contains(i)
            || is_past(s, i, n) by {
            if i == j {
                assert(now[open.len() as int] == j);
            } else if was.contains(i) {
                let q = choose|q: int| 0 <= q < was.len() && was[q] == i;
                if q < open.len() {
                    assert(now[q] == i);
                } else {
                    assert(is_over(s[was[q]], s[j]));
                }
            } else {
                let p = choose|p: int| i < p < j && is_over(s[i], #[trigger] s[p]);
                assert(is_over(s[i], s[p]));
            }
        }
    }
}

/// Of two events of a track that are both kept, the later one does not begin during
/// the other and end after it.
pub proof fn law_the_kept_do_not_cross(s: Seq<EventView>, i: int, j: int)
    requires
        is_tracked(s),
        0 <= i < j < s.len(),
        s[i].tid == s[j].tid,
        !left_out(s, i),
        !left_out(s, j),
    ensures
        !crosses(s[i], s[j]),
{
    lemma_nest(s, j);
    let was = open_after(s, j);
    let open = still_open(s, was, j);
    lemma_still_open(s, was, j);
    lemma_popped(s, was, j);
    if was.contains(i) {
        let q = choose|q: int| 0 <= q < was.len() && was[q] == i;
        if q < open.len() {
            let top = open.last();
            assert(top == was[open.len() - 1]);
            lemma_ends_within(s[top], s[j]);
            if q < open.len() - 1 {
                assert(finish(s[was[open.len() - 1]]) <= finish(s[was[q]]));
            }
        } else {
            assert(is_over(s[was[q]], s[j]));
        }
    } else {
        let p = choose|p: int| i < p < j && is_over(s[i], #[trigger] s[p]);
        assert(s[i].tid < s[p].tid || (s[i].tid == s[p].tid && s[i].ts <= s[p].ts));
        assert(s[p].tid < s[j].tid || (s[p].tid == s[j].tid && s[p].ts <= s[j].ts));
    }
}

/// Whether no event of a track begins during an earlier one and ends after it.
pub open spec fn is_crossing_free(s: Seq<EventView>) -> bool {
    forall|i: int, j: int|
        #![trigger s[i], s[j]]
        0 <= i < j < s.len() && s[i].tid == s[j].tid ==> !crosses(s[i], s[j])
}

proof fn lemma_nothing_dropped(s: Seq<EventView>, n: int)
    requires
        is_crossing_free(s),
        0 <= n <= s.len(),
    ensures
        dropped_of(s, n) == Seq::<OverlapView>::empty(),
    decreases n,
{
    if n > 0 {
        lemma_nothing_dropped(s, n - 1);
        let was = open_after(s, n - 1);
        let open = still_open(s, was, n - 1);
        lemma_open(s, n - 1);
        lemma_still_open(s, was, n - 1);
        if open.len() > 0 {
            assert(open.last() == was[open.len() - 1]);
            assert(!crosses(s[open.last()], s[n - 1]));
        }
    }
}

proof fn lemma_left_out(s: Seq<EventView>, n: int)
    requires
        0 <= n <= s.len(),
    ensures
        left_out_at(s, n).len() == dropped_of(s, n).len(),
        forall|k: int|
            0 <= k < left_out_at(s, n).len() ==> {
                let j = #[trigger] left_out_at(s, n)[k];
                &&& 0 <= j < n
                &&& left_out(s, j)
                &&& dropped_of(s, n)[k].dropped == s[j]
            },
        forall|k: int, l: int|
            0 <= k < l < left_out_at(s, n).len() ==> left_out_at(s, n)[k] < left_out_at(s, n)[l],
        forall|j: int|
            0 <= j < n && #[trigger] left_out(s, j) ==> left_out_at(s, n).contains(j),
    decreases n,
{
    if n > 0 {
        lemma_left_out(s, n - 1);
        let all = left_out_at(s, n);
        let less = left_out_at(s, n - 1);
        assert forall|k: int| 0 <= k < all.len() implies ({
            let j = #[trigger] all[k];
            &&& 0 <= j < n
            &&& left_out(s, j)
            &&& dropped_of(s, n)[k].dropped == s[j]
        }) by {
            if k < less.len() {
                assert(all[k] == less[k]);
                assert(dropped_of(s, n)[k] == dropped_of(s, n - 1)[k]);
            }
        }
        assert forall|k: int, l: int| 0 <= k < l < all.len() implies all[k] < all[l] by {
            assert(all[k] == less[k]);
            if l < less.len() {
                assert(all[l] == less[l]);
            }
        }
        assert forall|j: int| 0 <= j < n && #[trigger] left_out(s, j) implies all.contains(j) by {
            if j < n - 1 {
                let k = choose|k: int| 0 <= k < less.len() && less[k] == j;
                assert(all[k] == j);
            } else {
                assert(all[less.len() as int] == j);
            }
        }
    }
}

/// Events that are sorted as a viewer does are sorted into tracks.
pub proof fn lemma_viewing_is_tracked(events: Seq<EventView>, order: Seq<usize>)
    requires
        is_key_order(viewing_keys(events), order),
    ensures
        is_tracked(arranged(events, order)),
{
    let s = arranged(events, order);
    let keys = viewing_keys(events);
    assert forall|i: int, j: int| #![trigger s[i], s[j]] 0 <= i < j < s.len() implies s[i].tid
        < s[j].tid || (s[i].tid == s[j].tid && s[i].ts <= s[j].ts) by {
        let x = order[i] as int;
        let y = order[j] as int;
        assert(key_goes_first(keys, x, y));
        assert(keys[x].major == events[x].tid && keys[x].minor == events[x].ts);
        assert(keys[y].major == events[y].tid && keys[y].minor == events[y].ts);
    }
}

/// Whether a viewer leaves out the event at the position `p` of the file, where `order`
/// sorts the events.
pub open spec fn left_out_of_file(events: Seq<EventView>, order: Seq<usize>, p: int) -> bool {
    exists|j: int| 0 <= j < order.len() && #[trigger] order[j] == p && left_out(
        arranged(events, order),
        j,
    )
}

/// The positions of the events of the file that a viewer keeps, among the first `n`.
pub open spec fn kept_at(events: Seq<EventView>, order: Seq<usize>, n: int) -> Seq<int>
    decreases n,
{
    if n <= 0 {
        seq![]
    } else if left_out_of_file(events, order, n - 1) {
        kept_at(events, order, n - 1)
    } else {
        kept_at(events, order, n - 1).push(n - 1)
    }
}

/// The events that a viewer keeps, in the order of the file.
pub open spec fn kept_events(events: Seq<EventView>, order: Seq<usize>) -> Seq<EventView> {
    kept_at(events, order, events.len() as int).map_values(|p: int| events[p])
}

proof fn lemma_kept_at(events: Seq<EventView>, order: Seq<usize>, n: int)
    requires
        0 <= n,
    ensures
        forall|k: int|
            0 <= k < kept_at(events, order, n).len() ==> 0 <= #[trigger] kept_at(
                events,
                order,
                n,
            )[k] < n && !left_out_of_file(events, order, kept_at(events, order, n)[k]),
        forall|k: int, l: int|
            0 <= k < l < kept_at(events, order, n).len() ==> kept_at(events, order, n)[k] < kept_at(
                events,
                order,
                n,
            )[l],
    decreases n,
{
    if n > 0 {
        lemma_kept_at(events, order, n - 1);
        let all = kept_at(events, order, n);
        let less = kept_at(events, order, n - 1);
        assert forall|k: int| 0 <= k < all.len() implies 0 <= #[trigger] all[k] < n
            && !left_out_of_file(events, order, all[k]) by {
            if k < less.len() {
                assert(all[k] == less[k]);
            }
        }
        assert forall|k: int, l: int| 0 <= k < l < all.len() implies all[k] < all[l] by {
            assert(all[k] == less[k]);
            if l < less.len() {
                assert(all[l] == less[l]);
            }
        }
    }
}

/// The overlaps are those of the order in which a viewer takes the events.
proof fn lemma_overlaps_by(events: Seq<EventView>, order: Seq<usize>, r: Seq<OverlapView>)
    requires
        is_key_order(viewing_keys(events), order),
        are_overlaps(events, r),
    ensures
        r == dropped_of(arranged(events, order), events.len() as int),
{
    let other = choose|other: Seq<usize>|
        #[trigger] is_key_order(viewing_keys(events), other) && r == dropped_of(
            arranged(events, other),
            events.len() as int,
        );
    law_key_order_is_unique(viewing_keys(events), order, other);
}

/// An event that is reported begins during the other one, on the same track, and ends
/// after it: a touch or a shared end is never reported.
pub proof fn law_what_is_reported_crosses(events: Seq<EventView>, r: Seq<OverlapView>)
    requires
        are_overlaps(events, r),
    ensures
        forall|k: int|
            0 <= k < r.len() ==> {
                let o = #[trigger] r[k];
                &&& o.over.tid == o.tid && o.dropped.tid == o.tid
                &&& o.over.ts <= o.dropped.ts < finish(o.over) < finish(o.dropped)
            },
{
    let order = choose|order: Seq<usize>|
        #[trigger] is_key_order(viewing_keys(events), order) && r == dropped_of(
            arranged(events, order),
            events.len() as int,
        );
    lemma_viewing_is_tracked(events, order);
    law_overlaps_cross(arranged(events, order), events.len() as int);
}

/// No event is left out twice: the events that are reported stand at different places
/// of the file.
pub proof fn law_nothing_is_dropped_twice(
    events: Seq<EventView>,
    order: Seq<usize>,
    r: Seq<OverlapView>,
)
    requires
        is_key_order(viewing_keys(events), order),
        are_overlaps(events, r),
    ensures
        exists|at: Seq<int>| #[trigger]
            at.len() == r.len() && at.no_duplicates() && (forall|k: int|
                0 <= k < at.len() ==> 0 <= #[trigger] at[k] < events.len() && r[k].dropped
                    == events[at[k]] && left_out_of_file(events, order, at[k])),
{
    lemma_overlaps_by(events, order, r);
    let s = arranged(events, order);
    let n = events.len() as int;
    lemma_left_out(s, n);
    let js = left_out_at(s, n);
    let at = js.map_values(|j: int| order[j] as int);
    assert forall|k: int| 0 <= k < at.len() implies 0 <= #[trigger] at[k] < events.len()
        && r[k].dropped == events[at[k]] && left_out_of_file(events, order, at[k]) by {
        assert(at[k] == order[js[k]] as int);
        assert(left_out(s, js[k]));
        assert(s[js[k]] == events[at[k]]);
    }
    assert forall|k: int, l: int| 0 <= k < at.len() && 0 <= l < at.len() && k != l implies at[k]
        != at[l] by {
        let (a, b) = if k < l {
            (k, l)
        } else {
            (l, k)
        };
        assert(js[a] < js[b]);
        assert(key_goes_first(viewing_keys(events), order[js[a]] as int, order[js[b]] as int));
    }
    assert(at.len() == r.len() && at.no_duplicates());
}

/// Without the events that are left out, nothing overlaps any more.
pub proof fn law_the_kept_overlap_no_more(
    events: Seq<EventView>,
    order: Seq<usize>,
    rest: Seq<OverlapView>,
)
    requires
        is_key_order(viewing_keys(events), order),
        are_overlaps(kept_events(events, order), rest),
    ensures
        rest == Seq::<OverlapView>::empty(),
{
    let kept = kept_events(events, order);
    let at = kept_at(events, order, events.len() as int);
    lemma_kept_at(events, order, events.len() as int);
    let again = choose|again: Seq<usize>|
        #[trigger] is_key_order(viewing_keys(kept), again) && rest == dropped_of(
            arranged(kept, again),
            kept.len() as int,
        );
    let s = arranged(events, order);
    let t = arranged(kept, again);
    lemma_viewing_is_tracked(events, order);
    assert forall|p: int, q: int|
        #![trigger t[p], t[q]]
        0 <= p < q < t.len() && t[p].tid == t[q].tid implies !crosses(t[p], t[q]) by {
        let a = again[p] as int;
        let b = again[q] as int;
        assert(key_goes_first(viewing_keys(kept), a, b));
        assert(viewing_keys(kept)[a] == viewing_keys(events)[at[a]]);
        assert(viewing_keys(kept)[b] == viewing_keys(events)[at[b]]);
        assert(key_goes_first(viewing_keys(events), at[a], at[b]));
        assert(is_listed(order, at[a]));
        assert(is_listed(order, at[b]));
        let i = choose|i: int| 0 <= i < order.len() && #[trigger] order[i] == at[a];
        let j = choose|j: int| 0 <= j < order.len() && #[trigger] order[j] == at[b];
        if j < i {
            assert(key_goes_first(viewing_keys(events), at[b], at[a]));
        }
        assert(i < j);
        assert(!left_out_of_file(events, order, at[a]));
        assert(!left_out_of_file(events, order, at[b]));
        assert(s[i] == t[p] && s[j] == t[q]);
        law_the_kept_do_not_cross(s, i, j);
    }
    lemma_nothing_dropped(t, kept.len() as int);
}

/// Where nothing overlaps, no two events of a track cross.
pub proof fn law_no_overlap_means_no_crossing(events: Seq<EventView>, order: Seq<usize>)
    requires
        is_key_order(viewing_keys(events), order),
        are_overlaps(events, Seq::<OverlapView>::empty()),
    ensures
        is_crossing_free(arranged(events, order)),
{
    let s = arranged(events, order);
    lemma_overlaps_by(events, order, Seq::<OverlapView>::empty());
    lemma_left_out(s, s.len() as int);
    lemma_viewing_is_tracked(events, order);
    assert forall|i: int, j: int|
        #![trigger s[i], s[j]]
        0 <= i < j < s.len() && s[i].tid == s[j].tid implies !crosses(s[i], s[j]) by {
        assert(!left_out(s, i));
        assert(!left_out(s, j));
        law_the_kept_do_not_cross(s, i, j);
    }
}

} // verus!
