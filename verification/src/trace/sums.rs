//! What the numbers of a summary add up to.

use vstd::prelude::*;

use crate::order::{arranged, is_key_order, is_listed, key_goes_first};
use crate::trace::crossing::law_no_overlap_means_no_crossing;
use crate::trace::{
    agg_of, are_overlaps, covers, crosses, finish, flat, forest_by, is_forest, is_summary, kids,
    kids_from, lemma_agg_bounds, lemma_kids_after, lemma_parent_below, nesting_keys, node_is,
    nodes_are, occurs_in, parent, ranks_before, root_keys, sums_fit, total_dur, viewing_keys,
    AggView, EventView, Node, OverlapView,
};

verus! {

/// The sum of numbers.
pub open spec fn sum(s: Seq<nat>) -> nat
    decreases s.len(),
{
    if s.len() == 0 {
        0
    } else {
        sum(s.drop_last()) + s.last()
    }
}

proof fn lemma_sum_of_one(x: nat)
    ensures
        sum(seq![x]) == x,
{
    assert(seq![x].drop_last() =~= Seq::<nat>::empty());
    assert(sum(Seq::<nat>::empty()) == 0);
}

proof fn lemma_sum_without(s: Seq<nat>, p: int)
    requires
        0 <= p < s.len(),
    ensures
        sum(s) == sum(s.remove(p)) + s[p],
    decreases s.len(),
{
    if p == s.len() - 1 {
        assert(s.remove(p) =~= s.drop_last());
    } else {
        lemma_sum_without(s.drop_last(), p);
        assert(s.remove(p).drop_last() =~= s.drop_last().remove(p));
        assert(s.remove(p).last() == s.last());
    }
}

/// Whether `order` lists each of `0..n` once.
spec fn is_permutation(order: Seq<usize>, n: nat) -> bool {
    &&& order.len() == n
    &&& forall|i: int| 0 <= i < order.len() ==> 0 <= #[trigger] order[i] < n
    &&& forall|i: int, j: int|
        0 <= i < j < order.len() ==> #[trigger] order[i] != #[trigger] order[j]
    &&& forall|k: int| 0 <= k < n ==> #[trigger] is_listed(order, k)
}

/// The order in which numbers are taken does not change their sum.
proof fn lemma_sum_any_order(s: Seq<nat>, order: Seq<usize>)
    requires
        is_permutation(order, s.len()),
    ensures
        sum(arranged(s, order)) == sum(s),
    decreases s.len(),
{
    if s.len() > 0 {
        let last = s.len() - 1;
        assert(is_listed(order, last));
        let p = choose|p: int| 0 <= p < order.len() && #[trigger] order[p] == last;
        let less = order.remove(p);
        let rest = s.drop_last();
        assert forall|i: int| 0 <= i < less.len() implies 0 <= #[trigger] less[i] < rest.len() by {
            let k = if i < p {
                i
            } else {
                i + 1
            };
            assert(less[i] == order[k]);
            if k < p {
                assert(order[k] != order[p]);
            } else {
                assert(order[p] != order[k]);
            }
        }
        assert forall|i: int, j: int| 0 <= i < j < less.len() implies #[trigger] less[i]
            != #[trigger] less[j] by {
            let a = if i < p {
                i
            } else {
                i + 1
            };
            let b = if j < p {
                j
            } else {
                j + 1
            };
            assert(less[i] == order[a] && less[j] == order[b]);
        }
        assert forall|k: int| 0 <= k < rest.len() implies #[trigger] is_listed(less, k) by {
            assert(is_listed(order, k));
            let i = choose|i: int| 0 <= i < order.len() && #[trigger] order[i] == k;
            let a = if i < p {
                i
            } else {
                i - 1
            };
            assert(less[a] == order[i]);
        }
        lemma_sum_any_order(rest, less);
        lemma_sum_without(arranged(s, order), p);
        assert(arranged(s, order).remove(p) =~= arranged(rest, less));
    }
}

proof fn lemma_key_order_is_permutation(keys: Seq<crate::order::SortKey>, order: Seq<usize>)
    requires
        is_key_order(keys, order),
    ensures
        is_permutation(order, keys.len()),
{
    assert forall|i: int, j: int| 0 <= i < j < order.len() implies #[trigger] order[i]
        != #[trigger] order[j] by {
        assert(key_goes_first(keys, order[i] as int, order[j] as int));
    }
}

/// What nodes are worth together, where `w` says what one of a name and a duration is
/// worth.
spec fn worth(nodes: Seq<Node>, w: spec_fn(Seq<char>, u64) -> nat) -> nat {
    sum(nodes.map_values(|n: Node| w(n.name@, n.dur)))
}

/// What events are worth together.
spec fn events_worth(events: Seq<EventView>, w: spec_fn(Seq<char>, u64) -> nat) -> nat {
    sum(events.map_values(|e: EventView| w(e.name, e.dur)))
}

proof fn lemma_sum_splits(a: Seq<nat>, b: Seq<nat>)
    ensures
        sum(a + b) == sum(a) + sum(b),
    decreases b.len(),
{
    if b.len() == 0 {
        assert(a + b =~= a);
    } else {
        lemma_sum_splits(a, b.drop_last());
        assert((a + b).drop_last() =~= a + b.drop_last());
    }
}

/// What the event at `j` and those inside it are worth.
spec fn tree_worth(s: Seq<EventView>, w: spec_fn(Seq<char>, u64) -> nat, j: int) -> nat
    decreases s.len() - j, 0nat,
{
    if 0 <= j < s.len() {
        w(s[j].name, s[j].dur) + kids_worth(s, w, Some(j), j + 1)
    } else {
        0
    }
}

/// What the events from `lo` on that lie directly inside `p` are worth, with those
/// inside them.
spec fn kids_worth(s: Seq<EventView>, w: spec_fn(Seq<char>, u64) -> nat, p: Option<int>, lo: int) -> nat
    decreases s.len() - lo, 1nat,
{
    if lo < 0 || lo >= s.len() {
        0
    } else {
        (if parent(s, lo) == p {
            tree_worth(s, w, lo)
        } else {
            0
        }) + kids_worth(s, w, p, lo + 1)
    }
}

/// What the trees at these positions are worth.
spec fn trees_worth(s: Seq<EventView>, w: spec_fn(Seq<char>, u64) -> nat, at: Seq<int>) -> nat {
    sum(at.map_values(|j: int| tree_worth(s, w, j)))
}

proof fn lemma_kids_worth(s: Seq<EventView>, w: spec_fn(Seq<char>, u64) -> nat, p: Option<int>, lo: int)
    requires
        0 <= lo,
    ensures
        trees_worth(s, w, kids_from(s, p, lo)) == kids_worth(s, w, p, lo),
    decreases s.len() - lo,
{
    let f = |j: int| tree_worth(s, w, j);
    if lo < s.len() {
        lemma_kids_worth(s, w, p, lo + 1);
        if parent(s, lo) == p {
            let rest = kids_from(s, p, lo + 1);
            let one: Seq<int> = seq![lo];
            assert((one + rest).map_values(f) =~= one.map_values(f) + rest.map_values(f));
            lemma_sum_splits(one.map_values(f), rest.map_values(f));
            assert(one.map_values(f) =~= seq![tree_worth(s, w, lo)]);
            lemma_sum_of_one(tree_worth(s, w, lo));
        }
    } else {
        assert(kids_from(s, p, lo).map_values(f) =~= Seq::<nat>::empty());
    }
}

proof fn lemma_kids_are_later(s: Seq<EventView>, p: Option<int>, lo: int)
    requires
        0 <= lo,
    ensures
        forall|i: int|
            0 <= i < kids_from(s, p, lo).len() ==> lo <= #[trigger] kids_from(s, p, lo)[i] < s.len()
                && parent(s, kids_from(s, p, lo)[i]) == p,
        forall|i: int, k: int|
            0 <= i < k < kids_from(s, p, lo).len() ==> kids_from(s, p, lo)[i] < kids_from(s, p, lo)[k],
    decreases s.len() - lo,
{
    if lo < s.len() {
        lemma_kids_are_later(s, p, lo + 1);
        let all = kids_from(s, p, lo);
        let rest = kids_from(s, p, lo + 1);
        if parent(s, lo) == p {
            assert forall|i: int| 0 <= i < all.len() implies lo <= #[trigger] all[i] < s.len()
                && parent(s, all[i]) == p by {
                if i > 0 {
                    assert(all[i] == rest[i - 1]);
                }
            }
            assert forall|i: int, k: int| 0 <= i < k < all.len() implies all[i] < all[k] by {
                assert(all[k] == rest[k - 1]);
                if i > 0 {
                    assert(all[i] == rest[i - 1]);
                }
            }
        }
    }
}

/// The nodes of a forest are worth what the trees of its events are.
proof fn lemma_nodes_worth(
    ns: Seq<Node>,
    s: Seq<EventView>,
    at: Seq<int>,
    w: spec_fn(Seq<char>, u64) -> nat,
)
    requires
        nodes_are(ns, s, at),
        forall|i: int| 0 <= i < at.len() ==> 0 <= #[trigger] at[i] < s.len(),
    ensures
        worth(flat(ns), w) == trees_worth(s, w, at),
    decreases ns,
{
    let g = |n: Node| w(n.name@, n.dur);
    let f = |j: int| tree_worth(s, w, j);
    if ns.len() == 0 {
        assert(flat(ns).map_values(g) =~= Seq::<nat>::empty());
        assert(at.map_values(f) =~= Seq::<nat>::empty());
    } else {
        let last = ns.last();
        let j = at.last();
        assert(node_is(ns[ns.len() - 1], s, at[ns.len() - 1]));
        let less = ns.drop_last();
        assert forall|i: int| 0 <= i < less.len() implies node_is(
            #[trigger] less[i],
            s,
            at.drop_last()[i],
        ) by {
            assert(less[i] == ns[i]);
        }
        assert forall|i: int| 0 <= i < at.drop_last().len() implies 0
            <= #[trigger] at.drop_last()[i] < s.len() by {
            assert(at.drop_last()[i] == at[i]);
        }
        lemma_nodes_worth(less, s, at.drop_last(), w);
        let inside = kids(s, Some(j));
        lemma_kids_are_later(s, Some(j), 0);
        lemma_nodes_worth(last.children@, s, inside, w);
        lemma_kids_after(s, j, 0);
        lemma_kids_worth(s, w, Some(j), j + 1);
        let head = flat(less);
        let tail = flat(last.children@);
        let one = seq![last];
        assert(flat(ns).map_values(g) =~= head.map_values(g) + one.map_values(g) + tail.map_values(
            g,
        ));
        lemma_sum_splits(head.map_values(g) + one.map_values(g), tail.map_values(g));
        lemma_sum_splits(head.map_values(g), one.map_values(g));
        assert(one.map_values(g) =~= seq![w(last.name@, last.dur)]);
        lemma_sum_of_one(w(last.name@, last.dur));
        assert(at.map_values(f).drop_last() =~= at.drop_last().map_values(f));
    }
}

/// What the events from `lo` on are worth whose parent comes before `bar`, with those
/// inside them.
spec fn outer_worth(s: Seq<EventView>, w: spec_fn(Seq<char>, u64) -> nat, bar: int, lo: int) -> nat
    decreases s.len() - lo,
{
    if lo < 0 || lo >= s.len() {
        0
    } else {
        (if parent(s, lo) matches Some(p) && p >= bar {
            0
        } else {
            tree_worth(s, w, lo)
        }) + outer_worth(s, w, bar, lo + 1)
    }
}

proof fn lemma_raise_bar(s: Seq<EventView>, w: spec_fn(Seq<char>, u64) -> nat, bar: int, lo: int)
    requires
        0 <= lo,
    ensures
        outer_worth(s, w, bar + 1, lo) == outer_worth(s, w, bar, lo) + kids_worth(
            s,
            w,
            Some(bar),
            lo,
        ),
    decreases s.len() - lo,
{
    if lo < s.len() {
        lemma_raise_bar(s, w, bar, lo + 1);
    }
}

proof fn lemma_outer_worth(s: Seq<EventView>, w: spec_fn(Seq<char>, u64) -> nat, lo: int)
    requires
        0 <= lo <= s.len(),
    ensures
        outer_worth(s, w, lo, lo) == events_worth(s.skip(lo), w),
    decreases s.len() - lo,
{
    let g = |e: EventView| w(e.name, e.dur);
    if lo < s.len() {
        lemma_outer_worth(s, w, lo + 1);
        lemma_raise_bar(s, w, lo, lo + 1);
        lemma_parent_below(s, lo, lo);
        let one = seq![s[lo]];
        assert(s.skip(lo).map_values(g) =~= one.map_values(g) + s.skip(lo + 1).map_values(g));
        lemma_sum_splits(one.map_values(g), s.skip(lo + 1).map_values(g));
        assert(one.map_values(g) =~= seq![w(s[lo].name, s[lo].dur)]);
        lemma_sum_of_one(w(s[lo].name, s[lo].dur));
    } else {
        assert(s.skip(lo).map_values(g) =~= Seq::<nat>::empty());
    }
}

proof fn lemma_roots_worth(s: Seq<EventView>, w: spec_fn(Seq<char>, u64) -> nat, lo: int)
    requires
        0 <= lo,
    ensures
        outer_worth(s, w, 0, lo) == kids_worth(s, w, None, lo),
    decreases s.len() - lo,
{
    if lo < s.len() {
        lemma_roots_worth(s, w, lo + 1);
        lemma_parent_below(s, lo, lo);
    }
}

/// A forest is worth what its events are.
proof fn lemma_forest_worth(
    events: Seq<EventView>,
    r: Seq<Node>,
    order: Seq<usize>,
    rorder: Seq<usize>,
    w: spec_fn(Seq<char>, u64) -> nat,
)
    requires
        forest_by(events, r, order, rorder),
    ensures
        worth(flat(r), w) == events_worth(events, w),
{
    let s = arranged(events, order);
    let roots = kids(s, None);
    let at = arranged(roots, rorder);
    let f = |j: int| tree_worth(s, w, j);
    let g = |e: EventView| w(e.name, e.dur);
    lemma_kids_are_later(s, None, 0);
    lemma_key_order_is_permutation(nesting_keys(events), order);
    lemma_key_order_is_permutation(root_keys(s, roots), rorder);
    assert forall|i: int| 0 <= i < at.len() implies 0 <= #[trigger] at[i] < s.len() by {
        assert(at[i] == roots[rorder[i] as int]);
    }
    lemma_nodes_worth(r, s, at, w);
    assert(at.map_values(f) =~= arranged(roots.map_values(f), rorder));
    lemma_sum_any_order(roots.map_values(f), rorder);
    lemma_kids_worth(s, w, None, 0);
    lemma_roots_worth(s, w, 0);
    lemma_outer_worth(s, w, 0);
    assert(s.skip(0) =~= s);
    assert(s.map_values(g) =~= arranged(events.map_values(g), order));
    lemma_sum_any_order(events.map_values(g), order);
}

/// How long events took together.
pub open spec fn events_dur(events: Seq<EventView>) -> nat {
    sum(events.map_values(|e: EventView| e.dur as nat))
}

proof fn lemma_total_is_sum(nodes: Seq<Node>)
    ensures
        total_dur(nodes) == sum(nodes.map_values(|n: Node| n.dur as nat)),
    decreases nodes.len(),
{
    let g = |n: Node| n.dur as nat;
    if nodes.len() > 0 {
        lemma_total_is_sum(nodes.drop_last());
        assert(nodes.map_values(g).drop_last() =~= nodes.drop_last().map_values(g));
    }
}

proof fn lemma_sum_of_ones(s: Seq<nat>)
    requires
        forall|i: int| 0 <= i < s.len() ==> #[trigger] s[i] == 1,
    ensures
        sum(s) == s.len(),
    decreases s.len(),
{
    if s.len() > 0 {
        lemma_sum_of_ones(s.drop_last());
    }
}

/// A forest has as many nodes as there are events, and they took as long.
pub proof fn law_a_forest_holds_every_event(events: Seq<EventView>, r: Seq<Node>)
    requires
        is_forest(events, r),
    ensures
        flat(r).len() == events.len(),
        total_dur(flat(r)) == events_dur(events),
{
    let (order, rorder) = choose|order: Seq<usize>, rorder: Seq<usize>| #[trigger]
        forest_by(events, r, order, rorder);
    let one = |m: Seq<char>, d: u64| 1nat;
    let own = |m: Seq<char>, d: u64| d as nat;
    lemma_forest_worth(events, r, order, rorder, one);
    lemma_sum_of_ones(flat(r).map_values(|n: Node| one(n.name@, n.dur)));
    lemma_sum_of_ones(events.map_values(|e: EventView| one(e.name, e.dur)));
    lemma_forest_worth(events, r, order, rorder, own);
    lemma_total_is_sum(flat(r));
    assert(flat(r).map_values(|n: Node| own(n.name@, n.dur)) =~= flat(r).map_values(|n: Node| n.dur as nat));
    assert(events.map_values(|e: EventView| own(e.name, e.dur)) =~= events.map_values(
        |e: EventView| e.dur as nat,
    ));
}

/// How many spans the rows of a summary count together.
pub open spec fn count_sum(rows: Seq<AggView>) -> nat {
    sum(rows.map_values(|a: AggView| a.count))
}

/// How long the spans of the rows took together.
pub open spec fn total_sum(rows: Seq<AggView>) -> nat {
    sum(rows.map_values(|a: AggView| a.total_us))
}

/// How long the spans of the rows took together, besides the spans inside them.
pub open spec fn self_sum(rows: Seq<AggView>) -> nat {
    sum(rows.map_values(|a: AggView| a.self_us))
}

/// How long nodes took together, besides the nodes inside them.
pub open spec fn own_sum(nodes: Seq<Node>) -> nat {
    sum(nodes.map_values(|n: Node| n.own_time()))
}

/// What the nodes of each of these names come to.
spec fn rows_of(nodes: Seq<Node>, names: Seq<Seq<char>>) -> Seq<AggView> {
    names.map_values(|n: Seq<char>| agg_of(nodes, n))
}

/// One node more adds to the row of its name alone.
proof fn lemma_one_row_grows(nodes: Seq<Node>, names: Seq<Seq<char>>)
    requires
        nodes.len() > 0,
        names.no_duplicates(),
    ensures
        ({
            let now = rows_of(nodes, names);
            let was = rows_of(nodes.drop_last(), names);
            let n = nodes.last();
            if names.contains(n.name@) {
                &&& count_sum(now) == count_sum(was) + 1
                &&& total_sum(now) == total_sum(was) + n.dur as nat
                &&& self_sum(now) == self_sum(was) + n.own_time()
            } else {
                now == was
            }
        }),
    decreases names.len(),
{
    let now = rows_of(nodes, names);
    let was = rows_of(nodes.drop_last(), names);
    let n = nodes.last();
    if names.len() == 0 {
        assert(now =~= was);
    } else {
        let less = names.drop_last();
        let now2 = rows_of(nodes, less);
        let was2 = rows_of(nodes.drop_last(), less);
        assert forall|i: int, j: int|
            0 <= i < less.len() && 0 <= j < less.len() && i != j implies less[i] != less[j] by {
            assert(names[i] != names[j]);
        }
        lemma_one_row_grows(nodes, less);
        lemma_rows_end(now);
        lemma_rows_end(was);
        assert(now.drop_last() =~= now2);
        assert(was.drop_last() =~= was2);
        assert(now.last() == agg_of(nodes, names.last()));
        assert(was.last() == agg_of(nodes.drop_last(), names.last()));
        if n.name@ == names.last() {
            assert(names[names.len() - 1] == n.name@);
            if less.contains(n.name@) {
                let i = choose|i: int| 0 <= i < less.len() && less[i] == n.name@;
                assert(names[i] == names[names.len() - 1]);
            }
        } else {
            assert(now.last() == was.last());
            if less.contains(n.name@) {
                let i = choose|i: int| 0 <= i < less.len() && less[i] == n.name@;
                assert(names[i] == n.name@);
            }
            if names.contains(n.name@) {
                let i = choose|i: int| 0 <= i < names.len() && names[i] == n.name@;
                assert(less[i] == n.name@);
            } else {
                assert(now =~= now2.push(now.last()));
                assert(was =~= was2.push(was.last()));
            }
        }
    }
}

proof fn lemma_rows_end(rows: Seq<AggView>)
    requires
        rows.len() > 0,
    ensures
        count_sum(rows) == count_sum(rows.drop_last()) + rows.last().count,
        total_sum(rows) == total_sum(rows.drop_last()) + rows.last().total_us,
        self_sum(rows) == self_sum(rows.drop_last()) + rows.last().self_us,
{
    let d = rows.drop_last();
    assert(rows.map_values(|a: AggView| a.count).drop_last() =~= d.map_values(|a: AggView| a.count));
    assert(rows.map_values(|a: AggView| a.total_us).drop_last() =~= d.map_values(
        |a: AggView| a.total_us,
    ));
    assert(rows.map_values(|a: AggView| a.self_us).drop_last() =~= d.map_values(
        |a: AggView| a.self_us,
    ));
}

proof fn lemma_rows_add_up(nodes: Seq<Node>, names: Seq<Seq<char>>)
    requires
        names.no_duplicates(),
        forall|i: int| 0 <= i < nodes.len() ==> names.contains((#[trigger] nodes[i]).name@),
    ensures
        count_sum(rows_of(nodes, names)) == nodes.len(),
        total_sum(rows_of(nodes, names)) == total_dur(nodes),
        self_sum(rows_of(nodes, names)) == own_sum(nodes),
    decreases nodes.len(),
{
    let rows = rows_of(nodes, names);
    if nodes.len() == 0 {
        lemma_sum_of_zeros(rows.map_values(|a: AggView| a.count));
        lemma_sum_of_zeros(rows.map_values(|a: AggView| a.total_us));
        lemma_sum_of_zeros(rows.map_values(|a: AggView| a.self_us));
        assert(nodes.map_values(|n: Node| n.own_time()) =~= Seq::<nat>::empty());
    } else {
        let d = nodes.drop_last();
        assert forall|i: int| 0 <= i < d.len() implies names.contains((#[trigger] d[i]).name@) by {
            assert(d[i] == nodes[i]);
        }
        lemma_rows_add_up(d, names);
        lemma_one_row_grows(nodes, names);
        assert(names.contains(nodes[nodes.len() - 1].name@));
        assert(nodes.map_values(|n: Node| n.own_time()).drop_last() =~= d.map_values(
            |n: Node| n.own_time(),
        ));
    }
}

proof fn lemma_sum_of_zeros(s: Seq<nat>)
    requires
        forall|i: int| 0 <= i < s.len() ==> #[trigger] s[i] == 0,
    ensures
        sum(s) == 0,
    decreases s.len(),
{
    if s.len() > 0 {
        lemma_sum_of_zeros(s.drop_last());
    }
}

/// A summary counts every node once, and its times are those of all nodes.
pub proof fn law_a_summary_adds_up(nodes: Seq<Node>, rows: Seq<AggView>)
    requires
        is_summary(nodes, rows),
    ensures
        count_sum(rows) == nodes.len(),
        total_sum(rows) == total_dur(nodes),
        self_sum(rows) == own_sum(nodes),
{
    let names = rows.map_values(|a: AggView| a.name);
    assert forall|i: int, j: int| 0 <= i < names.len() && 0 <= j < names.len() && i != j implies names[i]
        != names[j] by {
        let (a, b) = if i < j {
            (i, j)
        } else {
            (j, i)
        };
        assert(ranks_before(rows[a], rows[b]));
        crate::order::lemma_lex_irreflexive(names[a]);
    }
    assert forall|i: int| 0 <= i < nodes.len() implies names.contains((#[trigger] nodes[i]).name@) by {
        assert(occurs_in(nodes, nodes[i].name@));
        let k = choose|k: int| 0 <= k < rows.len() && (#[trigger] rows[k]).name == nodes[i].name@;
        assert(names[k] == nodes[i].name@);
    }
    assert(rows =~= rows_of(nodes, names)) by {
        assert forall|i: int| 0 <= i < rows.len() implies rows[i] == #[trigger] rows_of(
            nodes,
            names,
        )[i] by {
            assert(names[i] == rows[i].name);
        }
    }
    lemma_rows_add_up(nodes, names);
}

/// The summary of a trace counts every event once, and its times add up to those of the
/// events.
pub proof fn law_a_summary_counts_every_event(
    events: Seq<EventView>,
    roots: Seq<Node>,
    rows: Seq<AggView>,
)
    requires
        is_forest(events, roots),
        is_summary(flat(roots), rows),
    ensures
        count_sum(rows) == events.len(),
        total_sum(rows) == events_dur(events),
{
    law_a_summary_adds_up(flat(roots), rows);
    law_a_forest_holds_every_event(events, roots);
}

/// How many events are called `name`.
pub open spec fn event_count(events: Seq<EventView>, name: Seq<char>) -> nat {
    sum(
        events.map_values(
            |e: EventView|
                if e.name == name {
                    1nat
                } else {
                    0nat
                },
        ),
    )
}

/// How long the events called `name` took together.
pub open spec fn event_total(events: Seq<EventView>, name: Seq<char>) -> nat {
    sum(
        events.map_values(
            |e: EventView|
                if e.name == name {
                    e.dur as nat
                } else {
                    0nat
                },
        ),
    )
}

/// Whether `d` is how long the longest of the events called `name` took.
pub open spec fn is_longest(events: Seq<EventView>, name: Seq<char>, d: nat) -> bool {
    &&& exists|k: int|
        0 <= k < events.len() && (#[trigger] events[k]).name == name && events[k].dur == d
    &&& forall|k: int|
        0 <= k < events.len() && (#[trigger] events[k]).name == name ==> events[k].dur <= d
}

/// Whether an event is called `name`.
pub open spec fn is_event_name(events: Seq<EventView>, name: Seq<char>) -> bool {
    exists|k: int| 0 <= k < events.len() && (#[trigger] events[k]).name == name
}

proof fn lemma_sum_positive(s: Seq<nat>)
    ensures
        sum(s) > 0 <==> exists|i: int| 0 <= i < s.len() && #[trigger] s[i] > 0,
    decreases s.len(),
{
    if s.len() > 0 {
        let d = s.drop_last();
        lemma_sum_positive(d);
        if sum(s) > 0 {
            if s.last() > 0 {
                assert(s[s.len() - 1] > 0);
            } else {
                let i = choose|i: int| 0 <= i < d.len() && #[trigger] d[i] > 0;
                assert(s[i] > 0);
            }
        }
        if exists|i: int| 0 <= i < s.len() && #[trigger] s[i] > 0 {
            let i = choose|i: int| 0 <= i < s.len() && #[trigger] s[i] > 0;
            if i < d.len() {
                assert(d[i] > 0);
            }
        }
    }
}

/// What the nodes of a name come to, as sums.
proof fn lemma_agg_is_sum(nodes: Seq<Node>, name: Seq<char>)
    ensures
        agg_of(nodes, name).count == sum(
            nodes.map_values(
                |n: Node|
                    if n.name@ == name {
                        1nat
                    } else {
                        0nat
                    },
            ),
        ),
        agg_of(nodes, name).total_us == sum(
            nodes.map_values(
                |n: Node|
                    if n.name@ == name {
                        n.dur as nat
                    } else {
                        0nat
                    },
            ),
        ),
    decreases nodes.len(),
{
    let f = |n: Node|
        if n.name@ == name {
            1nat
        } else {
            0nat
        };
    let g = |n: Node|
        if n.name@ == name {
            n.dur as nat
        } else {
            0nat
        };
    if nodes.len() > 0 {
        lemma_agg_is_sum(nodes.drop_last(), name);
        assert(nodes.map_values(f).drop_last() =~= nodes.drop_last().map_values(f));
        assert(nodes.map_values(g).drop_last() =~= nodes.drop_last().map_values(g));
    }
}

/// The longest of the nodes of a name is one of them, and none took longer.
proof fn lemma_agg_max(nodes: Seq<Node>, name: Seq<char>)
    ensures
        agg_of(nodes, name).count > 0 ==> exists|k: int|
            0 <= k < nodes.len() && (#[trigger] nodes[k]).name@ == name && nodes[k].dur == agg_of(
                nodes,
                name,
            ).max_us,
        agg_of(nodes, name).count == 0 ==> agg_of(nodes, name).max_us == 0,
        forall|k: int|
            0 <= k < nodes.len() && (#[trigger] nodes[k]).name@ == name ==> nodes[k].dur <= agg_of(
                nodes,
                name,
            ).max_us,
    decreases nodes.len(),
{
    if nodes.len() > 0 {
        let d = nodes.drop_last();
        let a = agg_of(d, name);
        let b = agg_of(nodes, name);
        lemma_agg_max(d, name);
        assert forall|k: int| 0 <= k < nodes.len() && (#[trigger] nodes[k]).name@ == name implies nodes[k].dur
            <= b.max_us by {
            if k < d.len() {
                assert(d[k] == nodes[k]);
            }
        }
        if b.count > 0 {
            if nodes.last().name@ == name && b.max_us == nodes.last().dur {
                assert(nodes[nodes.len() - 1].dur == b.max_us);
            } else {
                let k = choose|k: int|
                    0 <= k < d.len() && (#[trigger] d[k]).name@ == name && d[k].dur == a.max_us;
                assert(nodes[k] == d[k]);
            }
        }
    }
}

/// A forest has as many nodes of each name as there are events of it, and they took as
/// long.
pub proof fn law_a_forest_keeps_the_names(events: Seq<EventView>, r: Seq<Node>, name: Seq<char>)
    requires
        is_forest(events, r),
    ensures
        agg_of(flat(r), name).count == event_count(events, name),
        agg_of(flat(r), name).total_us == event_total(events, name),
        occurs_in(flat(r), name) <==> is_event_name(events, name),
        is_event_name(events, name) ==> is_longest(events, name, agg_of(flat(r), name).max_us),
{
    let (order, rorder) = choose|order: Seq<usize>, rorder: Seq<usize>| #[trigger]
        forest_by(events, r, order, rorder);
    let nodes = flat(r);
    lemma_agg_is_sum(nodes, name);
    lemma_agg_max(nodes, name);
    let one = |m: Seq<char>, d: u64|
        if m == name {
            1nat
        } else {
            0nat
        };
    let own = |m: Seq<char>, d: u64|
        if m == name {
            d as nat
        } else {
            0nat
        };
    lemma_forest_worth(events, r, order, rorder, one);
    lemma_forest_worth(events, r, order, rorder, own);
    assert(nodes.map_values(|n: Node| one(n.name@, n.dur)) =~= nodes.map_values(
        |n: Node|
            if n.name@ == name {
                1nat
            } else {
                0nat
            },
    ));
    assert(events.map_values(|e: EventView| one(e.name, e.dur)) =~= events.map_values(
        |e: EventView|
            if e.name == name {
                1nat
            } else {
                0nat
            },
    ));
    assert(nodes.map_values(|n: Node| own(n.name@, n.dur)) =~= nodes.map_values(
        |n: Node|
            if n.name@ == name {
                n.dur as nat
            } else {
                0nat
            },
    ));
    assert(events.map_values(|e: EventView| own(e.name, e.dur)) =~= events.map_values(
        |e: EventView|
            if e.name == name {
                e.dur as nat
            } else {
                0nat
            },
    ));
    if occurs_in(nodes, name) {
        let k = choose|k: int| 0 <= k < nodes.len() && (#[trigger] nodes[k]).name@ == name;
        lemma_node_is_event(events, r, order, rorder, k);
    }
    assert forall|k: int| 0 <= k < events.len() && (#[trigger] events[k]).name == name implies {
        &&& occurs_in(nodes, name)
        &&& events[k].dur <= agg_of(nodes, name).max_us
    } by {
        lemma_event_is_node(events, r, order, rorder, k);
        let i = choose|i: int|
            0 <= i < nodes.len() && (#[trigger] nodes[i]).name@ == events[k].name && nodes[i].dur
                == events[k].dur;
        assert(nodes[i].name@ == name);
    }
    if is_event_name(events, name) {
        let e = choose|k: int| 0 <= k < events.len() && (#[trigger] events[k]).name == name;
        assert(events[e].name == name);
        lemma_agg_bounds(nodes, name);
        let k = choose|k: int|
            0 <= k < nodes.len() && (#[trigger] nodes[k]).name@ == name && nodes[k].dur == agg_of(
                nodes,
                name,
            ).max_us;
        lemma_node_is_event(events, r, order, rorder, k);
    }
}

proof fn lemma_node_is_event(
    events: Seq<EventView>,
    r: Seq<Node>,
    order: Seq<usize>,
    rorder: Seq<usize>,
    k: int,
)
    requires
        forest_by(events, r, order, rorder),
        0 <= k < flat(r).len(),
    ensures
        exists|i: int|
            0 <= i < events.len() && (#[trigger] events[i]).name == flat(r)[k].name@ && events[i].dur
                == flat(r)[k].dur,
{
    let n = flat(r)[k];
    let w = |m: Seq<char>, d: u64|
        if m == n.name@ && d == n.dur {
            1nat
        } else {
            0nat
        };
    lemma_forest_worth(events, r, order, rorder, w);
    let a = flat(r).map_values(|n: Node| w(n.name@, n.dur));
    let b = events.map_values(|e: EventView| w(e.name, e.dur));
    lemma_sum_positive(a);
    lemma_sum_positive(b);
    assert(a[k] > 0);
    let i = choose|i: int| 0 <= i < b.len() && #[trigger] b[i] > 0;
    assert(b[i] == w(events[i].name, events[i].dur));
}

proof fn lemma_event_is_node(
    events: Seq<EventView>,
    r: Seq<Node>,
    order: Seq<usize>,
    rorder: Seq<usize>,
    k: int,
)
    requires
        forest_by(events, r, order, rorder),
        0 <= k < events.len(),
    ensures
        exists|i: int|
            0 <= i < flat(r).len() && (#[trigger] flat(r)[i]).name@ == events[k].name && flat(
                r,
            )[i].dur == events[k].dur,
{
    let e = events[k];
    let w = |m: Seq<char>, d: u64|
        if m == e.name && d == e.dur {
            1nat
        } else {
            0nat
        };
    lemma_forest_worth(events, r, order, rorder, w);
    let a = flat(r).map_values(|n: Node| w(n.name@, n.dur));
    let b = events.map_values(|e: EventView| w(e.name, e.dur));
    lemma_sum_positive(a);
    lemma_sum_positive(b);
    assert(b[k] > 0);
    let i = choose|i: int| 0 <= i < a.len() && #[trigger] a[i] > 0;
    assert(a[i] == w(flat(r)[i].name@, flat(r)[i].dur));
}

/// The summary of a trace has one row for each name of an event, and the row tells how
/// many events of the name there are, how long they took, and how long the longest did.
pub proof fn law_a_summary_is_of_the_events(
    events: Seq<EventView>,
    roots: Seq<Node>,
    rows: Seq<AggView>,
)
    requires
        is_forest(events, roots),
        is_summary(flat(roots), rows),
    ensures
        forall|i: int|
            0 <= i < rows.len() ==> {
                let a = #[trigger] rows[i];
                &&& is_event_name(events, a.name)
                &&& a.count == event_count(events, a.name)
                &&& a.total_us == event_total(events, a.name)
                &&& is_longest(events, a.name, a.max_us)
            },
        forall|n: Seq<char>| #[trigger]
            is_event_name(events, n) ==> exists|i: int|
                0 <= i < rows.len() && (#[trigger] rows[i]).name == n,
        forall|i: int, j: int|
            0 <= i < j < rows.len() ==> (#[trigger] rows[i]).name != (#[trigger] rows[j]).name,
{
    let nodes = flat(roots);
    assert forall|i: int| 0 <= i < rows.len() implies ({
        let a = #[trigger] rows[i];
        &&& is_event_name(events, a.name)
        &&& a.count == event_count(events, a.name)
        &&& a.total_us == event_total(events, a.name)
        &&& is_longest(events, a.name, a.max_us)
    }) by {
        let name = rows[i].name;
        law_a_forest_keeps_the_names(events, roots, name);
        lemma_agg_bounds(nodes, name);
    }
    assert forall|n: Seq<char>| #[trigger] is_event_name(events, n) implies exists|i: int|
        0 <= i < rows.len() && (#[trigger] rows[i]).name == n by {
        law_a_forest_keeps_the_names(events, roots, n);
        assert(occurs_in(nodes, n));
    }
    assert forall|i: int, j: int| 0 <= i < j < rows.len() implies (#[trigger] rows[i]).name
        != (#[trigger] rows[j]).name by {
        assert(ranks_before(rows[i], rows[j]));
        crate::order::lemma_lex_irreflexive(rows[i].name);
    }
}

/// Whether the nodes directly inside each node took no longer than that.
spec fn all_fit(nodes: Seq<Node>) -> bool
    decreases nodes,
{
    forall|i: int|
        0 <= i < nodes.len() ==> total_dur((#[trigger] nodes[i]).children@) <= nodes[i].dur
            && all_fit(nodes[i].children@)
}

proof fn lemma_own_times(nodes: Seq<Node>)
    requires
        all_fit(nodes),
    ensures
        own_sum(flat(nodes)) == total_dur(nodes),
    decreases nodes,
{
    let g = |n: Node| n.own_time();
    if nodes.len() == 0 {
        assert(flat(nodes).map_values(g) =~= Seq::<nat>::empty());
    } else {
        let last = nodes.last();
        let less = nodes.drop_last();
        assert(nodes[nodes.len() - 1] == last);
        assert forall|i: int| 0 <= i < less.len() implies total_dur((#[trigger] less[i]).children@)
            <= less[i].dur && all_fit(less[i].children@) by {
            assert(less[i] == nodes[i]);
        }
        lemma_own_times(less);
        lemma_own_times(last.children@);
        let head = flat(less);
        let tail = flat(last.children@);
        let one = seq![last];
        assert(flat(nodes).map_values(g) =~= head.map_values(g) + one.map_values(g)
            + tail.map_values(g));
        lemma_sum_splits(head.map_values(g) + one.map_values(g), tail.map_values(g));
        lemma_sum_splits(head.map_values(g), one.map_values(g));
        assert(one.map_values(g) =~= seq![last.own_time()]);
        lemma_sum_of_one(last.own_time());
    }
}

/// Whether an event that begins during an earlier one of its track ends with it at the
/// latest, and every end can be told.
spec fn is_nested(s: Seq<EventView>) -> bool {
    &&& forall|i: int, j: int|
        #![trigger s[i], s[j]]
        0 <= i < j < s.len() && s[i].tid == s[j].tid ==> s[i].ts <= s[j].ts && !crosses(s[i], s[j])
    &&& forall|i: int| 0 <= i < s.len() ==> (#[trigger] s[i]).ts + s[i].dur <= u64::MAX
}

/// The first `m` events inside the one at `j` took no longer than from its begin to the
/// end of the last of them.
proof fn lemma_kids_fit(ns: Seq<Node>, s: Seq<EventView>, j: int, m: int)
    requires
        is_nested(s),
        0 <= j < s.len(),
        nodes_are(ns, s, kids(s, Some(j))),
        0 <= m <= ns.len(),
    ensures
        m == 0 ==> total_dur(ns.take(m)) == 0,
        m > 0 ==> s[j].ts + total_dur(ns.take(m)) <= finish(s[kids(s, Some(j))[m - 1]]),
        m > 0 ==> finish(s[kids(s, Some(j))[m - 1]]) <= finish(s[j]),
    decreases m,
{
    if m > 0 {
        let at = kids(s, Some(j));
        lemma_kids_fit(ns, s, j, m - 1);
        lemma_kids_are_later(s, Some(j), 0);
        let k = at[m - 1];
        lemma_parent_below(s, k, k);
        assert(parent(s, k) == Some(j));
        assert(covers(s, j, k));
        assert(s[j].ts <= s[k].ts && !crosses(s[j], s[k]));
        assert(node_is(ns[m - 1], s, k));
        crate::seqs::lemma_take_succ(ns, m - 1);
        if m > 1 {
            let b = at[m - 2];
            assert(b < k);
            lemma_parent_below(s, b, b);
            assert(parent(s, b) == Some(j));
            assert(covers(s, j, b));
            assert(!covers(s, b, k));
        }
    }
}

proof fn lemma_forest_fits(ns: Seq<Node>, s: Seq<EventView>, at: Seq<int>)
    requires
        is_nested(s),
        nodes_are(ns, s, at),
        forall|i: int| 0 <= i < at.len() ==> 0 <= #[trigger] at[i] < s.len(),
    ensures
        all_fit(ns),
    decreases ns,
{
    assert forall|i: int| 0 <= i < ns.len() implies total_dur((#[trigger] ns[i]).children@)
        <= ns[i].dur && all_fit(ns[i].children@) by {
        let n = ns[i];
        let j = at[i];
        assert(node_is(ns[i], s, j));
        let inside = kids(s, Some(j));
        lemma_kids_are_later(s, Some(j), 0);
        assert(nodes_are(n.children@, s, inside));
        lemma_kids_fit(n.children@, s, j, n.children@.len() as int);
        assert(n.children@.take(n.children@.len() as int) =~= n.children@);
        assert(s[j].ts + s[j].dur <= u64::MAX);
        assert(decreases_to!(ns => ns[i]));
        lemma_forest_fits(n.children@, s, inside);
    }
}

/// Where nothing overlaps, the times that spans took by themselves add up to the times
/// of the roots.
pub proof fn law_own_times_add_up_to_the_roots(
    events: Seq<EventView>,
    roots: Seq<Node>,
    rows: Seq<AggView>,
)
    requires
        is_forest(events, roots),
        is_summary(flat(roots), rows),
        are_overlaps(events, Seq::<OverlapView>::empty()),
        forall|i: int| 0 <= i < events.len() ==> (#[trigger] events[i]).ts + events[i].dur
            <= u64::MAX,
    ensures
        self_sum(rows) == total_dur(roots),
{
    let (order, rorder) = choose|order: Seq<usize>, rorder: Seq<usize>| #[trigger]
        forest_by(events, roots, order, rorder);
    let viewed = choose|viewed: Seq<usize>| #[trigger]
        is_key_order(viewing_keys(events), viewed) && Seq::<OverlapView>::empty()
            == crate::trace::dropped_of(arranged(events, viewed), events.len() as int);
    law_no_overlap_means_no_crossing(events, viewed);
    let s = arranged(events, order);
    let v = arranged(events, viewed);
    let nk = nesting_keys(events);
    let vk = viewing_keys(events);
    assert forall|i: int, j: int|
        #![trigger s[i], s[j]]
        0 <= i < j < s.len() && s[i].tid == s[j].tid implies s[i].ts <= s[j].ts && !crosses(
        s[i],
        s[j],
    ) by {
        let x = order[i] as int;
        let y = order[j] as int;
        assert(key_goes_first(nk, x, y));
        assert(nk[x].major == events[x].tid && nk[x].minor == events[x].ts && nk[x].least == -(
        events[x].dur as int));
        assert(nk[y].major == events[y].tid && nk[y].minor == events[y].ts && nk[y].least == -(
        events[y].dur as int));
        if events[x].ts < events[y].ts {
            assert(is_listed(viewed, x));
            assert(is_listed(viewed, y));
            let a = choose|a: int| 0 <= a < viewed.len() && #[trigger] viewed[a] == x;
            let b = choose|b: int| 0 <= b < viewed.len() && #[trigger] viewed[b] == y;
            assert(vk[x].major == events[x].tid && vk[x].minor == events[x].ts);
            assert(vk[y].major == events[y].tid && vk[y].minor == events[y].ts);
            if b < a {
                assert(key_goes_first(vk, y, x));
            }
            assert(a < b);
            assert(v[a] == s[i] && v[b] == s[j]);
            assert(!crosses(v[a], v[b]));
        } else {
            assert(events[x].dur >= events[y].dur);
        }
    }
    assert forall|i: int| 0 <= i < s.len() implies (#[trigger] s[i]).ts + s[i].dur <= u64::MAX by {
        assert(s[i] == events[order[i] as int]);
    }
    let at = kids(s, None);
    lemma_kids_are_later(s, None, 0);
    assert forall|i: int| 0 <= i < arranged(at, rorder).len() implies 0 <= #[trigger] arranged(
        at,
        rorder,
    )[i] < s.len() by {
        assert(arranged(at, rorder)[i] == at[rorder[i] as int]);
    }
    lemma_forest_fits(roots, s, arranged(at, rorder));
    lemma_own_times(roots);
    law_a_summary_adds_up(flat(roots), rows);
}

/// The nodes inside one of the nodes took no longer than all of them.
proof fn lemma_children_bounded(nodes: Seq<Node>, i: int)
    requires
        0 <= i < flat(nodes).len(),
    ensures
        total_dur(flat(nodes)[i].children@) <= total_dur(flat(nodes)),
    decreases nodes,
{
    let last = nodes.last();
    let head = flat(nodes.drop_last());
    let tail = flat(last.children@);
    let f = flat(nodes);
    assert(f =~= head + (seq![last] + tail));
    lemma_total_splits(head, seq![last] + tail);
    lemma_total_splits(seq![last], tail);
    if i < head.len() {
        lemma_children_bounded(nodes.drop_last(), i);
        assert(f[i] == head[i]);
    } else if i == head.len() {
        assert(f[i] == last);
        lemma_roots_bounded(last.children@);
    } else {
        let k = i - head.len() - 1;
        lemma_children_bounded(last.children@, k);
        assert(f[i] == tail[k]);
    }
}

/// The roots took no longer than all nodes.
proof fn lemma_roots_bounded(nodes: Seq<Node>)
    ensures
        total_dur(nodes) <= total_dur(flat(nodes)),
    decreases nodes.len(),
{
    if nodes.len() > 0 {
        lemma_roots_bounded(nodes.drop_last());
        let head = flat(nodes.drop_last());
        let tail = flat(nodes.last().children@);
        assert(flat(nodes) =~= head + (seq![nodes.last()] + tail));
        lemma_total_splits(head, seq![nodes.last()] + tail);
        lemma_total_splits(seq![nodes.last()], tail);
        assert(seq![nodes.last()].drop_last() =~= Seq::<Node>::empty());
    }
}

/// What two lists took is what they took together.
proof fn lemma_total_splits(a: Seq<Node>, b: Seq<Node>)
    ensures
        total_dur(a + b) == total_dur(a) + total_dur(b),
    decreases b.len(),
{
    if b.len() == 0 {
        assert(a + b =~= a);
    } else {
        lemma_total_splits(a, b.drop_last());
        assert((a + b).drop_last() =~= a + b.drop_last());
        assert((a + b).last() == b.last());
    }
}

/// Where 64 bits hold what all events took together, the trace can be summarized.
pub proof fn law_durations_that_fit_can_be_summarized(events: Seq<EventView>, roots: Seq<Node>)
    requires
        is_forest(events, roots),
        events_dur(events) <= u64::MAX,
    ensures
        sums_fit(flat(roots)),
{
    let nodes = flat(roots);
    law_a_forest_holds_every_event(events, roots);
    assert forall|n: Seq<char>| (#[trigger] agg_of(nodes, n)).total_us <= u64::MAX by {
        lemma_agg_bounds(nodes, n);
    }
    assert forall|i: int| 0 <= i < nodes.len() implies total_dur((#[trigger] nodes[i]).children@)
        <= u64::MAX by {
        lemma_children_bounded(roots, i);
    }
}

/// The summary of a trace in which nothing overlaps: one row for each name of an event,
/// by own time, then by total time, the larger first, then by name. The counts add up to
/// the number of events, the total times to what the events took, and the own times to
/// what the roots took; the maximum of a row is that of the events of its name.
pub proof fn law_a_summary_tells_where_the_time_went(
    events: Seq<EventView>,
    roots: Seq<Node>,
    rows: Seq<AggView>,
)
    requires
        is_forest(events, roots),
        is_summary(flat(roots), rows),
        are_overlaps(events, Seq::<OverlapView>::empty()),
        forall|i: int| 0 <= i < events.len() ==> (#[trigger] events[i]).ts + events[i].dur
            <= u64::MAX,
    ensures
        forall|n: Seq<char>| #[trigger]
            is_event_name(events, n) <==> exists|i: int|
                0 <= i < rows.len() && (#[trigger] rows[i]).name == n,
        forall|i: int, j: int|
            0 <= i < j < rows.len() ==> (#[trigger] rows[i]).name != (#[trigger] rows[j]).name
                && ranks_before(rows[i], rows[j]),
        count_sum(rows) == events.len(),
        total_sum(rows) == events_dur(events),
        self_sum(rows) == total_dur(roots),
        forall|i: int|
            0 <= i < rows.len() ==> is_longest(
                events,
                (#[trigger] rows[i]).name,
                rows[i].max_us,
            ),
{
    law_a_summary_is_of_the_events(events, roots, rows);
    law_a_summary_counts_every_event(events, roots, rows);
    law_own_times_add_up_to_the_roots(events, roots, rows);
}

} // verus!
