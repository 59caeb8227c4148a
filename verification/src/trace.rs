//! Analysis of the traces that runs leave: how spans nest and where the time goes.

use vstd::prelude::*;

use crate::maps::NameMap;
use crate::order::{
    arranged, is_key_order, is_listed, is_sort_order, key_goes_first, lex_lt, sort_keys, sort_order,
    str_lt, SortKey,
};
use crate::paths::{extension, extension_spec};
use crate::seqs::lemma_take_succ;
use crate::text::{same, views};
use crate::units::{micros_string, micros_text};

pub mod crossing;
pub mod sums;

verus! {

broadcast use {vstd::string::group_string_axioms, crate::seqs::lemma_map_push};

/// An attribute of a span: its name and its value as JSON.
#[derive(Debug)]
pub struct Arg {
    /// The name.
    pub key: String,
    /// The value.
    pub value: String,
}

/// A complete event of a trace. Times are in microseconds.
#[derive(Debug)]
pub struct Event {
    /// The name of the span.
    pub name: String,
    /// The track that it belongs to.
    pub tid: i64,
    /// When it began.
    pub ts: u64,
    /// How long it took.
    pub dur: u64,
    /// Its attributes.
    pub args: Vec<Arg>,
}

/// The model of an [`Event`].
pub struct EventView {
    pub name: Seq<char>,
    pub tid: i64,
    pub ts: u64,
    pub dur: u64,
    pub args: Seq<(Seq<char>, Seq<char>)>,
}

/// The models of the attributes.
pub open spec fn arg_list(v: Seq<Arg>) -> Seq<(Seq<char>, Seq<char>)> {
    v.map_values(|a: Arg| (a.key@, a.value@))
}

impl View for Event {
    type V = EventView;

    open spec fn view(&self) -> EventView {
        EventView {
            name: self.name@,
            tid: self.tid,
            ts: self.ts,
            dur: self.dur,
            args: arg_list(self.args@),
        }
    }
}

/// The models of the events.
pub open spec fn event_list(v: Seq<Event>) -> Seq<EventView> {
    v.map_values(|e: Event| e@)
}

fn copy_args(v: &Vec<Arg>) -> (r: Vec<Arg>)
    ensures
        arg_list(r@) == arg_list(v@),
{
    let ghost all = arg_list(v@);
    let mut r: Vec<Arg> = Vec::new();
    let mut i: usize = 0;
    assert(arg_list(r@) =~= all.take(0));
    while i < v.len()
        invariant
            all == arg_list(v@),
            i <= v.len(),
            arg_list(r@) == all.take(i as int),
        decreases v.len() - i,
    {
        r.push(Arg { key: v[i].key.clone(), value: v[i].value.clone() });
        proof {
            lemma_take_succ(all, i as int);
            assert(all[i as int] == (v@[i as int].key@, v@[i as int].value@));
        }
        i = i + 1;
    }
    assert(all.take(i as int) =~= all);
    r
}

impl Clone for Event {
    fn clone(&self) -> (r: Self)
        ensures
            r@ == self@,
    {
        Event {
            name: self.name.clone(),
            tid: self.tid,
            ts: self.ts,
            dur: self.dur,
            args: copy_args(&self.args),
        }
    }
}

/// One entry of a trace file, of which only the complete events are looked at.
#[derive(Debug)]
pub struct RawEvent {
    /// What kind of entry it is.
    pub ph: String,
    /// The event that it would be.
    pub event: Event,
}

/// The complete events among the entries.
pub open spec fn complete(raw: Seq<RawEvent>) -> Seq<EventView>
    decreases raw.len(),
{
    if raw.len() == 0 {
        seq![]
    } else if raw.last().ph@ == "X"@ {
        complete(raw.drop_last()).push(raw.last().event@)
    } else {
        complete(raw.drop_last())
    }
}

/// The complete events among the entries of a trace file.
pub fn complete_events(raw: &Vec<RawEvent>) -> (r: Vec<Event>)
    ensures
        event_list(r@) == complete(raw@),
{
    let mut r: Vec<Event> = Vec::new();
    let mut i: usize = 0;
    assert(event_list(r@) =~= complete(raw@.take(0)));
    while i < raw.len()
        invariant
            i <= raw.len(),
            event_list(r@) == complete(raw@.take(i as int)),
        decreases raw.len() - i,
    {
        proof {
            lemma_take_succ(raw@, i as int);
        }
        if same(raw[i].ph.as_str(), "X") {
            r.push(raw[i].event.clone());
        }
        i = i + 1;
    }
    assert(raw@.take(i as int) =~= raw@);
    r
}

/// Whether a file of this name is a trace.
pub open spec fn is_trace(name: Seq<char>) -> bool {
    extension_spec(name) == Some("json"@)
}

/// The newest trace by name: of those that are traces, the one that no other comes
/// after.
pub fn latest_trace(names: &Vec<String>) -> (r: Option<usize>)
    ensures
        match r {
            Some(i) => {
                &&& 0 <= i < names@.len()
                &&& is_trace(names@[i as int]@)
                &&& forall|k: int|
                    0 <= k < names@.len() && is_trace((#[trigger] names@[k])@) ==> !lex_lt(
                        names@[i as int]@,
                        names@[k]@,
                    )
            },
            None => forall|k: int|
                0 <= k < names@.len() ==> !is_trace((#[trigger] names@[k])@),
        },
{
    let mut best: Option<usize> = None;
    let mut i: usize = 0;
    while i < names.len()
        invariant
            i <= names.len(),
            match best {
                Some(b) => {
                    &&& 0 <= b < i
                    &&& is_trace(names@[b as int]@)
                    &&& forall|k: int|
                        0 <= k < i && is_trace((#[trigger] names@[k])@) ==> !lex_lt(
                            names@[b as int]@,
                            names@[k]@,
                        )
                },
                None => forall|k: int| 0 <= k < i ==> !is_trace((#[trigger] names@[k])@),
            },
        decreases names.len() - i,
    {
        let json = match extension(names[i].as_str()) {
            Some(e) => same(e, "json"),
            None => false,
        };
        if json {
            match best {
                Some(b) => {
                    if str_lt(names[b].as_str(), names[i].as_str()) {
                        proof {
                            assert forall|k: int|
                                0 <= k < i + 1 && is_trace((#[trigger] names@[k])@) implies !lex_lt(
                                names@[i as int]@,
                                names@[k]@,
                            ) by {
                                if lex_lt(names@[i as int]@, names@[k]@) {
                                    if k == i {
                                        crate::order::lemma_lex_irreflexive(names@[i as int]@);
                                    } else {
                                        crate::order::lemma_lex_transitive(
                                            names@[b as int]@,
                                            names@[i as int]@,
                                            names@[k]@,
                                        );
                                    }
                                }
                            }
                        }
                        best = Some(i);
                    }
                },
                None => {
                    proof {
                        crate::order::lemma_lex_irreflexive(names@[i as int]@);
                    }
                    best = Some(i);
                },
            }
        }
        i = i + 1;
    }
    best
}

/// When an event ended.
pub open spec fn finish(e: EventView) -> int {
    if e.ts + e.dur <= u64::MAX {
        e.ts + e.dur
    } else {
        u64::MAX as int
    }
}

/// A span with the spans inside it.
#[derive(Debug)]
pub struct Node {
    /// The name of the span.
    pub name: String,
    /// When it began.
    pub ts: u64,
    /// How long it took.
    pub dur: u64,
    /// Its attributes.
    pub args: Vec<Arg>,
    /// The spans directly inside it.
    pub children: Vec<Node>,
}

/// How long the nodes took together.
pub open spec fn total_dur(nodes: Seq<Node>) -> nat
    decreases nodes.len(),
{
    if nodes.len() == 0 {
        0
    } else {
        total_dur(nodes.drop_last()) + nodes.last().dur as nat
    }
}

/// A part took no longer than all.
proof fn lemma_total_grows(nodes: Seq<Node>, i: int)
    requires
        0 <= i <= nodes.len(),
    ensures
        total_dur(nodes.take(i)) <= total_dur(nodes),
    decreases nodes.len() - i,
{
    if i == nodes.len() {
        assert(nodes.take(i) =~= nodes);
    } else {
        lemma_take_succ(nodes, i);
        lemma_total_grows(nodes, i + 1);
    }
}

impl Node {
    /// What a span took besides the spans directly inside it.
    pub open spec fn own_time(self) -> nat {
        if self.dur as nat >= total_dur(self.children@) {
            (self.dur as nat - total_dur(self.children@)) as nat
        } else {
            0
        }
    }

    /// What a span took besides the spans directly inside it, unless 64 bits do not hold
    /// what those took together.
    pub fn checked_self_us(&self) -> (r: Option<u64>)
        ensures
            r is Some <==> total_dur(self.children@) <= u64::MAX,
            r matches Some(own) ==> own == self.own_time() && own <= self.dur,
    {
        let mut sum: u64 = 0;
        let mut i: usize = 0;
        assert(self.children@.take(0) =~= Seq::<Node>::empty());
        while i < self.children.len()
            invariant
                i <= self.children.len(),
                sum == total_dur(self.children@.take(i as int)),
            decreases self.children.len() - i,
        {
            proof {
                lemma_take_succ(self.children@, i as int);
                lemma_total_grows(self.children@, i as int + 1);
            }
            match sum.checked_add(self.children[i].dur) {
                Some(more) => {
                    sum = more;
                },
                None => {
                    return None;
                },
            }
            i = i + 1;
        }
        assert(self.children@.take(i as int) =~= self.children@);
        if self.dur >= sum {
            Some(self.dur - sum)
        } else {
            Some(0)
        }
    }

    /// What a span took besides the spans directly inside it.
    pub fn self_us(&self) -> (r: u64)
        requires
            total_dur(self.children@) <= u64::MAX,
        ensures
            r == self.own_time(),
            r <= self.dur,
    {
        match self.checked_self_us() {
            Some(own) => own,
            None => 0,
        }
    }
}

/// Whether the event at `j` begins while the one at `i`, on the same track, still
/// runs.
pub open spec fn covers(s: Seq<EventView>, i: int, j: int) -> bool {
    s[i].tid == s[j].tid && finish(s[i]) > s[j].ts
}

/// The last of the first `i` events during which the one at `j` begins.
pub open spec fn parent_below(s: Seq<EventView>, j: int, i: int) -> Option<int>
    decreases i,
{
    if i <= 0 {
        None
    } else if covers(s, i - 1, j) {
        Some(i - 1)
    } else {
        parent_below(s, j, i - 1)
    }
}

/// The event inside which the one at `j` lies: of those before it, the last that
/// still runs when it begins.
pub open spec fn parent(s: Seq<EventView>, j: int) -> Option<int> {
    parent_below(s, j, j)
}

/// The events from `lo` on that lie directly inside `p`, or in none.
pub open spec fn kids_from(s: Seq<EventView>, p: Option<int>, lo: int) -> Seq<int>
    decreases s.len() - lo,
{
    if lo >= s.len() {
        seq![]
    } else if parent(s, lo) == p {
        seq![lo] + kids_from(s, p, lo + 1)
    } else {
        kids_from(s, p, lo + 1)
    }
}

/// The events directly inside `p`, or in none.
pub open spec fn kids(s: Seq<EventView>, p: Option<int>) -> Seq<int> {
    kids_from(s, p, 0)
}

/// Whether a node is the event at `j`, and the nodes inside it are the events
/// inside that.
pub open spec fn node_is(n: Node, s: Seq<EventView>, j: int) -> bool
    decreases n,
{
    &&& n.name@ == s[j].name
    &&& n.ts == s[j].ts
    &&& n.dur == s[j].dur
    &&& arg_list(n.args@) == s[j].args
    &&& n.children@.len() == kids(s, Some(j)).len()
    &&& forall|i: int|
        0 <= i < n.children@.len() ==> node_is(#[trigger] n.children@[i], s, kids(s, Some(j))[i])
}

/// Whether the nodes are the events at these positions.
pub open spec fn nodes_are(ns: Seq<Node>, s: Seq<EventView>, at: Seq<int>) -> bool {
    &&& ns.len() == at.len()
    &&& forall|i: int| 0 <= i < ns.len() ==> node_is(#[trigger] ns[i], s, at[i])
}

/// The keys by which events are sorted into tracks: by track, by begin, the longer
/// first.
pub open spec fn nesting_keys(s: Seq<EventView>) -> Seq<SortKey> {
    s.map_values(
        |e: EventView|
            SortKey { major: e.tid as i128, minor: e.ts as i128, least: (-(e.dur as int)) as i128 },
    )
}

/// The keys by which roots are sorted: by begin, the longer first.
pub open spec fn root_keys(s: Seq<EventView>, at: Seq<int>) -> Seq<SortKey> {
    at.map_values(
        |j: int|
            SortKey { major: s[j].ts as i128, minor: (-(s[j].dur as int)) as i128, least: 0 },
    )
}

/// Whether `r` is the forest of the events: on each track an event lies inside the
/// last one before it that still runs when it begins; the roots of all tracks are
/// sorted by when they begin.
pub open spec fn is_forest(events: Seq<EventView>, r: Seq<Node>) -> bool {
    exists|order: Seq<usize>, rorder: Seq<usize>| #[trigger] forest_by(events, r, order, rorder)
}

/// Whether `r` is the forest of the events, where `order` sorts the events and
/// `rorder` sorts the roots.
pub open spec fn forest_by(
    events: Seq<EventView>,
    r: Seq<Node>,
    order: Seq<usize>,
    rorder: Seq<usize>,
) -> bool {
    let s = arranged(events, order);
    let roots = kids(s, None);
    &&& is_key_order(nesting_keys(events), order)
    &&& is_key_order(root_keys(s, roots), rorder)
    &&& nodes_are(r, s, arranged(roots, rorder))
}

/// Whether events are sorted into tracks.
pub open spec fn is_tracked(s: Seq<EventView>) -> bool {
    forall|i: int, j: int|
        #![trigger s[i], s[j]]
        0 <= i < j < s.len() ==> s[i].tid < s[j].tid || (s[i].tid == s[j].tid && s[i].ts <= s[j].ts)
}

/// What `parent_below` finds.
proof fn lemma_parent_below(s: Seq<EventView>, j: int, i: int)
    requires
        0 <= i,
    ensures
        match parent_below(s, j, i) {
            Some(p) => 0 <= p < i && covers(s, p, j) && forall|k: int|
                p < k < i ==> !#[trigger] covers(s, k, j),
            None => forall|k: int| 0 <= k < i ==> !#[trigger] covers(s, k, j),
        },
    decreases i,
{
    if i > 0 && !covers(s, i - 1, j) {
        lemma_parent_below(s, j, i - 1);
    }
}

/// The last event that covers `j` is the one that `parent` finds.
proof fn lemma_parent_is(s: Seq<EventView>, j: int, p: Option<int>)
    requires
        0 <= j,
        match p {
            Some(i) => 0 <= i < j && covers(s, i, j) && forall|k: int|
                i < k < j ==> !#[trigger] covers(s, k, j),
            None => forall|k: int| 0 <= k < j ==> !#[trigger] covers(s, k, j),
        },
    ensures
        parent(s, j) == p,
{
    lemma_parent_below(s, j, j);
    match (parent(s, j), p) {
        (Some(a), Some(b)) => {
            if a < b {
                assert(covers(s, b, j));
            } else if b < a {
                assert(covers(s, a, j));
            }
        },
        (Some(a), None) => {
            assert(covers(s, a, j));
        },
        (None, Some(b)) => {
            assert(covers(s, b, j));
        },
        (None, None) => {},
    }
}

/// What lies inside an event comes after it.
proof fn lemma_kids_after(s: Seq<EventView>, p: int, lo: int)
    requires
        0 <= p < s.len(),
        0 <= lo <= p + 1,
    ensures
        kids_from(s, Some(p), lo) == kids_from(s, Some(p), p + 1),
    decreases p + 1 - lo,
{
    if lo <= p {
        lemma_parent_below(s, lo, lo);
        lemma_kids_after(s, p, lo + 1);
    }
}

fn end_of(e: &Event) -> (r: u64)
    ensures
        r == finish(e@),
{
    if e.dur <= u64::MAX - e.ts {
        e.ts + e.dur
    } else {
        u64::MAX
    }
}

/// For each event the position of the one that it lies inside.
fn parents_of(evs: &Vec<&Event>, Ghost(s): Ghost<Seq<EventView>>) -> (r: Vec<Option<usize>>)
    requires
        s == evs@.map_values(|e: &Event| e@),
        is_tracked(s),
    ensures
        r.len() == evs.len(),
        forall|j: int|
            0 <= j < r.len() ==> match #[trigger] r@[j] {
                Some(p) => parent(s, j) == Some(p as int),
                None => parent(s, j) is None,
            },
{
    let mut r: Vec<Option<usize>> = Vec::new();
    let mut stack: Vec<usize> = Vec::new();
    let mut j: usize = 0;
    assert(s.len() == evs.len());
    while j < evs.len()
        invariant
            s == evs@.map_values(|e: &Event| e@),
            s.len() == evs.len(),
            is_tracked(s),
            j <= evs.len(),
            r.len() == j,
            forall|k: int|
                0 <= k < r.len() ==> match #[trigger] r@[k] {
                    Some(p) => parent(s, k) == Some(p as int),
                    None => parent(s, k) is None,
                },
            forall|q: int| 0 <= q < stack.len() ==> #[trigger] stack@[q] < j,
            forall|q: int, t: int|
                0 <= q < t < stack.len() ==> #[trigger] stack@[q] < #[trigger] stack@[t],
            forall|i: int, k: int|
                0 <= i < j && j <= k < s.len() && !stack@.contains(i as usize) ==> !(#[trigger] covers(
                    s,
                    i,
                    k,
                )),
        decreases evs.len() - j,
    {
        let e: &Event = evs[j];
        assert(s[j as int] == e@);
        let ghost start = stack@;
        while stack.len() > 0 && (evs[stack[stack.len() - 1]].tid != e.tid || end_of(
            evs[stack[stack.len() - 1]],
        ) <= e.ts)
            invariant
                s == evs@.map_values(|e: &Event| e@),
                s.len() == evs.len(),
                is_tracked(s),
                j < evs.len(),
                s[j as int] == e@,
                stack.len() <= start.len(),
                stack@ == start.take(stack.len() as int),
                forall|q: int| 0 <= q < start.len() ==> #[trigger] start[q] < j,
                forall|i: int, k: int|
                    0 <= i < j && j <= k < s.len() && !start.contains(i as usize)
                        ==> !(#[trigger] covers(s, i, k)),
                forall|q: int, k: int|
                    stack.len() <= q < start.len() && j <= k < s.len() ==> !(#[trigger] covers(
                        s,
                        start[q] as int,
                        k,
                    )),
            decreases stack.len(),
        {
            let ghost top = stack@[stack.len() - 1];
            assert(top == start[stack.len() - 1]);
            assert(s[top as int] == evs@[top as int]@);
            proof {
                assert forall|k: int| j <= k < s.len() implies !(#[trigger] covers(
                    s,
                    top as int,
                    k,
                )) by {
                    assert(s[top as int].tid < s[j as int].tid || (s[top as int].tid
                        == s[j as int].tid && s[top as int].ts <= s[j as int].ts));
                    if k > j {
                        assert(s[j as int].tid < s[k].tid || (s[j as int].tid == s[k].tid
                            && s[j as int].ts <= s[k].ts));
                    }
                }
            }
            stack.pop();
            assert(stack@ =~= start.take(stack.len() as int));
        }
        proof {
            assert forall|i: int, k: int|
                0 <= i < j && j <= k < s.len() && !stack@.contains(i as usize) implies !(#[trigger] covers(
                s,
                i,
                k,
            )) by {
                if start.contains(i as usize) {
                    let q = choose|q: int| 0 <= q < start.len() && start[q] == i as usize;
                    if q < stack.len() {
                        assert(stack@[q] == i as usize);
                        assert(false);
                    }
                    assert(!covers(s, start[q] as int, k));
                }
            }
        }
        let p: Option<usize> = if stack.len() > 0 {
            Some(stack[stack.len() - 1])
        } else {
            None
        };
        proof {
            match p {
                Some(t) => {
                    assert(s[t as int] == evs@[t as int]@);
                    assert forall|k: int| t < k < j implies !#[trigger] covers(s, k, j as int) by {
                        if stack@.contains(k as usize) {
                            let q = choose|q: int| 0 <= q < stack@.len() && stack@[q] == k as usize;
                            assert(stack@[q] <= stack@[stack@.len() - 1]);
                        }
                    }
                    lemma_parent_is(s, j as int, Some(t as int));
                },
                None => {
                    assert forall|k: int| 0 <= k < j implies !#[trigger] covers(s, k, j as int) by {
                        assert(!stack@.contains(k as usize));
                    }
                    lemma_parent_is(s, j as int, None);
                },
            }
        }
        let ghost open = stack@;
        r.push(p);
        stack.push(j);
        proof {
            assert forall|i: int, k: int|
                0 <= i < j + 1 && j + 1 <= k < s.len() && !stack@.contains(i as usize)
                    implies !(#[trigger] covers(s, i, k)) by {
                if i == j {
                    assert(stack@[stack@.len() - 1] == i as usize);
                } else {
                    if open.contains(i as usize) {
                        let q = choose|q: int| 0 <= q < open.len() && open[q] == i as usize;
                        assert(stack@[q] == i as usize);
                    }
                }
            }
        }
        j = j + 1;
    }
    r
}

/// Turns a list of nodes around.
fn turn(nodes: Vec<Node>) -> (r: Vec<Node>)
    ensures
        r@ == nodes@.reverse(),
{
    let ghost all = nodes@;
    let mut rest = nodes;
    let mut r: Vec<Node> = Vec::new();
    while rest.len() > 0
        invariant
            rest@ == all.take(rest@.len() as int),
            rest@.len() <= all.len(),
            r@.len() == all.len() - rest@.len(),
            forall|k: int| 0 <= k < r@.len() ==> (#[trigger] r@[k]) == all[all.len() - 1 - k],
        decreases rest@.len(),
    {
        let ghost before = rest@;
        match rest.pop() {
            Some(n) => {
                assert(n == all[before.len() - 1]);
                assert(rest@ =~= all.take(rest@.len() as int));
                r.push(n);
            },
            None => {},
        }
    }
    assert(r@ =~= all.reverse());
    r
}

/// The roots of the forest of sorted events, in their order.
fn grow(evs: &Vec<&Event>, Ghost(s): Ghost<Seq<EventView>>) -> (r: Vec<Node>)
    requires
        s == evs@.map_values(|e: &Event| e@),
        is_tracked(s),
    ensures
        nodes_are(r@, s, kids(s, None)),
{
    let parents = parents_of(evs, Ghost(s));
    let n: usize = evs.len();
    let mut pending: Vec<Vec<Node>> = Vec::new();
    let mut i: usize = 0;
    while i < n
        invariant
            i <= n,
            pending.len() == i,
            forall|k: int| 0 <= k < i ==> (#[trigger] pending@[k])@.len() == 0,
        decreases n - i,
    {
        pending.push(Vec::new());
        i = i + 1;
    }
    let mut roots: Vec<Node> = Vec::new();
    let mut j: usize = n;
    proof {
        assert forall|p: int| 0 <= p < j implies nodes_are(
            (#[trigger] pending@[p])@.reverse(),
            s,
            kids_from(s, Some(p), j as int),
        ) by {
            assert(pending@[p]@.len() == 0);
        }
    }
    while j > 0
        invariant
            n == evs.len(),
            s == evs@.map_values(|e: &Event| e@),
            s.len() == n,
            j <= n,
            pending.len() == n,
            parents.len() == n,
            forall|k: int|
                0 <= k < n ==> match #[trigger] parents@[k] {
                    Some(p) => parent(s, k) == Some(p as int),
                    None => parent(s, k) is None,
                },
            forall|p: int|
                0 <= p < j ==> nodes_are(
                    (#[trigger] pending@[p])@.reverse(),
                    s,
                    kids_from(s, Some(p), j as int),
                ),
            nodes_are(roots@.reverse(), s, kids_from(s, None, j as int)),
        decreases j,
    {
        j = j - 1;
        let mut inside: Vec<Node> = Vec::new();
        let ghost held = pending@;
        std::mem::swap(&mut pending[j], &mut inside);
        assert(inside@ == held[j as int]@);
        let children = turn(inside);
        let e: &Event = evs[j];
        assert(s[j as int] == e@);
        let node = Node {
            name: e.name.clone(),
            ts: e.ts,
            dur: e.dur,
            args: copy_args(&e.args),
            children,
        };
        proof {
            lemma_kids_after(s, j as int, 0);
            assert(nodes_are(children@, s, kids(s, Some(j as int))));
            assert(node_is(node, s, j as int));
            lemma_parent_below(s, j as int, j as int);
        }
        match parents[j] {
            Some(p) => {
                assert(p < j);
                let ghost old_list = pending@[p as int]@;
                assert(old_list == held[p as int]@);
                let ghost lists = pending@;
                pending[p].push(node);
                proof {
                    let new_list = pending@[p as int]@;
                    assert(new_list == old_list.push(node));
                    assert(new_list.reverse() =~= seq![node] + old_list.reverse());
                    let ks = kids_from(s, Some(p as int), j as int);
                    assert(ks == seq![j as int] + kids_from(s, Some(p as int), j as int + 1));
                    assert(nodes_are(new_list.reverse(), s, ks)) by {
                        assert forall|k: int| 0 <= k < new_list.reverse().len() implies node_is(
                            #[trigger] new_list.reverse()[k],
                            s,
                            ks[k],
                        ) by {
                            if k > 0 {
                                assert(new_list.reverse()[k] == old_list.reverse()[k - 1]);
                                assert(ks[k] == kids_from(s, Some(p as int), j as int + 1)[k - 1]);
                            }
                        }
                    }
                    assert forall|q: int| 0 <= q < j implies nodes_are(
                        (#[trigger] pending@[q])@.reverse(),
                        s,
                        kids_from(s, Some(q), j as int),
                    ) by {
                        if q != p {
                            assert(pending@[q] == lists[q]);
                            assert(lists[q] == held[q]);
                            assert(parent(s, j as int) != Some(q));
                        }
                    }
                    assert(parent(s, j as int) != None::<int>);
                    assert(kids_from(s, None, j as int) == kids_from(s, None, j as int + 1));
                }
            },
            None => {
                let ghost old_list = roots@;
                roots.push(node);
                proof {
                    assert(roots@.reverse() =~= seq![node] + old_list.reverse());
                    let ks = kids_from(s, None, j as int);
                    assert(ks == seq![j as int] + kids_from(s, None, j as int + 1));
                    assert(nodes_are(roots@.reverse(), s, ks)) by {
                        assert forall|k: int| 0 <= k < roots@.reverse().len() implies node_is(
                            #[trigger] roots@.reverse()[k],
                            s,
                            ks[k],
                        ) by {
                            if k > 0 {
                                assert(roots@.reverse()[k] == old_list.reverse()[k - 1]);
                                assert(ks[k] == kids_from(s, None, j as int + 1)[k - 1]);
                            }
                        }
                    }
                    assert forall|q: int| 0 <= q < j implies nodes_are(
                        (#[trigger] pending@[q])@.reverse(),
                        s,
                        kids_from(s, Some(q), j as int),
                    ) by {
                        assert(pending@[q] == held[q]);
                        assert(parent(s, j as int) != Some(q));
                    }
                }
            },
        }
    }
    turn(roots)
}

/// Puts the nodes in the order that `order` lists.
fn arrange(nodes: Vec<Node>, order: &Vec<usize>, Ghost(keys): Ghost<Seq<SortKey>>) -> (r: Vec<Node>)
    requires
        is_key_order(keys, order@),
        keys.len() == nodes.len(),
    ensures
        r@ == arranged(nodes@, order@),
{
    let ghost all = nodes@;
    let mut slots: Vec<Option<Node>> = Vec::new();
    let mut rest = turn(nodes);
    let ghost turned = rest@;
    while rest.len() > 0
        invariant
            turned == all.reverse(),
            rest@ == turned.take(rest@.len() as int),
            rest@.len() <= turned.len(),
            slots@.len() == all.len() - rest@.len(),
            forall|k: int| 0 <= k < slots@.len() ==> (#[trigger] slots@[k]) == Some(all[k]),
        decreases rest@.len(),
    {
        let ghost before = rest@;
        match rest.pop() {
            Some(n) => {
                assert(n == turned[before.len() - 1]);
                assert(rest@ =~= turned.take(rest@.len() as int));
                slots.push(Some(n));
            },
            None => {},
        }
    }
    let mut r: Vec<Node> = Vec::new();
    let mut i: usize = 0;
    while i < order.len()
        invariant
            is_key_order(keys, order@),
            keys.len() == all.len(),
            slots@.len() == all.len(),
            i <= order.len(),
            r@.len() == i,
            forall|k: int| 0 <= k < i ==> (#[trigger] r@[k]) == all[order@[k] as int],
            forall|k: int|
                i <= k < order.len() ==> slots@[#[trigger] order@[k] as int] == Some(
                    all[order@[k] as int],
                ),
        decreases order.len() - i,
    {
        let at: usize = order[i];
        let mut slot: Option<Node> = None;
        let ghost before = slots@;
        std::mem::swap(&mut slots[at], &mut slot);
        proof {
            assert forall|k: int| i + 1 <= k < order.len() implies slots@[#[trigger] order@[k] as int]
                == Some(all[order@[k] as int]) by {
                assert(key_goes_first(keys, order@[i as int] as int, order@[k] as int));
                assert(order@[k] != at);
            }
        }
        match slot {
            Some(n) => {
                r.push(n);
            },
            None => {
                assert(false);
            },
        }
        i = i + 1;
    }
    assert(r@ =~= arranged(all, order@));
    r
}

/// Builds the forest of the events.
pub fn build_forest(events: &Vec<Event>) -> (r: Vec<Node>)
    ensures
        is_forest(event_list(events@), r@),
{
    let ghost evs = event_list(events@);
    let mut keys: Vec<SortKey> = Vec::new();
    let mut i: usize = 0;
    while i < events.len()
        invariant
            evs == event_list(events@),
            i <= events.len(),
            keys.len() == i,
            forall|k: int| 0 <= k < i ==> #[trigger] keys@[k] == nesting_keys(evs)[k],
        decreases events.len() - i,
    {
        let e = &events[i];
        assert(evs[i as int] == e@);
        keys.push(
            SortKey { major: e.tid as i128, minor: e.ts as i128, least: -(e.dur as i128) },
        );
        i = i + 1;
    }
    assert(keys@ =~= nesting_keys(evs));
    let order = sort_keys(&keys);
    let ghost s = arranged(evs, order@);
    let mut sorted: Vec<&Event> = Vec::new();
    let mut j: usize = 0;
    while j < order.len()
        invariant
            evs == event_list(events@),
            s == arranged(evs, order@),
            is_key_order(nesting_keys(evs), order@),
            j <= order.len(),
            sorted.len() == j,
            forall|k: int| 0 <= k < j ==> (#[trigger] sorted@[k])@ == s[k],
        decreases order.len() - j,
    {
        let at: usize = order[j];
        assert(nesting_keys(evs).len() == events@.len());
        assert(evs[at as int] == events@[at as int]@);
        sorted.push(&events[at]);
        j = j + 1;
    }
    assert(s =~= sorted@.map_values(|e: &Event| e@));
    proof {
        assert forall|a: int, b: int| #![trigger s[a], s[b]] 0 <= a < b < s.len() implies s[a].tid
            < s[b].tid || (s[a].tid == s[b].tid && s[a].ts <= s[b].ts) by {
            let x = order@[a] as int;
            let y = order@[b] as int;
            assert(key_goes_first(nesting_keys(evs), x, y));
            assert(nesting_keys(evs)[x].major == evs[x].tid);
            assert(nesting_keys(evs)[y].major == evs[y].tid);
            assert(nesting_keys(evs)[x].minor == evs[x].ts);
            assert(nesting_keys(evs)[y].minor == evs[y].ts);
        }
    }
    let roots = grow(&sorted, Ghost(s));
    let ghost at = kids(s, None);
    let mut rkeys: Vec<SortKey> = Vec::new();
    let mut k: usize = 0;
    while k < roots.len()
        invariant
            nodes_are(roots@, s, at),
            k <= roots.len(),
            rkeys.len() == k,
            forall|q: int| 0 <= q < k ==> #[trigger] rkeys@[q] == root_keys(s, at)[q],
        decreases roots.len() - k,
    {
        let n = &roots[k];
        assert(node_is(roots@[k as int], s, at[k as int]));
        rkeys.push(SortKey { major: n.ts as i128, minor: -(n.dur as i128), least: 0 });
        k = k + 1;
    }
    assert(rkeys@ =~= root_keys(s, at));
    let rorder = sort_keys(&rkeys);
    let ghost all = roots@;
    let r = arrange(roots, &rorder, Ghost(rkeys@));
    proof {
        assert forall|q: int| 0 <= q < r@.len() implies node_is(
            #[trigger] r@[q],
            s,
            arranged(at, rorder@)[q],
        ) by {
            assert(r@[q] == all[rorder@[q] as int]);
            assert(node_is(all[rorder@[q] as int], s, at[rorder@[q] as int]));
        }
        assert(forest_by(evs, r@, order@, rorder@));
    }
    r
}

/// All nodes: each before those inside it.
pub open spec fn flat(nodes: Seq<Node>) -> Seq<Node>
    decreases nodes,
{
    if nodes.len() == 0 {
        seq![]
    } else {
        flat(nodes.drop_last()) + seq![nodes.last()] + flat(nodes.last().children@)
    }
}

/// The nodes that references lead to.
pub open spec fn targets(v: Seq<&Node>) -> Seq<Node> {
    v.map_values(|n: &Node| *n)
}

fn walk<'a>(nodes: &'a Vec<Node>, out: &mut Vec<&'a Node>)
    ensures
        targets(final(out)@) == targets(old(out)@) + flat(nodes@),
    decreases nodes,
{
    let ghost before = targets(out@);
    let mut i: usize = 0;
    assert(nodes@.take(0) =~= Seq::<Node>::empty());
    assert(before + flat(nodes@.take(0)) =~= before);
    while i < nodes.len()
        invariant
            i <= nodes.len(),
            targets(out@) == before + flat(nodes@.take(i as int)),
        decreases nodes.len() - i,
    {
        let n = &nodes[i];
        proof {
            lemma_take_succ(nodes@, i as int);
        }
        let ghost had = targets(out@);
        out.push(n);
        assert(targets(out@) =~= had.push(*n));
        assert(decreases_to!(*nodes => nodes@));
        assert(decreases_to!(nodes@ => nodes@[i as int]));
        assert(decreases_to!(nodes@[i as int] => nodes@[i as int].children));
        walk(&n.children, out);
        assert(targets(out@) =~= before + flat(nodes@.take(i as int + 1)));
        i = i + 1;
    }
    assert(nodes@.take(i as int) =~= nodes@);
}

/// The nodes called `name`, in their order.
pub open spec fn named(nodes: Seq<Node>, name: Seq<char>) -> Seq<Node>
    decreases nodes.len(),
{
    if nodes.len() == 0 {
        seq![]
    } else if nodes.last().name@ == name {
        named(nodes.drop_last(), name).push(nodes.last())
    } else {
        named(nodes.drop_last(), name)
    }
}

/// The nodes called `name`, wherever they are.
pub fn find_by_name<'a>(roots: &'a Vec<Node>, name: &str) -> (r: Vec<&'a Node>)
    ensures
        targets(r@) == named(flat(roots@), name@),
{
    let mut all: Vec<&'a Node> = Vec::new();
    assert(targets(all@) + flat(roots@) =~= flat(roots@));
    walk(roots, &mut all);
    let ghost nodes = flat(roots@);
    let mut r: Vec<&'a Node> = Vec::new();
    let mut i: usize = 0;
    assert(nodes.len() == all@.len());
    assert(targets(r@) =~= named(nodes.take(0), name@));
    while i < all.len()
        invariant
            targets(all@) == nodes,
            nodes.len() == all@.len(),
            i <= all.len(),
            targets(r@) == named(nodes.take(i as int), name@),
        decreases all.len() - i,
    {
        proof {
            lemma_take_succ(nodes, i as int);
            assert(nodes[i as int] == *all@[i as int]);
        }
        if same(all[i].name.as_str(), name) {
            r.push(all[i]);
        }
        i = i + 1;
    }
    assert(nodes.take(i as int) =~= nodes);
    r
}

/// What the spans of one name come to.
#[derive(Debug)]
pub struct Agg {
    /// The name.
    pub name: String,
    /// How many there are.
    pub count: u64,
    /// How long they took together.
    pub total_us: u64,
    /// How long they took besides the spans inside them.
    pub self_us: u64,
    /// How long the longest took.
    pub max_us: u64,
}

/// The model of an [`Agg`].
pub struct AggView {
    pub name: Seq<char>,
    pub count: nat,
    pub total_us: nat,
    pub self_us: nat,
    pub max_us: nat,
}

impl View for Agg {
    type V = AggView;

    open spec fn view(&self) -> AggView {
        AggView {
            name: self.name@,
            count: self.count as nat,
            total_us: self.total_us as nat,
            self_us: self.self_us as nat,
            max_us: self.max_us as nat,
        }
    }
}

/// The models of the aggregates.
pub open spec fn agg_list(v: Seq<Agg>) -> Seq<AggView> {
    v.map_values(|a: Agg| a@)
}

/// What the nodes called `name` come to.
pub open spec fn agg_of(nodes: Seq<Node>, name: Seq<char>) -> AggView
    decreases nodes.len(),
{
    if nodes.len() == 0 {
        AggView { name, count: 0, total_us: 0, self_us: 0, max_us: 0 }
    } else {
        let a = agg_of(nodes.drop_last(), name);
        let n = nodes.last();
        if n.name@ == name {
            AggView {
                name,
                count: a.count + 1,
                total_us: a.total_us + n.dur as nat,
                self_us: a.self_us + n.own_time(),
                max_us: if n.dur as nat > a.max_us {
                    n.dur as nat
                } else {
                    a.max_us
                },
            }
        } else {
            a
        }
    }
}

/// Whether one of the nodes is called `name`.
pub open spec fn occurs_in(nodes: Seq<Node>, name: Seq<char>) -> bool {
    exists|i: int| 0 <= i < nodes.len() && (#[trigger] nodes[i]).name@ == name
}

/// Whether `a` comes before `b`: by own time, then by total time, the larger first,
/// then by name.
pub open spec fn ranks_before(a: AggView, b: AggView) -> bool {
    a.self_us > b.self_us || (a.self_us == b.self_us && (a.total_us > b.total_us || (a.total_us
        == b.total_us && lex_lt(a.name, b.name))))
}

/// What a sum of some nodes is bounded by.
proof fn lemma_agg_bounds(nodes: Seq<Node>, name: Seq<char>)
    ensures
        agg_of(nodes, name).count <= nodes.len(),
        agg_of(nodes, name).total_us <= total_dur(nodes),
        agg_of(nodes, name).self_us <= agg_of(nodes, name).total_us,
        agg_of(nodes, name).max_us <= u64::MAX,
        agg_of(nodes, name).count == 0 ==> agg_of(nodes, name).total_us == 0 && agg_of(
            nodes,
            name,
        ).max_us == 0,
        agg_of(nodes, name).name == name,
        agg_of(nodes, name).count > 0 <==> occurs_in(nodes, name),
    decreases nodes.len(),
{
    if nodes.len() > 0 {
        lemma_agg_bounds(nodes.drop_last(), name);
        let d = nodes.drop_last();
        if nodes.last().name@ == name {
            assert(nodes[nodes.len() - 1].name@ == name);
        }
        if occurs_in(d, name) {
            let i = choose|i: int| 0 <= i < d.len() && (#[trigger] d[i]).name@ == name;
            assert(nodes[i].name@ == name);
        }
        if occurs_in(nodes, name) && nodes.last().name@ != name {
            let i = choose|i: int| 0 <= i < nodes.len() && (#[trigger] nodes[i]).name@ == name;
            assert(d[i].name@ == name);
        }
    }
}

/// A sum over some nodes is no larger than that over all.
proof fn lemma_agg_grows(nodes: Seq<Node>, name: Seq<char>, i: int)
    requires
        0 <= i <= nodes.len(),
    ensures
        agg_of(nodes.take(i), name).total_us <= agg_of(nodes, name).total_us,
    decreases nodes.len() - i,
{
    if i == nodes.len() {
        assert(nodes.take(i) =~= nodes);
    } else {
        lemma_take_succ(nodes, i);
        lemma_agg_grows(nodes, name, i + 1);
    }
}

/// The keys by which aggregates are sorted: the larger times first.
pub open spec fn cost_keys(v: Seq<AggView>) -> Seq<SortKey> {
    v.map_values(
        |a: AggView|
            SortKey {
                major: (-(a.self_us as int)) as i128,
                minor: (-(a.total_us as int)) as i128,
                least: 0,
            },
    )
}

/// Whether the rows are what the nodes of each name come to: one row for each name, in
/// the order of their cost.
pub open spec fn is_summary(nodes: Seq<Node>, rows: Seq<AggView>) -> bool {
    &&& forall|i: int|
        0 <= i < rows.len() ==> (#[trigger] rows[i]) == agg_of(nodes, rows[i].name) && rows[i].count
            > 0
    &&& forall|n: Seq<char>| #[trigger]
        occurs_in(nodes, n) ==> exists|i: int|
            0 <= i < rows.len() && (#[trigger] rows[i]).name == n
    &&& forall|i: int, j: int|
        0 <= i < j < rows.len() ==> ranks_before(#[trigger] rows[i], #[trigger] rows[j])
}

/// Whether 64 bits hold what the nodes of each name took together, and what the nodes
/// directly inside each node did.
pub open spec fn sums_fit(nodes: Seq<Node>) -> bool {
    &&& forall|n: Seq<char>| (#[trigger] agg_of(nodes, n)).total_us <= u64::MAX
    &&& forall|i: int| 0 <= i < nodes.len() ==> total_dur((#[trigger] nodes[i]).children@) <= u64::MAX
}

/// What the spans of each name come to, those that took the most time by themselves
/// first; nothing where a sum does not fit into 64 bits.
pub fn checked_summarize(roots: &Vec<Node>) -> (r: Option<Vec<Agg>>)
    ensures
        r is Some <==> sums_fit(flat(roots@)),
        r matches Some(rows) ==> is_summary(flat(roots@), agg_list(rows@)),
{
    let mut all: Vec<&Node> = Vec::new();
    assert(targets(all@) + flat(roots@) =~= flat(roots@));
    walk(roots, &mut all);
    let ghost nodes = flat(roots@);
    assert(nodes.len() == all@.len());
    let mut by: NameMap<String, Agg> = NameMap::new();
    let mut i: usize = 0;
    while i < all.len()
        invariant
            targets(all@) == nodes,
            nodes == flat(roots@),
            nodes.len() == all@.len(),
            i <= all.len(),
            forall|k: int|
                0 <= k < i ==> total_dur((#[trigger] nodes[k]).children@) <= u64::MAX,
            forall|n: Seq<char>| #[trigger]
                by@.dom().contains(n) <==> occurs_in(nodes.take(i as int), n),
            forall|n: Seq<char>| #[trigger]
                by@.dom().contains(n) ==> by@[n]@ == agg_of(nodes.take(i as int), n),
        decreases all.len() - i,
    {
        let node = all[i];
        let ghost before = nodes.take(i as int);
        let ghost after = nodes.take(i as int + 1);
        let ghost had = by@;
        let ghost nm = node.name@;
        proof {
            lemma_take_succ(nodes, i as int);
            assert(nodes[i as int] == *node);
            lemma_agg_bounds(before, nm);
            lemma_agg_bounds(after, nm);
            lemma_agg_grows(nodes, nm, i as int + 1);
            assert(after[i as int].name@ == nm);
        }
        let own: u64 = match node.checked_self_us() {
            Some(own) => own,
            None => {
                return None;
            },
        };
        let next: Agg = match by.get(node.name.as_str()) {
            Some(a) => match a.total_us.checked_add(node.dur) {
                Some(total_us) => Agg {
                    name: node.name.clone(),
                    count: a.count + 1,
                    total_us,
                    self_us: a.self_us + own,
                    max_us: if node.dur > a.max_us {
                        node.dur
                    } else {
                        a.max_us
                    },
                },
                None => {
                    return None;
                },
            },
            None => Agg {
                name: node.name.clone(),
                count: 1,
                total_us: node.dur,
                self_us: own,
                max_us: node.dur,
            },
        };
        assert(next@ == agg_of(after, nm));
        by.insert(node.name.clone(), next);
        proof {
            assert forall|n: Seq<char>| #[trigger] by@.dom().contains(n) <==> occurs_in(after, n) by {
                if occurs_in(before, n) {
                    let k = choose|k: int| 0 <= k < before.len() && (#[trigger] before[k]).name@ == n;
                    assert(after[k].name@ == n);
                }
                if occurs_in(after, n) && n != nm {
                    let k = choose|k: int| 0 <= k < after.len() && (#[trigger] after[k]).name@ == n;
                    assert(before[k].name@ == n);
                }
            }
            assert forall|n: Seq<char>| #[trigger] by@.dom().contains(n) implies by@[n]@ == agg_of(
                after,
                n,
            ) by {
                if n != nm {
                    assert(had.dom().contains(n));
                }
            }
        }
        i = i + 1;
    }
    assert(nodes.take(i as int) =~= nodes);
    proof {
        assert forall|n: Seq<char>| (#[trigger] agg_of(nodes, n)).total_us <= u64::MAX by {
            lemma_agg_bounds(nodes, n);
            if by@.dom().contains(n) {
                assert(by@[n]@ == agg_of(nodes, n));
            }
        }
    }
    let r = rank(&by, Ghost(nodes));
    proof {
        let rows = agg_list(r@);
        assert forall|i: int| 0 <= i < rows.len() implies (#[trigger] rows[i]) == agg_of(
            nodes,
            rows[i].name,
        ) && rows[i].count > 0 by {
            assert(rows[i] == r@[i]@);
        }
        assert forall|n: Seq<char>| #[trigger] occurs_in(nodes, n) implies exists|i: int|
            0 <= i < rows.len() && (#[trigger] rows[i]).name == n by {
            let i = choose|i: int| 0 <= i < r@.len() && (#[trigger] r@[i]).name@ == n;
            assert(rows[i].name == n);
        }
        assert forall|i: int, j: int| 0 <= i < j < rows.len() implies ranks_before(
            #[trigger] rows[i],
            #[trigger] rows[j],
        ) by {
            assert(rows[i] == r@[i]@ && rows[j] == r@[j]@);
        }
    }
    Some(r)
}

/// What the spans of each name come to, those that took the most time by themselves
/// first.
pub fn summarize(roots: &Vec<Node>) -> (r: Vec<Agg>)
    requires
        sums_fit(flat(roots@)),
    ensures
        is_summary(flat(roots@), agg_list(r@)),
{
    match checked_summarize(roots) {
        Some(rows) => rows,
        None => Vec::new(),
    }
}

fn rank(by: &NameMap<String, Agg>, Ghost(nodes): Ghost<Seq<Node>>) -> (r: Vec<Agg>)
    requires
        forall|n: Seq<char>| #[trigger] by@.dom().contains(n) <==> occurs_in(nodes, n),
        forall|n: Seq<char>| #[trigger]
            by@.dom().contains(n) ==> by@[n]@ == agg_of(nodes, n),
    ensures
        forall|i: int|
            0 <= i < r@.len() ==> (#[trigger] r@[i])@ == agg_of(nodes, r@[i].name@) && r@[i].count > 0,
        forall|n: Seq<char>| #[trigger]
            occurs_in(nodes, n) ==> exists|i: int|
                0 <= i < r@.len() && (#[trigger] r@[i]).name@ == n,
        forall|i: int, j: int|
            0 <= i < j < r@.len() ==> ranks_before((#[trigger] r@[i])@, (#[trigger] r@[j])@),
{
    let mut names: Vec<String> = Vec::new();
    let len: usize = by.len();
    let mut i: usize = 0;
    while i < len
        invariant
            len == by.order().len(),
            i <= len,
            names.len() == i,
            forall|k: int| 0 <= k < i ==> (#[trigger] names@[k])@ == by.order()[k],
        decreases len - i,
    {
        names.push(by.key_at(i).clone());
        i = i + 1;
    }
    let order = sort_order(&names);
    let ghost texts = views(names@);
    let mut sorted: Vec<Agg> = Vec::new();
    let mut j: usize = 0;
    while j < order.len()
        invariant
            len == by.order().len(),
            names.len() == len,
            texts == views(names@),
            forall|k: int| 0 <= k < len ==> (#[trigger] names@[k])@ == by.order()[k],
            is_sort_order(texts, order@),
            forall|n: Seq<char>| #[trigger] by@.dom().contains(n) ==> by@[n]@ == agg_of(nodes, n),
            forall|n: Seq<char>| by.order().contains(n) <==> #[trigger] by@.dom().contains(n),
            j <= order.len(),
            sorted.len() == j,
            forall|k: int|
                0 <= k < j ==> (#[trigger] sorted@[k])@ == agg_of(nodes, texts[order@[k] as int])
                    && by@.dom().contains(texts[order@[k] as int]),
        decreases order.len() - j,
    {
        let at: usize = order[j];
        assert(texts[at as int] == names@[at as int]@);
        assert(by.order().contains(by.order()[at as int]));
        let a = by.value_at(at);
        assert(by@.dom().contains(texts[at as int]));
        assert(a@ == agg_of(nodes, texts[at as int]));
        sorted.push(
            Agg {
                name: a.name.clone(),
                count: a.count,
                total_us: a.total_us,
                self_us: a.self_us,
                max_us: a.max_us,
            },
        );
        assert(sorted@[j as int]@ == a@);
        j = j + 1;
    }
    let ghost list = agg_list(sorted@);
    let mut keys: Vec<SortKey> = Vec::new();
    let mut k: usize = 0;
    while k < sorted.len()
        invariant
            list == agg_list(sorted@),
            k <= sorted.len(),
            keys.len() == k,
            forall|q: int| 0 <= q < k ==> #[trigger] keys@[q] == cost_keys(list)[q],
        decreases sorted.len() - k,
    {
        let a = &sorted[k];
        assert(list[k as int] == a@);
        keys.push(
            SortKey { major: -(a.self_us as i128), minor: -(a.total_us as i128), least: 0 },
        );
        k = k + 1;
    }
    assert(keys@ =~= cost_keys(list));
    let ranked = sort_keys(&keys);
    let mut r: Vec<Agg> = Vec::new();
    let mut m: usize = 0;
    while m < ranked.len()
        invariant
            list == agg_list(sorted@),
            list.len() == sorted@.len(),
            is_key_order(cost_keys(list), ranked@),
            m <= ranked.len(),
            r.len() == m,
            forall|q: int| 0 <= q < m ==> (#[trigger] r@[q])@ == list[ranked@[q] as int],
        decreases ranked.len() - m,
    {
        let at: usize = ranked[m];
        assert(cost_keys(list).len() == list.len());
        assert(list[at as int] == sorted@[at as int]@);
        let a = &sorted[at];
        r.push(
            Agg {
                name: a.name.clone(),
                count: a.count,
                total_us: a.total_us,
                self_us: a.self_us,
                max_us: a.max_us,
            },
        );
        m = m + 1;
    }
    proof {
        assert forall|q: int| 0 <= q < r@.len() implies (#[trigger] r@[q])@ == agg_of(
            nodes,
            r@[q].name@,
        ) && r@[q].count > 0 by {
            let x = ranked@[q] as int;
            assert(list[x] == sorted@[x]@);
            let n = texts[order@[x] as int];
            lemma_agg_bounds(nodes, n);
            assert(by@.dom().contains(n));
        }
        assert forall|n: Seq<char>| #[trigger] occurs_in(nodes, n) implies exists|q: int|
            0 <= q < r@.len() && (#[trigger] r@[q]).name@ == n by {
            assert(by@.dom().contains(n));
            let a = choose|a: int| 0 <= a < by.order().len() && by.order()[a] == n;
            assert(by.order().contains(n));
            assert(texts[a] == names@[a]@);
            assert(is_listed(order@, a));
            let b = choose|b: int| 0 <= b < order@.len() && #[trigger] order@[b] == a;
            assert(sorted@[b]@ == agg_of(nodes, n));
            lemma_agg_bounds(nodes, n);
            assert(is_listed(ranked@, b));
            let c = choose|c: int| 0 <= c < ranked@.len() && #[trigger] ranked@[c] == b;
            assert(list[b] == sorted@[b]@);
            assert(r@[c].name@ == n);
        }
        assert forall|p: int, q: int| 0 <= p < q < r@.len() implies ranks_before(
            (#[trigger] r@[p])@,
            (#[trigger] r@[q])@,
        ) by {
            let x = ranked@[p] as int;
            let y = ranked@[q] as int;
            assert(key_goes_first(cost_keys(list), x, y));
            assert(list[x] == sorted@[x]@);
            assert(list[y] == sorted@[y]@);
            assert(cost_keys(list)[x].major == -(list[x].self_us as int));
            assert(cost_keys(list)[y].major == -(list[y].self_us as int));
            assert(cost_keys(list)[x].minor == -(list[x].total_us as int));
            assert(cost_keys(list)[y].minor == -(list[y].total_us as int));
            if list[x].self_us == list[y].self_us && list[x].total_us == list[y].total_us {
                assert(x < y);
                let a = order@[x] as int;
                let b = order@[y] as int;
                assert(crate::order::goes_first(texts, a, b));
                lemma_agg_bounds(nodes, texts[a]);
                lemma_agg_bounds(nodes, texts[b]);
                if texts[a] == texts[b] {
                    assert(by.order()[a] == by.order()[b]);
                }
            }
        }
    }
    r
}

/// Two events of a track of which one begins during the other and ends after it.
#[derive(Debug)]
pub struct Overlap {
    /// The track.
    pub tid: i64,
    /// The one that ends later, which a viewer leaves out.
    pub dropped: Event,
    /// The one during which it begins.
    pub over: Event,
}

/// The model of an [`Overlap`].
pub struct OverlapView {
    pub tid: i64,
    pub dropped: EventView,
    pub over: EventView,
}

/// The models of the overlaps.
pub open spec fn overlap_list(v: Seq<Overlap>) -> Seq<OverlapView> {
    v.map_values(
        |o: Overlap| OverlapView { tid: o.tid, dropped: o.dropped@, over: o.over@ },
    )
}

/// Whether `top` is over when `e` begins. An event without length that begins where
/// another without length ends does not end that.
pub open spec fn is_over(top: EventView, e: EventView) -> bool {
    top.tid != e.tid || finish(top) < e.ts || (finish(top) == e.ts && !(top.dur == 0 && e.dur == 0))
}

/// Whether `e` begins during `top` and ends after it.
pub open spec fn crosses(top: EventView, e: EventView) -> bool {
    e.ts < finish(top) && finish(e) > finish(top)
}

/// The open events without those that are over when the event at `j` begins.
pub open spec fn still_open(s: Seq<EventView>, open: Seq<int>, j: int) -> Seq<int>
    decreases open.len(),
{
    if open.len() > 0 && is_over(s[open.last()], s[j]) {
        still_open(s, open.drop_last(), j)
    } else {
        open
    }
}

/// Whether the event at `j` is left out, given the events that are still open.
pub open spec fn is_dropped(s: Seq<EventView>, open: Seq<int>, j: int) -> bool {
    open.len() > 0 && crosses(s[open.last()], s[j])
}

/// The events that are open after the first `n`.
pub open spec fn open_after(s: Seq<EventView>, n: int) -> Seq<int>
    decreases n,
{
    if n <= 0 {
        seq![]
    } else {
        let open = still_open(s, open_after(s, n - 1), n - 1);
        if is_dropped(s, open, n - 1) {
            open
        } else {
            open.push(n - 1)
        }
    }
}

/// Of the first `n` events those that are left out, each with the one that it
/// crosses.
pub open spec fn dropped_of(s: Seq<EventView>, n: int) -> Seq<OverlapView>
    decreases n,
{
    if n <= 0 {
        seq![]
    } else {
        let open = still_open(s, open_after(s, n - 1), n - 1);
        if is_dropped(s, open, n - 1) {
            dropped_of(s, n - 1).push(
                OverlapView {
                    tid: s[n - 1].tid,
                    dropped: s[n - 1],
                    over: s[open.last()],
                },
            )
        } else {
            dropped_of(s, n - 1)
        }
    }
}

/// The keys by which events are sorted as a viewer does: by track and by begin.
pub open spec fn viewing_keys(s: Seq<EventView>) -> Seq<SortKey> {
    s.map_values(
        |e: EventView| SortKey { major: e.tid as i128, minor: e.ts as i128, least: 0 },
    )
}

/// Whether the overlaps are those of the events, taken track by track in the order
/// of their begin, and of those that begin together in the order of the file.
pub open spec fn are_overlaps(events: Seq<EventView>, r: Seq<OverlapView>) -> bool {
    exists|order: Seq<usize>|
        #[trigger] is_key_order(viewing_keys(events), order) && r == dropped_of(
            arranged(events, order),
            events.len() as int,
        )
}

/// The positions of open events are below that of the event at hand.
proof fn lemma_open(s: Seq<EventView>, n: int)
    requires
        0 <= n,
    ensures
        forall|i: int| 0 <= i < open_after(s, n).len() ==> 0 <= #[trigger] open_after(s, n)[i] < n,
    decreases n,
{
    if n > 0 {
        lemma_open(s, n - 1);
        lemma_still_open(s, open_after(s, n - 1), n - 1);
        let open = still_open(s, open_after(s, n - 1), n - 1);
        assert forall|i: int| 0 <= i < open_after(s, n).len() implies 0 <= #[trigger] open_after(
            s,
            n,
        )[i] < n by {
            if i < open.len() {
                assert(open[i] == open_after(s, n - 1)[i]);
            }
        }
    }
}

/// What is still open was open.
proof fn lemma_still_open(s: Seq<EventView>, open: Seq<int>, j: int)
    ensures
        still_open(s, open, j).len() <= open.len(),
        still_open(s, open, j) == open.take(still_open(s, open, j).len() as int),
        still_open(s, open, j).len() > 0 ==> !is_over(s[still_open(s, open, j).last()], s[j]),
    decreases open.len(),
{
    if open.len() > 0 && is_over(s[open.last()], s[j]) {
        lemma_still_open(s, open.drop_last(), j);
        let r = still_open(s, open.drop_last(), j);
        assert(open.drop_last().take(r.len() as int) =~= open.take(r.len() as int));
    } else {
        assert(open.take(open.len() as int) =~= open);
    }
}

fn over_before(top: &Event, e: &Event) -> (r: bool)
    ensures
        r == is_over(top@, e@),
{
    let end = end_of(top);
    top.tid != e.tid || end < e.ts || (end == e.ts && !(top.dur == 0 && e.dur == 0))
}

/// Finds the events that a viewer leaves out because they cross another one.
/// Events that only share a begin or an end, or that touch, cross nothing.
pub fn overlaps(events: &Vec<Event>) -> (r: Vec<Overlap>)
    ensures
        are_overlaps(event_list(events@), overlap_list(r@)),
{
    let ghost evs = event_list(events@);
    let mut keys: Vec<SortKey> = Vec::new();
    let mut i: usize = 0;
    while i < events.len()
        invariant
            evs == event_list(events@),
            i <= events.len(),
            keys.len() == i,
            forall|k: int| 0 <= k < i ==> #[trigger] keys@[k] == viewing_keys(evs)[k],
        decreases events.len() - i,
    {
        assert(evs[i as int] == events@[i as int]@);
        keys.push(
            SortKey { major: events[i].tid as i128, minor: events[i].ts as i128, least: 0 },
        );
        i = i + 1;
    }
    assert(keys@ =~= viewing_keys(evs));
    let order = sort_keys(&keys);
    let ghost s = arranged(evs, order@);
    let mut r: Vec<Overlap> = Vec::new();
    let mut stack: Vec<usize> = Vec::new();
    let ghost mut open: Seq<int> = seq![];
    let mut j: usize = 0;
    assert(overlap_list(r@) =~= dropped_of(s, 0));
    while j < order.len()
        invariant
            evs == event_list(events@),
            evs.len() == events@.len(),
            s == arranged(evs, order@),
            order.len() == events.len(),
            is_key_order(viewing_keys(evs), order@),
            j <= order.len(),
            open == open_after(s, j as int),
            stack@.len() == open.len(),
            forall|q: int| 0 <= q < open.len() ==> 0 <= #[trigger] open[q] < j,
            forall|q: int|
                0 <= q < stack@.len() ==> #[trigger] stack@[q] == order@[open[q]],
            overlap_list(r@) == dropped_of(s, j as int),
        decreases order.len() - j,
    {
        let at: usize = order[j];
        let e = &events[at];
        assert(s[j as int] == evs[at as int]);
        assert(evs[at as int] == events@[at as int]@);
        let ghost was = open;
        while stack.len() > 0 && over_before(&events[stack[stack.len() - 1]], e)
            invariant
                evs == event_list(events@),
                evs.len() == events@.len(),
                s == arranged(evs, order@),
                order.len() == events.len(),
                is_key_order(viewing_keys(evs), order@),
                j < order.len(),
                s[j as int] == e@,
                stack@.len() == open.len(),
                forall|q: int| 0 <= q < open.len() ==> 0 <= #[trigger] open[q] < j,
                forall|q: int|
                    0 <= q < stack@.len() ==> #[trigger] stack@[q] == order@[open[q]],
                still_open(s, open, j as int) == still_open(s, was, j as int),
            decreases stack.len(),
        {
            proof {
                let t = open.last();
                assert(stack@[stack@.len() - 1] == order@[t]);
                assert(s[t] == evs[order@[t] as int]);
                assert(evs[order@[t] as int] == events@[order@[t] as int]@);
                open = open.drop_last();
            }
            stack.pop();
        }
        let mut dropped = false;
        if stack.len() > 0 {
            let top = &events[stack[stack.len() - 1]];
            proof {
                let t = open.last();
                assert(stack@[stack@.len() - 1] == order@[t]);
                assert(s[t] == evs[order@[t] as int]);
                assert(evs[order@[t] as int] == events@[order@[t] as int]@);
            }
            let end = end_of(top);
            if e.ts < end && end_of(e) > end {
                dropped = true;
                r.push(Overlap { tid: e.tid, dropped: e.clone(), over: top.clone() });
            }
        }
        assert(open == still_open(s, was, j as int));
        assert(dropped == is_dropped(s, open, j as int));
        if !dropped {
            stack.push(at);
            proof {
                open = open.push(j as int);
            }
        }
        assert(overlap_list(r@) =~= dropped_of(s, j as int + 1));
        j = j + 1;
    }
    r
}

/// What is reported does cross: the event that is left out begins during the other
/// one, on the same track, and ends after it.
pub proof fn law_overlaps_cross(s: Seq<EventView>, n: int)
    requires
        0 <= n <= s.len(),
        is_tracked(s),
    ensures
        forall|i: int|
            0 <= i < dropped_of(s, n).len() ==> {
                let o = #[trigger] dropped_of(s, n)[i];
                &&& o.over.tid == o.tid && o.dropped.tid == o.tid
                &&& o.over.ts <= o.dropped.ts < finish(o.over) < finish(o.dropped)
            },
    decreases n,
{
    if n > 0 {
        law_overlaps_cross(s, n - 1);
        lemma_open(s, n - 1);
        let was = open_after(s, n - 1);
        lemma_still_open(s, was, n - 1);
        let open = still_open(s, was, n - 1);
        if is_dropped(s, open, n - 1) {
            let t = open.last();
            assert(t == was[open.len() - 1]);
            assert(0 <= t < n - 1);
            assert(s[t].tid < s[n - 1].tid || (s[t].tid == s[n - 1].tid && s[t].ts <= s[n - 1].ts));
        }
        assert forall|i: int| 0 <= i < dropped_of(s, n).len() implies ({
            let o = #[trigger] dropped_of(s, n)[i];
            &&& o.over.tid == o.tid && o.dropped.tid == o.tid
            &&& o.over.ts <= o.dropped.ts < finish(o.over) < finish(o.dropped)
        }) by {
            if i < dropped_of(s, n - 1).len() {
                assert(dropped_of(s, n)[i] == dropped_of(s, n - 1)[i]);
            }
        }
    }
}

/// An event lies inside another only if it begins during that, on the same track.
pub proof fn law_children_begin_inside(s: Seq<EventView>, j: int)
    requires
        0 <= j < s.len(),
        is_tracked(s),
    ensures
        match parent(s, j) {
            Some(p) => 0 <= p < j && s[p].tid == s[j].tid && s[p].ts <= s[j].ts < finish(s[p]),
            None => forall|i: int|
                0 <= i < j && #[trigger] s[i].tid == s[j].tid ==> finish(s[i]) <= s[j].ts,
        },
{
    lemma_parent_below(s, j, j);
    match parent(s, j) {
        Some(p) => {
            assert(s[p].tid < s[j].tid || (s[p].tid == s[j].tid && s[p].ts <= s[j].ts));
        },
        None => {
            assert forall|i: int| 0 <= i < j && #[trigger] s[i].tid == s[j].tid implies finish(s[i])
                <= s[j].ts by {
                assert(!covers(s, i, j));
            }
        },
    }
}

/// A duration for people.
pub fn fmt_dur(us: u64) -> (r: String)
    ensures
        r@ == micros_text(us as nat),
{
    micros_string(us)
}

} // verus!
