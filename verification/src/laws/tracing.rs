//! What a trace tells.

use vstd::prelude::*;

use crate::laws::texts::is_without;
use crate::logging::chrome::{
    attr_i64_spec, attr_str_spec, earliest, int_value, micros_between_spec, millis_as_micros,
    span_events, tid_of, trace_events, track_name, Attr, AttrValue, ChromeView, SpanRecord,
};
use crate::order::{arranged, is_key_order, is_listed, lex_lt};
use crate::pacman::dload::{basename, Existing, FetchSpec};
use crate::trace::crossing::law_no_overlap_means_no_crossing;
use crate::trace::{
    agg_of, are_overlaps, complete, covers, finish, flat, forest_by, is_forest, is_summary,
    is_trace, kids, kids_from, named, nesting_keys, node_is, parent, parent_below, root_keys,
    total_dur, viewing_keys, AggView, EventView, Node, OverlapView, RawEvent,
};

verus! {

/// Only complete events count, which are marked with an `X`, in their order.
pub proof fn law_which_events_count(a: Seq<RawEvent>, b: Seq<RawEvent>, e: RawEvent)
    ensures
        complete(seq![e]) == (if e.ph@ == "X"@ {
            seq![e.event@]
        } else {
            Seq::<EventView>::empty()
        }),
        complete(a + b) == complete(a) + complete(b),
    decreases b.len(),
{
    let none = Seq::<RawEvent>::empty();
    assert(seq![e].drop_last() =~= none);
    assert(complete(none) =~= Seq::<EventView>::empty());
    if b.len() == 0 {
        assert(a + b =~= a);
        assert(complete(a) + complete(b) =~= complete(a));
    } else {
        law_which_events_count(a, b.drop_last(), e);
        assert((a + b).drop_last() =~= a + b.drop_last());
        assert((a + b).last() == b.last());
        assert(complete(a + b) =~= complete(a) + complete(b));
    }
}

/// A file is a trace exactly if its extension is `json`.
pub proof fn law_what_a_trace_is(stem: Seq<char>, ext: Seq<char>)
    requires
        stem.len() > 0,
        ext.len() > 0,
        is_without(ext, '.'),
    ensures
        is_trace(stem + "."@ + ext) <==> ext == "json"@,
        !is_trace(ext),
{
    reveal_strlit(".");
    reveal_strlit("..");
    crate::laws::keeping::law_what_an_extension_is(stem, ext);
    let name = stem + "."@ + ext;
    assert(name[name.len() - 1] == ext[ext.len() - 1]);
}

/// An event ends when it began and as much later as it took.
pub proof fn law_when_an_event_ends(e: EventView)
    ensures
        e.ts + e.dur <= u64::MAX ==> finish(e) == e.ts + e.dur,
        e.ts + e.dur > u64::MAX ==> finish(e) == u64::MAX,
{
}

proof fn lemma_parent_below(s: Seq<EventView>, j: int, i: int)
    requires
        0 <= i <= j < s.len(),
    ensures
        match parent_below(s, j, i) {
            Some(p) => 0 <= p < i && s[p].tid == s[j].tid && finish(s[p]) > s[j].ts && (forall|k: int|
                p < k < i && (#[trigger] s[k]).tid == s[j].tid ==> finish(s[k]) <= s[j].ts),
            None => forall|k: int|
                0 <= k < i && (#[trigger] s[k]).tid == s[j].tid ==> finish(s[k]) <= s[j].ts,
        },
    decreases i,
{
    if i > 0 && !covers(s, i - 1, j) {
        lemma_parent_below(s, j, i - 1);
    }
}

/// An event lies inside the last one before it, on its track, that still runs when it
/// begins, and inside none where there is none.
pub proof fn law_inside_which_event_one_lies(s: Seq<EventView>, j: int)
    requires
        0 <= j < s.len(),
    ensures
        match parent(s, j) {
            Some(p) => 0 <= p < j && s[p].tid == s[j].tid && finish(s[p]) > s[j].ts && (forall|k: int|
                p < k < j && (#[trigger] s[k]).tid == s[j].tid ==> finish(s[k]) <= s[j].ts),
            None => forall|k: int|
                0 <= k < j && (#[trigger] s[k]).tid == s[j].tid ==> finish(s[k]) <= s[j].ts,
        },
{
    lemma_parent_below(s, j, j);
}

proof fn lemma_kids_from(s: Seq<EventView>, p: Option<int>, lo: int)
    requires
        0 <= lo <= s.len(),
    ensures
        forall|k: int|
            0 <= k < kids_from(s, p, lo).len() ==> lo <= #[trigger] kids_from(s, p, lo)[k] < s.len()
                && parent(s, kids_from(s, p, lo)[k]) == p,
        forall|k: int, l: int|
            0 <= k < l < kids_from(s, p, lo).len() ==> kids_from(s, p, lo)[k] < kids_from(s, p, lo)[l],
    decreases s.len() - lo,
{
    if lo < s.len() {
        lemma_kids_from(s, p, lo + 1);
        let rest = kids_from(s, p, lo + 1);
        let all = kids_from(s, p, lo);
        if parent(s, lo) == p {
            assert forall|k: int| 0 <= k < all.len() implies lo <= #[trigger] all[k] < s.len()
                && parent(s, all[k]) == p by {
                if k > 0 {
                    assert(all[k] == rest[k - 1]);
                }
            }
            assert forall|k: int, l: int| 0 <= k < l < all.len() implies all[k] < all[l] by {
                assert(all[l] == rest[l - 1]);
                if k > 0 {
                    assert(all[k] == rest[k - 1]);
                }
            }
        }
    }
}

proof fn lemma_every_kid(s: Seq<EventView>, p: Option<int>, lo: int, j: int)
    requires
        0 <= lo <= j < s.len(),
        parent(s, j) == p,
    ensures
        kids_from(s, p, lo).contains(j),
    decreases s.len() - lo,
{
    let all = kids_from(s, p, lo);
    if lo == j {
        assert(all[0] == j);
    } else {
        lemma_every_kid(s, p, lo + 1, j);
        let rest = kids_from(s, p, lo + 1);
        let k = choose|k: int| 0 <= k < rest.len() && rest[k] == j;
        if parent(s, lo) == p {
            assert(all[k + 1] == j);
        } else {
            assert(all[k] == j);
        }
    }
}

/// Inside an event are exactly those events that lie in it, in their order.
pub proof fn law_what_lies_inside(s: Seq<EventView>, p: Option<int>, j: int)
    requires
        0 <= j < s.len(),
    ensures
        kids(s, p).contains(j) <==> parent(s, j) == p,
        forall|k: int, l: int| 0 <= k < l < kids(s, p).len() ==> kids(s, p)[k] < kids(s, p)[l],
{
    lemma_kids_from(s, p, 0);
    if parent(s, j) == p {
        lemma_every_kid(s, p, 0, j);
    }
    if kids(s, p).contains(j) {
        let k = choose|k: int| 0 <= k < kids(s, p).len() && kids(s, p)[k] == j;
        assert(parent(s, kids(s, p)[k]) == p);
    }
}

/// What a span took by itself and what the spans directly inside it took is what it took,
/// unless those took longer.
pub proof fn law_what_a_span_took_by_itself(n: Node)
    ensures
        total_dur(n.children@) <= n.dur ==> n.own_time() + total_dur(n.children@) == n.dur,
        total_dur(n.children@) > n.dur ==> n.own_time() == 0,
{
}

/// Durations add up.
pub proof fn law_durations_add_up(a: Seq<Node>, n: Node)
    ensures
        total_dur(Seq::empty()) == 0,
        total_dur(a.push(n)) == total_dur(a) + n.dur,
{
    assert(a.push(n).drop_last() =~= a);
}

/// Each node comes before those inside it, and trees one after the other.
pub proof fn law_parents_come_first(a: Seq<Node>, n: Node)
    ensures
        flat(Seq::empty()) == Seq::<Node>::empty(),
        flat(a.push(n)) == flat(a) + seq![n] + flat(n.children@),
{
    assert(a.push(n).drop_last() =~= a);
}

/// The nodes of a name are all of that name, in their order.
pub proof fn law_which_nodes_have_a_name(a: Seq<Node>, b: Seq<Node>, n: Node, name: Seq<char>)
    ensures
        named(seq![n], name) == (if n.name@ == name {
            seq![n]
        } else {
            Seq::<Node>::empty()
        }),
        named(a + b, name) == named(a, name) + named(b, name),
    decreases b.len(),
{
    let none = Seq::<Node>::empty();
    assert(seq![n].drop_last() =~= none);
    assert(named(none, name) =~= none);
    if b.len() == 0 {
        assert(a + b =~= a);
        assert(named(a, name) + named(b, name) =~= named(a, name));
    } else {
        law_which_nodes_have_a_name(a, b.drop_last(), n, name);
        assert((a + b).drop_last() =~= a + b.drop_last());
        assert((a + b).last() == b.last());
        assert(named(a + b, name) =~= named(a, name) + named(b, name));
    }
}

/// A node counts under its own name only, with what it took and what it took by itself.
pub proof fn law_what_a_node_adds(a: Seq<Node>, n: Node, name: Seq<char>)
    ensures
        n.name@ != name ==> agg_of(a.push(n), name) == agg_of(a, name),
        n.name@ == name ==> {
            let x = agg_of(a, name);
            let y = agg_of(a.push(n), name);
            &&& y.count == x.count + 1
            &&& y.total_us == x.total_us + n.dur
            &&& y.self_us == x.self_us + n.own_time()
            &&& y.max_us >= n.dur && y.max_us >= x.max_us && (y.max_us == n.dur || y.max_us
                == x.max_us)
        },
        agg_of(Seq::empty(), name).count == 0,
        agg_of(Seq::empty(), name).total_us == 0,
        agg_of(Seq::empty(), name).self_us == 0,
{
    assert(a.push(n).drop_last() =~= a);
}

/// The rows of a summary never gain own time; where that is the same they never gain
/// total time; and where both are, they are sorted by name.
pub proof fn law_how_a_summary_is_ordered(nodes: Seq<Node>, rows: Seq<AggView>, i: int, j: int)
    requires
        is_summary(nodes, rows),
        0 <= i < j < rows.len(),
    ensures
        rows[i].self_us >= rows[j].self_us,
        rows[i].self_us == rows[j].self_us ==> rows[i].total_us >= rows[j].total_us,
        rows[i].self_us == rows[j].self_us && rows[i].total_us == rows[j].total_us ==> lex_lt(
            rows[i].name,
            rows[j].name,
        ),
{
    assert(crate::trace::ranks_before(rows[i], rows[j]));
}

/// Events are nested track by track, by when they begin, and of those that begin
/// together the longest first.
pub proof fn law_in_which_order_events_are_nested(
    events: Seq<EventView>,
    order: Seq<usize>,
    i: int,
    j: int,
    a: EventView,
    b: EventView,
)
    requires
        crate::order::is_key_order(nesting_keys(events), order),
        0 <= i < j < order.len(),
        a == events[order[i] as int],
        b == events[order[j] as int],
    ensures
        a.tid <= b.tid,
        a.tid == b.tid ==> a.ts <= b.ts,
        a.tid == b.tid && a.ts == b.ts ==> a.dur >= b.dur,
{
    let keys = nesting_keys(events);
    crate::laws::updating::law_keys_are_sorted_by_their_numbers(
        keys,
        order,
        i,
        j,
        keys[order[i] as int],
        keys[order[j] as int],
    );
}

/// The number of an attribute is that of the first one of its name that holds one.
pub proof fn law_which_attribute_counts(attrs: Seq<Attr>, key: Seq<char>, i: int)
    requires
        0 <= i < attrs.len(),
        attrs[i].key@ == key,
    ensures
        int_value(attrs[i].value) is Some && (forall|j: int|
            0 <= j < i && (#[trigger] attrs[j]).key@ == key ==> int_value(attrs[j].value) is None)
            ==> attr_i64_spec(attrs, key) == int_value(attrs[i].value),
        (attrs[i].value matches AttrValue::Text(t) ==> ((forall|j: int|
            0 <= j < i && (#[trigger] attrs[j]).key@ == key ==> !(attrs[j].value is Text))
            ==> attr_str_spec(attrs, key) == Some(t@))),
    decreases attrs.len(),
{
    if i > 0 {
        let r = attrs.skip(1);
        assert(r[i - 1] == attrs[i]);
        law_which_attribute_counts(r, key, i - 1);
        if forall|j: int|
            0 <= j < i && (#[trigger] attrs[j]).key@ == key ==> int_value(attrs[j].value) is None {
            assert forall|j: int| 0 <= j < i - 1 && (#[trigger] r[j]).key@ == key implies int_value(
                r[j].value,
            ) is None by {
                assert(r[j] == attrs[j + 1]);
            }
        }
        if forall|j: int|
            0 <= j < i && (#[trigger] attrs[j]).key@ == key ==> !(attrs[j].value is Text) {
            assert forall|j: int| 0 <= j < i - 1 && (#[trigger] r[j]).key@ == key implies !(
            r[j].value is Text) by {
                assert(r[j] == attrs[j + 1]);
            }
        }
    }
}

/// An attribute that is not there has no value.
pub proof fn law_missing_attributes_have_no_value(attrs: Seq<Attr>, key: Seq<char>)
    requires
        forall|j: int| 0 <= j < attrs.len() ==> (#[trigger] attrs[j]).key@ != key,
    ensures
        attr_i64_spec(attrs, key) is None,
        attr_str_spec(attrs, key) is None,
    decreases attrs.len(),
{
    if attrs.len() > 0 {
        let r = attrs.skip(1);
        assert forall|j: int| 0 <= j < r.len() implies (#[trigger] r[j]).key@ != key by {
            assert(r[j] == attrs[j + 1]);
        }
        law_missing_attributes_have_no_value(r, key);
    }
}

/// A number is told as such or as text; nothing else is one.
pub proof fn law_which_values_are_numbers(n: i64, t: String)
    ensures
        int_value(AttrValue::Int(n)) == Some(n),
        int_value(AttrValue::Text(t)) == crate::text::parse_i64_spec(t@),
        int_value(AttrValue::Other) is None,
{
}

/// Microseconds are whole, never below zero, and no more than 64 bits hold.
pub proof fn law_how_times_are_measured(from: i128, to: i128, ms: i64)
    ensures
        to <= from ==> micros_between_spec(from, to) == 0,
        to > from && to - from < 1000 * 0x1_0000_0000_0000_0000 ==> {
            let n = micros_between_spec(from, to);
            1000 * n <= to - from < 1000 * n + 1000
        },
        ms <= 0 ==> millis_as_micros(ms) == 0,
        0 < ms <= 18446744073709551 ==> millis_as_micros(ms) == 1000 * ms,
{
}

/// Every span is an event of its own on its track. A request whose first byte has a time
/// is followed by what came before that byte and what came after, unless that is empty;
/// no other span is.
pub proof fn law_what_a_span_shows(span: SpanRecord, base: i128, at: int)
    ensures
        ({
            let s = span_events(span, base, at);
            let ts = micros_between_spec(base, span.start);
            let dur = micros_between_spec(span.start, span.end);
            let first = attr_i64_spec(span.attributes@, "ttfb_ms"@);
            let wait = if millis_as_micros(first->0) <= dur {
                millis_as_micros(first->0)
            } else {
                dur
            };
            let tid = tid_of(span);
            let before = ChromeView {
                name: "before first byte"@,
                ts,
                dur: wait,
                tid,
                span: None,
            };
            let after = ChromeView {
                name: "after first byte"@,
                ts: ts + wait,
                dur: dur - wait,
                tid,
                span: None,
            };
            &&& s.len() > 0
            &&& s[0] == (ChromeView { name: span.name@, ts, dur, tid, span: Some(at) })
            &&& span.name@ != "http request"@ || first is None ==> s.len() == 1
            &&& span.name@ == "http request"@ && first is Some ==> {
                &&& wait > 0 && dur > wait ==> s.len() == 3 && s[1] == before && s[2] == after
                &&& wait > 0 && dur == wait ==> s.len() == 2 && s[1] == before
                &&& wait == 0 && dur > 0 ==> s.len() == 2 && s[1] == after
                &&& wait == 0 && dur == 0 ==> s.len() == 1
            }
        }),
{
}

/// The track of a span is its thread, and the first track where it names none.
pub proof fn law_which_track_a_span_is_on(span: SpanRecord)
    ensures
        match attr_i64_spec(span.attributes@, "thread.id"@) {
            Some(t) => tid_of(span) == t,
            None => tid_of(span) == 0,
        },
{
}

/// Time is counted from the span that began first.
pub proof fn law_when_time_begins(spans: Seq<SpanRecord>)
    requires
        spans.len() > 0,
    ensures
        forall|i: int| 0 <= i < spans.len() ==> earliest(spans) <= (#[trigger] spans[i]).start,
        exists|i: int| 0 <= i < spans.len() && (#[trigger] spans[i]).start == earliest(spans),
    decreases spans.len(),
{
    if spans.len() == 1 {
        assert(spans[0].start == earliest(spans));
    } else {
        let r = spans.drop_last();
        law_when_time_begins(r);
        assert forall|i: int| 0 <= i < r.len() implies r[i] == #[trigger] spans[i] by {}
        if spans.last().start < earliest(r) {
            assert(spans[spans.len() - 1].start == earliest(spans));
        } else {
            let i = choose|i: int| 0 <= i < r.len() && (#[trigger] r[i]).start == earliest(r);
            assert(spans[i].start == earliest(spans));
        }
    }
}

/// The events of the spans come one span after the other.
pub proof fn law_spans_are_shown_in_order(spans: Seq<SpanRecord>, base: i128, n: int)
    requires
        0 <= n < spans.len(),
    ensures
        trace_events(spans, base, 0).len() == 0,
        trace_events(spans, base, n + 1) == trace_events(spans, base, n) + span_events(
            spans[n],
            base,
            n,
        ),
{
}

/// A track has the name that the first of its spans with a name gives it.
pub proof fn law_what_a_track_is_called(spans: Seq<SpanRecord>, tid: i64)
    ensures
        match track_name(spans, tid) {
            Some(n) => exists|i: int|
                0 <= i < spans.len() && tid_of(#[trigger] spans[i]) == tid && attr_str_spec(
                    spans[i].attributes@,
                    "thread.name"@,
                ) == Some(n) && (forall|j: int|
                    0 <= j < i && tid_of(#[trigger] spans[j]) == tid ==> attr_str_spec(
                        spans[j].attributes@,
                        "thread.name"@,
                    ) is None),
            None => forall|j: int|
                0 <= j < spans.len() && tid_of(#[trigger] spans[j]) == tid ==> attr_str_spec(
                    spans[j].attributes@,
                    "thread.name"@,
                ) is None,
        },
    decreases spans.len(),
{
    if spans.len() > 0 {
        let r = spans.drop_last();
        law_what_a_track_is_called(r, tid);
        assert forall|i: int| 0 <= i < r.len() implies r[i] == #[trigger] spans[i] by {}
        match track_name(r, tid) {
            Some(n) => {
                let i = choose|i: int|
                    0 <= i < r.len() && tid_of(#[trigger] r[i]) == tid && attr_str_spec(
                        r[i].attributes@,
                        "thread.name"@,
                    ) == Some(n) && (forall|j: int|
                        0 <= j < i && tid_of(#[trigger] r[j]) == tid ==> attr_str_spec(
                            r[j].attributes@,
                            "thread.name"@,
                        ) is None);
                assert(tid_of(spans[i]) == tid);
            },
            None => {
                assert(spans[spans.len() - 1] == spans.last());
            },
        }
    }
}

/// What is downloaded is named by what follows the last slash.
pub proof fn law_how_a_download_is_named(dir: Seq<char>, name: Seq<char>)
    requires
        is_without(name, '/'),
    ensures
        basename(dir + "/"@ + name) == name,
        basename(name) == name,
    decreases dir.len(),
{
    reveal_strlit("/");
    crate::laws::texts::law_separators_end_pieces(name, '/', name);
    lemma_last_piece(dir, name);
    assert(dir + "/"@ + name =~= dir + seq!['/'] + name);
}

proof fn lemma_last_piece(s: Seq<char>, p: Seq<char>)
    requires
        is_without(p, '/'),
    ensures
        crate::text::split_spec(s + seq!['/'] + p, '/').last() == p,
        crate::text::split_spec(s + seq!['/'] + p, '/').len() > 0,
    decreases p.len(),
{
    let all = s + seq!['/'] + p;
    crate::text::lemma_split_nonempty(s, '/');
    if p.len() == 0 {
        assert(all.drop_last() =~= s);
        assert(p =~= Seq::empty());
    } else {
        let q = p.drop_last();
        assert forall|i: int| 0 <= i < q.len() implies #[trigger] q[i] != '/' by {
            assert(q[i] == p[i]);
        }
        lemma_last_piece(s, q);
        assert(all.drop_last() =~= s + seq!['/'] + q);
        assert(all.last() == p.last());
        assert(p.last() == p[p.len() - 1]);
        assert(q.push(p.last()) =~= p);
    }
}

/// A copy on disk spares a download only if it is not empty, has a time, and no download
/// is forced.
pub proof fn law_when_a_copy_counts(spec: FetchSpec, e: Existing)
    ensures
        spec.since(None) is None,
        spec.force ==> spec.since(Some(e)) is None,
        e.len == 0 ==> spec.since(Some(e)) is None,
        e.modified is None ==> spec.since(Some(e)) is None,
        e.modified matches Some(t) ==> (!spec.force && e.len > 0 && t <= i64::MAX ==> spec.since(
            Some(e),
        ) == Some(t as i64)),
{
}

/// The roots of a forest stand by when they begin, and of those that begin together the
/// longest first.
pub proof fn law_in_which_order_roots_stand(events: Seq<EventView>, r: Seq<Node>, i: int, j: int)
    requires
        is_forest(events, r),
        0 <= i < j < r.len(),
    ensures
        r[i].ts <= r[j].ts,
        r[i].ts == r[j].ts ==> r[i].dur >= r[j].dur,
{
    let (order, rorder) = choose|order: Seq<usize>, rorder: Seq<usize>| #[trigger]
        forest_by(events, r, order, rorder);
    let s = arranged(events, order);
    let roots = kids(s, None);
    let keys = root_keys(s, roots);
    let at = arranged(roots, rorder);
    assert(node_is(r[i], s, at[i]));
    assert(node_is(r[j], s, at[j]));
    crate::laws::updating::law_keys_are_sorted_by_their_numbers(
        keys,
        rorder,
        i,
        j,
        keys[rorder[i] as int],
        keys[rorder[j] as int],
    );
}

/// Where no overlap is reported, no event begins during another one of its track and
/// ends after it.
pub proof fn law_every_crossing_is_reported(events: Seq<EventView>, order: Seq<usize>, i: int, j: int)
    requires
        is_key_order(viewing_keys(events), order),
        are_overlaps(events, Seq::<OverlapView>::empty()),
        0 <= i < events.len(),
        0 <= j < events.len(),
        events[i].tid == events[j].tid,
        events[i].ts < events[j].ts,
    ensures
        !(events[j].ts < finish(events[i]) < finish(events[j])),
{
    let keys = viewing_keys(events);
    let s = arranged(events, order);
    law_no_overlap_means_no_crossing(events, order);
    assert(is_listed(order, i));
    assert(is_listed(order, j));
    let a = choose|a: int| 0 <= a < order.len() && #[trigger] order[a] == i;
    let b = choose|b: int| 0 <= b < order.len() && #[trigger] order[b] == j;
    if b < a {
        crate::laws::updating::law_keys_are_sorted_by_their_numbers(keys, order, b, a, keys[j], keys[i]);
    }
    assert(s[a] == events[i] && s[b] == events[j]);
}

} // verus!
