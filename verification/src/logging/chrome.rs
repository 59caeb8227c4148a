//! The trace of a run as a list of complete events.

use vstd::prelude::*;

use crate::text::{parse_i64, parse_i64_spec, same};
use crate::trace::{crosses, EventView};

verus! {

broadcast use {vstd::string::group_string_axioms, crate::seqs::lemma_map_push};

/// The value of an attribute.
#[derive(Debug)]
pub enum AttrValue {
    /// An integer.
    Int(i64),
    /// A text.
    Text(String),
    /// Anything else.
    Other,
}

/// An attribute of a span.
#[derive(Debug)]
pub struct Attr {
    /// Its name.
    pub key: String,
    /// Its value.
    pub value: AttrValue,
}

/// A span that has ended. Times are in nanoseconds since the epoch.
#[derive(Debug)]
pub struct SpanRecord {
    /// Its name.
    pub name: String,
    /// When it began.
    pub start: i128,
    /// When it ended.
    pub end: i128,
    /// Its attributes.
    pub attributes: Vec<Attr>,
}

/// A complete event. Times are in microseconds.
#[derive(Debug)]
pub struct ChromeEvent {
    /// Its name.
    pub name: String,
    /// When it began, counted from the first span.
    pub ts: u64,
    /// How long it took.
    pub dur: u64,
    /// Its track.
    pub tid: i64,
    /// The span whose attributes belong to it.
    pub span: Option<usize>,
}

/// The model of a [`ChromeEvent`].
pub struct ChromeView {
    pub name: Seq<char>,
    pub ts: int,
    pub dur: int,
    pub tid: i64,
    pub span: Option<int>,
}

impl View for ChromeEvent {
    type V = ChromeView;

    open spec fn view(&self) -> ChromeView {
        ChromeView {
            name: self.name@,
            ts: self.ts as int,
            dur: self.dur as int,
            tid: self.tid,
            span: match self.span {
                Some(i) => Some(i as int),
                None => None,
            },
        }
    }
}

/// The models of the events.
pub open spec fn chrome_list(v: Seq<ChromeEvent>) -> Seq<ChromeView> {
    v.map_values(|e: ChromeEvent| e@)
}

/// The integer that an attribute holds, as such or as text.
pub open spec fn int_value(v: AttrValue) -> Option<i64> {
    match v {
        AttrValue::Int(n) => Some(n),
        AttrValue::Text(s) => parse_i64_spec(s@),
        AttrValue::Other => None,
    }
}

/// The integer of the first attribute called `key` that holds one.
pub open spec fn attr_i64_spec(attrs: Seq<Attr>, key: Seq<char>) -> Option<i64>
    decreases attrs.len(),
{
    if attrs.len() == 0 {
        None
    } else if attrs[0].key@ == key && int_value(attrs[0].value) is Some {
        int_value(attrs[0].value)
    } else {
        attr_i64_spec(attrs.skip(1), key)
    }
}

/// The integer of the first attribute called `key` that holds one.
pub fn attr_i64(attrs: &Vec<Attr>, key: &str) -> (r: Option<i64>)
    ensures
        r == attr_i64_spec(attrs@, key@),
{
    let mut i: usize = 0;
    assert(attrs@.skip(0) =~= attrs@);
    while i < attrs.len()
        invariant
            i <= attrs.len(),
            attr_i64_spec(attrs@, key@) == attr_i64_spec(attrs@.skip(i as int), key@),
        decreases attrs.len() - i,
    {
        let a = &attrs[i];
        assert(attrs@.skip(i as int)[0] == *a);
        assert(attrs@.skip(i as int).skip(1) =~= attrs@.skip(i as int + 1));
        if same(a.key.as_str(), key) {
            let found: Option<i64> = match &a.value {
                AttrValue::Int(n) => Some(*n),
                AttrValue::Text(s) => parse_i64(s.as_str()),
                AttrValue::Other => None,
            };
            if found.is_some() {
                return found;
            }
        }
        i = i + 1;
    }
    None
}

/// The text of the first attribute called `key` that is one.
pub open spec fn attr_str_spec(attrs: Seq<Attr>, key: Seq<char>) -> Option<Seq<char>>
    decreases attrs.len(),
{
    if attrs.len() == 0 {
        None
    } else {
        match attrs[0].value {
            AttrValue::Text(s) if attrs[0].key@ == key => Some(s@),
            _ => attr_str_spec(attrs.skip(1), key),
        }
    }
}

/// The text of the first attribute called `key` that is one.
pub fn attr_str<'a>(attrs: &'a Vec<Attr>, key: &str) -> (r: Option<&'a str>)
    ensures
        match r {
            Some(s) => attr_str_spec(attrs@, key@) == Some(s@),
            None => attr_str_spec(attrs@, key@) is None,
        },
{
    let mut i: usize = 0;
    assert(attrs@.skip(0) =~= attrs@);
    while i < attrs.len()
        invariant
            i <= attrs.len(),
            attr_str_spec(attrs@, key@) == attr_str_spec(attrs@.skip(i as int), key@),
        decreases attrs.len() - i,
    {
        let a = &attrs[i];
        assert(attrs@.skip(i as int)[0] == *a);
        assert(attrs@.skip(i as int).skip(1) =~= attrs@.skip(i as int + 1));
        match &a.value {
            AttrValue::Text(s) => {
                if same(a.key.as_str(), key) {
                    return Some(s.as_str());
                }
            },
            _ => {},
        }
        i = i + 1;
    }
    None
}

/// How many whole microseconds lie between two times: none where the second is
/// earlier, and no more than 64 bits hold.
pub open spec fn micros_between_spec(from: i128, to: i128) -> int {
    if to <= from {
        0
    } else if (to - from) / 1000 > u64::MAX {
        u64::MAX as int
    } else {
        (to - from) / 1000
    }
}

/// How many whole microseconds lie between two times.
pub fn micros_between(from: i128, to: i128) -> (r: u64)
    ensures
        r == micros_between_spec(from, to),
{
    if to <= from {
        return 0;
    }
    // The distance of two such numbers may not fit into one of them.
    match to.checked_sub(from) {
        Some(d) => {
            let us: i128 = d / 1000;
            if us > u64::MAX as i128 {
                u64::MAX
            } else {
                us as u64
            }
        },
        None => u64::MAX,
    }
}

/// The two halves of a request, before and after its first byte came, each with its
/// begin and its length: they lie side by side and fill the request.
pub open spec fn split_spec(ts: int, dur: int, ttfb: int) -> ((int, int), (int, int)) {
    let split = if ttfb <= dur {
        ttfb
    } else {
        dur
    };
    ((ts, split), (ts + split, dur - split))
}

/// The two halves of a request, before and after its first byte came.
pub fn first_byte_split(ts: u64, dur: u64, ttfb: u64) -> (r: ((u64, u64), (u64, u64)))
    requires
        split_spec(ts as int, dur as int, ttfb as int).1.0 <= u64::MAX,
    ensures
        ({
            let want = split_spec(ts as int, dur as int, ttfb as int);
            &&& r.0.0 == want.0.0 && r.0.1 == want.0.1
            &&& r.1.0 == want.1.0 && r.1.1 == want.1.1
        }),
{
    let split: u64 = if ttfb <= dur {
        ttfb
    } else {
        dur
    };
    ((ts, split), (ts + split, dur - split))
}

/// When the first span began.
pub open spec fn earliest(spans: Seq<SpanRecord>) -> i128
    decreases spans.len(),
{
    if spans.len() == 0 {
        0
    } else if spans.len() == 1 || spans.last().start < earliest(spans.drop_last()) {
        spans.last().start
    } else {
        earliest(spans.drop_last())
    }
}

/// The track of a span.
pub open spec fn tid_of(span: SpanRecord) -> i64 {
    match attr_i64_spec(span.attributes@, "thread.id"@) {
        Some(t) => t,
        None => 0,
    }
}

/// Milliseconds as microseconds, none where they are below zero and no more than 64
/// bits hold.
pub open spec fn millis_as_micros(ms: i64) -> int {
    if ms <= 0 {
        0
    } else if ms * 1000 > u64::MAX {
        u64::MAX as int
    } else {
        ms * 1000
    }
}

/// The events of one span: itself and, where it is a request whose first byte has a
/// time, its two halves, unless they are empty.
pub open spec fn span_events(span: SpanRecord, base: i128, at: int) -> Seq<ChromeView> {
    let ts = micros_between_spec(base, span.start);
    let dur = micros_between_spec(span.start, span.end);
    let tid = tid_of(span);
    let whole = ChromeView { name: span.name@, ts, dur, tid, span: Some(at) };
    let ttfb = attr_i64_spec(span.attributes@, "ttfb_ms"@);
    if span.name@ == "http request"@ && ttfb is Some {
        let (b, a) = split_spec(ts, dur, millis_as_micros(ttfb->0));
        seq![whole] + (if b.1 > 0 {
            seq![ChromeView { name: "before first byte"@, ts: b.0, dur: b.1, tid, span: None }]
        } else {
            seq![]
        }) + if a.1 > 0 {
            seq![ChromeView { name: "after first byte"@, ts: a.0, dur: a.1, tid, span: None }]
        } else {
            seq![]
        }
    } else {
        seq![whole]
    }
}

/// The events of the first `n` spans.
pub open spec fn trace_events(spans: Seq<SpanRecord>, base: i128, n: int) -> Seq<ChromeView>
    decreases n,
{
    if n <= 0 {
        seq![]
    } else {
        trace_events(spans, base, n - 1) + span_events(spans[n - 1], base, n - 1)
    }
}

/// Whether 64 bits hold in microseconds when the first byte of a span came, where it is
/// a request whose first byte has a time.
pub open spec fn split_fits(span: SpanRecord, base: i128) -> bool {
    let ttfb = attr_i64_spec(span.attributes@, "ttfb_ms"@);
    span.name@ == "http request"@ && ttfb is Some ==> split_spec(
        micros_between_spec(base, span.start),
        micros_between_spec(span.start, span.end),
        millis_as_micros(ttfb->0),
    ).1.0 <= u64::MAX
}

/// Whether that holds of every span.
pub open spec fn fits(spans: Seq<SpanRecord>) -> bool {
    forall|i: int| 0 <= i < spans.len() ==> split_fits(#[trigger] spans[i], earliest(spans))
}

/// When the first span began.
pub fn first_start(spans: &Vec<SpanRecord>) -> (r: i128)
    ensures
        r == earliest(spans@),
{
    let mut base: i128 = 0;
    let mut i: usize = 0;
    assert(spans@.take(0) =~= Seq::<SpanRecord>::empty());
    while i < spans.len()
        invariant
            i <= spans.len(),
            base == earliest(spans@.take(i as int)),
        decreases spans.len() - i,
    {
        proof {
            crate::seqs::lemma_take_succ(spans@, i as int);
        }
        if i == 0 || spans[i].start < base {
            base = spans[i].start;
        }
        i = i + 1;
    }
    assert(spans@.take(i as int) =~= spans@);
    base
}

fn span_fits(span: &SpanRecord, base: i128) -> (r: bool)
    ensures
        r == split_fits(*span, base),
{
    if !same(span.name.as_str(), "http request") {
        return true;
    }
    match attr_i64(&span.attributes, "ttfb_ms") {
        Some(ms) => {
            let ts = micros_between(base, span.start);
            let dur = micros_between(span.start, span.end);
            let ttfb = ttfb_micros(ms);
            let split: u64 = if ttfb <= dur {
                ttfb
            } else {
                dur
            };
            split <= u64::MAX - ts
        },
        None => true,
    }
}

/// Whether 64 bits hold in microseconds when the first byte of each request came.
pub fn spans_fit(spans: &Vec<SpanRecord>) -> (r: bool)
    ensures
        r == fits(spans@),
{
    let base = first_start(spans);
    let mut i: usize = 0;
    while i < spans.len()
        invariant
            base == earliest(spans@),
            i <= spans.len(),
            forall|k: int| 0 <= k < i ==> split_fits(#[trigger] spans@[k], base),
        decreases spans.len() - i,
    {
        if !span_fits(&spans[i], base) {
            return false;
        }
        i = i + 1;
    }
    true
}

fn ttfb_micros(ms: i64) -> (r: u64)
    ensures
        r == millis_as_micros(ms),
{
    if ms <= 0 {
        0
    } else {
        let us: i128 = ms as i128 * 1000;
        if us > u64::MAX as i128 {
            u64::MAX
        } else {
            us as u64
        }
    }
}

/// The events of a run.
pub fn write_trace(spans: &Vec<SpanRecord>) -> (r: Vec<ChromeEvent>)
    requires
        fits(spans@),
    ensures
        chrome_list(r@) == trace_events(spans@, earliest(spans@), spans@.len() as int),
{
    let base = first_start(spans);
    let mut r: Vec<ChromeEvent> = Vec::new();
    let mut i: usize = 0;
    assert(chrome_list(r@) =~= trace_events(spans@, base, 0));
    while i < spans.len()
        invariant
            fits(spans@),
            base == earliest(spans@),
            i <= spans.len(),
            chrome_list(r@) == trace_events(spans@, base, i as int),
        decreases spans.len() - i,
    {
        let span = &spans[i];
        let ghost before = chrome_list(r@);
        let tid: i64 = match attr_i64(&span.attributes, "thread.id") {
            Some(t) => t,
            None => 0,
        };
        let ts = micros_between(base, span.start);
        let dur = micros_between(span.start, span.end);
        assert(spans@[i as int] == *span);
        assert(split_fits(*span, base));
        r.push(ChromeEvent { name: span.name.clone(), ts, dur, tid, span: Some(i) });
        if same(span.name.as_str(), "http request") {
            match attr_i64(&span.attributes, "ttfb_ms") {
                Some(ms) => {
                    let (b, a) = first_byte_split(ts, dur, ttfb_micros(ms));
                    if b.1 > 0 {
                        r.push(
                            ChromeEvent {
                                name: "before first byte".to_owned(),
                                ts: b.0,
                                dur: b.1,
                                tid,
                                span: None,
                            },
                        );
                    }
                    if a.1 > 0 {
                        r.push(
                            ChromeEvent {
                                name: "after first byte".to_owned(),
                                ts: a.0,
                                dur: a.1,
                                tid,
                                span: None,
                            },
                        );
                    }
                },
                None => {},
            }
        }
        assert(chrome_list(r@) =~= before + span_events(*span, base, i as int));
        i = i + 1;
    }
    r
}

/// The name of a track.
#[derive(Debug)]
pub struct ThreadName {
    /// The track.
    pub tid: i64,
    /// Its name.
    pub name: String,
}

/// The name that the first span of a track which has one gives it.
pub open spec fn track_name(spans: Seq<SpanRecord>, tid: i64) -> Option<Seq<char>>
    decreases spans.len(),
{
    if spans.len() == 0 {
        None
    } else {
        match track_name(spans.drop_last(), tid) {
            Some(n) => Some(n),
            None => if tid_of(spans.last()) == tid {
                attr_str_spec(spans.last().attributes@, "thread.name"@)
            } else {
                None
            },
        }
    }
}

/// Whether the names are those of the tracks, sorted by track.
pub open spec fn are_track_names(spans: Seq<SpanRecord>, v: Seq<ThreadName>) -> bool {
    &&& forall|i: int, j: int|
        0 <= i < j < v.len() ==> (#[trigger] v[i]).tid < (#[trigger] v[j]).tid
    &&& forall|i: int|
        0 <= i < v.len() ==> track_name(spans, (#[trigger] v[i]).tid) == Some(v[i].name@)
    &&& forall|tid: i64| #[trigger]
        track_name(spans, tid) is Some ==> exists|i: int|
            0 <= i < v.len() && (#[trigger] v[i]).tid == tid
}

/// The names of the tracks of a run, sorted by track.
pub fn thread_names(spans: &Vec<SpanRecord>) -> (r: Vec<ThreadName>)
    ensures
        are_track_names(spans@, r@),
{
    let mut r: Vec<ThreadName> = Vec::new();
    let mut i: usize = 0;
    assert(spans@.take(0) =~= Seq::<SpanRecord>::empty());
    while i < spans.len()
        invariant
            i <= spans.len(),
            are_track_names(spans@.take(i as int), r@),
        decreases spans.len() - i,
    {
        let span = &spans[i];
        let ghost before = spans@.take(i as int);
        let ghost after = spans@.take(i as int + 1);
        proof {
            crate::seqs::lemma_take_succ(spans@, i as int);
        }
        let tid: i64 = match attr_i64(&span.attributes, "thread.id") {
            Some(t) => t,
            None => 0,
        };
        let ghost had = r@;
        match attr_str(&span.attributes, "thread.name") {
            Some(name) => {
                let mut at: usize = r.len();
                while at > 0 && r[at - 1].tid > tid
                    invariant
                        at <= r.len(),
                        forall|k: int| at <= k < r.len() ==> (#[trigger] r@[k]).tid > tid,
                    decreases at,
                {
                    at = at - 1;
                }
                if at == 0 || r[at - 1].tid != tid {
                    proof {
                        assert forall|k: int| 0 <= k < at implies (#[trigger] had[k]).tid < tid by {
                            if k < at - 1 {
                                assert(had[k].tid < had[at - 1].tid);
                            }
                        }
                        if track_name(before, tid) is Some {
                            let w = choose|w: int|
                                0 <= w < had.len() && (#[trigger] had[w]).tid == tid;
                            if w < at {
                                assert(had[w].tid < tid);
                            } else {
                                assert(had[w].tid > tid);
                            }
                        }
                    }
                    r.insert(at, ThreadName { tid, name: name.to_owned() });
                    proof {
                        assert forall|p: int, q: int| 0 <= p < q < r@.len() implies (#[trigger] r@[p]).tid
                            < (#[trigger] r@[q]).tid by {
                            let bp = if p < at {
                                p
                            } else {
                                p - 1
                            };
                            let bq = if q < at {
                                q
                            } else {
                                q - 1
                            };
                            if p != at {
                                assert(r@[p] == had[bp]);
                            }
                            if q != at {
                                assert(r@[q] == had[bq]);
                            }
                            if p != at && q != at {
                                assert(had[bp].tid < had[bq].tid);
                            }
                        }
                        assert forall|k: int| 0 <= k < r@.len() implies track_name(
                            after,
                            (#[trigger] r@[k]).tid,
                        ) == Some(r@[k].name@) by {
                            if k != at {
                                let bk = if k < at {
                                    k
                                } else {
                                    k - 1
                                };
                                assert(r@[k] == had[bk]);
                            }
                        }
                        assert forall|t: i64| #[trigger] track_name(after, t) is Some implies exists|k: int|
                            0 <= k < r@.len() && (#[trigger] r@[k]).tid == t by {
                            if track_name(before, t) is Some {
                                let w = choose|w: int|
                                    0 <= w < had.len() && (#[trigger] had[w]).tid == t;
                                if w < at {
                                    assert(r@[w].tid == t);
                                } else {
                                    assert(r@[w + 1].tid == t);
                                }
                            } else {
                                assert(r@[at as int].tid == t);
                            }
                        }
                    }
                } else {
                    proof {
                        assert(track_name(before, tid) == Some(had[at - 1].name@));
                        assert forall|t: i64| #[trigger] track_name(after, t) is Some implies track_name(
                            before,
                            t,
                        ) is Some by {}
                    }
                }
            },
            None => {
                proof {
                    assert forall|t: i64| #[trigger] track_name(after, t) is Some implies track_name(
                        before,
                        t,
                    ) is Some by {}
                }
            },
        }
        i = i + 1;
    }
    assert(spans@.take(i as int) =~= spans@);
    r
}

/// The two halves fill the request: the first begins with it, the second ends with
/// it, and they meet.
pub proof fn law_halves_tile(ts: int, dur: int, ttfb: int)
    requires
        0 <= ttfb,
        0 <= dur,
    ensures
        ({
            let (b, a) = split_spec(ts, dur, ttfb);
            &&& b.0 == ts
            &&& b.0 + b.1 == a.0
            &&& a.0 + a.1 == ts + dur
            &&& b.1 >= 0 && a.1 >= 0
        }),
{
}

/// A viewer never leaves out a half: neither crosses the request, nor one the other.
pub proof fn law_halves_do_not_cross(whole: EventView, before: EventView, after: EventView, ttfb: u64)
    requires
        whole.ts + whole.dur <= u64::MAX,
        ({
            let (b, a) = split_spec(whole.ts as int, whole.dur as int, ttfb as int);
            &&& before.ts == b.0 && before.dur == b.1
            &&& after.ts == a.0 && after.dur == a.1
        }),
    ensures
        !crosses(whole, before),
        !crosses(whole, after),
        !crosses(before, after),
{
}

} // verus!
