//! The events of a trace.

use aurox::logging::chrome::{
    attr_i64, attr_str, first_byte_split, first_start, micros_between, spans_fit, thread_names,
    write_trace, Attr, AttrValue, SpanRecord,
};

/// `ttfb` inside the parent: the halves tile `[1000, 1250)`.
#[test]
fn first_byte_split_divides_at_ttfb() {
    assert_eq!(first_byte_split(1000, 250, 100), ((1000, 100), (1100, 150)));
}

/// A `ttfb` that runs over the parent is cut at the parent's end.
#[test]
fn first_byte_split_clamps_overrun_to_parent_end() {
    assert_eq!(first_byte_split(1000, 80, 100), ((1000, 80), (1080, 0)));
}

fn attr(key: &str, value: AttrValue) -> Attr {
    Attr { key: key.to_owned(), value }
}

fn span(name: &str, start: i128, end: i128, attributes: Vec<Attr>) -> SpanRecord {
    SpanRecord { name: name.to_owned(), start, end, attributes }
}

#[test]
fn requests_are_split_at_their_first_byte() {
    let spans = vec![
        span("outer", 1_000_000, 9_000_000, vec![attr("thread.id", AttrValue::Int(3))]),
        span(
            "http request",
            2_000_000,
            5_000_000,
            vec![
                attr("thread.id", AttrValue::Int(3)),
                attr("ttfb_ms", AttrValue::Text("1".to_owned())),
            ],
        ),
    ];
    assert!(spans_fit(&spans));
    assert_eq!(first_start(&spans), 1_000_000);
    let events = write_trace(&spans);
    let shown: Vec<(&str, u64, u64, i64, Option<usize>)> =
        events.iter().map(|e| (e.name.as_str(), e.ts, e.dur, e.tid, e.span)).collect();
    assert_eq!(
        shown,
        [
            ("outer", 0, 8_000, 3, Some(0)),
            ("http request", 1_000, 3_000, 3, Some(1)),
            ("before first byte", 1_000, 1_000, 3, None),
            ("after first byte", 2_000, 2_000, 3, None),
        ]
    );
}

#[test]
fn a_request_without_a_first_byte_stays_whole() {
    let spans = vec![span("http request", 0, 10_000, vec![])];
    let events = write_trace(&spans);
    assert_eq!(events.len(), 1);
    assert_eq!(events[0].tid, 0);
}

#[test]
fn attributes_are_found_by_name() {
    let attrs = vec![
        attr("a", AttrValue::Other),
        attr("a", AttrValue::Int(4)),
        attr("b", AttrValue::Text("x".to_owned())),
    ];
    assert_eq!(attr_i64(&attrs, "a"), Some(4));
    assert_eq!(attr_i64(&attrs, "b"), None);
    assert_eq!(attr_str(&attrs, "b"), Some("x"));
    assert_eq!(attr_str(&attrs, "c"), None);
}

#[test]
fn microseconds_are_whole_and_never_negative() {
    assert_eq!(micros_between(0, 1_999), 1);
    assert_eq!(micros_between(5, 4), 0);
    assert_eq!(micros_between(i128::MIN, i128::MAX), u64::MAX);
}

#[test]
fn tracks_are_named_once() {
    let named = |tid: i64, name: &str| {
        vec![
            attr("thread.id", AttrValue::Int(tid)),
            attr("thread.name", AttrValue::Text(name.to_owned())),
        ]
    };
    let spans = vec![
        span("x", 0, 1, named(2, "worker")),
        span("y", 0, 1, named(1, "main")),
        span("z", 0, 1, named(2, "worker")),
    ];
    let names = thread_names(&spans);
    let shown: Vec<(i64, &str)> = names.iter().map(|n| (n.tid, n.name.as_str())).collect();
    assert_eq!(shown, [(1, "main"), (2, "worker")]);
}

#[test]
fn only_a_split_has_to_fit() {
    let late: i128 = u64::MAX as i128 * 1000;
    let spans = vec![span("first", 0, 1, vec![]), span("long", late, late + 5_000, vec![])];
    assert!(spans_fit(&spans));
    let events = write_trace(&spans);
    assert_eq!((events[1].ts, events[1].dur), (u64::MAX, 5));
    let split = vec![
        span("first", 0, 1, vec![]),
        span("http request", late, late + 5_000_000, vec![attr("ttfb_ms", AttrValue::Int(1))]),
    ];
    assert!(!spans_fit(&split));
}
