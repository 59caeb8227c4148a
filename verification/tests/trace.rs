//! Reading traces back.

use aurox::logging::chrome::first_byte_split;
use aurox::trace::{
    build_forest, checked_summarize, complete_events, find_by_name, fmt_dur, latest_trace, overlaps, summarize, Arg,
    Event, RawEvent,
};

/// `ev(name, tid, ts, dur)` with no args.
fn ev(name: &str, tid: i64, ts: u64, dur: u64) -> Event {
    Event {
        name: name.to_owned(),
        tid,
        ts,
        dur,
        args: Vec::new(),
    }
}

#[test]
fn nests_by_time_containment() {
    // outer[0..100] contains a[10..40] and b[40..90]; a contains a1[15..25].
    let evs = vec![
        ev("outer", 1, 0, 100),
        ev("a", 1, 10, 30),
        ev("a1", 1, 15, 10),
        ev("b", 1, 40, 50),
    ];
    let forest = build_forest(&evs);
    assert_eq!(forest.len(), 1);
    let outer = &forest[0];
    assert_eq!(outer.name, "outer");
    // Direct children in chronological order.
    assert_eq!(
        outer
            .children
            .iter()
            .map(|c| c.name.as_str())
            .collect::<Vec<_>>(),
        ["a", "b"]
    );
    let a = &outer.children[0];
    assert_eq!(
        a.children
            .iter()
            .map(|c| c.name.as_str())
            .collect::<Vec<_>>(),
        ["a1"]
    );
}

#[test]
fn self_time_excludes_children() {
    let evs = vec![
        ev("outer", 1, 0, 100),
        ev("a", 1, 10, 30),
        ev("b", 1, 40, 50),
    ];
    let forest = build_forest(&evs);
    let outer = &forest[0];
    // 100 total − (30 + 50) children = 20 self.
    assert_eq!(outer.self_us(), 20);
    // Leaf self == dur.
    assert_eq!(outer.children[0].self_us(), 30);
}

#[test]
fn separate_tids_are_separate_roots() {
    let evs = vec![ev("main", 1, 0, 100), ev("worker", 2, 10, 50)];
    let forest = build_forest(&evs);
    assert_eq!(forest.len(), 2);
    // No cross-thread nesting even though worker is inside main's time span.
    assert!(forest.iter().all(|n| n.children.is_empty()));
}

#[test]
fn summarize_sorts_by_self_and_folds_repeats() {
    let evs = vec![
        ev("round", 1, 0, 100),
        ev("io", 1, 0, 90), // self 90
        ev("round", 1, 100, 60),
        ev("io", 1, 100, 10), // self 10
    ];
    let forest = build_forest(&evs);
    let summary = summarize(&forest);
    // io: self 90+10=100; round: self 10+50=60. io leads.
    assert_eq!(summary[0].name, "io");
    assert_eq!(summary[0].count, 2);
    assert_eq!(summary[0].self_us, 100);
    assert_eq!(summary[0].total_us, 100);
    let round = summary.iter().find(|a| a.name == "round").unwrap();
    assert_eq!(round.self_us, 60);
    assert_eq!(round.max_us, 100);
}

#[test]
fn find_by_name_returns_each_occurrence() {
    let evs = vec![
        ev("negotiate", 1, 0, 100),
        ev("round", 1, 0, 40),
        ev("round", 1, 40, 40),
    ];
    let forest = build_forest(&evs);
    let rounds = find_by_name(&forest, "round");
    assert_eq!(rounds.len(), 2);
}

#[test]
fn overlaps_flags_partial_crossing() {
    // X starts inside A [0,100] but ends at 150 — it crosses A's end. This is
    // the only shape Perfetto drops; build_forest would hide it under A.
    let over = overlaps(&vec![ev("A", 1, 0, 100), ev("X", 1, 80, 70)]);
    assert_eq!(over.len(), 1);
    assert_eq!(over[0].tid, 1);
    assert_eq!(over[0].dropped.name, "X");
    assert_eq!(over[0].over.name, "A");
}

#[test]
fn overlaps_flags_phase_style_crossing() {
    // The real bug shape: an annotation span opens just after an op span and
    // closes after it ends — crossing the op's end. Dropped.
    let over = overlaps(&vec![ev("op", 1, 0, 100), ev("phase", 1, 10, 100)]);
    assert_eq!(over.len(), 1);
    assert_eq!(over[0].dropped.name, "phase");
    assert_eq!(over[0].over.name, "op");
}

#[test]
fn overlaps_ignores_nesting_touch_and_shared_boundaries() {
    // Everything Perfetto tolerates and that earlier over-strict rules wrongly
    // flagged: a nested child, a child sharing the parent's start, two siblings
    // that touch (`a.end == b.start`), and a child sharing the parent's end.
    let evs = vec![
        ev("outer", 1, 0, 100),
        ev("shares_start", 1, 0, 20), // shared start with outer
        ev("a", 1, 20, 30),           // [20,50]
        ev("b", 1, 50, 30),           // [50,80] touches a
        ev("shares_end", 1, 80, 20),  // [80,100] shares end with outer
    ];
    assert!(overlaps(&evs).is_empty(), "{:?}", overlaps(&evs));
}

#[test]
fn overlaps_are_per_track() {
    // Same wall-clock window, different tids: never an overlap.
    let evs = vec![ev("main", 1, 0, 100), ev("worker", 2, 50, 100)];
    assert!(overlaps(&evs).is_empty());
}

#[test]
fn overlaps_dropped_slice_does_not_blame_later_ones() {
    // X crosses A and is dropped; Y starts after A and must stand alone,
    // not be reported as overlapping the (non-existent) X.
    let evs = vec![ev("A", 1, 0, 100), ev("X", 1, 80, 70), ev("Y", 1, 200, 50)];
    let over = overlaps(&evs);
    assert_eq!(over.len(), 1);
    assert_eq!(over[0].dropped.name, "X");
}

#[test]
fn fmt_dur_picks_a_unit() {
    assert_eq!(fmt_dur(500), "500µs");
    assert_eq!(fmt_dur(1_500), "1.5ms");
    assert_eq!(fmt_dur(2_500_000), "2.50s");
}

#[test]
fn first_byte_split_children_are_overlap_free() {
    let (ts, dur, ttfb) = (1_000_u64, 250_u64, 100_u64);
    let ((b_ts, b_dur), (a_ts, a_dur)) = first_byte_split(ts, dur, ttfb);
    let evs = vec![
        ev("http request", 7, ts, dur),
        ev("before first byte", 7, b_ts, b_dur),
        ev("after first byte", 7, a_ts, a_dur),
    ];
    let over = overlaps(&evs);
    assert!(over.is_empty(), "synthesized children overlap: {over:?}");
}

#[test]
fn only_complete_events_are_read() {
    let mut with_arg = ev("a", 1, 0, 1);
    with_arg.args.push(Arg { key: "k".to_owned(), value: "v".to_owned() });
    let raw = vec![
        RawEvent { ph: "X".to_owned(), event: with_arg },
        RawEvent { ph: "M".to_owned(), event: ev("meta", 1, 0, 0) },
    ];
    let got = complete_events(&raw);
    assert_eq!(got.len(), 1);
    assert_eq!(got[0].name, "a");
    assert_eq!(got[0].args[0].value, "v");
}

#[test]
fn the_last_name_is_the_latest_trace() {
    let names: Vec<String> = ["a.json", "c.json", "b.json", "z.txt"]
        .iter()
        .map(|s| (*s).to_owned())
        .collect();
    assert_eq!(latest_trace(&names), Some(1));
    assert_eq!(latest_trace(&vec!["z.txt".to_owned()]), None);
    assert_eq!(latest_trace(&vec![]), None);
}

#[test]
fn children_begin_inside_their_parent() {
    let forest = build_forest(&vec![ev("a", 1, 0, 10), ev("b", 1, 10, 5), ev("c", 1, 11, 20)]);
    // What begins where another ends does not belong to it.
    assert_eq!(forest.len(), 2);
    assert!(forest[0].children.is_empty());
    assert_eq!(forest[1].children[0].name, "c");
}

#[test]
fn self_time_never_goes_below_zero() {
    let forest = build_forest(&vec![ev("a", 1, 0, 10), ev("b", 1, 1, 100)]);
    assert_eq!(forest[0].self_us(), 0);
    assert_eq!(forest[0].children[0].dur, 100);
}

#[test]
fn durations_round_as_doubles_do() {
    assert_eq!(fmt_dur(0), "0\u{b5}s");
    assert_eq!(fmt_dur(999), "999\u{b5}s");
    assert_eq!(fmt_dur(1_000), "1.0ms");
    assert_eq!(fmt_dur(1_250), "1.2ms");
    assert_eq!(fmt_dur(999_950), "1000.0ms");
    assert_eq!(fmt_dur(1_000_000), "1.00s");
    assert_eq!(fmt_dur(1_005_000), "1.00s");
}

#[test]
fn what_is_kept_overlaps_no_more() {
    // Two tracks; on the first, `b` and `d` cross what they begin in.
    let events = vec![
        ev("a", 1, 0, 100),
        ev("b", 1, 50, 100),
        ev("c", 1, 60, 30),
        ev("d", 1, 80, 20),
        ev("instant", 1, 100, 0),
        ev("e", 2, 50, 100),
    ];
    let dropped: Vec<String> = overlaps(&events).into_iter().map(|o| o.dropped.name).collect();
    assert_eq!(dropped, ["b", "d"]);
    let kept: Vec<Event> =
        events.iter().filter(|e| !dropped.contains(&e.name)).cloned().collect();
    assert_eq!(kept.len(), 4);
    assert!(overlaps(&kept).is_empty());
}

#[test]
fn a_summary_adds_up() {
    let events = vec![
        ev("root", 1, 0, 100),
        ev("child", 1, 10, 30),
        ev("leaf", 1, 15, 5),
        ev("child", 1, 50, 20),
        ev("root", 2, 5, 40),
    ];
    assert!(overlaps(&events).is_empty());
    let roots = build_forest(&events);
    let rows = summarize(&roots);
    assert_eq!(rows.iter().map(|r| r.count).sum::<u64>(), 5);
    assert_eq!(rows.iter().map(|r| r.total_us).sum::<u64>(), 195);
    assert_eq!(rows.iter().map(|r| r.self_us).sum::<u64>(), 140);
    assert_eq!(roots.iter().map(|n| n.dur).sum::<u64>(), 140);
}

#[test]
fn sums_have_to_fit_by_name_and_by_span_only() {
    // Together the two names overflow; each by itself fits.
    let long = u64::MAX - 1;
    let apart = build_forest(&vec![ev("a", 1, 0, long), ev("b", 2, 0, long)]);
    let rows = summarize(&apart);
    assert_eq!(rows.iter().map(|r| (r.name.as_str(), r.total_us)).collect::<Vec<_>>(), [
        ("a", long),
        ("b", long),
    ]);
    assert_eq!(rows[0].max_us, long);
    let same_name = build_forest(&vec![ev("a", 1, 0, long), ev("a", 2, 0, long)]);
    assert!(checked_summarize(&same_name).is_none());
    let mut span = build_forest(&vec![ev("outer", 1, 0, 10)]).remove(0);
    span.children = apart;
    assert_eq!(span.checked_self_us(), None);
    assert!(checked_summarize(&vec![span]).is_none());
}
