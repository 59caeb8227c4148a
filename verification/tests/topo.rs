//! Orders of a graph.

use aurox::error::Error;
use aurox::maps::{NameMap, NameSet};
use aurox::resolver::topo::{sort, strata};

fn set(names: &[&str]) -> NameSet<String> {
    let mut r = NameSet::new();
    for n in names {
        r.insert((*n).to_owned());
    }
    r
}

fn s(strs: &[&str]) -> Vec<String> {
    strs.iter().map(|x| (*x).into()).collect()
}

#[test]
fn linear_chain() {
    let nodes = set(&["a", "b", "c"]);
    let mut e: NameMap<String, Vec<String>> = NameMap::new();
    e.insert("a".into(), s(&["b"]));
    e.insert("b".into(), s(&["c"]));
    e.insert("c".into(), s(&[]));
    let order = sort(&e, &nodes).unwrap();
    assert_eq!(order, s(&["c", "b", "a"]));
}

#[test]
fn detects_cycle() {
    let nodes = set(&["a", "b"]);
    let mut e: NameMap<String, Vec<String>> = NameMap::new();
    e.insert("a".into(), s(&["b"]));
    e.insert("b".into(), s(&["a"]));
    let err = sort(&e, &nodes).err().unwrap();
    assert!(matches!(err, Error::Resolve(_)));
}

#[test]
fn ignores_non_aur_edges() {
    // c is not in the node set (it's a repo dep), so it should be skipped.
    let nodes = set(&["a", "b"]);
    let mut e: NameMap<String, Vec<String>> = NameMap::new();
    e.insert("a".into(), s(&["b", "c"]));
    e.insert("b".into(), s(&["c"]));
    let order = sort(&e, &nodes).unwrap();
    assert_eq!(order, s(&["b", "a"]));
}

#[test]
fn strata_are_as_early_as_can_be() {
    let nodes = set(&["a", "b", "c", "d"]);
    let mut e: NameMap<String, Vec<String>> = NameMap::new();
    e.insert("a".into(), s(&["b", "c"]));
    e.insert("b".into(), s(&["c"]));
    e.insert("d".into(), s(&["x"]));
    let got = strata(&e, &nodes).unwrap();
    assert_eq!(got, vec![s(&["c", "d"]), s(&["b"]), s(&["a"])]);
}

#[test]
fn the_cycle_is_named() {
    let nodes = set(&["a", "b", "c"]);
    let mut e: NameMap<String, Vec<String>> = NameMap::new();
    e.insert("a".into(), s(&["b"]));
    e.insert("b".into(), s(&["c"]));
    e.insert("c".into(), s(&["b"]));
    match sort(&e, &nodes).err().unwrap() {
        Error::Resolve(m) => assert!(m.contains("b") && m.contains("c"), "{m}"),
        other => panic!("{other:?}"),
    }
    assert!(matches!(strata(&e, &nodes), Err(Error::Resolve(_))));
}

#[test]
fn the_order_is_that_of_a_search_by_name() {
    let nodes = set(&["d", "b", "a", "c"]);
    let mut e: NameMap<String, Vec<String>> = NameMap::new();
    e.insert("a".into(), s(&["d", "c"]));
    e.insert("b".into(), s(&["c"]));
    assert_eq!(sort(&e, &nodes).unwrap(), s(&["d", "c", "a", "b"]));
}

#[test]
fn the_message_shows_the_way_into_the_cycle() {
    let nodes = set(&["a", "b", "c"]);
    let mut e: NameMap<String, Vec<String>> = NameMap::new();
    e.insert("a".into(), s(&["x", "b"]));
    e.insert("b".into(), s(&["c"]));
    e.insert("c".into(), s(&["b"]));
    let text = "cycle: a \u{2192} b \u{2192} c \u{2192} b";
    assert!(matches!(sort(&e, &nodes), Err(Error::Resolve(m)) if m == text));
    assert!(matches!(strata(&e, &nodes), Err(Error::Resolve(m)) if m == text));
}
