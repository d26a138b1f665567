use std::collections::HashSet;

use turbopack_trace_server::span::{Span, SpanValue};
use turbopack_trace_server::store::SpanStore;

fn text(s: &str) -> SpanValue {
    SpanValue::Text(s.to_string())
}

fn add(store: &mut SpanStore, parent: Option<usize>, ts: u64, name: &str) -> usize {
    let mut outdated = HashSet::new();
    store.add_span(parent, ts, "target".to_string(), name.to_string(), Vec::new(), &mut outdated)
}

fn span(store: &SpanStore, id: usize) -> &Span {
    store.span(id).expect("span exists")
}

#[test]
fn new_store_is_empty_and_in_generation_zero() {
    let store = SpanStore::new();
    assert_eq!(store.len(), 0);
    assert_eq!(store.generation(), 0);
    assert!(store.roots().is_empty());
    assert!(store.root_events().is_empty());
    assert!(store.span(0).is_none());
    assert!(store.children(0).is_none());
}

#[test]
fn add_span_without_parent_grows_the_root_list_by_one() {
    let mut store = SpanStore::new();
    let mut outdated = HashSet::new();
    let id = store.add_span(
        None,
        7,
        "tgt".to_string(),
        "root".to_string(),
        vec![("k".to_string(), text("v")), ("pi".to_string(), SpanValue::Float(0x400921fb54442d18))],
        &mut outdated,
    );
    assert_eq!(id, 0);
    assert_eq!(store.len(), 1);
    assert_eq!(store.roots(), &vec![0]);
    assert!(outdated.is_empty());
    let s = span(&store, 0);
    assert_eq!(s.parent, None);
    assert_eq!(s.start, 7);
    assert_eq!(s.name, "root");
    assert_eq!(s.target, "tgt");
    assert_eq!(s.values.len(), 2);
    assert_eq!(s.values[0].0, "k");
    assert!(matches!(&s.values[0].1, SpanValue::Text(v) if v == "v"));
    assert!(matches!(s.values[1].1, SpanValue::Float(0x400921fb54442d18)));
    assert!(s.self_time.is_empty());
    assert!(s.children.is_empty());
    assert_eq!((s.exclusive_time, s.inclusive_time, s.child_count), (0, 0, 0));

    let second = add(&mut store, None, 9, "other");
    assert_eq!(second, 1);
    assert_eq!(store.roots(), &vec![0, 1]);
}

#[test]
fn add_span_links_the_child_and_marks_the_parent_outdated() {
    let mut store = SpanStore::new();
    let root = add(&mut store, None, 0, "root");
    let mut outdated = HashSet::new();
    let a = store.add_span(Some(root), 1, String::new(), "a".to_string(), Vec::new(), &mut outdated);
    let b = store.add_span(Some(root), 2, String::new(), "b".to_string(), Vec::new(), &mut outdated);
    let c = store.add_span(Some(a), 3, String::new(), "c".to_string(), Vec::new(), &mut outdated);
    assert_eq!((a, b, c), (1, 2, 3));
    assert_eq!(store.children(root), Some(&vec![1, 2]));
    assert_eq!(store.children(a), Some(&vec![3]));
    assert_eq!(store.children(b), Some(&vec![]));
    assert_eq!(store.roots(), &vec![0]);
    assert_eq!(span(&store, c).parent, Some(a));
    assert_eq!(outdated, HashSet::from([root, a]));
}

#[test]
fn internal_ids_increase_in_creation_order() {
    let mut store = SpanStore::new();
    let mut last = add(&mut store, None, 0, "first");
    for i in 0..50u64 {
        let parent = if i % 3 == 0 { None } else { Some(last) };
        let id = add(&mut store, parent, i, "next");
        assert!(id > last);
        assert_eq!(id + 1, store.len());
        last = id;
    }
}

#[test]
fn every_parent_is_older_than_its_child() {
    let mut store = SpanStore::new();
    let root = add(&mut store, None, 5, "root");
    let a = add(&mut store, Some(root), 6, "a");
    let b = add(&mut store, Some(a), 8, "b");
    add(&mut store, Some(root), 9, "c");
    for id in 0..store.len() {
        if let Some(parent) = span(&store, id).parent {
            assert!(parent < id);
            assert!(span(&store, parent).start <= span(&store, id).start);
            assert!(store.children(parent).unwrap().contains(&id));
        }
    }
    assert_eq!(span(&store, b).parent, Some(a));
}

#[test]
fn add_self_time_appends_the_interval_and_marks_the_span() {
    let mut store = SpanStore::new();
    let id = add(&mut store, None, 0, "root");
    let mut outdated = HashSet::new();
    store.add_self_time(id, 10, 30, &mut outdated);
    store.add_self_time(id, 40, 50, &mut outdated);
    assert_eq!(span(&store, id).self_time, vec![(10, 30), (40, 50)]);
    assert_eq!(outdated, HashSet::from([id]));
    // the aggregates are recomputed only on demand
    assert_eq!(span(&store, id).exclusive_time, 0);
}

#[test]
fn invalidate_recomputes_exclusive_and_inclusive_time_bottom_up() {
    let mut store = SpanStore::new();
    let root = add(&mut store, None, 0, "root");
    let a = add(&mut store, Some(root), 0, "a");
    let b = add(&mut store, Some(a), 0, "b");
    let c = add(&mut store, Some(root), 0, "c");
    let mut outdated = HashSet::new();
    store.add_self_time(root, 0, 5, &mut outdated);
    store.add_self_time(a, 5, 12, &mut outdated);
    store.add_self_time(b, 12, 15, &mut outdated);
    store.add_self_time(b, 20, 21, &mut outdated);
    store.add_self_time(c, 30, 40, &mut outdated);
    store.invalidate_outdated_spans(&outdated);
    assert_eq!(span(&store, b).exclusive_time, 4);
    assert_eq!(span(&store, b).inclusive_time, 4);
    assert_eq!(span(&store, a).exclusive_time, 7);
    assert_eq!(span(&store, a).inclusive_time, 11);
    assert_eq!(span(&store, c).inclusive_time, 10);
    assert_eq!(span(&store, root).exclusive_time, 5);
    assert_eq!(span(&store, root).inclusive_time, 26);
    assert_eq!(span(&store, root).child_count, 2);
    assert_eq!(span(&store, a).child_count, 1);
    assert_eq!(span(&store, b).child_count, 0);
}

#[test]
fn invalidate_reaches_the_ancestors_of_an_outdated_span() {
    let mut store = SpanStore::new();
    let root = add(&mut store, None, 0, "root");
    let a = add(&mut store, Some(root), 0, "a");
    let b = add(&mut store, Some(a), 0, "b");
    let sibling = add(&mut store, Some(root), 0, "sibling");
    let mut ignored = HashSet::new();
    store.add_self_time(b, 0, 100, &mut ignored);
    store.add_self_time(sibling, 0, 7, &mut ignored);
    // only `b` is named: its ancestors follow, its uncle does not
    store.invalidate_outdated_spans(&HashSet::from([b]));
    assert_eq!(span(&store, b).inclusive_time, 100);
    assert_eq!(span(&store, a).inclusive_time, 100);
    assert_eq!(span(&store, root).inclusive_time, 100);
    assert_eq!(span(&store, sibling).exclusive_time, 0);
    assert_eq!(span(&store, sibling).inclusive_time, 0);
    // once the uncle is named, the root takes it in
    store.invalidate_outdated_spans(&HashSet::from([sibling]));
    assert_eq!(span(&store, sibling).inclusive_time, 7);
    assert_eq!(span(&store, root).inclusive_time, 107);
}

#[test]
fn invalidate_with_no_outdated_span_changes_nothing() {
    let mut store = SpanStore::new();
    let root = add(&mut store, None, 0, "root");
    let mut outdated = HashSet::new();
    store.add_self_time(root, 3, 9, &mut outdated);
    store.invalidate_outdated_spans(&HashSet::new());
    assert_eq!(span(&store, root).exclusive_time, 0);
    assert_eq!(span(&store, root).inclusive_time, 0);
    assert_eq!(span(&store, root).self_time, vec![(3, 9)]);
    assert_eq!(store.len(), 1);
    assert_eq!(store.generation(), 0);
}

#[test]
fn invalidate_twice_is_the_same_as_once() {
    let mut store = SpanStore::new();
    let root = add(&mut store, None, 0, "root");
    let a = add(&mut store, Some(root), 0, "a");
    let mut outdated = HashSet::new();
    store.add_self_time(a, 2, 12, &mut outdated);
    store.add_self_time(root, 0, 2, &mut outdated);
    store.invalidate_outdated_spans(&outdated);
    let once = (span(&store, root).inclusive_time, span(&store, a).inclusive_time);
    store.invalidate_outdated_spans(&outdated);
    let twice = (span(&store, root).inclusive_time, span(&store, a).inclusive_time);
    assert_eq!(once, (12, 10));
    assert_eq!(once, twice);
}

#[test]
fn invalidate_ignores_ids_that_name_no_span() {
    let mut store = SpanStore::new();
    let root = add(&mut store, None, 0, "root");
    let mut outdated = HashSet::new();
    store.add_self_time(root, 0, 4, &mut outdated);
    outdated.insert(17);
    store.invalidate_outdated_spans(&outdated);
    assert_eq!(span(&store, root).exclusive_time, 4);
}

#[test]
fn an_interval_that_ends_before_it_starts_counts_as_empty() {
    let mut store = SpanStore::new();
    let root = add(&mut store, None, 0, "root");
    let mut outdated = HashSet::new();
    store.add_self_time(root, 50, 40, &mut outdated);
    store.add_self_time(root, 1, 4, &mut outdated);
    store.invalidate_outdated_spans(&outdated);
    assert_eq!(span(&store, root).exclusive_time, 3);
}

#[test]
fn aggregates_saturate_instead_of_wrapping() {
    let mut store = SpanStore::new();
    let root = add(&mut store, None, 0, "root");
    let a = add(&mut store, Some(root), 0, "a");
    let mut outdated = HashSet::new();
    store.add_self_time(root, 0, u64::MAX, &mut outdated);
    store.add_self_time(root, 0, 5, &mut outdated);
    store.add_self_time(a, 0, 10, &mut outdated);
    store.invalidate_outdated_spans(&outdated);
    assert_eq!(span(&store, root).exclusive_time, u64::MAX);
    assert_eq!(span(&store, root).inclusive_time, u64::MAX);
    assert_eq!(span(&store, a).inclusive_time, 10);
}

#[test]
fn events_go_to_their_span_or_to_the_store() {
    let mut store = SpanStore::new();
    let root = add(&mut store, None, 0, "root");
    store.add_event(Some(root), 11, vec![("message".to_string(), text("hello"))]);
    store.add_event(None, 12, vec![("message".to_string(), text("nobody"))]);
    store.add_event(Some(root), 13, Vec::new());
    let events = &span(&store, root).events;
    assert_eq!(events.len(), 2);
    assert_eq!(events[0].ts, 11);
    assert_eq!(events[0].values[0].0, "message");
    assert!(matches!(&events[0].values[0].1, SpanValue::Text(v) if v == "hello"));
    assert_eq!(events[1].ts, 13);
    assert_eq!(store.root_events().len(), 1);
    assert_eq!(store.root_events()[0].ts, 12);
}

#[test]
fn reset_discards_everything_and_moves_the_generation_on() {
    let mut store = SpanStore::new();
    let root = add(&mut store, None, 0, "root");
    add(&mut store, Some(root), 1, "a");
    store.add_event(None, 2, Vec::new());
    store.reset();
    assert_eq!(store.generation(), 1);
    assert_eq!(store.len(), 0);
    assert!(store.roots().is_empty());
    assert!(store.root_events().is_empty());
    assert!(store.span(root).is_none());
    assert!(store.children(root).is_none());
    // ids start over in the new generation
    assert_eq!(add(&mut store, None, 5, "again"), 0);
    store.reset();
    assert_eq!(store.generation(), 2);
}
