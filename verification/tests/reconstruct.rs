use turbopack_trace_server::reconstruct::{process, ReaderState};
use turbopack_trace_server::row::{TraceRow, TraceValue};
use turbopack_trace_server::span::{Span, SpanValue};
use turbopack_trace_server::store::SpanStore;

fn start(ts: u64, id: u64, parent: Option<u64>, name: &str) -> TraceRow {
    TraceRow::Start {
        ts,
        id,
        parent,
        name: name.to_string(),
        target: "target".to_string(),
        values: Vec::new(),
    }
}

fn enter(ts: u64, id: u64, thread_id: u64) -> TraceRow {
    TraceRow::Enter { ts, id, thread_id }
}

fn exit(ts: u64, id: u64, thread_id: u64) -> TraceRow {
    TraceRow::Exit { ts, id, thread_id }
}

fn end(ts: u64, id: u64) -> TraceRow {
    TraceRow::End { ts, id }
}

fn replay(rows: Vec<TraceRow>) -> (SpanStore, ReaderState) {
    let mut store = SpanStore::new();
    let mut state = ReaderState::new();
    for row in rows {
        process(&mut store, &mut state, row);
    }
    (store, state)
}

fn span(store: &SpanStore, id: usize) -> &Span {
    store.span(id).expect("span exists")
}

fn by_name(store: &SpanStore, name: &str) -> usize {
    (0..store.len()).find(|id| span(store, *id).name == name).expect("span with that name")
}

#[test]
fn start_without_parent_makes_a_root_span() {
    let (store, state) = replay(vec![start(3, 1, None, "a")]);
    assert_eq!(store.len(), 1);
    assert_eq!(store.roots(), &vec![0]);
    assert_eq!(span(&store, 0).parent, None);
    assert_eq!(span(&store, 0).start, 3);
    assert_eq!(state.active_id(1), Some(0));
    assert!(state.is_outdated(0));

    let (store, _) = replay(vec![start(3, 1, None, "a"), start(4, 2, None, "b")]);
    assert_eq!(store.roots(), &vec![0, 1]);
}

#[test]
fn start_under_an_active_parent_links_parent_and_child() {
    let (store, state) = replay(vec![start(0, 10, None, "p"), start(1, 11, Some(10), "c")]);
    assert_eq!(store.len(), 2);
    assert_eq!(span(&store, 1).parent, Some(0));
    assert_eq!(store.children(0), Some(&vec![1]));
    assert_eq!(store.roots(), &vec![0]);
    assert_eq!(state.active_id(11), Some(1));
    assert!(state.is_outdated(0));
    assert!(state.is_outdated(1));
}

#[test]
fn start_renders_its_attribute_values() {
    let row = TraceRow::Start {
        ts: 0,
        id: 1,
        parent: None,
        name: "n".to_string(),
        target: "t".to_string(),
        values: vec![
            ("s".to_string(), TraceValue::String("text".to_string())),
            ("yes".to_string(), TraceValue::Bool(true)),
            ("no".to_string(), TraceValue::Bool(false)),
            ("zero".to_string(), TraceValue::UInt(0)),
            ("big".to_string(), TraceValue::UInt(u64::MAX)),
            ("neg".to_string(), TraceValue::Int(-42)),
            ("min".to_string(), TraceValue::Int(i64::MIN)),
            ("max".to_string(), TraceValue::Int(i64::MAX)),
            ("half".to_string(), TraceValue::Float(0.5f64.to_bits())),
        ],
    };
    let (store, _) = replay(vec![row]);
    let values = &span(&store, 0).values;
    let texts: Vec<(String, String)> = values
        .iter()
        .map(|(k, v)| match v {
            SpanValue::Text(t) => (k.clone(), t.clone()),
            SpanValue::Float(bits) => (k.clone(), f64::from_bits(*bits).to_string()),
        })
        .collect();
    let expected = vec![
        ("s", "text".to_string()),
        ("yes", true.to_string()),
        ("no", false.to_string()),
        ("zero", 0u64.to_string()),
        ("big", "18446744073709551615".to_string()),
        ("neg", "-42".to_string()),
        ("min", "-9223372036854775808".to_string()),
        ("max", i64::MAX.to_string()),
        ("half", "0.5".to_string()),
    ];
    assert_eq!(texts.len(), expected.len());
    for ((key, value), (want_key, want_value)) in texts.iter().zip(expected.iter()) {
        assert_eq!(key, want_key);
        assert_eq!(value, want_value);
    }
    assert!(matches!(values[8].1, SpanValue::Float(bits) if bits == 0.5f64.to_bits()));
}

#[test]
fn simple_nest() {
    let (mut store, mut state) = replay(vec![
        start(0, 1, None, "a"),
        enter(10, 1, 1),
        start(20, 2, Some(1), "b"),
        enter(30, 2, 1),
        exit(40, 2, 1),
        exit(50, 1, 1),
    ]);
    state.drain_outdated(&mut store);
    let a = by_name(&store, "a");
    let b = by_name(&store, "b");
    assert_eq!(span(&store, a).self_time, vec![(10, 30), (40, 50)]);
    assert_eq!(span(&store, a).exclusive_time, 30);
    assert_eq!(span(&store, b).self_time, vec![(30, 40)]);
    assert_eq!(span(&store, b).exclusive_time, 10);
    assert_eq!(span(&store, b).inclusive_time, 10);
    assert_eq!(span(&store, a).inclusive_time, 40);
    assert_eq!(span(&store, a).child_count, 1);
    assert!(state.stack(1).is_empty());
    assert_eq!(state.started_at(a, 1), None);
    assert_eq!(state.started_at(b, 1), None);
}

#[test]
fn out_of_order_parent() {
    let (late_store, late) = replay(vec![enter(5, 7, 1), start(0, 7, None, "x")]);
    let (store, in_order) = replay(vec![start(0, 7, None, "x"), enter(5, 7, 1)]);
    assert_eq!(late_store.len(), 1);
    assert_eq!(late.active_id(7), Some(0));
    assert_eq!(late.stack(1), vec![0]);
    assert_eq!(late.started_at(0, 1), Some(5));
    assert_eq!(late.queued_for(7), 0);
    assert_eq!(late.stack(1), in_order.stack(1));
    assert_eq!(late.started_at(0, 1), in_order.started_at(0, 1));
    assert_eq!(late.active_id(7), in_order.active_id(7));
    assert_eq!(span(&late_store, 0).self_time, span(&store, 0).self_time);
    assert_eq!(span(&late_store, 0).name, "x");
}

#[test]
fn enter_for_an_unknown_id_is_buffered_until_the_start() {
    let mut store = SpanStore::new();
    let mut state = ReaderState::new();
    process(&mut store, &mut state, enter(5, 7, 1));
    assert_eq!(store.len(), 0);
    assert_eq!(state.queued_for(7), 1);
    assert_eq!(state.active_id(7), None);
    assert!(state.stack(1).is_empty());
    process(&mut store, &mut state, exit(9, 7, 1));
    assert_eq!(state.queued_for(7), 2);
    process(&mut store, &mut state, start(0, 7, None, "x"));
    assert_eq!(state.queued_for(7), 0);
    assert_eq!(state.active_id(7), Some(0));
    assert!(state.stack(1).is_empty());
    assert_eq!(state.started_at(0, 1), None);
    assert_eq!(span(&store, 0).self_time, vec![(5, 9)]);
}

#[test]
fn deferred_records_are_replayed_in_arrival_order() {
    // three enters of the same span on one thread wait for the start: the
    // stack shows the order in which they were replayed
    let (store, state) = replay(vec![
        start(0, 1, None, "a"),
        start(0, 2, None, "b"),
        enter(1, 9, 1),
        enter(2, 1, 1),
        enter(3, 9, 1),
        enter(4, 2, 1),
        start(5, 9, None, "late"),
    ]);
    let late = by_name(&store, "late");
    assert_eq!(late, 2);
    // the enters of `a` and `b` were applied when they came, the two enters
    // of the late span right after its start, the earlier one first
    assert_eq!(state.stack(1), vec![0, 1, late, late]);
    assert_eq!(state.started_at(late, 1), Some(3));
    assert_eq!(span(&store, late).self_time, vec![(1, 3)]);
    assert_eq!(span(&store, 1).self_time, vec![(4, 1)]);
    assert_eq!(state.queued_for(9), 0);
}

#[test]
fn a_woken_start_wakes_its_own_queue_before_the_rest() {
    // child and grandchild arrive before the root; waking the child wakes
    // the grandchild before the root's second waiting record is replayed
    let (store, state) = replay(vec![
        start(3, 3, Some(2), "grandchild"),
        start(2, 2, Some(1), "child"),
        start(4, 4, Some(1), "second child"),
        start(1, 1, None, "root"),
    ]);
    assert_eq!(store.len(), 4);
    assert_eq!(span(&store, 0).name, "root");
    assert_eq!(span(&store, 1).name, "child");
    assert_eq!(span(&store, 2).name, "grandchild");
    assert_eq!(span(&store, 3).name, "second child");
    assert_eq!(span(&store, 2).parent, Some(1));
    assert_eq!(store.children(0), Some(&vec![1, 3]));
    for id in 1..=4 {
        assert_eq!(state.queued_for(id), 0);
    }
}

#[test]
fn id_reuse() {
    let (store, state) =
        replay(vec![start(0, 1, None, "a"), end(1, 1), start(2, 1, None, "b")]);
    assert_eq!(store.len(), 2);
    assert_eq!(span(&store, 0).name, "a");
    assert_eq!(span(&store, 1).name, "b");
    assert_eq!(state.active_id(1), Some(1));
}

#[test]
fn end_frees_the_id_and_keeps_the_span() {
    let (store, state) = replay(vec![start(0, 1, None, "a"), enter(1, 1, 4), end(2, 1)]);
    assert_eq!(state.active_id(1), None);
    assert_eq!(store.len(), 1);
    assert_eq!(span(&store, 0).name, "a");
    // the thread is still inside the span, and its interval is still open
    assert_eq!(state.stack(4), vec![0]);
    assert_eq!(state.started_at(0, 4), Some(1));
}

#[test]
fn records_for_a_reused_id_reach_the_new_span_only() {
    let (store, state) = replay(vec![
        start(0, 1, None, "a"),
        enter(1, 1, 1),
        exit(2, 1, 1),
        end(3, 1),
        enter(4, 1, 1),
        start(5, 1, None, "b"),
        exit(6, 1, 1),
    ]);
    assert_eq!(span(&store, 0).self_time, vec![(1, 2)]);
    assert_eq!(span(&store, 1).self_time, vec![(4, 6)]);
    assert_eq!(state.active_id(1), Some(1));
    assert!(state.stack(1).is_empty());
}

#[test]
fn misnested_exit() {
    let (mut store, mut state) = replay(vec![
        start(0, 1, None, "A"),
        start(0, 2, None, "B"),
        start(0, 3, None, "C"),
        enter(10, 1, 1),
        enter(20, 2, 1),
        enter(30, 3, 1),
    ]);
    assert_eq!(state.stack(1), vec![0, 1, 2]);
    process(&mut store, &mut state, exit(40, 2, 1));
    assert_eq!(state.stack(1), vec![0, 2]);
    // C resumes from the exit's timestamp
    assert_eq!(state.started_at(2, 1), Some(40));
    // B's interval is closed
    assert_eq!(state.started_at(1, 1), None);
    assert_eq!(span(&store, 1).self_time, vec![(20, 30)]);
    assert_eq!(span(&store, 0).self_time, vec![(10, 20)]);
    assert_eq!(state.started_at(0, 1), None);
}

#[test]
fn exit_of_the_innermost_span_resumes_the_one_below() {
    let (store, state) = replay(vec![
        start(0, 1, None, "A"),
        start(0, 2, None, "B"),
        enter(10, 1, 1),
        enter(20, 2, 1),
        exit(35, 2, 1),
    ]);
    assert_eq!(state.stack(1), vec![0]);
    assert_eq!(state.started_at(0, 1), Some(35));
    assert_eq!(span(&store, 1).self_time, vec![(20, 35)]);
    assert_eq!(span(&store, 0).self_time, vec![(10, 20)]);
}

#[test]
fn exit_of_the_outermost_span_resumes_nothing() {
    let (store, state) = replay(vec![
        start(0, 1, None, "A"),
        start(0, 2, None, "B"),
        enter(10, 1, 1),
        enter(20, 2, 1),
        exit(30, 1, 1),
    ]);
    assert_eq!(state.stack(1), vec![1]);
    assert_eq!(state.started_at(1, 1), Some(20));
    assert_eq!(span(&store, 0).self_time, vec![(10, 20)]);
}

#[test]
fn exit_removes_the_topmost_of_several_occurrences() {
    let (store, state) = replay(vec![
        start(0, 1, None, "A"),
        start(0, 2, None, "B"),
        enter(1, 1, 1),
        enter(2, 2, 1),
        enter(3, 1, 1),
        enter(4, 2, 1),
        exit(5, 1, 1),
    ]);
    assert_eq!(state.stack(1), vec![0, 1, 1]);
    assert_eq!(state.started_at(1, 1), Some(5));
    assert_eq!(span(&store, 0).self_time, vec![(1, 2), (3, 4)]);
}

#[test]
fn exit_for_a_span_that_the_thread_is_not_in_changes_nothing() {
    let (store, state) = replay(vec![
        start(0, 1, None, "A"),
        start(0, 2, None, "B"),
        enter(1, 1, 1),
        exit(2, 2, 1),
        exit(3, 1, 2),
    ]);
    assert_eq!(state.stack(1), vec![0]);
    assert!(state.stack(2).is_empty());
    assert_eq!(state.started_at(0, 1), Some(1));
    assert!(span(&store, 0).self_time.is_empty());
    assert!(span(&store, 1).self_time.is_empty());
}

#[test]
fn threads_keep_separate_stacks() {
    let (store, state) = replay(vec![
        start(0, 1, None, "A"),
        start(0, 2, None, "B"),
        enter(10, 1, 1),
        enter(11, 1, 2),
        enter(12, 2, 2),
        exit(20, 1, 1),
    ]);
    assert!(state.stack(1).is_empty());
    assert_eq!(state.stack(2), vec![0, 1]);
    assert_eq!(span(&store, 0).self_time, vec![(11, 12), (10, 20)]);
    assert_eq!(state.started_at(1, 2), Some(12));
}

#[test]
fn events_are_kept_with_their_parent_or_with_the_store() {
    let event = |ts: u64, parent: Option<u64>| TraceRow::Event {
        ts,
        parent,
        values: vec![("n".to_string(), TraceValue::UInt(ts))],
    };
    let (store, state) =
        replay(vec![event(1, Some(5)), event(2, None), start(3, 5, None, "s"), event(4, Some(5))]);
    assert_eq!(store.root_events().len(), 1);
    assert_eq!(store.root_events()[0].ts, 2);
    let events = &span(&store, 0).events;
    assert_eq!(events.len(), 2);
    assert_eq!((events[0].ts, events[1].ts), (1, 4));
    assert!(matches!(&events[0].values[0].1, SpanValue::Text(v) if v == "1"));
    assert_eq!(state.queued_for(5), 0);
    assert!(span(&store, 0).self_time.is_empty());
    assert!(state.stack(0).is_empty());
}

#[test]
fn records_whose_parent_never_arrives_stay_queued() {
    let (store, state) = replay(vec![start(0, 2, Some(1), "child"), enter(1, 2, 1)]);
    assert_eq!(store.len(), 0);
    assert_eq!(state.queued_for(1), 1);
    assert_eq!(state.queued_for(2), 1);
    assert_eq!(state.active_id(2), None);
}

#[test]
fn drain_outdated_leaves_no_span_outdated() {
    let (mut store, mut state) = replay(vec![
        start(0, 1, None, "a"),
        start(1, 2, Some(1), "b"),
        enter(2, 1, 1),
        enter(3, 2, 1),
        exit(9, 2, 1),
    ]);
    assert!(state.is_outdated(0));
    assert!(state.is_outdated(1));
    state.drain_outdated(&mut store);
    for id in 0..store.len() {
        assert!(!state.is_outdated(id));
    }
    assert_eq!(span(&store, 1).inclusive_time, 6);
    assert_eq!(span(&store, 0).inclusive_time, 7);
}

#[test]
fn self_time_on_a_thread_fits_between_first_enter_and_last_exit() {
    let (mut store, mut state) = replay(vec![
        start(0, 1, None, "a"),
        start(0, 2, Some(1), "b"),
        enter(100, 1, 1),
        enter(110, 2, 1),
        exit(150, 2, 1),
        enter(160, 2, 1),
        exit(170, 2, 1),
        exit(200, 1, 1),
    ]);
    state.drain_outdated(&mut store);
    let a = span(&store, 0);
    assert_eq!(a.self_time, vec![(100, 110), (150, 160), (170, 200)]);
    assert_eq!(a.exclusive_time, 50);
    assert!(a.exclusive_time <= 200 - 100);
    let b = span(&store, 1);
    assert_eq!(b.exclusive_time, 50);
    assert!(b.exclusive_time <= 170 - 110);
    assert_eq!(a.inclusive_time, 100);
}

#[test]
fn the_same_records_give_the_same_aggregates_after_a_reset() {
    let rows = || {
        vec![
            enter(5, 2, 1),
            start(0, 1, None, "a"),
            enter(1, 1, 1),
            start(2, 2, Some(1), "b"),
            exit(8, 2, 1),
            exit(10, 1, 1),
            end(11, 2),
            end(12, 1),
        ]
    };
    let summary = |store: &SpanStore| -> Vec<(String, Option<usize>, u64, u64, usize, Vec<(u64, u64)>)> {
        (0..store.len())
            .map(|id| {
                let s = span(store, id);
                (
                    s.name.clone(),
                    s.parent,
                    s.exclusive_time,
                    s.inclusive_time,
                    s.child_count,
                    s.self_time.clone(),
                )
            })
            .collect()
    };
    let mut store = SpanStore::new();
    let mut state = ReaderState::new();
    for row in rows() {
        process(&mut store, &mut state, row);
    }
    state.drain_outdated(&mut store);
    let first = summary(&store);
    store.reset();
    let mut state = ReaderState::new();
    for row in rows() {
        process(&mut store, &mut state, row);
    }
    state.drain_outdated(&mut store);
    assert_eq!(first, summary(&store));
    assert_eq!(first[0].3, 9);
    assert_eq!(first[1].3, 3);
    assert_eq!(store.generation(), 1);
}

#[test]
fn the_default_state_has_seen_nothing() {
    let state = ReaderState::default();
    assert_eq!(state.active_id(0), None);
    assert!(state.stack(0).is_empty());
    assert_eq!(state.started_at(0, 0), None);
    assert_eq!(state.queued_for(0), 0);
    assert!(!state.is_outdated(0));
}

#[test]
fn a_parent_is_created_before_its_child_even_when_it_arrives_later() {
    let (store, _) = replay(vec![
        start(7, 2, Some(1), "child"),
        start(9, 3, Some(2), "grandchild"),
        start(5, 1, None, "parent"),
    ]);
    assert_eq!(store.len(), 3);
    for id in 0..store.len() {
        if let Some(parent) = span(&store, id).parent {
            assert!(parent < id);
            assert!(span(&store, parent).start <= span(&store, id).start);
        }
    }
    assert_eq!(span(&store, 0).name, "parent");
    assert_eq!(span(&store, 2).parent, Some(1));
}
