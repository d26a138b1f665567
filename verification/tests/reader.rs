use turbopack_trace_server::reader::{
    Action, Outcome, Step, TraceReader, MAX_ROWS_PER_LOCK, POLL_INTERVAL_MS, READ_CHUNK_SIZE,
    REOPEN_INTERVAL_MS,
};
use turbopack_trace_server::store::SpanStore;

fn varint(mut n: u64, out: &mut Vec<u8>) {
    while n >= 0x80 {
        out.push((n as u8 & 0x7f) | 0x80);
        n >>= 7;
    }
    out.push(n as u8);
}

fn text(s: &str, out: &mut Vec<u8>) {
    varint(s.len() as u64, out);
    out.extend_from_slice(s.as_bytes());
}

fn start(ts: u64, id: u64, parent: Option<u64>, name: &str) -> Vec<u8> {
    let mut out = vec![0];
    varint(ts, &mut out);
    varint(id, &mut out);
    match parent {
        Some(p) => {
            out.push(1);
            varint(p, &mut out);
        }
        None => out.push(0),
    }
    text(name, &mut out);
    text("target", &mut out);
    out.push(0);
    out
}

fn three(tag: u8, a: u64, b: u64, c: u64) -> Vec<u8> {
    let mut out = vec![tag];
    varint(a, &mut out);
    varint(b, &mut out);
    varint(c, &mut out);
    out
}

fn enter(ts: u64, id: u64, thread: u64) -> Vec<u8> {
    three(2, ts, id, thread)
}

fn exit(ts: u64, id: u64, thread: u64) -> Vec<u8> {
    three(3, ts, id, thread)
}

fn apply_all(reader: &mut TraceReader, store: &mut SpanStore) -> usize {
    let mut total = 0;
    while reader.has_pending() {
        total += reader.apply_batch(store);
    }
    total
}

#[test]
fn the_pacing_and_batching_constants() {
    assert_eq!(MAX_ROWS_PER_LOCK, 100 * 1024);
    assert_eq!(READ_CHUNK_SIZE, 1024 * 1024);
    assert_eq!(POLL_INTERVAL_MS, 100);
    assert_eq!(REOPEN_INTERVAL_MS, 500);
}

#[test]
fn a_new_reader_has_nothing_to_apply() {
    let mut reader = TraceReader::new();
    assert!(!reader.has_pending());
    assert_eq!(reader.feed(&[]), Outcome::NeedMore);
    assert!(!reader.has_pending());
    let mut store = SpanStore::new();
    assert_eq!(reader.apply_batch(&mut store), 0);
    assert_eq!(store.len(), 0);
}

#[test]
fn feed_decodes_complete_records_and_keeps_the_tail() {
    let mut bytes = start(0, 1, None, "a");
    bytes.extend(enter(10, 1, 1));
    let second = start(20, 2, Some(1), "b");
    let cut = 3;
    bytes.extend_from_slice(&second[..cut]);

    let mut reader = TraceReader::new();
    let mut store = SpanStore::new();
    assert_eq!(reader.feed(&bytes), Outcome::NeedMore);
    assert!(reader.has_pending());
    assert_eq!(reader.apply_batch(&mut store), 2);
    assert_eq!(store.len(), 1);
    assert!(!reader.has_pending());

    // the rest of the record arrives byte by byte
    for byte in &second[cut..second.len() - 1] {
        assert_eq!(reader.feed(&[*byte]), Outcome::NeedMore);
        assert!(!reader.has_pending());
    }
    assert_eq!(reader.feed(&second[second.len() - 1..]), Outcome::NeedMore);
    assert!(reader.has_pending());
    assert_eq!(reader.apply_batch(&mut store), 1);
    assert_eq!(store.len(), 2);
    assert_eq!(store.span(1).unwrap().name, "b");
    assert_eq!(store.span(1).unwrap().parent, Some(0));
    // a start does not interrupt the span that the thread is in
    assert!(store.span(0).unwrap().self_time.is_empty());
}

#[test]
fn simple_nest_through_the_reader() {
    let mut bytes = Vec::new();
    bytes.extend(start(0, 1, None, "a"));
    bytes.extend(enter(10, 1, 1));
    bytes.extend(start(20, 2, Some(1), "b"));
    bytes.extend(enter(30, 2, 1));
    bytes.extend(exit(40, 2, 1));
    bytes.extend(exit(50, 1, 1));
    let mut reader = TraceReader::new();
    let mut store = SpanStore::new();
    assert_eq!(reader.feed(&bytes), Outcome::NeedMore);
    assert_eq!(apply_all(&mut reader, &mut store), 6);
    let a = store.span(0).unwrap();
    let b = store.span(1).unwrap();
    assert_eq!((a.exclusive_time, a.inclusive_time), (30, 40));
    assert_eq!((b.exclusive_time, b.inclusive_time), (10, 10));
}

#[test]
fn batch_atomicity() {
    let mut bytes = Vec::new();
    bytes.extend(start(0, 1, None, "a"));
    bytes.extend(start(1, 2, None, "b"));
    bytes.extend(start(2, 3, Some(1), "c"));
    let mut reader = TraceReader::new();
    let mut store = SpanStore::new();
    assert_eq!(reader.feed(&bytes), Outcome::NeedMore);
    // decoding touches no span: a viewer that looks now sees none of the three
    assert_eq!(store.len(), 0);
    // one call, made while the write handle is held, brings all three
    assert_eq!(reader.apply_batch(&mut store), 3);
    assert_eq!(store.len(), 3);
    assert_eq!(store.roots(), &vec![0, 1]);
    assert_eq!(store.span(0).unwrap().child_count, 1);
    assert!(!reader.has_pending());
}

#[test]
fn a_batch_holds_at_most_the_limit_of_records() {
    let mut bytes = start(0, 1, None, "a");
    for i in 0..(MAX_ROWS_PER_LOCK as u64 + 10) {
        bytes.extend(if i % 2 == 0 { enter(i, 1, 1) } else { exit(i, 1, 1) });
    }
    let mut reader = TraceReader::new();
    let mut store = SpanStore::new();
    assert_eq!(reader.feed(&bytes), Outcome::NeedMore);
    assert_eq!(reader.apply_batch(&mut store), MAX_ROWS_PER_LOCK);
    assert!(reader.has_pending());
    // the first batch is complete in itself: its aggregates are computed
    let span = store.span(0).unwrap();
    assert_eq!(span.self_time.len() as u64, span.exclusive_time);
    assert_eq!(span.self_time.len(), (MAX_ROWS_PER_LOCK - 1) / 2);
    assert_eq!(reader.apply_batch(&mut store), 11);
    assert!(!reader.has_pending());
    assert_eq!(store.span(0).unwrap().exclusive_time, (MAX_ROWS_PER_LOCK as u64 + 10) / 2);
}

#[test]
fn the_decoded_part_of_the_buffer_is_dropped_when_space_runs_out() {
    let mut reader = TraceReader::new();
    let mut store = SpanStore::new();
    let first = start(0, 1, None, "first");
    let partial = start(1, 2, None, "second");
    let mut bytes = first.clone();
    bytes.extend_from_slice(&partial[..4]);
    assert_eq!(reader.feed(&bytes), Outcome::NeedMore);
    assert_eq!(apply_all(&mut reader, &mut store), 1);

    // a chunk far beyond any capacity the buffer can have by now
    let mut chunk = partial[4..].to_vec();
    let mut expected = 2;
    while chunk.len() < 4 * 1024 * 1024 {
        chunk.extend(start(expected, expected + 1, None, "more"));
        expected += 1;
    }
    assert_eq!(reader.feed(&chunk), Outcome::NeedMore);
    assert_eq!(apply_all(&mut reader, &mut store) as u64, expected - 1);
    assert_eq!(store.len() as u64, expected);
    assert_eq!(store.span(0).unwrap().name, "first");
    assert_eq!(store.span(1).unwrap().name, "second");
    assert_eq!(store.span(2).unwrap().name, "more");
    assert_eq!(store.span(store.len() - 1).unwrap().start, expected - 1);
}

#[test]
fn malformed_bytes_are_skipped_once() {
    let mut reader = TraceReader::new();
    let mut store = SpanStore::new();
    let mut bytes = start(0, 1, None, "kept");
    bytes.push(0x09);
    bytes.extend(start(1, 2, None, "lost with the bad byte"));
    assert_eq!(reader.feed(&bytes), Outcome::Skipped);
    // what was decoded before the bad bytes is applied
    assert_eq!(apply_all(&mut reader, &mut store), 1);
    assert_eq!(store.len(), 1);
    // nothing new: still waiting
    assert_eq!(reader.feed(&[]), Outcome::NeedMore);
    // a good record ends the incident
    assert_eq!(reader.feed(&start(2, 3, None, "after")), Outcome::NeedMore);
    assert_eq!(apply_all(&mut reader, &mut store), 1);
    assert_eq!(store.span(1).unwrap().name, "after");
    // and the next bad byte is again a first one
    assert_eq!(reader.feed(&[0x09]), Outcome::Skipped);
}

#[test]
fn malformed_bytes_that_persist_abort() {
    let mut reader = TraceReader::new();
    assert_eq!(reader.feed(&[0x2a, 0x00]), Outcome::Skipped);
    assert_eq!(reader.feed(&[0x2a, 0x00]), Outcome::Abort);
    // nothing moves any more
    assert_eq!(reader.feed(&[]), Outcome::Abort);
    assert!(!reader.has_pending());
}

#[test]
fn an_incomplete_record_after_a_skip_still_counts_as_the_retry() {
    let mut reader = TraceReader::new();
    let mut store = SpanStore::new();
    assert_eq!(reader.feed(&[0x63]), Outcome::Skipped);
    let record = start(0, 1, None, "a");
    assert_eq!(reader.feed(&record[..2]), Outcome::NeedMore);
    assert_eq!(reader.feed(&record[2..]), Outcome::NeedMore);
    assert_eq!(apply_all(&mut reader, &mut store), 1);
    assert_eq!(reader.feed(&[0x63]), Outcome::Skipped);
    assert_eq!(reader.feed(&[0x00, 0x00, 0x00, 0x02]), Outcome::Abort);
}

#[test]
fn truncation() {
    let mut store = SpanStore::new();
    let mut reader = TraceReader::new();
    let mut bytes = start(0, 1, None, "a");
    bytes.extend(enter(1, 1, 1));
    assert_eq!(reader.feed(&bytes), Outcome::NeedMore);
    apply_all(&mut reader, &mut store);
    assert_eq!(store.len(), 1);
    assert_eq!(store.generation(), 0);
    // the read fails: the reader is given up, the store is reset once
    reader.abandon(&mut store);
    assert_eq!(store.generation(), 1);
    assert_eq!(store.len(), 0);
    assert!(store.roots().is_empty());
    // the file opens again: a new reader starts from nothing
    let mut reader = TraceReader::new();
    assert!(!reader.has_pending());
    assert_eq!(reader.feed(&exit(5, 1, 1)), Outcome::NeedMore);
    assert_eq!(apply_all(&mut reader, &mut store), 1);
    // the exit waits: the old session's id 1 is not known here
    assert_eq!(store.len(), 0);
    assert_eq!(reader.feed(&start(6, 1, None, "b")), Outcome::NeedMore);
    apply_all(&mut reader, &mut store);
    assert_eq!(store.len(), 1);
    assert_eq!(store.span(0).unwrap().name, "b");
    assert!(store.span(0).unwrap().self_time.is_empty());
    assert_eq!(store.generation(), 1);
}

#[test]
fn a_file_that_shrank_is_read_by_a_new_reader_from_its_start() {
    let mut store = SpanStore::new();
    let mut reader = TraceReader::new();
    let long = start(0, 1, None, "a long first record with a long name");
    assert_eq!(reader.feed(&long[..long.len() - 1]), Outcome::NeedMore);
    // the file was replaced by a shorter one; the next open starts afresh
    reader.abandon(&mut store);
    let mut reader = TraceReader::new();
    assert_eq!(reader.feed(&start(0, 1, None, "b")), Outcome::NeedMore);
    assert_eq!(apply_all(&mut reader, &mut store), 1);
    assert_eq!(store.span(0).unwrap().name, "b");
}

#[test]
fn after_a_batch_no_span_is_outdated_and_every_aggregate_is_exact() {
    let mut reader = TraceReader::new();
    let mut store = SpanStore::new();
    let mut bytes = Vec::new();
    bytes.extend(start(0, 1, None, "root"));
    bytes.extend(start(0, 2, Some(1), "a"));
    bytes.extend(start(0, 3, Some(2), "b"));
    bytes.extend(enter(0, 1, 1));
    bytes.extend(enter(5, 2, 1));
    bytes.extend(enter(7, 3, 1));
    assert_eq!(reader.feed(&bytes), Outcome::NeedMore);
    apply_all(&mut reader, &mut store);
    let mut more = Vec::new();
    more.extend(exit(17, 3, 1));
    more.extend(exit(20, 2, 1));
    more.extend(exit(21, 1, 1));
    assert_eq!(reader.feed(&more), Outcome::NeedMore);
    apply_all(&mut reader, &mut store);
    for id in 0..store.len() {
        let span = store.span(id).unwrap();
        let own: u64 = span.self_time.iter().map(|(s, e)| e - s).sum();
        let below: u64 =
            span.children.iter().map(|c| store.span(*c).unwrap().inclusive_time).sum();
        assert_eq!(span.exclusive_time, own);
        assert_eq!(span.inclusive_time, own + below);
        assert_eq!(span.child_count, span.children.len());
    }
    assert_eq!(store.span(0).unwrap().inclusive_time, 21);
    assert_eq!(store.span(1).unwrap().inclusive_time, 15);
    assert_eq!(store.span(2).unwrap().inclusive_time, 10);
}

#[test]
fn a_read_that_brought_nothing_makes_the_caller_wait() {
    let mut reader = TraceReader::new();
    assert_eq!(
        reader.on_read(&[]),
        Step { outcome: Outcome::NeedMore, action: Action::Wait(100) }
    );
    // also in the middle of a record, and without touching what is buffered
    let record = start(0, 1, None, "a");
    assert_eq!(
        reader.on_read(&record[..3]),
        Step { outcome: Outcome::NeedMore, action: Action::Read }
    );
    assert_eq!(
        reader.on_read(&[]),
        Step { outcome: Outcome::NeedMore, action: Action::Wait(POLL_INTERVAL_MS) }
    );
    assert!(!reader.has_pending());
    assert_eq!(
        reader.on_read(&record[3..]),
        Step { outcome: Outcome::NeedMore, action: Action::Read }
    );
    assert!(reader.has_pending());
}

#[test]
fn a_read_leads_to_a_reset_only_when_the_bytes_stay_senseless() {
    let mut reader = TraceReader::new();
    let mut store = SpanStore::new();
    assert_eq!(
        reader.on_read(&start(0, 1, None, "a")),
        Step { outcome: Outcome::NeedMore, action: Action::Read }
    );
    assert_eq!(apply_all(&mut reader, &mut store), 1);
    assert_eq!(
        reader.on_read(&[0x6e]),
        Step { outcome: Outcome::Skipped, action: Action::Read }
    );
    // an empty read in between does not count as the second attempt
    assert_eq!(
        reader.on_read(&[]),
        Step { outcome: Outcome::NeedMore, action: Action::Wait(100) }
    );
    assert_eq!(
        reader.on_read(&[0x6e]),
        Step { outcome: Outcome::Abort, action: Action::Reset }
    );
    reader.abandon(&mut store);
    assert_eq!(store.generation(), 1);
    assert_eq!(store.len(), 0);
}
