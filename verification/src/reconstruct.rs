//! The reconstructor: the reader's transient state, and the function that
//! replays one record onto the store.

use std::collections::{HashMap, HashSet, VecDeque};
use vstd::prelude::*;
use vstd::std_specs::hash::group_hash_axioms;
use crate::replay::{
    awaiting, lemma_awaiting_push, lemma_awaiting_without, lemma_topmost, topmost, without, Replay,
    StateModel, ThreadTime,
};
use crate::row::{render_values, rows_view, values_view, RowModel, TraceRow, TraceValue};
use crate::span::SpanId;
use crate::store::SpanStore;

verus! {

broadcast use group_hash_axioms;

/// The key under which the open interval of `span` on `thread` is kept.
pub open spec fn interval_key(span: SpanId, thread: u64) -> u128 {
    (span as u128 * 0x1_0000_0000_0000_0000u128 + thread as u128) as u128
}

fn interval_key_of(span: SpanId, thread: u64) -> (key: u128)
    ensures
        key == interval_key(span, thread),
{
    (span as u128) * 0x1_0000_0000_0000_0000u128 + (thread as u128)
}

/// Different intervals have different keys.
proof fn lemma_interval_key_injective(s1: SpanId, t1: u64, s2: SpanId, t2: u64)
    ensures
        interval_key(s1, t1) == interval_key(s2, t2) <==> (s1 == s2 && t1 == t2),
{
}

/// The state of one reader session. It is made when the reader opens the
/// file and thrown away when the session ends.
pub struct ReaderState {
    /// The internal id of every producer id that is in use.
    active_ids: HashMap<u64, SpanId>,
    /// The records that wait, keyed by the producer id that they wait for.
    queued_rows: HashMap<u64, Vec<TraceRow>>,
    /// The spans whose aggregates the store has to recompute.
    outdated_spans: HashSet<SpanId>,
    /// Per thread, the spans it is in, outermost first.
    thread_stacks: HashMap<u64, Vec<SpanId>>,
    /// The start of every open interval, under the key of its span and
    /// thread.
    self_time_started: HashMap<u128, u64>,
    /// All waiting records in the order in which they came.
    queue_order: Ghost<Seq<(u64, RowModel)>>,
    /// Per thread, the time of the latest enter or exit.
    clocks: Ghost<Map<u64, u64>>,
    /// What every span was charged on every thread.
    thread_times: Ghost<Map<(SpanId, u64), ThreadTime>>,
}

impl View for ReaderState {
    type V = StateModel;

    closed spec fn view(&self) -> StateModel {
        StateModel {
            active_ids: self.active_ids@,
            queued: self.queue_order@,
            thread_stacks: self.thread_stacks@.map_values(|stack: Vec<SpanId>| stack@),
            self_time_started: Map::new(
                |k: (SpanId, u64)| self.self_time_started@.contains_key(interval_key(k.0, k.1)),
                |k: (SpanId, u64)| self.self_time_started@[interval_key(k.0, k.1)],
            ),
            outdated_spans: self.outdated_spans@,
            clocks: self.clocks@,
            thread_times: self.thread_times@,
        }
    }
}

impl ReaderState {
    /// The queues, keyed by the id that their records wait for, hold what the
    /// state's queue holds, in the same order.
    pub closed spec fn inv(&self) -> bool {
        forall|id: u64| #[trigger]
            awaiting(self.queue_order@, id) == if self.queued_rows@.contains_key(id) {
                rows_view(self.queued_rows@[id]@)
            } else {
                Seq::empty()
            }
    }

    /// The state of a reader that has seen nothing.
    pub fn new() -> (state: ReaderState)
        ensures
            state@ == StateModel::empty(),
            state.inv(),
    {
        let state = ReaderState {
            active_ids: HashMap::new(),
            queued_rows: HashMap::new(),
            outdated_spans: HashSet::new(),
            thread_stacks: HashMap::new(),
            self_time_started: HashMap::new(),
            queue_order: Ghost(Seq::empty()),
            clocks: Ghost(Map::empty()),
            thread_times: Ghost(Map::empty()),
        };
        assert(state@.thread_stacks =~= Map::empty());
        assert(state@.self_time_started =~= Map::empty());
        state
    }

    /// The internal id that the producer's id `id` stands for, while it is in
    /// use.
    pub fn active_id(&self, id: u64) -> (span: Option<SpanId>)
        ensures
            span is Some == self@.active_ids.contains_key(id),
            span matches Some(s) ==> s == self@.active_ids[id],
    {
        match self.active_ids.get(&id) {
            Some(span) => Some(*span),
            None => None,
        }
    }

    /// Puts `row` at the end of the queue of `id`.
    fn defer(&mut self, id: u64, row: TraceRow)
        requires
            old(self).inv(),
        ensures
            final(self).inv(),
            final(self)@ == (StateModel { queued: old(self)@.queued.push((id, row@)), ..old(self)@ }),
    {
        let ghost model = row@;
        let ghost order = self.queue_order@;
        let mut queue = match self.queued_rows.remove(&id) {
            Some(queue) => queue,
            None => Vec::new(),
        };
        assert(rows_view(queue@) =~= awaiting(order, id));
        queue.push(row);
        assert(rows_view(queue@) =~= awaiting(order, id).push(model));
        self.queued_rows.insert(id, queue);
        self.queue_order = Ghost(order.push((id, model)));
        proof {
            assert forall|other: u64| #[trigger]
                awaiting(self.queue_order@, other) == if self.queued_rows@.contains_key(other) {
                    rows_view(self.queued_rows@[other]@)
                } else {
                    Seq::empty()
                } by {
                lemma_awaiting_push(order, id, model, other);
                assert(awaiting(order, other) == if old(self).queued_rows@.contains_key(other) {
                    rows_view(old(self).queued_rows@[other]@)
                } else {
                    Seq::empty()
                });
            }
        }
    }

    /// Takes the records that wait for `id` out of the queue, in the order
    /// in which they came.
    fn take_queue(&mut self, id: u64) -> (rows: Vec<TraceRow>)
        requires
            old(self).inv(),
        ensures
            final(self).inv(),
            rows_view(rows@) == awaiting(old(self)@.queued, id),
            final(self)@ == (StateModel { queued: without(old(self)@.queued, id), ..old(self)@ }),
    {
        let ghost order = self.queue_order@;
        let rows = match self.queued_rows.remove(&id) {
            Some(rows) => rows,
            None => Vec::new(),
        };
        assert(rows_view(rows@) =~= awaiting(order, id));
        self.queue_order = Ghost(without(order, id));
        proof {
            assert forall|other: u64| #[trigger]
                awaiting(self.queue_order@, other) == if self.queued_rows@.contains_key(other) {
                    rows_view(self.queued_rows@[other]@)
                } else {
                    Seq::empty()
                } by {
                lemma_awaiting_without(order, id, other);
                assert(awaiting(order, other) == if old(self).queued_rows@.contains_key(other) {
                    rows_view(old(self).queued_rows@[other]@)
                } else {
                    Seq::empty()
                });
            }
        }
        rows
    }

    /// Notes that `span` became the innermost span of `thread` at `ts`.
    fn open_interval(&mut self, span: SpanId, thread: u64, ts: u64)
        requires
            old(self).inv(),
        ensures
            final(self).inv(),
            final(self)@ == (StateModel {
                self_time_started: old(self)@.self_time_started.insert((span, thread), ts),
                thread_times: old(self)@.thread_times.insert(
                    (span, thread),
                    old(self)@.thread_time(span, thread, ts),
                ),
                ..old(self)@
            }),
    {
        let key = interval_key_of(span, thread);
        self.self_time_started.insert(key, ts);
        self.thread_times = Ghost(
            self.thread_times@.insert((span, thread), old(self)@.thread_time(span, thread, ts)),
        );
        proof {
            assert forall|k: (SpanId, u64)|
                self@.self_time_started.contains_key(k) == old(self)@.self_time_started.insert(
                    (span, thread),
                    ts,
                ).contains_key(k) by {
                lemma_interval_key_injective(k.0, k.1, span, thread);
            }
            assert forall|k: (SpanId, u64)| #[trigger]
                self@.self_time_started.contains_key(k) implies self@.self_time_started[k]
                == old(self)@.self_time_started.insert((span, thread), ts)[k] by {
                lemma_interval_key_injective(k.0, k.1, span, thread);
            }
            assert(self@.self_time_started =~= old(self)@.self_time_started.insert(
                (span, thread),
                ts,
            ));
        }
    }

    /// Closes the open interval of `span` on `thread` at `ts`, if there is
    /// one, and adds it to the span's self time.
    fn close_interval(&mut self, store: &mut SpanStore, span: SpanId, thread: u64, ts: u64)
        requires
            old(self).inv(),
            old(store)@.wf(),
            old(self)@.self_time_started.contains_key((span, thread)) ==> old(store)@.contains(span),
        ensures
            final(self).inv(),
            Replay::of(final(store)@, final(self)@) == Replay::of(
                old(store)@,
                old(self)@,
            ).close_interval(span, thread, ts),
            final(store)@.wf(),
    {
        let key = interval_key_of(span, thread);
        match self.self_time_started.remove(&key) {
            Some(start) => {
                assert(old(self)@.self_time_started.contains_key((span, thread)));
                store.add_self_time(span, start, ts, &mut self.outdated_spans);
                self.thread_times = Ghost(
                    self.thread_times@.insert(
                        (span, thread),
                        old(self)@.charged(span, thread, start, ts),
                    ),
                );
                proof {
                    assert forall|k: (SpanId, u64)|
                        self@.self_time_started.contains_key(k)
                            == old(self)@.self_time_started.remove((span, thread)).contains_key(
                            k,
                        ) by {
                        lemma_interval_key_injective(k.0, k.1, span, thread);
                    }
                    assert(self@.self_time_started =~= old(self)@.self_time_started.remove(
                        (span, thread),
                    ));
                }
            },
            None => {
                assert(!old(self)@.self_time_started.contains_key((span, thread)));
                assert(self@.self_time_started =~= old(self)@.self_time_started);
            },
        }
    }

    /// The innermost span of `thread`, if it is in one.
    fn top_of(&self, thread: u64) -> (top: Option<SpanId>)
        ensures
            top == if self@.stack_of(thread).len() > 0 {
                Some(self@.stack_of(thread).last())
            } else {
                None
            },
    {
        match self.thread_stacks.get(&thread) {
            Some(stack) => {
                if stack.len() > 0 {
                    Some(stack[stack.len() - 1])
                } else {
                    None
                }
            },
            None => None,
        }
    }

    /// The position of the topmost occurrence of `span` in the stack of
    /// `thread`.
    fn find_in_stack(&self, thread: u64, span: SpanId) -> (found: Option<usize>)
        ensures
            topmost(self@.stack_of(thread), span) == match found {
                Some(k) => Some(k as int),
                None => None,
            },
    {
        match self.thread_stacks.get(&thread) {
            Some(stack) => topmost_index(stack, span),
            None => None,
        }
    }

    /// Notes that an enter or an exit is applied on `thread` at `ts`.
    fn tick(&mut self, thread: u64, ts: u64)
        requires
            old(self).inv(),
        ensures
            final(self).inv(),
            final(self)@ == (StateModel {
                clocks: old(self)@.clocks.insert(thread, ts),
                ..old(self)@
            }),
    {
        self.clocks = Ghost(self.clocks@.insert(thread, ts));
    }

    /// Takes the stack of `thread` out of the state.
    fn take_stack(&mut self, thread: u64) -> (stack: Vec<SpanId>)
        requires
            old(self).inv(),
        ensures
            final(self).inv(),
            stack@ == old(self)@.stack_of(thread),
            final(self)@ == (StateModel {
                thread_stacks: old(self)@.thread_stacks.remove(thread),
                ..old(self)@
            }),
    {
        let stack = match self.thread_stacks.remove(&thread) {
            Some(stack) => stack,
            None => Vec::new(),
        };
        assert(self@.thread_stacks =~= old(self)@.thread_stacks.remove(thread));
        stack
    }

    /// Makes `stack` the stack of `thread`.
    fn put_stack(&mut self, thread: u64, stack: Vec<SpanId>)
        requires
            old(self).inv(),
        ensures
            final(self).inv(),
            final(self)@ == (StateModel {
                thread_stacks: old(self)@.thread_stacks.insert(thread, stack@),
                ..old(self)@
            }),
    {
        self.thread_stacks.insert(thread, stack);
        assert(self@.thread_stacks =~= old(self)@.thread_stacks.insert(thread, stack@));
    }
}

impl Default for ReaderState {
    fn default() -> (state: ReaderState)
        ensures
            state@ == StateModel::empty(),
            state.inv(),
    {
        ReaderState::new()
    }
}

/// The position of the topmost occurrence of `id` in `stack`.
fn topmost_index(stack: &Vec<SpanId>, id: SpanId) -> (found: Option<usize>)
    ensures
        topmost(stack@, id) == match found {
            Some(k) => Some(k as int),
            None => None,
        },
{
    let mut k = stack.len();
    assert(stack@.subrange(0, k as int) =~= stack@);
    while k > 0
        invariant
            k <= stack.len(),
            topmost(stack@, id) == topmost(stack@.subrange(0, k as int), id),
        decreases k,
    {
        k -= 1;
        assert(stack@.subrange(0, k + 1).drop_last() =~= stack@.subrange(0, k as int));
        if stack[k] == id {
            return Some(k);
        }
    }
    None
}

/// What [`step`] does with a start.
fn step_start(
    store: &mut SpanStore,
    state: &mut ReaderState,
    ts: u64,
    id: u64,
    parent: Option<u64>,
    name: String,
    target: String,
    values: Vec<(String, TraceValue)>,
) -> (woken: Vec<TraceRow>)
    requires
        old(state).inv(),
        Replay::of(old(store)@, old(state)@).wf(),
    ensures
        final(state).inv(),
        (Replay::of(final(store)@, final(state)@), rows_view(woken@)) == Replay::of(
            old(store)@,
            old(state)@,
        ).step(
            (RowModel::Start {
                ts,
                id,
                parent,
                name: name@,
                target: target@,
                values: values_view(values@),
            }),
        ),
        Replay::of(final(store)@, final(state)@).wf(),
        parent matches Some(p) && !old(state)@.active_ids.contains_key(p) || old(store)@.spans.len()
            < usize::MAX,
{
    let ghost before = Replay::of(store@, state@);
    let ghost model = RowModel::Start {
        ts,
        id,
        parent,
        name: name@,
        target: target@,
        values: values_view(values@),
    };
    let resolved = match parent {
        Some(p) => match state.active_id(p) {
            Some(span) => Some(span),
            None => {
                state.defer(p, TraceRow::Start { ts, id, parent, name, target, values });
                proof {
                    before.lemma_step_wf(model);
                }
                let woken = Vec::new();
                assert(rows_view(woken@) =~= Seq::empty());
                return woken;
            },
        },
        None => None,
    };
    assert(resolved == before.resolve(parent));
    let rendered = render_values(&values);
    let span = store.add_span(resolved, ts, target, name, rendered, &mut state.outdated_spans);
    state.active_ids.insert(id, span);
    state.outdated_spans.insert(span);
    proof {
        assert(state@.thread_stacks =~= before.state.thread_stacks);
        assert(state@.self_time_started =~= before.state.self_time_started);
        assert(Replay::of(store@, state@) == before.apply(model));
        before.lemma_step_wf(model);
    }
    state.take_queue(id)
}

/// What [`step`] does with an enter.
fn step_enter(store: &mut SpanStore, state: &mut ReaderState, ts: u64, id: u64, thread_id: u64)
    requires
        old(state).inv(),
        Replay::of(old(store)@, old(state)@).wf(),
    ensures
        final(state).inv(),
        Replay::of(final(store)@, final(state)@) == Replay::of(old(store)@, old(state)@).apply(
            (RowModel::Enter { ts, id, thread_id }),
        ),
{
    let ghost before = Replay::of(store@, state@);
    match state.active_id(id) {
        None => {
            state.defer(id, TraceRow::Enter { ts, id, thread_id });
        },
        Some(span) => {
            let ghost stack_before = state@.stack_of(thread_id);
            state.tick(thread_id, ts);
            match state.top_of(thread_id) {
                Some(top) => {
                    assert(top == before.state.thread_stacks[thread_id][stack_before.len() - 1]);
                    state.close_interval(store, top, thread_id, ts);
                },
                None => {},
            }
            let mut stack = state.take_stack(thread_id);
            assert(stack@ == stack_before);
            stack.push(span);
            state.put_stack(thread_id, stack);
            state.open_interval(span, thread_id, ts);
            proof {
                let paused = if stack_before.len() > 0 {
                    before.tick(thread_id, ts).close_interval(stack_before.last(), thread_id, ts)
                } else {
                    before.tick(thread_id, ts)
                };
                assert(state@.thread_stacks =~= paused.state.thread_stacks.insert(
                    thread_id,
                    stack_before.push(span),
                ));
            }
        },
    }
}

/// What [`step`] does with an exit.
fn step_exit(store: &mut SpanStore, state: &mut ReaderState, ts: u64, id: u64, thread_id: u64)
    requires
        old(state).inv(),
        Replay::of(old(store)@, old(state)@).wf(),
    ensures
        final(state).inv(),
        Replay::of(final(store)@, final(state)@) == Replay::of(old(store)@, old(state)@).apply(
            (RowModel::Exit { ts, id, thread_id }),
        ),
{
    let ghost before = Replay::of(store@, state@);
    match state.active_id(id) {
        None => {
            state.defer(id, TraceRow::Exit { ts, id, thread_id });
        },
        Some(span) => {
            let ghost stack_before = state@.stack_of(thread_id);
            proof {
                lemma_topmost(stack_before, span);
            }
            state.tick(thread_id, ts);
            match state.find_in_stack(thread_id, span) {
                Some(k) => {
                    let mut stack = state.take_stack(thread_id);
                    stack.remove(k);
                    let below = if k > 0 {
                        Some(stack[stack.len() - 1])
                    } else {
                        None
                    };
                    state.put_stack(thread_id, stack);
                    proof {
                        assert(state@.thread_stacks =~= before.state.thread_stacks.insert(
                            thread_id,
                            stack_before.remove(k as int),
                        ));
                    }
                    match below {
                        Some(top) => {
                            state.open_interval(top, thread_id, ts);
                        },
                        None => {},
                    }
                    proof {
                        let left = before.tick(thread_id, ts).set_stack(
                            thread_id,
                            stack_before.remove(k as int),
                        );
                        let resumed = if k > 0 {
                            left.open_interval(stack_before.remove(k as int).last(), thread_id, ts)
                        } else {
                            left
                        };
                        assert(Replay::of(store@, state@) == resumed);
                        assert(before.waits_for(RowModel::Exit { ts, id, thread_id }) is None);
                        assert(topmost(stack_before, span) == Some(k as int));
                    }
                    state.close_interval(store, span, thread_id, ts);
                },
                None => {
                    assert(before.waits_for(RowModel::Exit { ts, id, thread_id }) is None);
                    assert(topmost(stack_before, span) is None);
                },
            }
        },
    }
}

/// What [`step`] does with an event.
fn step_event(
    store: &mut SpanStore,
    state: &mut ReaderState,
    ts: u64,
    parent: Option<u64>,
    values: Vec<(String, TraceValue)>,
)
    requires
        old(state).inv(),
        Replay::of(old(store)@, old(state)@).wf(),
    ensures
        final(state).inv(),
        Replay::of(final(store)@, final(state)@) == Replay::of(old(store)@, old(state)@).apply(
            (RowModel::Event { ts, parent, values: values_view(values@) }),
        ),
{
    let resolved = match parent {
        Some(p) => match state.active_id(p) {
            Some(span) => Some(span),
            None => {
                state.defer(p, TraceRow::Event { ts, parent, values });
                return ;
            },
        },
        None => None,
    };
    let rendered = render_values(&values);
    store.add_event(resolved, ts, rendered);
}

/// Applies `row`, or queues it when the id that it needs is not in use, and
/// hands back the records that it woke, in the order in which they came.
fn step(store: &mut SpanStore, state: &mut ReaderState, row: TraceRow) -> (woken: Vec<TraceRow>)
    requires
        old(state).inv(),
        Replay::of(old(store)@, old(state)@).wf(),
    ensures
        final(state).inv(),
        (Replay::of(final(store)@, final(state)@), rows_view(woken@)) == Replay::of(
            old(store)@,
            old(state)@,
        ).step(row@),
        Replay::of(final(store)@, final(state)@).wf(),
        Replay::of(old(store)@, old(state)@).wakes(row@) is Some ==> old(store)@.spans.len()
            < usize::MAX,
{
    let ghost before = Replay::of(store@, state@);
    let ghost model = row@;
    match row {
        TraceRow::Start { ts, id, parent, name, target, values } => {
            step_start(store, state, ts, id, parent, name, target, values)
        },
        TraceRow::End { ts, id } => {
            state.active_ids.remove(&id);
            proof {
                assert(state@.thread_stacks =~= before.state.thread_stacks);
                assert(state@.self_time_started =~= before.state.self_time_started);
                before.lemma_step_wf(model);
            }
            let woken = Vec::new();
            assert(rows_view(woken@) =~= Seq::empty());
            woken
        },
        TraceRow::Enter { ts, id, thread_id } => {
            step_enter(store, state, ts, id, thread_id);
            proof {
                before.lemma_step_wf(model);
            }
            let woken = Vec::new();
            assert(rows_view(woken@) =~= Seq::empty());
            woken
        },
        TraceRow::Exit { ts, id, thread_id } => {
            step_exit(store, state, ts, id, thread_id);
            proof {
                before.lemma_step_wf(model);
            }
            let woken = Vec::new();
            assert(rows_view(woken@) =~= Seq::empty());
            woken
        },
        TraceRow::Event { ts, parent, values } => {
            step_event(store, state, ts, parent, values);
            proof {
                before.lemma_step_wf(model);
            }
            let woken = Vec::new();
            assert(rows_view(woken@) =~= Seq::empty());
            woken
        },
    }
}

/// Replays one record onto the store.
///
/// A record that speaks of a producer id that is not in use waits in the
/// queue of that id. A start that is applied wakes the records that wait for
/// its id: they are replayed right after it, in the order in which they
/// came, each with what it wakes in turn.
pub fn process(store: &mut SpanStore, state: &mut ReaderState, row: TraceRow)
    requires
        old(state).inv(),
        Replay::of(old(store)@, old(state)@).wf(),
    ensures
        final(state).inv(),
        Replay::of(final(store)@, final(state)@) == Replay::of(old(store)@, old(state)@).process(
            row@,
        ),
        Replay::of(final(store)@, final(state)@).wf(),
        Replay::of(old(store)@, old(state)@).has_room(seq![row@]),
        old(store)@.kept_by(final(store)@),
{
    let ghost start = Replay::of(store@, state@);
    let ghost first = row@;
    let mut work: VecDeque<TraceRow> = VecDeque::new();
    work.push_back(row);
    assert(rows_view(work@) =~= seq![first]);
    while work.len() > 0
        invariant
            state.inv(),
            Replay::of(store@, state@).wf(),
            Replay::of(store@, state@).run(rows_view(work@)) == start.run(seq![first]),
            Replay::of(store@, state@).has_room(rows_view(work@)) ==> start.has_room(seq![first]),
        decreases state@.queued.len() + work@.len(), work@.len(),
    {
        let ghost here = Replay::of(store@, state@);
        let ghost todo = rows_view(work@);
        if let Some(next) = work.pop_front() {
            let ghost rest = rows_view(work@);
            assert(rest =~= todo.skip(1));
            assert(next@ == todo[0]);
            let mut woken = step(store, state, next);
            let ghost woken_rows = rows_view(woken@);
            proof {
                here.lemma_step_wf(todo[0]);
            }
            while woken.len() > 0
                invariant
                    rows_view(woken@) + rows_view(work@) =~= woken_rows + rest,
                decreases woken.len(),
            {
                let ghost waiting = rows_view(woken@);
                let ghost ahead = rows_view(work@);
                if let Some(last) = woken.pop() {
                    work.push_front(last);
                    assert(rows_view(woken@) =~= waiting.drop_last());
                    assert(rows_view(work@) =~= seq![last@] + ahead);
                    assert(rows_view(woken@) + rows_view(work@) =~= waiting + ahead);
                }
            }
            assert(rows_view(woken@) =~= Seq::empty());
            assert(rows_view(work@) =~= woken_rows + rest);
        }
    }
    assert(rows_view(work@) =~= Seq::empty());
    proof {
        start.lemma_run_keeps_spans(seq![first]);
    }
}

impl ReaderState {
    /// Ends a batch: the store recomputes the aggregates of the outdated
    /// spans and of their ancestors, and no span is outdated any more.
    pub fn drain_outdated(&mut self, store: &mut SpanStore)
        requires
            old(self).inv(),
            Replay::of(old(store)@, old(self)@).wf(),
        ensures
            final(self).inv(),
            Replay::of(final(store)@, final(self)@) == Replay::of(old(store)@, old(self)@).settle(),
            Replay::of(final(store)@, final(self)@).wf(),
            final(self)@.outdated_spans.is_empty(),
            old(store)@.kept_by(final(store)@),
            final(store)@.spans.len() == old(store)@.spans.len(),
    {
        store.invalidate_outdated_spans(&self.outdated_spans);
        self.outdated_spans.clear();
        proof {
            let before = Replay::of(old(store)@, old(self)@);
            let after = Replay::of(store@, self@);
            old(store)@.lemma_refresh_from_keeps(old(self)@.outdated_spans, 0);
            assert(self@.thread_stacks =~= old(self)@.thread_stacks);
            assert(self@.self_time_started =~= old(self)@.self_time_started);
            assert(after == before.settle());
            before.lemma_settle_wf();
        }
    }

    /// The spans that `thread` is in, outermost first.
    pub fn stack(&self, thread: u64) -> (stack: Vec<SpanId>)
        ensures
            stack@ == self@.stack_of(thread),
    {
        match self.thread_stacks.get(&thread) {
            Some(stack) => stack.clone(),
            None => Vec::new(),
        }
    }

    /// The time at which `span` last became the innermost span of `thread`,
    /// while that interval is open.
    pub fn started_at(&self, span: SpanId, thread: u64) -> (ts: Option<u64>)
        ensures
            ts is Some == self@.self_time_started.contains_key((span, thread)),
            ts matches Some(t) ==> t == self@.self_time_started[(span, thread)],
    {
        let key = interval_key_of(span, thread);
        match self.self_time_started.get(&key) {
            Some(ts) => Some(*ts),
            None => None,
        }
    }

    /// Number of records that wait for the producer id `id`.
    pub fn queued_for(&self, id: u64) -> (count: usize)
        requires
            self.inv(),
        ensures
            count == awaiting(self@.queued, id).len(),
    {
        match self.queued_rows.get(&id) {
            Some(queue) => queue.len(),
            None => 0,
        }
    }

    /// Whether the aggregates of `span` wait to be recomputed.
    pub fn is_outdated(&self, span: SpanId) -> (outdated: bool)
        ensures
            outdated == self@.outdated_spans.contains(span),
    {
        self.outdated_spans.contains(&span)
    }
}

} // verus!
