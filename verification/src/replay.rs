//! The reconstruction of spans from records, as a function on mathematical
//! values: what each record does to the store and to the reader's state.

use vstd::prelude::*;
use crate::row::{render_all, RowModel};
use crate::span::SpanId;
use crate::store::StoreModel;

verus! {

/// What one span was charged on one thread.
pub struct ThreadTime {
    /// The time at which the thread first went into the span.
    pub first_enter: u64,
    /// The intervals that were closed for the span on the thread, oldest
    /// first.
    pub closed: Seq<(u64, u64)>,
}

/// What a reader's state holds.
pub struct StateModel {
    /// The internal id of every producer id that is in use.
    pub active_ids: Map<u64, SpanId>,
    /// The records that wait, in arrival order, each with the producer id
    /// that it waits for.
    pub queued: Seq<(u64, RowModel)>,
    /// Per thread, the spans it is in, outermost first.
    pub thread_stacks: Map<u64, Seq<SpanId>>,
    /// For a span and a thread, the time at which the span last became the
    /// innermost span of that thread, while that interval is open.
    pub self_time_started: Map<(SpanId, u64), u64>,
    /// The spans whose cached aggregates have to be recomputed.
    pub outdated_spans: Set<SpanId>,
    /// Per thread, the time of the latest enter or exit that was applied on
    /// it. Kept for reasoning only.
    pub clocks: Map<u64, u64>,
    /// For a span and a thread, what the span was charged on that thread.
    /// Kept for reasoning only.
    pub thread_times: Map<(SpanId, u64), ThreadTime>,
}

impl StateModel {
    /// The state of a reader that has seen nothing.
    pub open spec fn empty() -> StateModel {
        StateModel {
            active_ids: Map::empty(),
            queued: Seq::empty(),
            thread_stacks: Map::empty(),
            self_time_started: Map::empty(),
            outdated_spans: Set::empty(),
            clocks: Map::empty(),
            thread_times: Map::empty(),
        }
    }

    /// What `span` was charged on `thread` so far; when the thread was never
    /// in the span, nothing, counted from `now`.
    pub open spec fn thread_time(self, span: SpanId, thread: u64, now: u64) -> ThreadTime {
        if self.thread_times.contains_key((span, thread)) {
            self.thread_times[(span, thread)]
        } else {
            ThreadTime { first_enter: now, closed: Seq::empty() }
        }
    }

    /// What `span` was charged on `thread`, with the interval from `start`
    /// to `end` added.
    pub open spec fn charged(self, span: SpanId, thread: u64, start: u64, end: u64) -> ThreadTime {
        ThreadTime {
            closed: self.thread_time(span, thread, start).closed.push((start, end)),
            ..self.thread_time(span, thread, start)
        }
    }

    /// The spans that `thread` is in, outermost first.
    pub open spec fn stack_of(self, thread: u64) -> Seq<SpanId> {
        if self.thread_stacks.contains_key(thread) {
            self.thread_stacks[thread]
        } else {
            Seq::empty()
        }
    }
}

/// The records in `queued` that wait for `id`, in arrival order.
pub open spec fn awaiting(queued: Seq<(u64, RowModel)>, id: u64) -> Seq<RowModel>
    decreases queued.len(),
{
    if queued.len() == 0 {
        Seq::empty()
    } else if queued.last().0 == id {
        awaiting(queued.drop_last(), id).push(queued.last().1)
    } else {
        awaiting(queued.drop_last(), id)
    }
}

/// `queued` without the records that wait for `id`.
pub open spec fn without(queued: Seq<(u64, RowModel)>, id: u64) -> Seq<(u64, RowModel)>
    decreases queued.len(),
{
    if queued.len() == 0 {
        Seq::empty()
    } else if queued.last().0 == id {
        without(queued.drop_last(), id)
    } else {
        without(queued.drop_last(), id).push(queued.last())
    }
}

/// The position of the topmost occurrence of `id` in `stack`.
pub open spec fn topmost(stack: Seq<SpanId>, id: SpanId) -> Option<int>
    decreases stack.len(),
{
    if stack.len() == 0 {
        None
    } else if stack.last() == id {
        Some(stack.len() - 1)
    } else {
        topmost(stack.drop_last(), id)
    }
}

/// The producer id that `row` speaks of and that must be in use before the
/// row can be applied: the parent of a start or an event, the subject of an
/// enter or an exit.
pub open spec fn needs(row: RowModel) -> Option<u64> {
    match row {
        RowModel::Start { parent, .. } => parent,
        RowModel::End { .. } => None,
        RowModel::Enter { id, .. } => Some(id),
        RowModel::Exit { id, .. } => Some(id),
        RowModel::Event { parent, .. } => parent,
    }
}

/// Taking the rows that wait for `id` out of a queue splits it in two.
pub proof fn lemma_split_queue(queued: Seq<(u64, RowModel)>, id: u64)
    ensures
        without(queued, id).len() + awaiting(queued, id).len() == queued.len(),
    decreases queued.len(),
{
    if queued.len() > 0 {
        lemma_split_queue(queued.drop_last(), id);
    }
}

/// A store together with the state of the reader that fills it.
pub struct Replay {
    pub store: StoreModel,
    pub state: StateModel,
}

impl Replay {
    /// A store and a reader's state, taken together.
    pub open spec fn of(store: StoreModel, state: StateModel) -> Replay {
        Replay { store, state }
    }

    /// An empty store in generation `generation`, and a reader that has seen
    /// nothing.
    pub open spec fn fresh(generation: u64) -> Replay {
        Replay { store: StoreModel::empty(generation), state: StateModel::empty() }
    }

    /// Every internal id that the reader holds names a span of the store,
    /// and every record in the queue waits for the id that it needs.
    pub open spec fn wf(self) -> bool {
        &&& self.store.wf()
        &&& forall|id: u64| #[trigger]
            self.state.active_ids.contains_key(id) ==> self.store.contains(self.state.active_ids[id])
        &&& forall|thread: u64, k: int|
            self.state.thread_stacks.contains_key(thread) && 0 <= k
                < self.state.thread_stacks[thread].len() ==> self.store.contains(
                #[trigger] self.state.thread_stacks[thread][k],
            )
        &&& forall|span: SpanId, thread: u64| #[trigger]
            self.state.self_time_started.contains_key((span, thread)) ==> self.store.contains(span)
        &&& forall|span: SpanId| #[trigger]
            self.state.outdated_spans.contains(span) ==> self.store.contains(span)
        &&& forall|k: int|
            0 <= k < self.state.queued.len() ==> needs((#[trigger] self.state.queued[k]).1) == Some(
                self.state.queued[k].0,
            )
    }

    /// The producer id that `row` has to wait for, if it cannot be applied
    /// now.
    pub open spec fn waits_for(self, row: RowModel) -> Option<u64> {
        match needs(row) {
            Some(id) => if self.state.active_ids.contains_key(id) {
                None
            } else {
                Some(id)
            },
            None => None,
        }
    }

    /// The internal id that a producer's parent id stands for.
    pub open spec fn resolve(self, parent: Option<u64>) -> Option<SpanId> {
        match parent {
            Some(p) => Some(self.state.active_ids[p]),
            None => None,
        }
    }

    /// `row` is put at the end of the queue, to wait for `id`.
    pub open spec fn defer(self, id: u64, row: RowModel) -> Replay {
        Replay { state: StateModel { queued: self.state.queued.push((id, row)), ..self.state }, ..self }
    }

    /// `span` becomes the innermost span of `thread` at `ts`.
    pub open spec fn open_interval(self, span: SpanId, thread: u64, ts: u64) -> Replay {
        Replay {
            state: StateModel {
                self_time_started: self.state.self_time_started.insert((span, thread), ts),
                thread_times: self.state.thread_times.insert(
                    (span, thread),
                    self.state.thread_time(span, thread, ts),
                ),
                ..self.state
            },
            ..self
        }
    }

    /// An enter or an exit is applied on `thread` at `ts`.
    pub open spec fn tick(self, thread: u64, ts: u64) -> Replay {
        Replay { state: StateModel { clocks: self.state.clocks.insert(thread, ts), ..self.state }, ..self }
    }

    /// `span` stops being the innermost span of `thread` at `ts`: if it has
    /// an open interval there, the interval is closed, added to the span's
    /// self time, and the span becomes outdated.
    pub open spec fn close_interval(self, span: SpanId, thread: u64, ts: u64) -> Replay {
        if self.state.self_time_started.contains_key((span, thread)) {
            Replay {
                store: self.store.add_self_time(
                    span,
                    self.state.self_time_started[(span, thread)],
                    ts,
                ),
                state: StateModel {
                    self_time_started: self.state.self_time_started.remove((span, thread)),
                    outdated_spans: self.state.outdated_spans.insert(span),
                    thread_times: self.state.thread_times.insert(
                        (span, thread),
                        self.state.charged(span, thread, self.state.self_time_started[(span, thread)], ts),
                    ),
                    ..self.state
                },
            }
        } else {
            self
        }
    }

    /// The stack of `thread` becomes `stack`.
    pub open spec fn set_stack(self, thread: u64, stack: Seq<SpanId>) -> Replay {
        Replay {
            state: StateModel {
                thread_stacks: self.state.thread_stacks.insert(thread, stack),
                ..self.state
            },
            ..self
        }
    }

    /// What `row` does when the id that it needs is in use.
    pub open spec fn apply_ready(self, row: RowModel) -> Replay {
        match row {
            RowModel::Start { ts, id, parent, name, target, values } => {
                let span = self.store.spans.len() as usize;
                let outdated = match self.resolve(parent) {
                    Some(p) => self.state.outdated_spans.insert(p),
                    None => self.state.outdated_spans,
                };
                Replay {
                    store: self.store.add_span(
                        self.resolve(parent),
                        ts,
                        target,
                        name,
                        render_all(values),
                    ),
                    state: StateModel {
                        active_ids: self.state.active_ids.insert(id, span),
                        outdated_spans: outdated.insert(span),
                        ..self.state
                    },
                }
            },
            RowModel::End { ts, id } => Replay {
                state: StateModel { active_ids: self.state.active_ids.remove(id), ..self.state },
                ..self
            },
            RowModel::Enter { ts, id, thread_id } => {
                let span = self.state.active_ids[id];
                let stack = self.state.stack_of(thread_id);
                let paused = if stack.len() > 0 {
                    self.tick(thread_id, ts).close_interval(stack.last(), thread_id, ts)
                } else {
                    self.tick(thread_id, ts)
                };
                paused.set_stack(thread_id, stack.push(span)).open_interval(span, thread_id, ts)
            },
            RowModel::Exit { ts, id, thread_id } => {
                let span = self.state.active_ids[id];
                let stack = self.state.stack_of(thread_id);
                match topmost(stack, span) {
                    Some(k) => {
                        let left = self.tick(thread_id, ts).set_stack(thread_id, stack.remove(k));
                        let resumed = if k > 0 {
                            left.open_interval(stack.remove(k).last(), thread_id, ts)
                        } else {
                            left
                        };
                        resumed.close_interval(span, thread_id, ts)
                    },
                    None => self.tick(thread_id, ts),
                }
            },
            RowModel::Event { ts, parent, values } => Replay {
                store: self.store.add_event(self.resolve(parent), ts, render_all(values)),
                ..self
            },
        }
    }

    /// What `row` does by itself: it is applied, or put into the queue when
    /// the id that it needs is not in use.
    pub open spec fn apply(self, row: RowModel) -> Replay {
        match self.waits_for(row) {
            Some(id) => self.defer(id, row),
            None => self.apply_ready(row),
        }
    }

    /// The producer id whose waiting records `row` wakes: its own, when it is
    /// a start that is applied.
    pub open spec fn wakes(self, row: RowModel) -> Option<u64> {
        match row {
            RowModel::Start { id, .. } => if self.waits_for(row) is None {
                Some(id)
            } else {
                None
            },
            _ => None,
        }
    }

    /// The records that wait for `id` leave the queue.
    pub open spec fn take_queue(self, id: u64) -> Replay {
        Replay { state: StateModel { queued: without(self.state.queued, id), ..self.state }, ..self }
    }

    /// One step: `row` is applied or queued, and the records that it wakes
    /// leave the queue and are handed back in the order in which they came.
    pub open spec fn step(self, row: RowModel) -> (Replay, Seq<RowModel>) {
        match self.wakes(row) {
            Some(id) => (self.apply(row).take_queue(id), awaiting(self.apply(row).state.queued, id)),
            None => (self.apply(row), Seq::empty()),
        }
    }

    /// The records of `work` are processed in order; the records that one of
    /// them wakes are processed right after it, before the rest.
    pub open spec fn run(self, work: Seq<RowModel>) -> Replay
        decreases self.state.queued.len() + work.len(), work.len(),
    {
        if work.len() == 0 {
            self
        } else {
            proof {
                lemma_split_queue(self.state.queued, work[0]->Start_id);
            }
            self.step(work[0]).0.run(self.step(work[0]).1 + work.skip(1))
        }
    }

    /// Whether the store has room for every span that `work` makes: there
    /// are no more spans than the machine can count.
    pub open spec fn has_room(self, work: Seq<RowModel>) -> bool
        decreases self.state.queued.len() + work.len(), work.len(),
    {
        if work.len() == 0 {
            true
        } else {
            proof {
                lemma_split_queue(self.state.queued, work[0]->Start_id);
            }
            (self.wakes(work[0]) is Some ==> self.store.spans.len() < usize::MAX) && self.step(
                work[0],
            ).0.has_room(self.step(work[0]).1 + work.skip(1))
        }
    }

    /// What processing one record does, with everything that it wakes.
    pub open spec fn process(self, row: RowModel) -> Replay {
        self.run(seq![row])
    }

    /// The records of `rows` are processed one after the other.
    pub open spec fn process_all(self, rows: Seq<RowModel>) -> Replay
        decreases rows.len(),
    {
        if rows.len() == 0 {
            self
        } else {
            self.process_all(rows.drop_last()).process(rows.last())
        }
    }

    /// The end of a batch: the aggregates of the outdated spans and of their
    /// ancestors are recomputed, and no span is outdated any more.
    pub open spec fn settle(self) -> Replay {
        Replay {
            store: self.store.invalidate(self.state.outdated_spans),
            state: StateModel { outdated_spans: Set::empty(), ..self.state },
        }
    }
}

/// Appending a record to a queue appends it to the records that wait for
/// its id, and to no others.
pub proof fn lemma_awaiting_push(queued: Seq<(u64, RowModel)>, id: u64, row: RowModel, other: u64)
    ensures
        awaiting(queued.push((id, row)), other) == if other == id {
            awaiting(queued, other).push(row)
        } else {
            awaiting(queued, other)
        },
{
    assert(queued.push((id, row)).drop_last() =~= queued);
}

/// Once the records that wait for `id` have left a queue, none waits for
/// `id`, and those that wait for another id are the same as before.
pub proof fn lemma_awaiting_without(queued: Seq<(u64, RowModel)>, id: u64, other: u64)
    ensures
        awaiting(without(queued, id), other) == if other == id {
            Seq::empty()
        } else {
            awaiting(queued, other)
        },
    decreases queued.len(),
{
    if queued.len() > 0 {
        lemma_awaiting_without(queued.drop_last(), id, other);
        if queued.last().0 != id {
            lemma_awaiting_push(without(queued.drop_last(), id), queued.last().0, queued.last().1, other);
        }
    }
}

/// Every record that stays in a queue was in it before, and none of those
/// that stay waits for `id`.
pub proof fn lemma_without_members(queued: Seq<(u64, RowModel)>, id: u64)
    ensures
        forall|k: int|
            0 <= k < without(queued, id).len() ==> queued.contains(#[trigger] without(queued, id)[k])
                && without(queued, id)[k].0 != id,
    decreases queued.len(),
{
    if queued.len() > 0 {
        lemma_without_members(queued.drop_last(), id);
        assert forall|k: int| 0 <= k < without(queued, id).len() implies queued.contains(
            #[trigger] without(queued, id)[k],
        ) && without(queued, id)[k].0 != id by {
            if k < without(queued.drop_last(), id).len() {
                let e = without(queued.drop_last(), id)[k];
                let j = choose|j: int| 0 <= j < queued.drop_last().len() && queued.drop_last()[j] == e;
                assert(queued[j] == e);
            } else {
                assert(queued[queued.len() - 1] == queued.last());
            }
        }
    }
}

/// Every record that waits for `id` in a queue is one of its records.
pub proof fn lemma_awaiting_members(queued: Seq<(u64, RowModel)>, id: u64)
    ensures
        forall|k: int|
            0 <= k < awaiting(queued, id).len() ==> queued.contains(
                (id, #[trigger] awaiting(queued, id)[k]),
            ),
    decreases queued.len(),
{
    if queued.len() > 0 {
        lemma_awaiting_members(queued.drop_last(), id);
        assert forall|k: int| 0 <= k < awaiting(queued, id).len() implies queued.contains(
            (id, #[trigger] awaiting(queued, id)[k]),
        ) by {
            if k < awaiting(queued.drop_last(), id).len() {
                let e = (id, awaiting(queued.drop_last(), id)[k]);
                let j = choose|j: int| 0 <= j < queued.drop_last().len() && queued.drop_last()[j] == e;
                assert(queued[j] == e);
            } else {
                assert(queued[queued.len() - 1] == queued.last());
            }
        }
    }
}

/// The topmost occurrence of `id` in a stack is a position of the stack
/// that holds `id`, and nothing above it does.
pub proof fn lemma_topmost(stack: Seq<SpanId>, id: SpanId)
    ensures
        match topmost(stack, id) {
            Some(k) => 0 <= k < stack.len() && stack[k] == id && forall|j: int|
                k < j < stack.len() ==> stack[j] != id,
            None => forall|j: int| 0 <= j < stack.len() ==> stack[j] != id,
        },
    decreases stack.len(),
{
    if stack.len() > 0 {
        lemma_topmost(stack.drop_last(), id);
        assert forall|j: int| 0 <= j < stack.len() - 1 implies stack[j] == stack.drop_last()[j] by {}
    }
}

impl Replay {
    /// Closing an interval keeps the ids valid.
    pub proof fn lemma_close_interval_wf(self, span: SpanId, thread: u64, ts: u64)
        requires
            self.wf(),
        ensures
            self.close_interval(span, thread, ts).wf(),
            self.close_interval(span, thread, ts).store.spans.len() == self.store.spans.len(),
    {
        if self.state.self_time_started.contains_key((span, thread)) {
            let after = self.close_interval(span, thread, ts);
            crate::store::lemma_same_links_wf(self.store, after.store);
            assert forall|s: SpanId, t: u64| #[trigger]
                after.state.self_time_started.contains_key((s, t)) implies after.store.contains(s) by {
                assert(self.state.self_time_started.contains_key((s, t)));
            }
        }
    }

    /// Applying a record whose needs are met keeps the ids valid.
    pub proof fn lemma_apply_ready_wf(self, row: RowModel)
        requires
            self.wf(),
            self.waits_for(row) is None,
            row is Start ==> self.store.spans.len() < usize::MAX,
        ensures
            self.apply_ready(row).wf(),
            self.apply_ready(row).state.queued == self.state.queued,
            self.apply_ready(row).store.spans.len() == self.store.spans.len() + (if row is Start {
                1int
            } else {
                0int
            }),
    {
        let after = self.apply_ready(row);
        match row {
            RowModel::Start { ts, id, parent, name, target, values } => {
                crate::store::lemma_add_span_wf(
                    self.store,
                    self.resolve(parent),
                    ts,
                    target,
                    name,
                    render_all(values),
                );
                assert(after.store.spans.len() == self.store.spans.len() + 1);
                assert forall|thread: u64, k: int|
                    after.state.thread_stacks.contains_key(thread) && 0 <= k
                        < after.state.thread_stacks[thread].len() implies after.store.contains(
                    #[trigger] after.state.thread_stacks[thread][k],
                ) by {
                    assert(self.store.contains(self.state.thread_stacks[thread][k]));
                }
                assert forall|s: SpanId, t: u64| #[trigger]
                    after.state.self_time_started.contains_key((s, t)) implies after.store.contains(
                    s,
                ) by {
                    assert(self.store.contains(s));
                }
            },
            RowModel::End { ts, id } => {},
            RowModel::Enter { ts, id, thread_id } => {
                let span = self.state.active_ids[id];
                let stack = self.state.stack_of(thread_id);
                let ticked = self.tick(thread_id, ts);
                assert(ticked.wf());
                let paused = if stack.len() > 0 {
                    ticked.close_interval(stack.last(), thread_id, ts)
                } else {
                    ticked
                };
                if stack.len() > 0 {
                    ticked.lemma_close_interval_wf(stack.last(), thread_id, ts);
                }
                assert(paused.wf());
                assert forall|thread: u64, k: int|
                    after.state.thread_stacks.contains_key(thread) && 0 <= k
                        < after.state.thread_stacks[thread].len() implies after.store.contains(
                    #[trigger] after.state.thread_stacks[thread][k],
                ) by {
                    if thread == thread_id {
                        if k < stack.len() {
                            assert(self.state.thread_stacks[thread][k] == stack[k]);
                        }
                    } else {
                        assert(paused.state.thread_stacks[thread][k]
                            == after.state.thread_stacks[thread][k]);
                    }
                }
                assert forall|s: SpanId, t: u64| #[trigger]
                    after.state.self_time_started.contains_key((s, t)) implies after.store.contains(
                    s,
                ) by {
                    if (s, t) != (span, thread_id) {
                        assert(paused.state.self_time_started.contains_key((s, t)));
                    }
                }
            },
            RowModel::Exit { ts, id, thread_id } => {
                let span = self.state.active_ids[id];
                let stack = self.state.stack_of(thread_id);
                lemma_topmost(stack, span);
                match topmost(stack, span) {
                    Some(k) => {
                        let rest = stack.remove(k);
                        let left = self.tick(thread_id, ts).set_stack(thread_id, rest);
                        assert forall|thread: u64, j: int|
                            left.state.thread_stacks.contains_key(thread) && 0 <= j
                                < left.state.thread_stacks[thread].len() implies left.store.contains(
                            #[trigger] left.state.thread_stacks[thread][j],
                        ) by {
                            if thread == thread_id {
                                if j < k {
                                    assert(rest[j] == self.state.thread_stacks[thread][j]);
                                } else {
                                    assert(rest[j] == self.state.thread_stacks[thread][j + 1]);
                                }
                            } else {
                                assert(self.state.thread_stacks[thread][j]
                                    == left.state.thread_stacks[thread][j]);
                            }
                        }
                        assert(left.wf());
                        let resumed = if k > 0 {
                            left.open_interval(rest.last(), thread_id, ts)
                        } else {
                            left
                        };
                        if k > 0 {
                            assert(rest.last() == left.state.thread_stacks[thread_id][rest.len() - 1]);
                            assert forall|s: SpanId, t: u64| #[trigger]
                                resumed.state.self_time_started.contains_key(
                                    (s, t),
                                ) implies resumed.store.contains(s) by {
                                if (s, t) != (rest.last(), thread_id) {
                                    assert(left.state.self_time_started.contains_key((s, t)));
                                }
                            }
                        }
                        assert(resumed.wf());
                        resumed.lemma_close_interval_wf(span, thread_id, ts);
                    },
                    None => {},
                }
            },
            RowModel::Event { ts, parent, values } => {
                crate::store::lemma_same_links_wf(self.store, after.store);
            },
        }
    }

    /// One step keeps the ids valid, and every record that it wakes needs
    /// the id of the start that woke it.
    pub proof fn lemma_step_wf(self, row: RowModel)
        requires
            self.wf(),
            self.wakes(row) is Some ==> self.store.spans.len() < usize::MAX,
        ensures
            self.step(row).0.wf(),
            forall|k: int|
                0 <= k < self.step(row).1.len() ==> needs(#[trigger] self.step(row).1[k])
                    == self.wakes(row),
            self.step(row).0.state.queued.len() + self.step(row).1.len() == self.state.queued.len()
                + (if self.waits_for(row) is Some {
                1int
            } else {
                0int
            }),
    {
        match self.waits_for(row) {
            Some(id) => {
                let after = self.defer(id, row);
                assert forall|k: int| 0 <= k < after.state.queued.len() implies needs(
                    (#[trigger] after.state.queued[k]).1,
                ) == Some(after.state.queued[k].0) by {
                    if k < self.state.queued.len() {
                        assert(after.state.queued[k] == self.state.queued[k]);
                    }
                }
            },
            None => {
                self.lemma_apply_ready_wf(row);
                let applied = self.apply(row);
                match self.wakes(row) {
                    Some(id) => {
                        let queued = applied.state.queued;
                        lemma_split_queue(queued, id);
                        lemma_without_members(queued, id);
                        lemma_awaiting_members(queued, id);
                        let after = applied.take_queue(id);
                        assert forall|k: int| 0 <= k < after.state.queued.len() implies needs(
                            (#[trigger] after.state.queued[k]).1,
                        ) == Some(after.state.queued[k].0) by {
                            let e = without(queued, id)[k];
                            let j = choose|j: int| 0 <= j < queued.len() && queued[j] == e;
                            assert(needs(queued[j].1) == Some(queued[j].0));
                        }
                        assert forall|k: int| 0 <= k < self.step(row).1.len() implies needs(
                            #[trigger] self.step(row).1[k],
                        ) == self.wakes(row) by {
                            let e = (id, awaiting(queued, id)[k]);
                            let j = choose|j: int| 0 <= j < queued.len() && queued[j] == e;
                            assert(needs(queued[j].1) == Some(queued[j].0));
                        }
                    },
                    None => {},
                }
            },
        }
    }

    /// The end of a batch keeps the ids valid.
    pub proof fn lemma_settle_wf(self)
        requires
            self.wf(),
        ensures
            self.settle().wf(),
            self.settle().store.spans.len() == self.store.spans.len(),
    {
        let after = self.settle();
        self.store.lemma_refresh_from_keeps(self.state.outdated_spans, 0);
        crate::store::lemma_same_links_wf(self.store, after.store);
        assert forall|thread: u64, k: int|
            after.state.thread_stacks.contains_key(thread) && 0 <= k
                < after.state.thread_stacks[thread].len() implies after.store.contains(
            #[trigger] after.state.thread_stacks[thread][k],
        ) by {
            assert(self.store.contains(self.state.thread_stacks[thread][k]));
        }
        assert forall|s: SpanId, t: u64| #[trigger]
            after.state.self_time_started.contains_key((s, t)) implies after.store.contains(s) by {
            assert(self.store.contains(s));
        }
        assert forall|id: u64| #[trigger]
            after.state.active_ids.contains_key(id) implies after.store.contains(
            after.state.active_ids[id],
        ) by {
            assert(self.store.contains(self.state.active_ids[id]));
        }
    }
}

} // verus!
